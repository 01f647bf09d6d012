//! Assignments of bits to variables, and what it means for one to solve a
//! system of linear equations over GF(2).

use crate::bit::Bit;
use crate::order::ascending;
use crate::reduction::{annihilates, has_shape, same_kernel};
use crate::rows::{dot, dot_upto};
use vstd::prelude::*;

verus! {

/// The sum of the values that `a` gives to the variables in `terms`.
pub open spec fn sum_of(terms: Seq<usize>, a: Map<usize, Bit>) -> Bit
    decreases terms.len(),
{
    if terms.len() == 0 {
        Bit::Off
    } else {
        sum_of(terms.drop_last(), a).xor(a[terms.last()])
    }
}

/// The `i`-th assignment of bits to the variables `vars`: the last variable
/// gets the lowest binary digit of `i`, the one before it the next digit,
/// and so on.
pub open spec fn nth_assignment(vars: Seq<usize>, i: nat) -> Map<usize, Bit>
    decreases vars.len(),
{
    if vars.len() == 0 {
        Map::empty()
    } else {
        nth_assignment(vars.drop_last(), i / 2).insert(
            vars.last(),
            if i % 2 == 1 {
                Bit::On
            } else {
                Bit::Off
            },
        )
    }
}

/// The sum over the variables `j < k` of `row[j] * a[j]`: the left-hand side
/// of the equation that `row` stands for, as far as variable `k`.
pub open spec fn weighted_sum(row: Seq<Bit>, a: Map<usize, Bit>, k: nat) -> Bit
    decreases k,
{
    if k == 0 {
        Bit::Off
    } else {
        weighted_sum(row, a, (k - 1) as nat).xor(row[k - 1].and(a[(k - 1) as usize]))
    }
}

/// The assignment `a` satisfies every equation of the augmented matrix `m`
/// in `n` variables: in each row the weighted sum of the variables equals the
/// entry of the constant column, which is column `n`.
pub open spec fn satisfies(m: Seq<Seq<Bit>>, a: Map<usize, Bit>, n: nat) -> bool {
    forall|r: int| 0 <= r < m.len() ==> weighted_sum(#[trigger] m[r], a, n) == m[r][n as int]
}

/// The assignment `a` gives a value to each of the variables `0..n` and to
/// nothing else.
pub open spec fn is_full(a: Map<usize, Bit>, n: nat) -> bool {
    forall|x: usize| a.contains_key(x) <==> x < n
}

/// The values that `a` gives to the variables `0..n`, followed by `On`.
pub open spec fn as_vector(a: Map<usize, Bit>, n: nat) -> Seq<Bit> {
    Seq::new(
        n + 1,
        |j: int|
            if j < n {
                a[j as usize]
            } else {
                Bit::On
            },
    )
}

/// The sum over `j < k` of the values that `a` gives to the variables in
/// `terms`.
pub open spec fn masked_sum(terms: Seq<usize>, a: Map<usize, Bit>, k: nat) -> Bit
    decreases k,
{
    if k == 0 {
        Bit::Off
    } else {
        masked_sum(terms, a, (k - 1) as nat).xor(
            if terms.contains((k - 1) as usize) {
                a[(k - 1) as usize]
            } else {
                Bit::Off
            },
        )
    }
}

/// The weighted sum of a row is its inner product with the vector of the
/// assignment.
pub proof fn lemma_weighted_sum_is_dot(row: Seq<Bit>, a: Map<usize, Bit>, n: nat, k: nat)
    requires
        k <= n,
        n < usize::MAX,
    ensures
        weighted_sum(row, a, k) == dot_upto(row, as_vector(a, n), k),
    decreases k,
{
    if k > 0 {
        lemma_weighted_sum_is_dot(row, a, n, (k - 1) as nat);
    }
}

/// An assignment satisfies a system exactly if its vector is orthogonal to
/// every row of the augmented matrix.
pub proof fn lemma_satisfies_is_annihilates(m: Seq<Seq<Bit>>, a: Map<usize, Bit>, n: nat)
    requires
        has_shape(m, m.len() as int, n as int + 1),
        n < usize::MAX,
    ensures
        satisfies(m, a, n) <==> annihilates(m, as_vector(a, n)),
{
    let v = as_vector(a, n);
    assert forall|r: int| 0 <= r < m.len() implies (weighted_sum(#[trigger] m[r], a, n)
        == m[r][n as int] <==> dot(m[r], v) == Bit::Off) by {
        lemma_weighted_sum_is_dot(m[r], a, n, n);
        assert(m[r].len() == n + 1);
        assert(dot(m[r], v) == dot_upto(m[r], v, n).xor(m[r][n as int].and(v[n as int])));
    }
}

/// Matrices with the same null space have the same solutions.
pub proof fn lemma_same_solutions(
    m1: Seq<Seq<Bit>>,
    m2: Seq<Seq<Bit>>,
    a: Map<usize, Bit>,
    n: nat,
)
    requires
        has_shape(m1, m1.len() as int, n as int + 1),
        has_shape(m2, m2.len() as int, n as int + 1),
        same_kernel(m1, m2, n as int + 1),
        n < usize::MAX,
    ensures
        satisfies(m1, a, n) <==> satisfies(m2, a, n),
{
    lemma_satisfies_is_annihilates(m1, a, n);
    lemma_satisfies_is_annihilates(m2, a, n);
    let v = as_vector(a, n);
    assert(v.len() == n + 1);
    assert(annihilates(m1, v) <==> annihilates(m2, v));
}

/// The masked sum depends only on which variables below `k` are terms.
pub proof fn lemma_masked_sum_agrees(t1: Seq<usize>, t2: Seq<usize>, a: Map<usize, Bit>, k: nat)
    requires
        forall|x: usize| x < k ==> (t1.contains(x) <==> t2.contains(x)),
    ensures
        masked_sum(t1, a, k) == masked_sum(t2, a, k),
    decreases k,
{
    if k > 0 {
        lemma_masked_sum_agrees(t1, t2, a, (k - 1) as nat);
    }
}

/// One more term adds its value to the masked sum.
pub proof fn lemma_masked_sum_adds(
    fewer: Seq<usize>,
    more: Seq<usize>,
    a: Map<usize, Bit>,
    v: usize,
    k: nat,
)
    requires
        k <= usize::MAX + 1,
        !fewer.contains(v),
        forall|x: usize| x < k ==> (more.contains(x) <==> fewer.contains(x) || x == v),
    ensures
        masked_sum(more, a, k) == masked_sum(fewer, a, k).xor(
            if v < k {
                a[v]
            } else {
                Bit::Off
            },
        ),
    decreases k,
{
    if k > 0 {
        lemma_masked_sum_adds(fewer, more, a, v, (k - 1) as nat);
        let x = (k - 1) as usize;
        assert(more.contains(x) <==> fewer.contains(x) || x == v);
    }
}

/// Of terms that are all different and all below `n`, the sum is the masked
/// sum over the variables below `n`.
pub proof fn lemma_sum_of_is_masked(terms: Seq<usize>, a: Map<usize, Bit>, n: nat)
    requires
        n <= usize::MAX + 1,
        terms.no_duplicates(),
        forall|i: int| 0 <= i < terms.len() ==> terms[i] < n,
    ensures
        sum_of(terms, a) == masked_sum(terms, a, n),
    decreases terms.len(),
{
    if terms.len() == 0 {
        lemma_masked_sum_agrees(terms, Seq::<usize>::empty(), a, n);
        lemma_masked_sum_empty(a, n);
        assert(terms =~= Seq::<usize>::empty());
    } else {
        let front = terms.drop_last();
        let last = terms.last();
        lemma_sum_of_is_masked(front, a, n);
        assert(!front.contains(last)) by {
            if front.contains(last) {
                let i = choose|i: int| 0 <= i < front.len() && front[i] == last;
                assert(terms[i] == terms[terms.len() - 1]);
            }
        }
        assert forall|x: usize| x < n implies (terms.contains(x) <==> front.contains(x) || x
            == last) by {
            if terms.contains(x) {
                let i = choose|i: int| 0 <= i < terms.len() && terms[i] == x;
                if i < front.len() {
                    assert(front[i] == x);
                }
            }
            if front.contains(x) {
                let i = choose|i: int| 0 <= i < front.len() && front[i] == x;
                assert(terms[i] == x);
            }
            if x == last {
                assert(terms[terms.len() - 1] == x);
            }
        }
        lemma_masked_sum_adds(front, terms, a, last, n);
        assert(terms[terms.len() - 1] < n);
    }
}

/// The masked sum of no terms is `Off`.
pub proof fn lemma_masked_sum_empty(a: Map<usize, Bit>, k: nat)
    ensures
        masked_sum(Seq::<usize>::empty(), a, k) == Bit::Off,
    decreases k,
{
    if k > 0 {
        lemma_masked_sum_empty(a, (k - 1) as nat);
    }
}

/// The sum of terms that are all different does not depend on their order.
pub proof fn lemma_sum_of_any_order(
    one: Seq<usize>,
    other: Seq<usize>,
    a: Map<usize, Bit>,
    n: nat,
)
    requires
        n <= usize::MAX + 1,
        one.no_duplicates(),
        other.no_duplicates(),
        forall|x: usize| one.contains(x) <==> other.contains(x),
        forall|i: int| 0 <= i < one.len() ==> one[i] < n,
    ensures
        sum_of(one, a) == sum_of(other, a),
{
    assert forall|i: int| 0 <= i < other.len() implies other[i] < n by {
        assert(other.contains(other[i]));
        let k = choose|k: int| 0 <= k < one.len() && one[k] == other[i];
    }
    lemma_sum_of_is_masked(one, a, n);
    lemma_sum_of_is_masked(other, a, n);
    lemma_masked_sum_agrees(one, other, a, n);
}

/// Each of the enumerated assignments gives a value to exactly the
/// variables in `vars`.
pub proof fn lemma_nth_assignment_domain(vars: Seq<usize>, i: nat)
    ensures
        forall|x: usize| nth_assignment(vars, i).contains_key(x) <==> vars.contains(x),
    decreases vars.len(),
{
    if vars.len() > 0 {
        let front = vars.drop_last();
        lemma_nth_assignment_domain(front, i / 2);
        assert forall|x: usize| nth_assignment(vars, i).contains_key(x) <==> vars.contains(x) by {
            if vars.contains(x) {
                let k = choose|k: int| 0 <= k < vars.len() && vars[k] == x;
                if k < vars.len() - 1 {
                    assert(front[k] == x);
                }
            }
            if front.contains(x) {
                let k = choose|k: int| 0 <= k < front.len() && front[k] == x;
                assert(vars[k] == x);
            }
            if x == vars.last() {
                assert(vars[vars.len() - 1] == x);
            }
        }
    }
}

} // verus!
