//! Laws that hold of elimination and of the solutions read off its result.

use crate::bit::Bit;
use crate::equations::Equations;
use crate::reduction::{
    has_shape, is_leading_column, is_reduced, leading_rows, lemma_lead_at_least_row,
    lemma_zero_row_from, reduces_to, same_kernel,
};
use crate::rows::{is_zero, lead, lemma_lead};
use crate::order::{ascending, lemma_ascending_is_distinct};
use crate::solution::{
    is_full, lemma_nth_assignment_domain, lemma_same_solutions,
    lemma_sum_of_is_masked, masked_sum, nth_assignment, satisfies, sum_of, weighted_sum,
};
use vstd::arithmetic::power2::{lemma2_to64, lemma_pow2_unfold, pow2};
use vstd::prelude::*;

verus! {

/// Elimination is idempotent: applied to its own result, it returns that
/// result.
pub proof fn law_elimination_idempotent(
    m: Seq<Seq<Bit>>,
    once: Seq<Seq<Bit>>,
    twice: Seq<Seq<Bit>>,
    cols: int,
)
    requires
        reduces_to(m, once, cols),
        reduces_to(once, twice, cols),
    ensures
        twice == once,
{
}

/// The rank of a reduced matrix, counted as its rows before the first zero
/// row, exceeds neither the number of rows nor the number of columns.
pub proof fn law_rank_bound(m: Seq<Seq<Bit>>, cols: int)
    requires
        has_shape(m, m.len() as int, cols),
        is_reduced(m, cols),
        cols >= 1,
    ensures
        0 <= leading_rows(m) <= m.len(),
        leading_rows(m) <= cols,
{
    lemma_zero_row_from(m, 0);
    let rank = leading_rows(m);
    if rank > 0 {
        let last = rank - 1;
        lemma_lead(m[last]);
        lemma_lead_at_least_row(m, cols, last);
        assert(!is_zero(m[last]));
    }
}

/// In a reduced matrix no two non-zero rows lead in the same column, and the
/// leading columns never decrease from one row to the next, a zero row
/// counting as leading past the last column.
pub proof fn law_leading_columns(m: Seq<Seq<Bit>>, cols: int)
    requires
        has_shape(m, m.len() as int, cols),
        is_reduced(m, cols),
    ensures
        forall|i: int, j: int|
            #![trigger lead(m[i]), lead(m[j])]
            0 <= i < m.len() && 0 <= j < m.len() && i != j && !is_zero(m[i]) && !is_zero(m[j])
                ==> lead(m[i]) != lead(m[j]),
        forall|i: int, j: int|
            #![trigger lead(m[i]), lead(m[j])]
            0 <= i < j < m.len() ==> lead(m[i]) <= lead(m[j]),
{
    assert forall|i: int, j: int|
        #![trigger lead(m[i]), lead(m[j])]
        0 <= i < m.len() && 0 <= j < m.len() && i != j && !is_zero(m[i]) && !is_zero(
            m[j],
        ) implies lead(m[i]) != lead(m[j]) by {
        lemma_lead(m[i]);
        lemma_lead(m[j]);
        if i < j {
            assert(lead(m[i]) < lead(m[j]) || lead(m[j]) == cols);
        } else {
            assert(lead(m[j]) < lead(m[i]) || lead(m[i]) == cols);
        }
    }
    assert forall|i: int, j: int|
        #![trigger lead(m[i]), lead(m[j])]
        0 <= i < j < m.len() implies lead(m[i]) <= lead(m[j]) by {
        lemma_lead(m[i]);
        assert(lead(m[i]) < lead(m[j]) || lead(m[j]) == cols);
    }
}

/// Every variable of a system is either free or dependent, and never
/// both.
pub proof fn law_free_dependent_partition(eqs: Equations, m: Seq<Seq<Bit>>, cols: int)
    requires
        eqs.describes(m, cols),
    ensures
        forall|x: usize|
            x < cols - 1 ==> (eqs.free().contains(x) <==> !#[trigger] eqs.formulas().contains_key(
                x,
            )),
{
    assert forall|x: usize| x < cols - 1 implies (eqs.free().contains(x)
        <==> !#[trigger] eqs.formulas().contains_key(x)) by {
        assert(eqs.free().contains(x) <==> !is_leading_column(m, x as int));
        assert(eqs.formulas().contains_key(x) <==> is_leading_column(m, x as int));
    }
}

/// A row of `Off` entries has weighted sum `Off`.
proof fn lemma_weighted_sum_zero(row: Seq<Bit>, a: Map<usize, Bit>, k: nat)
    requires
        forall|j: int| 0 <= j < k ==> row[j] == Bit::Off,
    ensures
        weighted_sum(row, a, k) == Bit::Off,
    decreases k,
{
    if k > 0 {
        lemma_weighted_sum_zero(row, a, (k - 1) as nat);
    }
}

/// The weighted sum of a pivot row splits into the value of its leading
/// variable and the sum of its terms.
proof fn lemma_weighted_sum_split(
    row: Seq<Bit>,
    full: Map<usize, Bit>,
    partial: Map<usize, Bit>,
    terms: Seq<usize>,
    l: int,
    k: nat,
    n: nat,
)
    requires
        k <= n <= usize::MAX,
        0 <= l < n,
        row[l] == Bit::On,
        !terms.contains(l as usize),
        forall|x: usize|
            x < n && x != l ==> (#[trigger] terms.contains(x) <==> row[x as int] == Bit::On),
        forall|x: usize| x < n && #[trigger] terms.contains(x) ==> full[x] == partial[x],
    ensures
        weighted_sum(row, full, k) == (if l < k {
            full[l as usize]
        } else {
            Bit::Off
        }).xor(masked_sum(terms, partial, k)),
    decreases k,
{
    if k > 0 {
        lemma_weighted_sum_split(row, full, partial, terms, l, (k - 1) as nat, n);
        let x = (k - 1) as usize;
        if x != l {
            assert(terms.contains(x) <==> row[x as int] == Bit::On);
        }
    }
}

/// In a pivot row of a reduced matrix, the weighted sum of the variables is
/// the value of the leading variable plus the value of its formula's terms,
/// for any assignment `full` that agrees with `partial` on the free
/// variables.
proof fn lemma_pivot_row(
    eqs: Equations,
    m: Seq<Seq<Bit>>,
    cols: int,
    r: int,
    full: Map<usize, Bit>,
    partial: Map<usize, Bit>,
)
    requires
        m.len() >= 1,
        1 <= cols <= usize::MAX,
        has_shape(m, m.len() as int, cols),
        is_reduced(m, cols),
        eqs.wf(),
        eqs.describes(m, cols),
        0 <= r < m.len(),
        lead(m[r]) < cols - 1,
        forall|x: usize| eqs.free().contains(x) ==> full[x] == partial[x],
    ensures
        eqs.formulas().contains_key(lead(m[r]) as usize),
        eqs.formulas()[lead(m[r]) as usize].1 == m[r][cols - 1],
        weighted_sum(m[r], full, (cols - 1) as nat) == full[lead(m[r]) as usize].xor(
            sum_of(eqs.formulas()[lead(m[r]) as usize].0, partial),
        ),
{
    let n = (cols - 1) as nat;
    let row = m[r];
    let l = lead(row);
    lemma_lead(row);
    let v = l as usize;
    assert(is_leading_column(m, l));
    assert(eqs.formulas().contains_key(v));
    let terms = eqs.formulas()[v].0;
    assert(!eqs.free().contains(v));
    assert(!terms.contains(v)) by {
        if terms.contains(v) {
            let t = choose|t: int| 0 <= t < terms.len() && terms[t] == v;
            assert(eqs.free().contains(eqs.formulas()[v].0[t]));
        }
    }
    assert forall|x: usize| x < n && x != l implies (#[trigger] terms.contains(x) <==> row[x as int]
        == Bit::On) by {
        let j = x as int;
        assert(terms.contains(x) <==> eqs.free().contains(x) && m[r][x as int] == Bit::On);
        if row[j] == Bit::On {
            assert(!is_leading_column(m, j)) by {
                if is_leading_column(m, j) {
                    let other = choose|other: int|
                        0 <= other < m.len() && #[trigger] lead(m[other]) == j;
                    assert(m[r][lead(m[other])] == Bit::Off);
                }
            }
            assert(eqs.free().contains(x) <==> !is_leading_column(m, x as int));
        }
    }
    assert forall|x: usize| x < n && #[trigger] terms.contains(x) implies full[x] == partial[x] by {
        assert(terms.contains(x) <==> eqs.free().contains(x) && m[r][x as int] == Bit::On);
    }
    lemma_weighted_sum_split(row, full, partial, terms, l, n, n);
    assert forall|t: int| 0 <= t < terms.len() implies terms[t] < n by {
        assert(eqs.free().contains(eqs.formulas()[v].0[t]));
        let f = choose|f: int| 0 <= f < eqs.free().len() && eqs.free()[f] == terms[t];
        assert(eqs.free()[f] < eqs.unknowns());
    }
    lemma_ascending_is_distinct(terms);
    lemma_sum_of_is_masked(terms, partial, n);
}

/// Every solution that the equations of a reduced matrix yield gives a value
/// to every variable and satisfies every equation of the system from which
/// the matrix was reduced.
pub proof fn law_solutions_solve(
    eqs: Equations,
    system: Seq<Seq<Bit>>,
    reduced: Seq<Seq<Bit>>,
    cols: int,
    i: nat,
)
    requires
        reduced.len() >= 1,
        1 <= cols <= usize::MAX,
        has_shape(system, system.len() as int, cols),
        has_shape(reduced, reduced.len() as int, cols),
        is_reduced(reduced, cols),
        same_kernel(system, reduced, cols),
        eqs.wf(),
        eqs.describes(reduced, cols),
        eqs.solvable(),
    ensures
        is_full(eqs.solution(i), (cols - 1) as nat),
        satisfies(system, eqs.solution(i), (cols - 1) as nat),
{
    let n = (cols - 1) as nat;
    let m = reduced;
    let partial = nth_assignment(eqs.free(), i);
    let full = eqs.solution(i);
    lemma_nth_assignment_domain(eqs.free(), i);
    assert forall|x: usize| full.contains_key(x) <==> x < n by {
        assert(eqs.free().contains(x) <==> x < n && !is_leading_column(m, x as int));
        assert(eqs.formulas().contains_key(x) <==> x < n && is_leading_column(m, x as int));
    }
    assert forall|r: int| 0 <= r < m.len() implies weighted_sum(#[trigger] m[r], full, n)
        == m[r][n as int] by {
        let l = lead(m[r]);
        lemma_lead(m[r]);
        if l == cols {
            lemma_weighted_sum_zero(m[r], full, n);
        } else if l == n {
            assert(is_leading_column(m, n as int));
        } else {
            lemma_pivot_row(eqs, m, cols, r, full, partial);
            let v = l as usize;
            assert(!eqs.free().contains(v));
            assert(full[v] == eqs.value_of(v, partial));
        }
    }
    lemma_same_solutions(system, reduced, full, n);
}

/// Every assignment of exactly the variables `vars` is one of the
/// enumerated assignments.
proof fn lemma_assignment_has_number(vars: Seq<usize>, p: Map<usize, Bit>)
    requires
        ascending(vars),
        forall|x: usize| p.contains_key(x) <==> vars.contains(x),
    ensures
        exists|i: nat| i < pow2(vars.len()) && #[trigger] nth_assignment(vars, i) == p,
    decreases vars.len(),
{
    lemma2_to64();
    if vars.len() == 0 {
        assert forall|x: usize| !p.contains_key(x) by {
            assert(!vars.contains(x));
        }
        assert(p.dom() =~= Set::<usize>::empty());
        assert(nth_assignment(vars, 0) =~= p);
    } else {
        let front = vars.drop_last();
        let last = vars.last();
        let rest = p.remove(last);
        assert forall|x: usize| rest.contains_key(x) <==> front.contains(x) by {
            if front.contains(x) {
                let k = choose|k: int| 0 <= k < front.len() && front[k] == x;
                assert(vars[k] == x);
                assert(vars[k] < vars[vars.len() - 1]);
                assert(vars.contains(x));
            }
            if rest.contains_key(x) {
                assert(vars.contains(x));
                let k = choose|k: int| 0 <= k < vars.len() && vars[k] == x;
                assert(front[k] == x);
            }
        }
        lemma_assignment_has_number(front, rest);
        let half = choose|i: nat| i < pow2(front.len()) && #[trigger] nth_assignment(front, i) == rest;
        assert(vars.contains(last)) by {
            assert(vars[vars.len() - 1] == last);
        }
        let i: nat = 2 * half + if p[last] == Bit::On {
            1nat
        } else {
            0nat
        };
        lemma_pow2_unfold(vars.len());
        assert(i / 2 == half);
        assert(nth_assignment(vars, i) =~= p);
    }
}

/// A system that some assignment of all its variables satisfies is
/// solvable: its reduced matrix has no row that reads `0 = 1`.
pub proof fn law_satisfiable_is_solvable(
    eqs: Equations,
    system: Seq<Seq<Bit>>,
    reduced: Seq<Seq<Bit>>,
    cols: int,
    a: Map<usize, Bit>,
)
    requires
        1 <= cols <= usize::MAX,
        has_shape(system, system.len() as int, cols),
        has_shape(reduced, reduced.len() as int, cols),
        same_kernel(system, reduced, cols),
        eqs.describes(reduced, cols),
        satisfies(system, a, (cols - 1) as nat),
    ensures
        eqs.solvable(),
{
    let n = (cols - 1) as nat;
    let m = reduced;
    lemma_same_solutions(system, reduced, a, n);
    if is_leading_column(m, n as int) {
        let r = choose|r: int| 0 <= r < m.len() && #[trigger] lead(m[r]) == n as int;
        lemma_lead(m[r]);
        lemma_weighted_sum_zero(m[r], a, n);
        assert(weighted_sum(m[r], a, n) == m[r][n as int]);
    }
}

/// Every assignment of all the variables that satisfies a system is among
/// the solutions that the equations of its reduced matrix yield.
pub proof fn law_every_solution_is_enumerated(
    eqs: Equations,
    system: Seq<Seq<Bit>>,
    reduced: Seq<Seq<Bit>>,
    cols: int,
    a: Map<usize, Bit>,
)
    requires
        reduced.len() >= 1,
        1 <= cols <= usize::MAX,
        has_shape(system, system.len() as int, cols),
        has_shape(reduced, reduced.len() as int, cols),
        is_reduced(reduced, cols),
        same_kernel(system, reduced, cols),
        eqs.wf(),
        eqs.describes(reduced, cols),
        is_full(a, (cols - 1) as nat),
        satisfies(system, a, (cols - 1) as nat),
    ensures
        eqs.solvable(),
        exists|i: nat| i < pow2(eqs.free().len()) && #[trigger] eqs.solution(i) == a,
{
    let n = (cols - 1) as nat;
    let m = reduced;
    lemma_same_solutions(system, reduced, a, n);
    law_satisfiable_is_solvable(eqs, system, reduced, cols, a);
    let partial = Map::new(|x: usize| eqs.free().contains(x), |x: usize| a[x]);
    lemma_assignment_has_number(eqs.free(), partial);
    let i = choose|i: nat| i < pow2(eqs.free().len()) && #[trigger] nth_assignment(eqs.free(), i)
        == partial;
    let full = eqs.solution(i);
    assert forall|x: usize| full.contains_key(x) <==> a.contains_key(x) by {
        assert(eqs.free().contains(x) <==> x < n && !is_leading_column(m, x as int));
        assert(eqs.formulas().contains_key(x) <==> x < n && is_leading_column(m, x as int));
    }
    assert forall|x: usize| full.contains_key(x) implies full[x] == a[x] by {
        if !eqs.free().contains(x) {
            assert(eqs.formulas().contains_key(x));
            assert(is_leading_column(m, x as int));
            let r = choose|r: int| 0 <= r < m.len() && #[trigger] lead(m[r]) == x as int;
            lemma_pivot_row(eqs, m, cols, r, a, partial);
            assert(weighted_sum(m[r], a, n) == m[r][n as int]);
            assert(full[x] == eqs.value_of(x, partial));
        }
    }
    assert(full =~= a);
}

/// Two assignments of the same variables with different numbers differ in
/// the value of some variable.
proof fn lemma_nth_assignment_differs(vars: Seq<usize>, i: nat, j: nat)
    requires
        ascending(vars),
        i < pow2(vars.len()),
        j < pow2(vars.len()),
        i != j,
    ensures
        exists|k: int|
            0 <= k < vars.len() && nth_assignment(vars, i)[#[trigger] vars[k]] != nth_assignment(
                vars,
                j,
            )[vars[k]],
    decreases vars.len(),
{
    lemma2_to64();
    if vars.len() > 0 {
        let front = vars.drop_last();
        let last = vars.len() - 1;
        lemma_pow2_unfold(vars.len());
        if i % 2 != j % 2 {
            assert(nth_assignment(vars, i)[vars[last]] != nth_assignment(vars, j)[vars[last]]);
        } else {
            lemma_nth_assignment_differs(front, i / 2, j / 2);
            let k = choose|k: int|
                0 <= k < front.len() && nth_assignment(front, i / 2)[#[trigger] front[k]]
                    != nth_assignment(front, j / 2)[front[k]];
            assert(vars[k] == front[k]);
            assert(vars[k] < vars[last]);
            assert(nth_assignment(vars, i)[vars[k]] != nth_assignment(vars, j)[vars[k]]);
        }
    }
}

/// The solutions of a system are pairwise different: solutions with
/// different numbers differ in the value of some free variable.
pub proof fn law_solutions_distinct(eqs: Equations, i: nat, j: nat)
    requires
        eqs.wf(),
        i < pow2(eqs.free().len()),
        j < pow2(eqs.free().len()),
        i != j,
    ensures
        eqs.solution(i) != eqs.solution(j),
{
    lemma_nth_assignment_differs(eqs.free(), i, j);
    let k = choose|k: int|
        0 <= k < eqs.free().len() && nth_assignment(eqs.free(), i)[#[trigger] eqs.free()[k]]
            != nth_assignment(eqs.free(), j)[eqs.free()[k]];
    let x = eqs.free()[k];
    lemma_nth_assignment_domain(eqs.free(), i);
    lemma_nth_assignment_domain(eqs.free(), j);
    assert(eqs.free().contains(x));
    assert(eqs.solution(i)[x] != eqs.solution(j)[x]);
}

} // verus!
