//! The solution space of a reduced system: free variables, a formula for
//! each dependent variable, and the enumeration of every solution.

use crate::bit::Bit;
use crate::error::ResourceLimitError;
use crate::matrix::{get_leading_column, Matrix};
use crate::reduction::{
    is_leading_column, is_reduced, without_lead,
};
use crate::rows::{is_zero, lead, lemma_lead};
use crate::laws::law_solutions_distinct;
use crate::order::{
    ascending, ascending_keys, ascending_members, in_order, lemma_ascending_is_distinct,
    lemma_in_order, lemma_listed, lists_in_order,
};
use crate::solution::{
    lemma_nth_assignment_domain, lemma_sum_of_any_order, nth_assignment, sum_of,
};
use crate::text::{decimal_digits, push_decimal};
use std::collections::{HashMap, HashSet};
use vstd::arithmetic::power2::{lemma2_to64, lemma_pow2_pos, lemma_pow2_unfold, pow2};
use vstd::prelude::*;
use vstd::std_specs::iter::IteratorSpec;
use vstd::string::StringExecFns;

verus! {

broadcast use vstd::std_specs::hash::group_hash_axioms;

/// An assignment of bits to variables, each variable known by its index.
#[derive(Clone, Debug)]
pub struct Assignment(pub HashMap<usize, Bit>);

impl View for Assignment {
    type V = Map<usize, Bit>;

    open spec fn view(&self) -> Map<usize, Bit> {
        self.0@
    }
}

/// A system of linear equations in solved form: the free variables, and for
/// every other variable that the system determines its formula in the free
/// ones, which is the set of the free variables that it sums and a
/// constant.
#[derive(Debug)]
pub struct Equations {
    unknowns: usize,
    solvable: bool,
    free_vars: HashSet<usize>,
    eqns: HashMap<usize, (HashSet<usize>, Bit)>,
}

impl Equations {
    /// The number of variables of the system.
    pub closed spec fn unknowns(&self) -> nat {
        self.unknowns as nat
    }

    /// The system has a solution: no equation reads `0 = 1`.
    pub closed spec fn solvable(&self) -> bool {
        self.solvable
    }

    /// The free variables, in ascending order.
    pub closed spec fn free(&self) -> Seq<usize> {
        in_order(self.free_vars@)
    }

    /// The formula of each dependent variable: the free variables that it
    /// sums, in ascending order, and its constant term.
    pub closed spec fn formulas(&self) -> Map<usize, (Seq<usize>, Bit)> {
        Map::new(
            |v: usize| self.eqns@.contains_key(v),
            |v: usize| (in_order(self.eqns@[v].0@), self.eqns@[v].1),
        )
    }

    /// The dependent variables, in ascending order.
    pub closed spec fn dependents(&self) -> Seq<usize> {
        in_order(self.eqns@.dom())
    }

    /// The free variables are variables of the system, in ascending order;
    /// the dependent variables are those that have a formula, in ascending
    /// order; no dependent variable is free; and every formula sums free
    /// variables, in ascending order.
    pub open spec fn wf(&self) -> bool {
        &&& ascending(self.dependents())
        &&& forall|v: usize| self.dependents().contains(v) <==> self.formulas().contains_key(v)
        &&& self.unknowns() < usize::MAX
        &&& ascending(self.free())
        &&& forall|i: int|
            0 <= i < self.free().len() ==> #[trigger] self.free()[i] < self.unknowns()
        &&& forall|v: usize| #[trigger]
            self.formulas().contains_key(v) ==> v < self.unknowns() && !self.free().contains(v)
                && ascending(self.formulas()[v].0)
        &&& forall|v: usize, i: int|
            self.formulas().contains_key(v) && 0 <= i < self.formulas()[v].0.len()
                ==> self.free().contains(#[trigger] self.formulas()[v].0[i])
    }

    /// The equations are those of the reduced augmented matrix `m` of `cols`
    /// columns, whose last column holds the constants: the free variables are
    /// the columns but the last at which no row leads, the dependent
    /// variables are the leading columns but for the last, the formula of
    /// each sums the free variables that its row holds and the row's
    /// constant, and the system is solvable unless a row leads in the last
    /// column.
    pub open spec fn describes(&self, m: Seq<Seq<Bit>>, cols: int) -> bool {
        &&& self.unknowns() == cols - 1
        &&& self.solvable() <==> !is_leading_column(m, cols - 1)
        &&& forall|x: usize|
            self.free().contains(x) <==> x < cols - 1 && !#[trigger] is_leading_column(
                m,
                x as int,
            )
        &&& forall|x: usize|
            self.formulas().contains_key(x) <==> x < cols - 1 && #[trigger] is_leading_column(
                m,
                x as int,
            )
        &&& forall|i: int|
            0 <= i < m.len() && lead(#[trigger] m[i]) < cols - 1 ==> self.formulas()[lead(
                m[i],
            ) as usize].1 == m[i][cols - 1]
        &&& forall|i: int, x: usize|
            0 <= i < m.len() && lead(m[i]) < cols - 1 ==> (#[trigger] self.formulas()[lead(
                m[i],
            ) as usize].0.contains(x) <==> self.free().contains(x) && m[i][x as int] == Bit::On)
    }

    /// The value that the formula of the dependent variable `v` takes under
    /// the assignment `a` of the free variables: the sum of its terms and of
    /// its constant.
    pub open spec fn value_of(&self, v: usize, a: Map<usize, Bit>) -> Bit {
        sum_of(self.formulas()[v].0, a).xor(self.formulas()[v].1)
    }

    /// The assignment `a` together with the value of each dependent variable
    /// to which `a` itself gives none.
    pub open spec fn completed(&self, a: Map<usize, Bit>) -> Map<usize, Bit> {
        Map::new(
            |x: usize| a.contains_key(x) || self.formulas().contains_key(x),
            |x: usize|
                if a.contains_key(x) {
                    a[x]
                } else {
                    self.value_of(x, a)
                },
        )
    }

    /// The `i`-th solution: the `i`-th assignment of the free variables,
    /// completed.
    pub open spec fn solution(&self, i: nat) -> Map<usize, Bit> {
        self.completed(nth_assignment(self.free(), i))
    }

    /// The lists of free variables, of dependent variables and of the terms
    /// of each formula hold what the sets hold that they are made from.
    proof fn lemma_lists(&self)
        ensures
            lists_in_order(self.free(), self.free_vars@),
            lists_in_order(self.dependents(), self.eqns@.dom()),
            forall|v: usize| #[trigger]
                self.eqns@.contains_key(v) ==> lists_in_order(
                    self.formulas()[v].0,
                    self.eqns@[v].0@,
                ),
    {
        lemma_listed(self.free_vars@, (usize::MAX + 1) as nat);
        lemma_listed(self.eqns@.dom(), (usize::MAX + 1) as nat);
        assert forall|v: usize| #[trigger] self.eqns@.contains_key(v) implies lists_in_order(
            self.formulas()[v].0,
            self.eqns@[v].0@,
        ) by {
            lemma_listed(self.eqns@[v].0@, (usize::MAX + 1) as nat);
        }
    }
}

/// Makes a set of the entries of `list`.
fn set_of(list: &Vec<usize>) -> (set: HashSet<usize>)
    ensures
        forall|x: usize| set@.contains(x) <==> list@.contains(x),
{
    let mut set: HashSet<usize> = HashSet::new();
    let mut k: usize = 0;
    while k < list.len()
        invariant
            k <= list@.len(),
            forall|x: usize|
                set@.contains(x) <==> exists|j: int| 0 <= j < k && #[trigger] list@[j] == x,
        decreases list@.len() - k,
    {
        set.insert(list[k]);
        proof {
            assert forall|x: usize|
                set@.contains(x) <==> exists|j: int| 0 <= j < k + 1 && #[trigger] list@[j] == x by {
                if x == list@[k as int] {
                    assert(list@[k as int] == x);
                }
            }
        }
        k += 1;
    }
    set
}

impl Clone for Equations {
    fn clone(&self) -> (copy: Equations)
        ensures
            copy.unknowns() == self.unknowns(),
            copy.solvable() == self.solvable(),
            copy.free() == self.free(),
            copy.dependents() == self.dependents(),
            copy.formulas() == self.formulas(),
    {
        let free_vars = set_of(&ascending_members(&self.free_vars));
        assert(free_vars@ =~= self.free_vars@);
        Equations {
            unknowns: self.unknowns,
            solvable: self.solvable,
            free_vars,
            eqns: self.eqns.clone(),
        }
    }
}

/// The formula `f` is the one that `row` gives to its leading variable: it
/// sums the free variables at which `row` holds `On`, and the constant in
/// column `n`.
spec fn reads_row(f: (HashSet<usize>, Bit), free: Set<usize>, row: Seq<Bit>, n: int) -> bool {
    &&& f.1 == row[n]
    &&& forall|x: usize| #[trigger] f.0@.contains(x) <==> free.contains(x) && row[x as int] == Bit::On
}

/// Picks from the free variables those at which `row` holds `On`.
fn select_terms(free_vars: &Vec<usize>, row: &Vec<Bit>) -> (terms: HashSet<usize>)
    requires
        forall|j: int| 0 <= j < free_vars@.len() ==> free_vars@[j] < row@.len(),
    ensures
        forall|x: usize| #[trigger]
            terms@.contains(x) <==> free_vars@.contains(x) && row@[x as int] == Bit::On,
{
    let mut terms: HashSet<usize> = HashSet::new();
    let mut k: usize = 0;
    while k < free_vars.len()
        invariant
            k <= free_vars@.len(),
            forall|j: int| 0 <= j < free_vars@.len() ==> free_vars@[j] < row@.len(),
            forall|x: usize| #[trigger]
                terms@.contains(x) <==> row@[x as int] == Bit::On && exists|j: int|
                    0 <= j < k && #[trigger] free_vars@[j] == x,
        decreases free_vars@.len() - k,
    {
        let col = free_vars[k];
        if row[col] == Bit::On {
            terms.insert(col);
        }
        proof {
            assert forall|x: usize| #[trigger]
                terms@.contains(x) <==> row@[x as int] == Bit::On && exists|j: int|
                    0 <= j < k + 1 && #[trigger] free_vars@[j] == x by {
                if x == col {
                    assert(free_vars@[k as int] == x);
                }
            }
        }
        k += 1;
    }
    terms
}

impl Equations {
    /// Reads the solved form off a matrix in reduced row-echelon form whose
    /// last column holds the constants of the equations.
    pub fn new(matrix: Matrix) -> (eqs: Equations)
        requires
            matrix.wf(),
            is_reduced(matrix@, matrix.cols as int),
        ensures
            eqs.wf(),
            eqs.describes(matrix@, matrix.cols as int),
    {
        let ghost m = matrix@;
        let ghost cols = matrix.cols as int;
        let n = matrix.cols - 1;
        let mut free_list = matrix.non_leading_columns();
        proof {
            lemma_listed(without_lead(m), cols as nat);
        }
        let ghost walk = free_list@;
        let count = free_list.len();
        if count > 0 && free_list[count - 1] == n {
            free_list.pop();
        }
        assert forall|x: usize| free_list@.contains(x) <==> x < n && !#[trigger] is_leading_column(
            m,
            x as int,
        ) by {
            assert(without_lead(m).contains(x) <==> !is_leading_column(m, x as int));
            if free_list@.contains(x) {
                let j = choose|j: int| 0 <= j < free_list@.len() && free_list@[j] == x;
                assert(walk[j] == x);
                assert(walk.contains(x));
                assert(walk[count - 1] < cols);
                if j < count - 1 {
                    assert(walk[j] < walk[count - 1]);
                }
            }
            if x < n && !is_leading_column(m, x as int) {
                assert(walk.contains(x));
                let j = choose|j: int| 0 <= j < walk.len() && walk[j] == x;
                assert(free_list@[j] == x);
            }
        }
        assert forall|j: int| 0 <= j < free_list@.len() implies free_list@[j] < n by {
            assert(free_list@.contains(free_list@[j]));
        }
        let free_vars = set_of(&free_list);
        let mut eqns: HashMap<usize, (HashSet<usize>, Bit)> = HashMap::new();
        let mut solvable = true;
        let mut row: usize = 0;
        while row < matrix.rows
            invariant
                matrix.wf(),
                m == matrix@,
                cols == matrix.cols,
                n == cols - 1,
                is_reduced(m, cols),
                row <= matrix.rows,
                forall|x: usize| free_vars@.contains(x) <==> free_list@.contains(x),
                forall|j: int| 0 <= j < free_list@.len() ==> free_list@[j] < n,
                forall|i: int| 0 <= i < row ==> lead(#[trigger] m[i]) < cols,
                solvable <==> forall|i: int| 0 <= i < row ==> lead(#[trigger] m[i]) != n,
                forall|x: usize|
                    eqns@.contains_key(x) <==> x != n && exists|i: int|
                        0 <= i < row && #[trigger] lead(m[i]) == x,
                forall|i: int|
                    0 <= i < row && lead(#[trigger] m[i]) != n ==> reads_row(
                        eqns@[lead(m[i]) as usize],
                        free_vars@,
                        m[i],
                        n as int,
                    ),
            ensures
                row == matrix.rows || is_zero(m[row as int]),
            decreases matrix.rows - row,
        {
            if matrix.is_row_zero(row) {
                break ;
            }
            proof {
                lemma_lead(m[row as int]);
            }
            assert(m[row as int].len() == cols);
            assert(m[row as int] == matrix.data@[row as int]@);
            let params = select_terms(&free_list, &matrix.data[row]);
            let constant_term = matrix.data[row][n];
            let ghost earlier = eqns@;
            match get_leading_column(matrix.data[row].as_slice()) {
                Some(leading_col) => {
                    if leading_col != n {
                        eqns.insert(leading_col, (params, constant_term));
                    } else {
                        solvable = false;
                    }
                },
                None => {},
            }
            proof {
                let here = lead(m[row as int]);
                assert forall|i: int| 0 <= i < row implies lead(#[trigger] m[i]) < here by {
                    assert(lead(m[i]) < lead(m[row as int]) || lead(m[row as int]) == cols);
                }
                assert forall|x: usize|
                    eqns@.contains_key(x) <==> x != n && exists|i: int|
                        0 <= i < row + 1 && #[trigger] lead(m[i]) == x by {
                    if x == here && x != n {
                        assert(lead(m[row as int]) == x);
                    }
                    if earlier.contains_key(x) {
                        let i = choose|i: int| 0 <= i < row && #[trigger] lead(m[i]) == x;
                        assert(lead(m[i]) == x);
                    }
                }
                assert forall|i: int| 0 <= i < row + 1 && lead(#[trigger] m[i]) != n implies reads_row(
                    eqns@[lead(m[i]) as usize],
                    free_vars@,
                    m[i],
                    n as int,
                ) by {
                    lemma_lead(m[i]);
                    if i < row {
                        assert(lead(m[i]) < here);
                        assert(reads_row(earlier[lead(m[i]) as usize], free_vars@, m[i], n as int));
                    } else {
                        assert(eqns@[here as usize] == (params, constant_term));
                    }
                }
            }
            row += 1;
        }
        let eqs = Equations { unknowns: n, solvable, free_vars, eqns };
        proof {
            eqs.lemma_lists();
            assert forall|i: int| row <= i < m.len() implies lead(#[trigger] m[i]) == cols by {
                lemma_lead(m[i]);
                lemma_lead(m[row as int]);
                if i > row {
                    assert(lead(m[row as int]) < lead(m[i]) || lead(m[i]) == cols);
                }
            }
            assert forall|x: usize| eqs.formulas().contains_key(x) <==> x < n
                && #[trigger] is_leading_column(m, x as int) by {
                if eqs.eqns@.contains_key(x) {
                    let i = choose|i: int| 0 <= i < row && #[trigger] lead(m[i]) == x;
                    assert(lead(m[i]) == x);
                }
                if x < n && is_leading_column(m, x as int) {
                    let i = choose|i: int| 0 <= i < m.len() && #[trigger] lead(m[i]) == x as int;
                    assert(i < row);
                }
            }
            assert(eqs.solvable() <==> !is_leading_column(m, cols - 1)) by {
                if is_leading_column(m, cols - 1) {
                    let i = choose|i: int| 0 <= i < m.len() && #[trigger] lead(m[i]) == cols - 1;
                    assert(i < row);
                }
                if !solvable {
                    let i = choose|i: int| 0 <= i < row && lead(#[trigger] m[i]) == n;
                    assert(lead(m[i]) == cols - 1);
                }
            }
            assert forall|i: int|
                0 <= i < m.len() && lead(#[trigger] m[i]) < cols - 1 implies eqs.formulas()[lead(
                m[i],
            ) as usize].1 == m[i][cols - 1] by {
                lemma_lead(m[i]);
                assert(i < row);
                let v = lead(m[i]) as usize;
                assert(lead(m[i]) == v);
                assert(eqs.eqns@.contains_key(v));
                assert(reads_row(eqs.eqns@[v], eqs.free_vars@, m[i], n as int));
            }
            assert forall|i: int, x: usize| 0 <= i < m.len() && lead(m[i]) < cols - 1 implies (
            #[trigger] eqs.formulas()[lead(m[i]) as usize].0.contains(x) <==> eqs.free().contains(x)
                && m[i][x as int] == Bit::On) by {
                lemma_lead(m[i]);
                assert(i < row);
                let v = lead(m[i]) as usize;
                assert(lead(m[i]) == v);
                assert(eqs.eqns@.contains_key(v));
                assert(reads_row(eqs.eqns@[v], eqs.free_vars@, m[i], n as int));
                assert(eqs.formulas()[v].0.contains(x) <==> eqs.eqns@[v].0@.contains(x));
            }
            assert forall|i: int| 0 <= i < eqs.free().len() implies #[trigger] eqs.free()[i]
                < eqs.unknowns() by {
                assert(eqs.free().contains(eqs.free()[i]));
            }
            assert forall|v: usize| #[trigger] eqs.formulas().contains_key(v) implies v
                < eqs.unknowns() && !eqs.free().contains(v) && ascending(eqs.formulas()[v].0) by {
                assert(is_leading_column(m, v as int));
            }
            assert forall|v: usize, i: int|
                eqs.formulas().contains_key(v) && 0 <= i
                    < eqs.formulas()[v].0.len() implies eqs.free().contains(
                #[trigger] eqs.formulas()[v].0[i],
            ) by {
                let t = eqs.formulas()[v].0;
                assert(t.contains(t[i]));
                let r = choose|r: int| 0 <= r < row && #[trigger] lead(m[r]) == v;
                assert(reads_row(eqs.eqns@[lead(m[r]) as usize], eqs.free_vars@, m[r], n as int));
                assert(eqs.eqns@[v].0@.contains(t[i]));
            }
        }
        eqs
    }
}

/// Enumerates every assignment of bits to `vars`, in the order of
/// `nth_assignment`. There is none for no variables.
fn enumerate_in_order(vars: &Vec<usize>) -> (all: Vec<Assignment>)
    ensures
        vars@.len() == 0 ==> all@.len() == 0,
        vars@.len() > 0 ==> all@.len() == pow2(vars@.len()),
        forall|i: int|
            0 <= i < all@.len() ==> (#[trigger] all@[i])@ == nth_assignment(vars@, i as nat),
{
    let mut assignments: Vec<Assignment> = Vec::new();
    if vars.len() == 0 {
        return assignments;
    }
    let first = vars[0];
    let mut off: HashMap<usize, Bit> = HashMap::new();
    off.insert(first, Bit::Off);
    assignments.push(Assignment(off));
    let mut on: HashMap<usize, Bit> = HashMap::new();
    on.insert(first, Bit::On);
    assignments.push(Assignment(on));
    proof {
        lemma2_to64();
        let one = vars@.take(1);
        assert(one.drop_last() =~= Seq::<usize>::empty());
        assert(one.last() == first);
        assert(nth_assignment(one.drop_last(), 0) =~= Map::<usize, Bit>::empty());
        assert(assignments@[0]@ =~= nth_assignment(one, 0));
        assert(assignments@[1]@ =~= nth_assignment(one, 1));
    }
    let mut j: usize = 1;
    while j < vars.len()
        invariant
            1 <= j <= vars@.len(),
            assignments@.len() == pow2(j as nat),
            forall|i: int|
                0 <= i < assignments@.len() ==> (#[trigger] assignments@[i])@ == nth_assignment(
                    vars@.take(j as int),
                    i as nat,
                ),
        decreases vars@.len() - j,
    {
        let var = vars[j];
        let ghost shorter = vars@.take(j as int);
        let ghost longer = vars@.take(j + 1);
        proof {
            assert(longer.drop_last() =~= shorter);
            assert(longer.last() == var);
            lemma_pow2_unfold((j + 1) as nat);
        }
        let mut next: Vec<Assignment> = Vec::new();
        let mut i: usize = 0;
        while i < assignments.len()
            invariant
                i <= assignments@.len(),
                next@.len() == 2 * i,
                longer.len() == j + 1,
                longer.drop_last() == shorter,
                longer.last() == var,
                forall|k: int|
                    0 <= k < assignments@.len() ==> (#[trigger] assignments@[k])@
                        == nth_assignment(shorter, k as nat),
                forall|k: int|
                    0 <= k < next@.len() ==> (#[trigger] next@[k])@ == nth_assignment(
                        longer,
                        k as nat,
                    ),
            decreases assignments@.len() - i,
        {
            let mut with_off = assignments[i].0.clone();
            let mut with_on = assignments[i].0.clone();
            with_off.insert(var, Bit::Off);
            with_on.insert(var, Bit::On);
            let ghost before = next@;
            next.push(Assignment(with_off));
            next.push(Assignment(with_on));
            proof {
                assert(assignments@[i as int]@ == nth_assignment(shorter, i as nat));
                assert((2 * i) / 2 == i && (2 * i) % 2 == 0);
                assert((2 * i + 1) / 2 == i && (2 * i + 1) % 2 == 1);
                assert(next@[2 * i]@ =~= nth_assignment(longer, (2 * i) as nat));
                assert(next@[2 * i + 1]@ =~= nth_assignment(longer, (2 * i + 1) as nat));
                assert forall|k: int| 0 <= k < next@.len() implies (#[trigger] next@[k])@
                    == nth_assignment(longer, k as nat) by {
                    if k < 2 * i {
                        assert(next@[k] == before[k]);
                    }
                }
            }
            i += 1;
        }
        assignments = next;
        j += 1;
    }
    assert(vars@.take(vars@.len() as int) =~= vars@);
    assignments
}

/// Sums the values that `valuation` gives to the variables in `terms`.
fn sum_terms(terms: &HashSet<usize>, valuation: &HashMap<usize, Bit>) -> (value: Bit)
    requires
        forall|t: usize| terms@.contains(t) ==> valuation@.contains_key(t),
    ensures
        value == sum_of(in_order(terms@), valuation@),
{
    let mut value = Bit::Off;
    let ghost members = terms.iter().remaining();
    let ghost seen = members.unref();
    proof {
        vstd::std_specs::hash::axiom_spec_hash_keys_iter(terms);
        assert(seen.take(0) =~= Seq::<usize>::empty());
    }
    for term in it: terms.iter()
        invariant
            it.seq() == members,
            seen == members.unref(),
            seen.to_set() == terms@,
            forall|t: usize| terms@.contains(t) ==> valuation@.contains_key(t),
            value == sum_of(seen.take(it.index()), valuation@),
    {
        let ghost k0 = it.index();
        proof {
            assert(seen[k0] == *term);
            assert(seen.to_set().contains(seen[k0]));
            assert(seen.take(k0 + 1).drop_last() =~= seen.take(k0));
        }
        match valuation.get(term) {
            Some(bit) => {
                value = value + *bit;
            },
            None => {},
        }
    }
    proof {
        assert(seen.take(seen.len() as int) =~= seen);
        assert(seen.no_duplicates()) by {
            assert forall|i: int, j: int|
                0 <= i < seen.len() && 0 <= j < seen.len() && i != j implies seen[i] != seen[j] by {
                assert(members[i] != members[j]);
            }
        }
        let order = in_order(terms@);
        lemma_listed(terms@, (usize::MAX + 1) as nat);
        lemma_ascending_is_distinct(order);
        assert forall|x: usize| seen.contains(x) <==> order.contains(x) by {
            assert(seen.to_set().contains(x) <==> seen.contains(x));
        }
        lemma_sum_of_any_order(seen, order, valuation@, (usize::MAX + 1) as nat);
    }
    value
}

impl Equations {
    /// Completes an assignment of the free variables to one of all
    /// variables: each dependent variable gets the value of its formula.
    /// A value that `assignment` itself gives to a variable is kept.
    pub fn backfeed(&self, assignment: Assignment) -> (full: Assignment)
        requires
            self.wf(),
            forall|i: int|
                0 <= i < self.free().len() ==> assignment@.contains_key(#[trigger] self.free()[i]),
        ensures
            full@ == self.completed(assignment@),
    {
        let Assignment(valuation) = assignment;
        let mut results = valuation.clone();
        let ghost entries = self.eqns.iter().remaining();
        proof {
            self.lemma_lists();
            vstd::std_specs::hash::axiom_spec_hash_map_iter(&self.eqns);
            assert forall|t: usize| self.free_vars@.contains(t) implies valuation@.contains_key(
                t,
            ) by {
                assert(self.free().contains(t));
                let i = choose|i: int| 0 <= i < self.free().len() && self.free()[i] == t;
                assert(valuation@.contains_key(self.free()[i]));
            }
        }
        for entry in it: self.eqns.iter()
            invariant
                it.seq() == entries,
                self.wf(),
                forall|t: usize| self.free_vars@.contains(t) ==> valuation@.contains_key(t),
                lists_in_order(self.free(), self.free_vars@),
                forall|v: usize| #[trigger]
                    self.eqns@.contains_key(v) ==> lists_in_order(
                        self.formulas()[v].0,
                        self.eqns@[v].0@,
                    ),
                forall|k: int|
                    0 <= k < entries.len() ==> self.eqns@.contains_key(*(#[trigger] entries[k]).0)
                        && self.eqns@[*entries[k].0] == *entries[k].1,
                forall|x: usize|
                    results@.contains_key(x) <==> valuation@.contains_key(x) || exists|k: int|
                        0 <= k < it.index() && *(#[trigger] entries[k]).0 == x,
                forall|x: usize| #[trigger]
                    results@.contains_key(x) ==> results@[x] == self.completed(valuation@)[x],
        {
            let ghost k0 = it.index();
            let (var, terms) = entry;
            proof {
                assert(self.eqns@.contains_key(*entries[k0].0));
                assert(self.formulas().contains_key(*var));
                assert forall|t: usize| terms.0@.contains(t) implies valuation@.contains_key(t) by {
                    assert(self.formulas()[*var].0.contains(t));
                    let i = choose|i: int|
                        0 <= i < self.formulas()[*var].0.len() && self.formulas()[*var].0[i] == t;
                    assert(self.free().contains(self.formulas()[*var].0[i]));
                }
            }
            let mut value = sum_terms(&terms.0, &valuation);
            value = value + terms.1;
            if !valuation.contains_key(var) {
                results.insert(*var, value);
            }
            proof {
                assert forall|x: usize|
                    results@.contains_key(x) <==> valuation@.contains_key(x) || exists|k: int|
                        0 <= k < k0 + 1 && *(#[trigger] entries[k]).0 == x by {
                    if x == *var {
                        assert(*entries[k0].0 == x);
                    }
                }
            }
        }
        proof {
            assert forall|x: usize| self.formulas().contains_key(x) implies results@.contains_key(
                x,
            ) by {
                assert(entries.contains((&x, &self.eqns@[x])));
                let k = choose|k: int| 0 <= k < entries.len() && entries[k] == (&x, &self.eqns@[x]);
                assert(*entries[k].0 == x);
            }
            assert forall|x: usize| results@.contains_key(x) implies self.completed(
                valuation@,
            ).contains_key(x) by {
                if !valuation@.contains_key(x) {
                    let k = choose|k: int| 0 <= k < entries.len() && *(#[trigger] entries[k]).0 == x;
                    assert(self.eqns@.contains_key(*entries[k].0));
                }
            }
            assert(results@ =~= self.completed(valuation@));
        }
        Assignment(results)
    }

    /// Enumerates every solution of the system: one for each assignment of
    /// the free variables, in the order of `nth_assignment`. A system that
    /// is not solvable has none.
    pub fn enumerate_all_results(&self) -> (all: Vec<Assignment>)
        requires
            self.wf(),
        ensures
            !self.solvable() ==> all@.len() == 0,
            self.solvable() ==> all@.len() == pow2(self.free().len()),
            forall|i: int| 0 <= i < all@.len() ==> (#[trigger] all@[i])@ == self.solution(i as nat),
            forall|i: int, j: int|
                0 <= i < j < all@.len() ==> (#[trigger] all@[i])@ != (#[trigger] all@[j])@,
    {
        let mut all: Vec<Assignment> = Vec::new();
        if !self.solvable {
            return all;
        }
        let assignments = enumerate_all_assignments(&self.free_vars);
        proof {
            let order = choose|order: Seq<usize>|
                {
                    &&& #[trigger] lists_in_order(order, self.free_vars@)
                    &&& order.len() == 0 ==> assignments@.len() == 0
                    &&& order.len() > 0 ==> assignments@.len() == pow2(order.len())
                    &&& forall|i: int|
                        0 <= i < assignments@.len() ==> (#[trigger] assignments@[i])@
                            == nth_assignment(order, i as nat)
                };
            lemma_in_order(order, self.free_vars@);
        }
        if assignments.len() > 0 {
            let mut i: usize = 0;
            while i < assignments.len()
                invariant
                    self.wf(),
                    i <= assignments@.len(),
                    all@.len() == i,
                    forall|k: int|
                        0 <= k < assignments@.len() ==> (#[trigger] assignments@[k])@
                            == nth_assignment(self.free(), k as nat),
                    forall|k: int|
                        0 <= k < all@.len() ==> (#[trigger] all@[k])@ == self.solution(k as nat),
                decreases assignments@.len() - i,
            {
                let partial = Assignment(assignments[i].0.clone());
                proof {
                    lemma_nth_assignment_domain(self.free(), i as nat);
                    assert(partial@ == nth_assignment(self.free(), i as nat));
                    assert forall|k: int| 0 <= k < self.free().len() implies partial@.contains_key(
                        #[trigger] self.free()[k],
                    ) by {
                        assert(self.free().contains(self.free()[k]));
                    }
                }
                let full = self.backfeed(partial);
                all.push(full);
                i += 1;
            }
        } else {
            proof {
                lemma2_to64();
                lemma_pow2_pos(self.free().len());
                assert(self.free().len() == 0);
            }
            let full = self.backfeed(Assignment(HashMap::new()));
            all.push(full);
        }
        proof {
            assert forall|i: int, j: int| 0 <= i < j < all@.len() implies (#[trigger] all@[i])@ != (
            #[trigger] all@[j])@ by {
                law_solutions_distinct(*self, i as nat, j as nat);
            }
        }
        all
    }

    /// Enumerates every solution as `enumerate_all_results` does, unless the
    /// system has more than `limit` free variables: the number of solutions
    /// doubles with each.
    pub fn enumerate_results_within(&self, limit: usize) -> (outcome: Result<
        Vec<Assignment>,
        ResourceLimitError,
    >)
        requires
            self.wf(),
        ensures
            self.free().len() > limit ==> outcome == Err::<Vec<Assignment>, ResourceLimitError>(
                ResourceLimitError { free_variables: self.free().len() as usize, limit },
            ),
            self.free().len() <= limit ==> (outcome matches Ok(all) && {
                &&& !self.solvable() ==> all@.len() == 0
                &&& self.solvable() ==> all@.len() == pow2(self.free().len())
                &&& forall|i: int|
                    0 <= i < all@.len() ==> (#[trigger] all@[i])@ == self.solution(i as nat)
            }),
    {
        let free = self.free_variables();
        if free.len() > limit {
            Err(ResourceLimitError { free_variables: free.len(), limit })
        } else {
            Ok(self.enumerate_all_results())
        }
    }

    /// Whether the system has a solution.
    pub fn is_solvable(&self) -> (solvable: bool)
        ensures
            solvable == self.solvable(),
    {
        self.solvable
    }

    /// The free variables, in ascending order.
    pub fn free_variables(&self) -> (free: Vec<usize>)
        ensures
            free@ == self.free(),
    {
        let free = ascending_members(&self.free_vars);
        proof {
            lemma_in_order(free@, self.free_vars@);
        }
        free
    }

    /// The formula of the variable `var`, if it is a dependent variable:
    /// the free variables that it sums, in ascending order, and its
    /// constant.
    pub fn formula_of(&self, var: usize) -> (formula: Option<(Vec<usize>, Bit)>)
        ensures
            formula is Some <==> self.formulas().contains_key(var),
            formula matches Some(f) ==> (f.0@, f.1) == self.formulas()[var],
    {
        match self.eqns.get(&var) {
            Some(found) => {
                let terms = ascending_members(&found.0);
                proof {
                    lemma_in_order(terms@, found.0@);
                }
                Some((terms, found.1))
            },
            None => None,
        }
    }

    /// The text of the formulas of the first `upto` dependent variables.
    pub open spec fn formulas_text(&self, upto: nat) -> Seq<char>
        decreases upto,
    {
        if upto == 0 {
            Seq::empty()
        } else {
            let var = self.dependents()[upto - 1];
            self.formulas_text((upto - 1) as nat) + formula_text(
                var,
                self.formulas()[var].0,
                self.formulas()[var].1,
            )
        }
    }

    /// The text of the equations: the free variables on one line, then a
    /// line for each dependent variable with its formula.
    pub open spec fn text(&self) -> Seq<char> {
        "Free vars: "@ + free_text(self.free()) + "Equations:\n"@ + self.formulas_text(
            self.dependents().len(),
        )
    }

    /// Renders the equations as text.
    pub fn to_string(&self) -> (text: String)
        ensures
            text@ == self.text(),
    {
        let mut out = String::new();
        out.append("Free vars: ");
        let sorted_free_vars = self.free_variables();
        let mut k: usize = 0;
        while k < sorted_free_vars.len()
            invariant
                k <= sorted_free_vars@.len(),
                out@ == "Free vars: "@ + free_text(sorted_free_vars@.take(k as int)),
            decreases sorted_free_vars@.len() - k,
        {
            let ghost shorter = sorted_free_vars@.take(k as int);
            let ghost longer = sorted_free_vars@.take(k + 1);
            assert(longer.drop_last() =~= shorter && longer.last() == sorted_free_vars@[k as int]);
            out.append("x_");
            push_decimal(&mut out, sorted_free_vars[k]);
            out.append(", ");
            assert(out@ =~= "Free vars: "@ + free_text(longer));
            k += 1;
        }
        assert(sorted_free_vars@.take(sorted_free_vars@.len() as int) =~= sorted_free_vars@);
        out.append("Equations:\n");
        let ghost head = out@;
        let sorted_equations = ascending_keys(&self.eqns);
        proof {
            lemma_in_order(sorted_equations@, self.eqns@.dom());
        }
        let mut k: usize = 0;
        while k < sorted_equations.len()
            invariant
                k <= sorted_equations@.len(),
                sorted_equations@ == self.dependents(),
                lists_in_order(sorted_equations@, self.eqns@.dom()),
                out@ == head + self.formulas_text(k as nat),
            decreases sorted_equations@.len() - k,
        {
            let var = sorted_equations[k];
            assert(sorted_equations@.contains(var));
            let ghost line_start = out@;
            out.append("x_");
            push_decimal(&mut out, var);
            out.append(" = ");
            match self.eqns.get(&var) {
                Some(found) => {
                    out.append(found.1.digit_text());
                    let sorted_terms = ascending_members(&found.0);
                    proof {
                        lemma_in_order(sorted_terms@, found.0@);
                    }
                    let ghost stem = out@;
                    let mut t: usize = 0;
                    while t < sorted_terms.len()
                        invariant
                            t <= sorted_terms@.len(),
                            out@ == stem + terms_text(sorted_terms@.take(t as int)),
                        decreases sorted_terms@.len() - t,
                    {
                        let ghost shorter = sorted_terms@.take(t as int);
                        let ghost longer = sorted_terms@.take(t + 1);
                        assert(longer.drop_last() =~= shorter && longer.last()
                            == sorted_terms@[t as int]);
                        out.append(" + x_");
                        push_decimal(&mut out, sorted_terms[t]);
                        assert(out@ =~= stem + terms_text(longer));
                        t += 1;
                    }
                    assert(sorted_terms@.take(sorted_terms@.len() as int) =~= sorted_terms@);
                },
                None => {},
            }
            out.append("\n");
            proof {
                reveal_strlit("\n");
                assert("\n"@ =~= seq!['\n']);
                assert(out@ =~= line_start + formula_text(
                    var,
                    self.formulas()[var].0,
                    self.formulas()[var].1,
                ));
            }
            k += 1;
        }
        out
    }
}

/// The text of a list of free variables.
pub open spec fn free_text(vars: Seq<usize>) -> Seq<char>
    decreases vars.len(),
{
    if vars.len() == 0 {
        Seq::empty()
    } else {
        free_text(vars.drop_last()) + "x_"@ + decimal_digits(vars.last() as nat) + ", "@
    }
}

/// The text of the terms of a formula.
pub open spec fn terms_text(terms: Seq<usize>) -> Seq<char>
    decreases terms.len(),
{
    if terms.len() == 0 {
        Seq::empty()
    } else {
        terms_text(terms.drop_last()) + " + x_"@ + decimal_digits(terms.last() as nat)
    }
}

/// The line of text that states the formula of the variable `var`.
pub open spec fn formula_text(var: usize, terms: Seq<usize>, constant: Bit) -> Seq<char> {
    "x_"@ + decimal_digits(var as nat) + " = "@ + seq![constant.digit()] + terms_text(terms)
        + seq!['\n']
}

/// The text of the values that `a` gives to the variables in `order`.
pub open spec fn entries_text(order: Seq<usize>, a: Map<usize, Bit>) -> Seq<char>
    decreases order.len(),
{
    if order.len() == 0 {
        Seq::empty()
    } else {
        entries_text(order.drop_last(), a) + decimal_digits(order.last() as nat) + seq![
            ':',
            a[order.last()].digit(),
            ',',
            ' ',
        ]
    }
}

impl Assignment {
    /// Renders an assignment of the variables `0..n`, where `n` is the number
    /// of variables assigned, as `n` binary digits, the digit of variable `i`
    /// in place `i`. An assignment of other variables has no such rendering.
    pub fn as_bitstring(&self) -> (text: Option<String>)
        ensures
            text is Some <==> forall|i: usize| i < self@.len() ==> self@.contains_key(i),
            text matches Some(s) ==> s@ == Seq::new(
                self@.len(),
                |i: int| self@[i as usize].digit(),
            ),
    {
        let mut res = String::new();
        let count = self.0.len();
        let mut i: usize = 0;
        while i < count
            invariant
                i <= count,
                count == self@.len(),
                forall|k: usize| k < i ==> self@.contains_key(k),
                res@ == Seq::new(i as nat, |k: int| self@[k as usize].digit()),
            decreases count - i,
        {
            match self.0.get(&i) {
                Some(b) => {
                    res.append(b.digit_text());
                    assert(res@ =~= Seq::new((i + 1) as nat, |k: int| self@[k as usize].digit()));
                },
                None => {
                    return None;
                },
            }
            i += 1;
        }
        Some(res)
    }

    /// Renders the assignment as text: for each variable, in ascending
    /// order, its index, a colon, its bit, a comma and a space.
    pub fn to_string(&self) -> (text: String)
        ensures
            exists|order: Seq<usize>|
                lists_in_order(order, self@.dom()) && text@ == #[trigger] entries_text(
                    order,
                    self@,
                ),
    {
        let sorted = ascending_keys(&self.0);
        let mut out = String::new();
        let mut k: usize = 0;
        while k < sorted.len()
            invariant
                k <= sorted@.len(),
                lists_in_order(sorted@, self@.dom()),
                out@ == entries_text(sorted@.take(k as int), self@),
            decreases sorted@.len() - k,
        {
            let var = sorted[k];
            let ghost shorter = sorted@.take(k as int);
            let ghost longer = sorted@.take(k + 1);
            assert(longer.drop_last() =~= shorter && longer.last() == var);
            assert(sorted@.contains(var));
            push_decimal(&mut out, var);
            out.append(":");
            match self.0.get(&var) {
                Some(b) => {
                    out.append(b.digit_text());
                },
                None => {},
            }
            out.append(", ");
            proof {
                reveal_strlit(":");
                reveal_strlit(", ");
                assert(out@ =~= entries_text(longer, self@));
            }
            k += 1;
        }
        assert(sorted@.take(sorted@.len() as int) =~= sorted@);
        out
    }
}

/// Enumerates every assignment of bits to the variables in `vars`, taken in
/// ascending order, in the order of `nth_assignment`. There is none for no
/// variables.
pub fn enumerate_all_assignments(vars: &HashSet<usize>) -> (all: Vec<Assignment>)
    ensures
        exists|order: Seq<usize>|
            {
                &&& #[trigger] lists_in_order(order, vars@)
                &&& order.len() == 0 ==> all@.len() == 0
                &&& order.len() > 0 ==> all@.len() == pow2(order.len())
                &&& forall|i: int|
                    0 <= i < all@.len() ==> (#[trigger] all@[i])@ == nth_assignment(order, i as nat)
            },
{
    let sorted_vars = ascending_members(vars);
    enumerate_in_order(&sorted_vars)
}

} // verus!
