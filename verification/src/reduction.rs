//! Reduced row-echelon form over GF(2): what it is, what row operations
//! keep, and why the cursor scan of Gauss-Jordan elimination reaches it.

use crate::bit::Bit;
use crate::rows::{dot, is_zero, lead, lemma_dot_xor, lemma_lead, lemma_lead_is, xor_rows};
use crate::order::listed;
use vstd::prelude::*;

verus! {

/// `m` has `rows` rows of `cols` entries each.
pub open spec fn has_shape(m: Seq<Seq<Bit>>, rows: int, cols: int) -> bool {
    &&& m.len() == rows
    &&& forall|i: int| 0 <= i < m.len() ==> (#[trigger] m[i]).len() == cols
}

/// The leading columns of the rows of `m` never decrease from one row to the
/// next, a zero row counting as leading past its last column.
pub open spec fn is_sorted(m: Seq<Seq<Bit>>) -> bool {
    forall|i: int, j: int|
        #![trigger lead(m[i]), lead(m[j])]
        0 <= i < j < m.len() ==> lead(m[i]) <= lead(m[j])
}

/// Reduced row-echelon form: the non-zero rows come first, their leading
/// columns strictly increase, and a leading column holds `On` in its own row
/// only.
pub open spec fn is_reduced(m: Seq<Seq<Bit>>, cols: int) -> bool {
    &&& forall|i: int, j: int|
        #![trigger lead(m[i]), lead(m[j])]
        0 <= i < j < m.len() ==> lead(m[i]) < lead(m[j]) || lead(m[j]) == cols
    &&& forall|i: int, k: int|
        #![trigger m[k][lead(m[i])]]
        0 <= i < m.len() && 0 <= k < m.len() && i != k && lead(m[i]) < cols ==> m[k][lead(
            m[i],
        )] == Bit::Off
}

/// Every row of `m` is orthogonal to `v`.
pub open spec fn annihilates(m: Seq<Seq<Bit>>, v: Seq<Bit>) -> bool {
    forall|r: int| 0 <= r < m.len() ==> dot(#[trigger] m[r], v) == Bit::Off
}

/// `a` and `b` are orthogonal to the same vectors of length `cols`: they have
/// the same null space.
pub open spec fn same_kernel(a: Seq<Seq<Bit>>, b: Seq<Seq<Bit>>, cols: int) -> bool {
    forall|v: Seq<Bit>|
        #![trigger annihilates(a, v)]
        #![trigger annihilates(b, v)]
        v.len() == cols ==> (annihilates(a, v) <==> annihilates(b, v))
}

/// The key by which rows are ordered: the leading column, or `cols` for a
/// zero row.
pub open spec fn sort_key(row: Seq<Bit>, cols: int) -> int {
    if lead(row) < row.len() {
        lead(row)
    } else {
        cols
    }
}

/// `after` holds the rows of `before` in another order: row `i` of `after` is
/// row `p[i]` of `before`, and `q` is the inverse of `p`.
pub open spec fn is_rearrangement(
    before: Seq<Seq<Bit>>,
    after: Seq<Seq<Bit>>,
    p: Seq<int>,
    q: Seq<int>,
) -> bool {
    &&& after.len() == before.len()
    &&& p.len() == before.len()
    &&& q.len() == before.len()
    &&& forall|i: int|
        0 <= i < p.len() ==> 0 <= #[trigger] p[i] < p.len() && q[p[i]] == i && after[i]
            == before[p[i]]
    &&& forall|i: int| 0 <= i < q.len() ==> 0 <= #[trigger] q[i] < q.len() && p[q[i]] == i
}

/// `p` and `q` rearrange `before` into `after` so that the keys ascend and
/// rows of equal key keep their order.
pub open spec fn sorts_stably(
    before: Seq<Seq<Bit>>,
    after: Seq<Seq<Bit>>,
    cols: int,
    p: Seq<int>,
    q: Seq<int>,
) -> bool {
    &&& is_rearrangement(before, after, p, q)
    &&& forall|i: int, j: int|
        #![trigger after[i], after[j]]
        0 <= i < j < after.len() ==> sort_key(after[i], cols) <= sort_key(after[j], cols)
    &&& forall|i: int, j: int|
        #![trigger p[i], p[j]]
        0 <= i < j < after.len() && sort_key(after[i], cols) == sort_key(after[j], cols) ==> p[i]
            < p[j]
}

/// `after` is `before` sorted stably by `sort_key`.
pub open spec fn is_stable_sort(before: Seq<Seq<Bit>>, after: Seq<Seq<Bit>>, cols: int) -> bool {
    exists|p: Seq<int>, q: Seq<int>| #[trigger] sorts_stably(before, after, cols, p, q)
}

/// `m` after the row `source` was added to every other row that holds `On`
/// in `column`.
pub open spec fn decimated(m: Seq<Seq<Bit>>, source: int, column: int) -> Seq<Seq<Bit>> {
    Seq::new(
        m.len(),
        |k: int|
            if k != source && m[k][column] == Bit::On {
                xor_rows(m[k], m[source])
            } else {
                m[k]
            },
    )
}

/// What the elimination scan has established when its cursor stands at row
/// `r`, column `c`, but for the order of the rows: the rows above `r` are
/// pivot rows with strictly increasing leading columns at or before `c`, each
/// leading column is `Off` in every other row, and the rows from `r` on are
/// `Off` before column `c`.
pub open spec fn scan_inv_unsorted(m: Seq<Seq<Bit>>, cols: int, r: int, c: int) -> bool {
    &&& 0 <= r <= m.len()
    &&& 0 <= c < cols
    &&& has_shape(m, m.len() as int, cols)
    &&& forall|i: int| 0 <= i < r ==> #[trigger] lead(m[i]) <= c
    &&& forall|i: int, j: int|
        #![trigger lead(m[i]), lead(m[j])]
        0 <= i < j < r ==> lead(m[i]) < lead(m[j])
    &&& forall|i: int, k: int|
        #![trigger m[k][lead(m[i])]]
        0 <= i < r && 0 <= k < m.len() && k != i ==> m[k][lead(m[i])] == Bit::Off
    &&& forall|k: int, j: int|
        #![trigger m[k][j]]
        r <= k < m.len() && 0 <= j < c ==> m[k][j] == Bit::Off
}

/// The invariant of the elimination scan at row `r`, column `c`.
pub open spec fn scan_inv(m: Seq<Seq<Bit>>, cols: int, r: int, c: int) -> bool {
    &&& scan_inv_unsorted(m, cols, r, c)
    &&& is_sorted(m)
}

/// A row that is `Off` before column `c` leads at `c` or later.
pub proof fn lemma_lead_at_least(row: Seq<Bit>, c: int)
    requires
        0 <= c <= row.len(),
        forall|j: int| 0 <= j < c ==> row[j] == Bit::Off,
    ensures
        lead(row) >= c,
{
    lemma_lead(row);
    if lead(row) < c {
        assert(row[lead(row)] == Bit::Off);
    }
}

/// Over an `Off` cell the cursor may move one column to the right.
pub proof fn lemma_scan_right(m: Seq<Seq<Bit>>, cols: int, r: int, c: int)
    requires
        scan_inv(m, cols, r, c),
        r < m.len(),
        m[r][c] == Bit::Off,
        c + 1 < cols,
    ensures
        scan_inv(m, cols, r, c + 1),
{
    assert forall|k: int, j: int| r <= k < m.len() && 0 <= j < c + 1 implies #[trigger] m[k][j]
        == Bit::Off by {
        if j == c {
            assert forall|jj: int| 0 <= jj < c + 1 implies m[r][jj] == Bit::Off by {}
            lemma_lead_at_least(m[r], c + 1);
            lemma_lead(m[k]);
            assert(lead(m[r]) <= lead(m[k]) || k == r);
        }
    }
}

/// Over an `Off` cell in the last column the scan is complete.
pub proof fn lemma_scan_done_right(m: Seq<Seq<Bit>>, cols: int, r: int, c: int)
    requires
        scan_inv(m, cols, r, c),
        r < m.len(),
        m[r][c] == Bit::Off,
        c + 1 == cols,
    ensures
        is_reduced(m, cols),
{
    assert forall|jj: int| 0 <= jj < cols implies m[r][jj] == Bit::Off by {}
    lemma_lead_at_least(m[r], cols);
    lemma_lead(m[r]);
    assert forall|i: int, j: int| 0 <= i < j < m.len() implies lead(m[i]) < lead(m[j]) || lead(
        m[j],
    ) == cols by {
        lemma_lead(m[j]);
        if j >= r {
            assert(lead(m[r]) <= lead(m[j]) || j == r);
        }
    }
    assert forall|i: int, k: int|
        0 <= i < m.len() && 0 <= k < m.len() && i != k && lead(m[i]) < cols implies #[trigger] m[k][lead(
        m[i],
    )] == Bit::Off by {
        if i >= r {
            assert(lead(m[r]) <= lead(m[i]) || i == r);
        }
    }
}

/// Once the cursor has passed the last row the scan is complete.
pub proof fn lemma_scan_done_down(m: Seq<Seq<Bit>>, cols: int, c: int)
    requires
        scan_inv_unsorted(m, cols, m.len() as int, c),
    ensures
        is_reduced(m, cols),
{
    assert forall|i: int, j: int| 0 <= i < j < m.len() implies lead(m[i]) < lead(m[j]) || lead(
        m[j],
    ) == cols by {}
}

/// At an `On` cell, clearing the column with the cursor's row makes that row
/// the next pivot row.
pub proof fn lemma_scan_pivot(m: Seq<Seq<Bit>>, cols: int, r: int, c: int)
    requires
        scan_inv(m, cols, r, c),
        r < m.len(),
        m[r][c] == Bit::On,
    ensures
        scan_inv_unsorted(decimated(m, r, c), cols, r + 1, c),
        lead(decimated(m, r, c)[r]) == c,
{
    let d = decimated(m, r, c);
    assert forall|j: int| 0 <= j < c implies m[r][j] == Bit::Off by {}
    lemma_lead_is(m[r], c);
    assert(d[r] == m[r]);
    // The rows above keep their leading columns, which lie before `c`.
    assert forall|i: int| 0 <= i < r implies lead(d[i]) == lead(m[i]) && lead(m[i]) < c by {
        lemma_lead(m[i]);
        assert(m[r][lead(m[i])] == Bit::Off);
        assert(lead(m[i]) != c);
        assert forall|j: int| 0 <= j < lead(m[i]) implies d[i][j] == Bit::Off by {
            assert(m[r][j] == Bit::Off);
        }
        assert(d[i][lead(m[i])] == Bit::On);
        lemma_lead_is(d[i], lead(m[i]));
    }
    assert forall|i: int| 0 <= i < r + 1 implies #[trigger] lead(d[i]) <= c by {}
    assert forall|i: int, j: int| 0 <= i < j < r + 1 implies lead(d[i]) < lead(d[j]) by {
        if j < r {
            assert(lead(m[i]) < lead(m[j]));
        }
    }
    assert forall|i: int, k: int| 0 <= i < r + 1 && 0 <= k < d.len() && k != i implies #[trigger] d[k][lead(
        d[i],
    )] == Bit::Off by {
        lemma_lead(m[i]);
        if i < r {
            assert(lead(d[i]) == lead(m[i]));
            assert(m[k][lead(m[i])] == Bit::Off);
            if k != r {
                assert(m[r][lead(m[i])] == Bit::Off);
            }
        } else {
            assert(lead(d[i]) == c);
            assert(m[k].len() == cols);
        }
    }
    assert forall|k: int, j: int| r + 1 <= k < d.len() && 0 <= j < c implies #[trigger] d[k][j]
        == Bit::Off by {
        assert(m[k][j] == Bit::Off);
        assert(m[r][j] == Bit::Off);
    }
}

/// With rows of `cols` entries the sort key is the leading column.
pub proof fn lemma_sort_key_is_lead(row: Seq<Bit>, cols: int)
    requires
        row.len() == cols,
    ensures
        sort_key(row, cols) == lead(row),
{
    lemma_lead(row);
}

/// A stable sort leaves in place a prefix of rows none of which has a key
/// above that of a later row.
pub proof fn lemma_sort_fixes_prefix(
    before: Seq<Seq<Bit>>,
    after: Seq<Seq<Bit>>,
    cols: int,
    p: Seq<int>,
    q: Seq<int>,
    n: int,
)
    requires
        sorts_stably(before, after, cols, p, q),
        0 <= n <= before.len(),
        forall|a: int, b: int|
            #![trigger before[a], before[b]]
            0 <= a < n && a < b < before.len() ==> sort_key(before[a], cols) <= sort_key(
                before[b],
                cols,
            ),
    ensures
        forall|i: int| 0 <= i < n ==> #[trigger] p[i] == i,
        forall|i: int| 0 <= i < n ==> #[trigger] q[i] == i,
        forall|i: int| 0 <= i < n ==> #[trigger] after[i] == before[i],
    decreases n,
{
    if n > 0 {
        lemma_sort_fixes_prefix(before, after, cols, p, q, n - 1);
        let i = n - 1;
        let j = q[i];
        assert(p[j] == i);
        if p[i] != i {
            // Neither p[i] nor q[i] lies in the prefix that is already fixed.
            if p[i] < i {
                assert(q[p[i]] == i);
                assert(p[p[i]] == p[i]);
                assert(q[p[p[i]]] == p[i]);
            }
            if j < i {
                assert(p[j] == j);
            }
            assert(p[i] > i && j > i);
            assert(after[i] == before[p[i]]);
            assert(after[j] == before[i]);
            let ki = sort_key(after[i], cols);
            let kj = sort_key(after[j], cols);
            assert(ki <= kj);
            assert(sort_key(before[i], cols) <= sort_key(before[p[i]], cols));
            assert(ki == kj);
            assert(p[i] < p[j]);
        }
        assert(q[p[i]] == i);
    }
}

/// A stable sort of rows that are already in order changes nothing.
pub proof fn lemma_sort_of_sorted(before: Seq<Seq<Bit>>, after: Seq<Seq<Bit>>, cols: int)
    requires
        has_shape(before, before.len() as int, cols),
        is_sorted(before),
        is_stable_sort(before, after, cols),
    ensures
        after == before,
{
    let (p, q) = choose|p: Seq<int>, q: Seq<int>| #[trigger]
        sorts_stably(before, after, cols, p, q);
    assert forall|a: int, b: int|
        #![trigger before[a], before[b]]
        0 <= a < before.len() && a < b < before.len() implies sort_key(before[a], cols)
        <= sort_key(before[b], cols) by {
        lemma_sort_key_is_lead(before[a], cols);
        lemma_sort_key_is_lead(before[b], cols);
        assert(lead(before[a]) <= lead(before[b]));
    }
    lemma_sort_fixes_prefix(before, after, cols, p, q, before.len() as int);
    assert(after =~= before);
}

/// Sorting the rows stably re-establishes their order without disturbing what
/// the scan has established.
pub proof fn lemma_scan_sorted(m1: Seq<Seq<Bit>>, m2: Seq<Seq<Bit>>, cols: int, r: int, c: int)
    requires
        scan_inv_unsorted(m1, cols, r, c),
        is_stable_sort(m1, m2, cols),
    ensures
        scan_inv(m2, cols, r, c),
        forall|i: int| 0 <= i < r ==> #[trigger] m2[i] == m1[i],
{
    let (p, q) = choose|p: Seq<int>, q: Seq<int>| #[trigger] sorts_stably(m1, m2, cols, p, q);
    assert forall|a: int, b: int|
        #![trigger m1[a], m1[b]]
        0 <= a < r && a < b < m1.len() implies sort_key(m1[a], cols) <= sort_key(m1[b], cols) by {
        lemma_sort_key_is_lead(m1[a], cols);
        lemma_sort_key_is_lead(m1[b], cols);
        assert(lead(m1[a]) <= c);
        if b < r {
            assert(lead(m1[a]) < lead(m1[b]));
        } else {
            assert forall|j: int| 0 <= j < c implies m1[b][j] == Bit::Off by {}
            lemma_lead_at_least(m1[b], c);
        }
    }
    lemma_sort_fixes_prefix(m1, m2, cols, p, q, r);
    assert forall|k: int| 0 <= k < m2.len() implies m2[k] == m1[p[k]] && (k >= r ==> p[k] >= r)
        && (#[trigger] m2[k]).len() == cols by {
        if k >= r && p[k] < r {
            assert(q[p[k]] == k);
        }
    }
    assert forall|i: int, j: int| 0 <= i < j < m2.len() implies lead(m2[i]) <= lead(m2[j]) by {
        lemma_sort_key_is_lead(m2[i], cols);
        lemma_sort_key_is_lead(m2[j], cols);
    }
    assert forall|i: int| 0 <= i < r implies #[trigger] lead(m2[i]) <= c by {
        assert(m2[i] == m1[i]);
        assert(lead(m1[i]) <= c);
    }
    assert forall|i: int, j: int| 0 <= i < j < r implies lead(m2[i]) < lead(m2[j]) by {
        assert(m2[i] == m1[i]);
        assert(m2[j] == m1[j]);
        assert(lead(m1[i]) < lead(m1[j]));
    }
    assert forall|i: int, k: int| 0 <= i < r && 0 <= k < m2.len() && k != i implies #[trigger] m2[k][lead(
        m2[i],
    )] == Bit::Off by {
        assert(m2[i] == m1[i]);
        assert(p[i] == i);
        if p[k] == i {
            assert(q[p[k]] == k);
            assert(q[i] == i);
        }
        assert(m1[p[k]][lead(m1[i])] == Bit::Off);
    }
    assert forall|k: int, j: int| r <= k < m2.len() && 0 <= j < c implies #[trigger] m2[k][j]
        == Bit::Off by {
        assert(m1[p[k]][j] == Bit::Off);
    }
}

/// Reordering the rows keeps the null space.
pub proof fn lemma_rearranged_kernel(
    before: Seq<Seq<Bit>>,
    after: Seq<Seq<Bit>>,
    p: Seq<int>,
    q: Seq<int>,
    cols: int,
)
    requires
        is_rearrangement(before, after, p, q),
    ensures
        same_kernel(before, after, cols),
{
    assert forall|v: Seq<Bit>| v.len() == cols implies (annihilates(before, v) <==> annihilates(
        after,
        v,
    )) by {
        if annihilates(before, v) {
            assert forall|r: int| 0 <= r < after.len() implies dot(#[trigger] after[r], v)
                == Bit::Off by {
                assert(after[r] == before[p[r]]);
            }
        }
        if annihilates(after, v) {
            assert forall|r: int| 0 <= r < before.len() implies dot(#[trigger] before[r], v)
                == Bit::Off by {
                assert(p[q[r]] == r);
                assert(after[q[r]] == before[p[q[r]]]);
            }
        }
    }
}

/// A stable sort keeps the null space.
pub proof fn lemma_sorted_kernel(before: Seq<Seq<Bit>>, after: Seq<Seq<Bit>>, cols: int)
    requires
        is_stable_sort(before, after, cols),
    ensures
        same_kernel(before, after, cols),
        after.len() == before.len(),
{
    let (p, q) = choose|p: Seq<int>, q: Seq<int>| #[trigger]
        sorts_stably(before, after, cols, p, q);
    lemma_rearranged_kernel(before, after, p, q, cols);
}

/// Adding one row to others keeps the null space.
pub proof fn lemma_decimated_kernel(m: Seq<Seq<Bit>>, cols: int, source: int, column: int)
    requires
        has_shape(m, m.len() as int, cols),
        0 <= source < m.len(),
    ensures
        same_kernel(m, decimated(m, source, column), cols),
{
    let d = decimated(m, source, column);
    assert forall|v: Seq<Bit>| v.len() == cols implies (annihilates(m, v) <==> annihilates(d, v)) by {
        assert(d[source] == m[source]);
        if annihilates(m, v) {
            assert forall|r: int| 0 <= r < d.len() implies dot(#[trigger] d[r], v) == Bit::Off by {
                assert(dot(m[r], v) == Bit::Off);
                assert(dot(m[source], v) == Bit::Off);
                if d[r] != m[r] {
                    lemma_dot_xor(m[r], m[source], v);
                }
            }
        }
        if annihilates(d, v) {
            assert forall|r: int| 0 <= r < m.len() implies dot(#[trigger] m[r], v) == Bit::Off by {
                assert(dot(d[r], v) == Bit::Off);
                assert(dot(d[source], v) == Bit::Off);
                if d[r] != m[r] {
                    lemma_dot_xor(m[r], m[source], v);
                }
            }
        }
    }
}

/// Having the same null space is transitive.
pub proof fn lemma_same_kernel_trans(
    a: Seq<Seq<Bit>>,
    b: Seq<Seq<Bit>>,
    c: Seq<Seq<Bit>>,
    cols: int,
)
    requires
        same_kernel(a, b, cols),
        same_kernel(b, c, cols),
    ensures
        same_kernel(a, c, cols),
{
    assert forall|v: Seq<Bit>| v.len() == cols implies (annihilates(a, v) <==> annihilates(c, v)) by {
        assert(annihilates(a, v) <==> annihilates(b, v));
        assert(annihilates(b, v) <==> annihilates(c, v));
    }
}

/// The rows of a reduced matrix are in order.
pub proof fn lemma_reduced_is_sorted(m: Seq<Seq<Bit>>, cols: int)
    requires
        has_shape(m, m.len() as int, cols),
        is_reduced(m, cols),
    ensures
        is_sorted(m),
{
    assert forall|i: int, j: int| 0 <= i < j < m.len() implies lead(m[i]) <= lead(m[j]) by {
        lemma_lead(m[i]);
        assert(lead(m[i]) < lead(m[j]) || lead(m[j]) == cols);
    }
}

/// In a reduced matrix a leading column is already clear of other entries.
pub proof fn lemma_decimated_reduced(m: Seq<Seq<Bit>>, cols: int, r: int)
    requires
        has_shape(m, m.len() as int, cols),
        is_reduced(m, cols),
        0 <= r < m.len(),
        lead(m[r]) < cols,
    ensures
        decimated(m, r, lead(m[r])) == m,
{
    let d = decimated(m, r, lead(m[r]));
    assert forall|k: int| 0 <= k < m.len() implies d[k] == m[k] by {
        if k != r {
            assert(m[k][lead(m[r])] == Bit::Off);
        }
    }
    assert(d =~= m);
}

/// A stable sort keeps the shape of the matrix.
pub proof fn lemma_sorted_shape(before: Seq<Seq<Bit>>, after: Seq<Seq<Bit>>, cols: int)
    requires
        has_shape(before, before.len() as int, cols),
        is_stable_sort(before, after, cols),
    ensures
        has_shape(after, before.len() as int, cols),
{
    let (p, q) = choose|p: Seq<int>, q: Seq<int>| #[trigger]
        sorts_stably(before, after, cols, p, q);
    assert forall|i: int| 0 <= i < after.len() implies (#[trigger] after[i]).len() == cols by {
        assert(after[i] == before[p[i]]);
    }
}

/// Some row of `m` leads at column `x`.
pub open spec fn is_leading_column(m: Seq<Seq<Bit>>, x: int) -> bool {
    exists|i: int| 0 <= i < m.len() && #[trigger] lead(m[i]) == x
}

/// The columns at which no row of `m` leads.
pub open spec fn without_lead(m: Seq<Seq<Bit>>) -> Set<usize> {
    Set::new(|x: usize| !is_leading_column(m, x as int))
}

/// The free columns of `m` among its first `upto` columns: those at which
/// no row leads, in ascending order.
pub open spec fn free_columns(m: Seq<Seq<Bit>>, upto: nat) -> Seq<usize> {
    listed(without_lead(m), upto)
}

/// Where the search for free columns stands at row `r`, column `c` of a
/// reduced matrix: the rows above lead before `c`, and no other row does.
pub open spec fn searching_at(m: Seq<Seq<Bit>>, r: int, c: int) -> bool {
    &&& forall|i: int| 0 <= i < r ==> #[trigger] lead(m[i]) < c
    &&& forall|i: int| r <= i < m.len() ==> #[trigger] lead(m[i]) >= c
}

/// The search for free columns may start at the top left cell.
pub proof fn lemma_search_starts(m: Seq<Seq<Bit>>)
    ensures
        searching_at(m, 0, 0),
{
    assert forall|i: int| 0 <= i < m.len() implies #[trigger] lead(m[i]) >= 0 by {
        lemma_lead(m[i]);
    }
}

/// Over an `Off` cell of a reduced matrix the search has found a free
/// column, and goes on in the same row.
pub proof fn lemma_search_off(m: Seq<Seq<Bit>>, cols: int, r: int, c: int)
    requires
        has_shape(m, m.len() as int, cols),
        is_reduced(m, cols),
        0 <= r < m.len(),
        0 <= c < cols,
        searching_at(m, r, c),
        m[r][c] == Bit::Off,
    ensures
        !is_leading_column(m, c),
        searching_at(m, r, c + 1),
{
    lemma_lead(m[r]);
    assert(lead(m[r]) > c);
    assert forall|i: int| r <= i < m.len() implies #[trigger] lead(m[i]) >= c + 1 by {
        if i > r {
            assert(lead(m[r]) < lead(m[i]) || lead(m[i]) == cols);
        }
    }
}

/// Over an `On` cell of a reduced matrix the search has found a leading
/// column. It goes on one row down, or, in the last row, finds every column
/// further right free.
pub proof fn lemma_search_on(m: Seq<Seq<Bit>>, cols: int, r: int, c: int)
    requires
        has_shape(m, m.len() as int, cols),
        is_reduced(m, cols),
        0 <= r < m.len(),
        0 <= c < cols,
        searching_at(m, r, c),
        m[r][c] == Bit::On,
    ensures
        is_leading_column(m, c),
        r + 1 < m.len() ==> searching_at(m, r + 1, c + 1),
        r + 1 == m.len() ==> forall|x: int| c < x ==> !#[trigger] is_leading_column(m, x),
{
    lemma_lead(m[r]);
    lemma_lead_is(m[r], c);
    if r + 1 < m.len() {
        assert forall|i: int| r + 1 <= i < m.len() implies #[trigger] lead(m[i]) >= c + 1 by {
            lemma_lead(m[i]);
            assert(lead(m[r]) < lead(m[i]) || lead(m[i]) == cols);
        }
        assert forall|i: int| 0 <= i < r + 1 implies #[trigger] lead(m[i]) < c + 1 by {}
    } else {
        assert forall|x: int| c < x implies !#[trigger] is_leading_column(m, x) by {
            assert forall|i: int| 0 <= i < m.len() implies #[trigger] lead(m[i]) != x by {}
        }
    }
}

/// The leading column of row `i` of a reduced matrix is at least `i`, unless
/// the row is zero.
pub proof fn lemma_lead_at_least_row(m: Seq<Seq<Bit>>, cols: int, i: int)
    requires
        has_shape(m, m.len() as int, cols),
        is_reduced(m, cols),
        0 <= i < m.len(),
    ensures
        lead(m[i]) >= i || lead(m[i]) == cols,
    decreases i,
{
    lemma_lead(m[i]);
    if i > 0 {
        lemma_lead_at_least_row(m, cols, i - 1);
        assert(lead(m[i - 1]) < lead(m[i]) || lead(m[i]) == cols);
    }
}

/// The index of the first zero row of `m` at or after row `from`, or the
/// number of rows if there is none.
pub open spec fn zero_row_from(m: Seq<Seq<Bit>>, from: int) -> int
    decreases m.len() - from,
{
    if from >= m.len() {
        m.len() as int
    } else if is_zero(m[from]) {
        from
    } else {
        zero_row_from(m, from + 1)
    }
}

/// The number of rows of `m` before its first zero row. For a reduced
/// matrix this is its rank.
pub open spec fn leading_rows(m: Seq<Seq<Bit>>) -> int {
    zero_row_from(m, 0)
}

/// What `zero_row_from` returns: no row is zero before it, and it is a zero
/// row unless it is the number of rows.
pub proof fn lemma_zero_row_from(m: Seq<Seq<Bit>>, from: int)
    requires
        0 <= from <= m.len(),
    ensures
        from <= zero_row_from(m, from) <= m.len(),
        forall|i: int| from <= i < zero_row_from(m, from) ==> !is_zero(#[trigger] m[i]),
        zero_row_from(m, from) < m.len() ==> is_zero(m[zero_row_from(m, from)]),
    decreases m.len() - from,
{
    if from < m.len() && !is_zero(m[from]) {
        lemma_zero_row_from(m, from + 1);
    }
}

/// `after` is what elimination makes of `before`: a reduced matrix of the
/// same shape with the same null space, and `before` itself if that is
/// reduced already.
pub open spec fn reduces_to(before: Seq<Seq<Bit>>, after: Seq<Seq<Bit>>, cols: int) -> bool {
    &&& has_shape(after, before.len() as int, cols)
    &&& is_reduced(after, cols)
    &&& same_kernel(before, after, cols)
    &&& is_reduced(before, cols) ==> after == before
}

} // verus!
