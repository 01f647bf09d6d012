//! Vectors over GF(2): the mathematical model of a matrix row.

use crate::bit::Bit;
use vstd::prelude::*;

verus! {

/// The first index at or after `since` at which `row` is `On`, or the length
/// of `row` when there is none.
pub open spec fn first_on_from(row: Seq<Bit>, since: int) -> int
    decreases row.len() - since,
{
    if since >= row.len() {
        row.len() as int
    } else if row[since] == Bit::On {
        since
    } else {
        first_on_from(row, since + 1)
    }
}

/// The leading column of `row`: the index of its first `On` entry, or the
/// length of `row` when every entry is `Off`.
pub open spec fn lead(row: Seq<Bit>) -> int {
    first_on_from(row, 0)
}

/// Every entry of `row` is `Off`.
pub open spec fn is_zero(row: Seq<Bit>) -> bool {
    forall|j: int| 0 <= j < row.len() ==> row[j] == Bit::Off
}

/// Entry-wise sum of two rows of equal length.
pub open spec fn xor_rows(a: Seq<Bit>, b: Seq<Bit>) -> Seq<Bit> {
    Seq::new(a.len(), |j: int| a[j].xor(b[j]))
}

/// The sum over `j < n` of `a[j] * b[j]`.
pub open spec fn dot_upto(a: Seq<Bit>, b: Seq<Bit>, n: nat) -> Bit
    decreases n,
{
    if n == 0 {
        Bit::Off
    } else {
        dot_upto(a, b, (n - 1) as nat).xor(a[n - 1].and(b[n - 1]))
    }
}

/// The inner product of `a` with `b`, taken over the length of `a`.
pub open spec fn dot(a: Seq<Bit>, b: Seq<Bit>) -> Bit {
    dot_upto(a, b, a.len())
}

/// What `first_on_from` returns: nothing is `On` before it, and it is `On`
/// unless it is the length.
pub proof fn lemma_first_on_from(row: Seq<Bit>, since: int)
    requires
        0 <= since <= row.len(),
    ensures
        since <= first_on_from(row, since) <= row.len(),
        forall|j: int| since <= j < first_on_from(row, since) ==> row[j] == Bit::Off,
        first_on_from(row, since) < row.len() ==> row[first_on_from(row, since)] == Bit::On,
    decreases row.len() - since,
{
    if since < row.len() && row[since] != Bit::On {
        lemma_first_on_from(row, since + 1);
    }
}

/// `first_on_from` is the only index with the properties of `lemma_first_on_from`.
pub proof fn lemma_first_on_from_unique(row: Seq<Bit>, since: int, k: int)
    requires
        0 <= since <= k <= row.len(),
        forall|j: int| since <= j < k ==> row[j] == Bit::Off,
        k < row.len() ==> row[k] == Bit::On,
    ensures
        first_on_from(row, since) == k,
    decreases row.len() - since,
{
    if since < k {
        lemma_first_on_from_unique(row, since + 1, k);
    }
}

/// The leading column is in range, preceded by `Off` entries only, and `On`
/// itself unless the row is zero.
pub proof fn lemma_lead(row: Seq<Bit>)
    ensures
        0 <= lead(row) <= row.len(),
        forall|j: int| 0 <= j < lead(row) ==> row[j] == Bit::Off,
        lead(row) < row.len() ==> row[lead(row)] == Bit::On,
        lead(row) == row.len() <==> is_zero(row),
{
    lemma_first_on_from(row, 0);
}

/// A row whose entries before `k` are `Off` and whose entry `k` is `On` leads at `k`.
pub proof fn lemma_lead_is(row: Seq<Bit>, k: int)
    requires
        0 <= k <= row.len(),
        forall|j: int| 0 <= j < k ==> row[j] == Bit::Off,
        k < row.len() ==> row[k] == Bit::On,
    ensures
        lead(row) == k,
{
    lemma_first_on_from_unique(row, 0, k);
}

/// The inner product is additive in its first argument.
pub proof fn lemma_dot_upto_xor(a: Seq<Bit>, b: Seq<Bit>, v: Seq<Bit>, n: nat)
    requires
        a.len() == b.len(),
        n <= a.len(),
    ensures
        dot_upto(xor_rows(a, b), v, n) == dot_upto(a, v, n).xor(dot_upto(b, v, n)),
    decreases n,
{
    if n > 0 {
        lemma_dot_upto_xor(a, b, v, (n - 1) as nat);
    }
}

/// The inner product is additive in its first argument.
pub proof fn lemma_dot_xor(a: Seq<Bit>, b: Seq<Bit>, v: Seq<Bit>)
    requires
        a.len() == b.len(),
    ensures
        dot(xor_rows(a, b), v) == dot(a, v).xor(dot(b, v)),
{
    lemma_dot_upto_xor(a, b, v, a.len());
}

} // verus!
