//! Vectors of variables in ascending order.

use std::collections::{HashMap, HashSet};
use vstd::prelude::*;
use vstd::std_specs::iter::IteratorSpec;

verus! {

broadcast use vstd::std_specs::hash::group_hash_axioms;

/// The entries of `s` strictly increase.
pub open spec fn ascending(s: Seq<usize>) -> bool {
    forall|i: int, j: int| 0 <= i < j < s.len() ==> s[i] < s[j]
}

/// The members of `s` below `upto`, in ascending order.
pub open spec fn listed(s: Set<usize>, upto: nat) -> Seq<usize>
    decreases upto,
{
    if upto == 0 {
        Seq::empty()
    } else if s.contains((upto - 1) as usize) {
        listed(s, (upto - 1) as nat).push((upto - 1) as usize)
    } else {
        listed(s, (upto - 1) as nat)
    }
}

/// The members of `s`, in ascending order.
pub open spec fn in_order(s: Set<usize>) -> Seq<usize> {
    listed(s, (usize::MAX + 1) as nat)
}

/// The list of the members below `upto` is in strictly ascending order and
/// holds exactly those members.
pub proof fn lemma_listed(s: Set<usize>, upto: nat)
    requires
        upto <= usize::MAX + 1,
    ensures
        ascending(listed(s, upto)),
        forall|k: int| 0 <= k < listed(s, upto).len() ==> #[trigger] listed(s, upto)[k] < upto,
        forall|x: usize| #[trigger] listed(s, upto).contains(x) <==> x < upto && s.contains(x),
    decreases upto,
{
    if upto > 0 {
        let fewer = listed(s, (upto - 1) as nat);
        let all = listed(s, upto);
        let last = (upto - 1) as usize;
        lemma_listed(s, (upto - 1) as nat);
        assert(all == if s.contains(last) {
            fewer.push(last)
        } else {
            fewer
        });
        assert forall|k: int, l: int| 0 <= k < l < all.len() implies all[k] < all[l] by {
            if l < fewer.len() {
                assert(fewer[k] < fewer[l]);
            } else {
                assert(fewer[k] < upto - 1);
            }
        }
        assert forall|x: usize| #[trigger] all.contains(x) <==> x < upto && s.contains(x) by {
            if all.contains(x) {
                let k = choose|k: int| 0 <= k < all.len() && all[k] == x;
                if k < fewer.len() {
                    assert(fewer[k] == x);
                    assert(fewer.contains(x));
                }
            }
            if fewer.contains(x) {
                let k = choose|k: int| 0 <= k < fewer.len() && fewer[k] == x;
                assert(all[k] == x);
            }
            if x == last && s.contains(x) {
                assert(all[all.len() - 1] == x);
            }
        }
    }
}

/// A list in strictly ascending order holds nothing twice.
pub proof fn lemma_ascending_is_distinct(s: Seq<usize>)
    requires
        ascending(s),
    ensures
        s.no_duplicates(),
{
    assert forall|i: int, j: int| 0 <= i < s.len() && 0 <= j < s.len() && i != j implies s[i]
        != s[j] by {
        if i < j {
            assert(s[i] < s[j]);
        } else {
            assert(s[j] < s[i]);
        }
    }
}

/// Two lists in strictly ascending order that hold the same numbers are the
/// same list.
pub proof fn lemma_same_order(one: Seq<usize>, other: Seq<usize>)
    requires
        ascending(one),
        ascending(other),
        forall|x: usize| one.contains(x) <==> other.contains(x),
    ensures
        one == other,
    decreases one.len(),
{
    if one.len() == 0 {
        if other.len() > 0 {
            assert(other.contains(other[0]));
        }
        assert(one =~= other);
    } else {
        let top = one.last();
        assert(one.contains(top)) by {
            assert(one[one.len() - 1] == top);
        }
        let at = choose|at: int| 0 <= at < other.len() && other[at] == top;
        assert(other.contains(other.last())) by {
            assert(other[other.len() - 1] == other.last());
        }
        let back = choose|back: int| 0 <= back < one.len() && one[back] == other.last();
        assert(other.last() == top) by {
            if back < one.len() - 1 {
                assert(one[back] < one[one.len() - 1]);
            }
            if at < other.len() - 1 {
                assert(other[at] < other[other.len() - 1]);
            }
        }
        let front = one.drop_last();
        let rest = other.drop_last();
        assert forall|x: usize| front.contains(x) <==> rest.contains(x) by {
            if front.contains(x) {
                let k = choose|k: int| 0 <= k < front.len() && front[k] == x;
                assert(one[k] == x && one[k] < one[one.len() - 1]);
                assert(one.contains(x));
                let l = choose|l: int| 0 <= l < other.len() && other[l] == x;
                assert(rest[l] == x);
            }
            if rest.contains(x) {
                let l = choose|l: int| 0 <= l < rest.len() && rest[l] == x;
                assert(other[l] == x && other[l] < other[other.len() - 1]);
                assert(other.contains(x));
                let k = choose|k: int| 0 <= k < one.len() && one[k] == x;
                assert(front[k] == x);
            }
        }
        lemma_same_order(front, rest);
        assert(one =~= front.push(top));
        assert(other =~= rest.push(top));
    }
}

/// A list of the members of `s` in ascending order is the list of its
/// members in order.
pub proof fn lemma_in_order(order: Seq<usize>, s: Set<usize>)
    requires
        lists_in_order(order, s),
    ensures
        in_order(s) == order,
{
    lemma_listed(s, (usize::MAX + 1) as nat);
    lemma_same_order(in_order(s), order);
}

/// `order` lists the members of `members` in ascending order, each once.
pub open spec fn lists_in_order(order: Seq<usize>, members: Set<usize>) -> bool {
    &&& ascending(order)
    &&& forall|x: usize| order.contains(x) <==> members.contains(x)
}

/// Puts `x`, which `sorted` does not hold yet, into `sorted` at its place
/// in the ascending order.
pub fn insert_ascending(sorted: &mut Vec<usize>, x: usize)
    requires
        ascending(old(sorted)@),
        !old(sorted)@.contains(x),
    ensures
        ascending(final(sorted)@),
        forall|y: usize| final(sorted)@.contains(y) <==> old(sorted)@.contains(y) || y == x,
{
    let mut at: usize = 0;
    while at < sorted.len() && sorted[at] < x
        invariant
            at <= sorted@.len(),
            sorted@ == old(sorted)@,
            forall|k: int| 0 <= k < at ==> sorted@[k] < x,
        decreases sorted@.len() - at,
    {
        at += 1;
    }
    let ghost before = sorted@;
    sorted.insert(at, x);
    proof {
        assert forall|k: int| at <= k < before.len() implies before[k] > x by {
            assert(before[at as int] >= x);
            assert(before.contains(before[k]));
            if k > at {
                assert(before[at as int] < before[k]);
            } else {
                assert(before.contains(before[at as int]));
            }
        }
        assert forall|i: int, j: int| 0 <= i < j < sorted@.len() implies sorted@[i] < sorted@[j] by {
            if j < at {
                assert(before[i] < before[j]);
            } else if i > at {
                assert(before[i - 1] < before[j - 1]);
            } else if i < at && j > at {
                assert(before[i] < x);
                assert(before[j - 1] > x);
            }
        }
        assert forall|y: usize| sorted@.contains(y) <==> before.contains(y) || y == x by {
            if sorted@.contains(y) {
                let k = choose|k: int| 0 <= k < sorted@.len() && sorted@[k] == y;
                if k < at {
                    assert(before[k] == y);
                } else if k > at {
                    assert(before[k - 1] == y);
                }
            }
            if before.contains(y) {
                let k = choose|k: int| 0 <= k < before.len() && before[k] == y;
                if k < at {
                    assert(sorted@[k] == y);
                } else {
                    assert(sorted@[k + 1] == y);
                }
            }
            if y == x {
                assert(sorted@[at as int] == y);
            }
        }
    }
}

/// `order` holds exactly the numbers among the first `upto` of `members`.
pub open spec fn holds_first(order: Seq<usize>, members: Seq<&usize>, upto: int) -> bool {
    forall|y: usize|
        order.contains(y) <==> exists|k: int| 0 <= k < upto && *(#[trigger] members[k]) == y
}

/// Of members that are all different, the next is not among those before
/// it.
proof fn lemma_next_is_new(order: Seq<usize>, members: Seq<&usize>, next: int)
    requires
        members.no_duplicates(),
        0 <= next < members.len(),
        holds_first(order, members, next),
    ensures
        !order.contains(*members[next]),
{
    if order.contains(*members[next]) {
        let k = choose|k: int| 0 <= k < next && *(#[trigger] members[k]) == *members[next];
        assert(members[k] == members[next]);
    }
}

/// With the next member put in, `order` holds one member more.
proof fn lemma_holds_next(before: Seq<usize>, after: Seq<usize>, members: Seq<&usize>, next: int)
    requires
        0 <= next < members.len(),
        holds_first(before, members, next),
        forall|y: usize| after.contains(y) <==> before.contains(y) || y == *members[next],
    ensures
        holds_first(after, members, next + 1),
{
    assert forall|y: usize|
        after.contains(y) <==> exists|k: int|
            0 <= k < next + 1 && *(#[trigger] members[k]) == y by {
        if y == *members[next] {
            assert(*members[next] == y);
        }
        if before.contains(y) {
            let k = choose|k: int| 0 <= k < next && *(#[trigger] members[k]) == y;
            assert(*members[k] == y);
        }
    }
}

/// Once `order` holds every member, it holds exactly the set that the
/// members make up.
proof fn lemma_holds_all(order: Seq<usize>, members: Seq<&usize>, set: Set<usize>)
    requires
        holds_first(order, members, members.len() as int),
        members.unref().to_set() == set,
    ensures
        forall|y: usize| order.contains(y) <==> set.contains(y),
{
    assert forall|y: usize| order.contains(y) <==> set.contains(y) by {
        if set.contains(y) {
            assert(members.unref().to_set().contains(y));
            let k = choose|k: int| 0 <= k < members.unref().len() && members.unref()[k] == y;
            assert(*members[k] == y);
        }
        if order.contains(y) {
            let k = choose|k: int| 0 <= k < members.len() && *(#[trigger] members[k]) == y;
            assert(members.unref()[k] == y);
            assert(members.unref().to_set().contains(y));
        }
    }
}

/// Lists the members of `vars` in ascending order.
pub fn ascending_members(vars: &HashSet<usize>) -> (order: Vec<usize>)
    ensures
        lists_in_order(order@, vars@),
{
    let mut order: Vec<usize> = Vec::new();
    let ghost members = vars.iter().remaining();
    proof {
        vstd::std_specs::hash::axiom_spec_hash_keys_iter(vars);
    }
    for x in it: vars.iter()
        invariant
            it.seq() == members,
            members.no_duplicates(),
            ascending(order@),
            holds_first(order@, members, it.index()),
    {
        let ghost before = order@;
        proof {
            lemma_next_is_new(before, members, it.index());
        }
        insert_ascending(&mut order, *x);
        proof {
            lemma_holds_next(before, order@, members, it.index());
        }
    }
    proof {
        lemma_holds_all(order@, members, vars@);
    }
    order
}

/// Lists the keys of `values` in ascending order.
pub fn ascending_keys<V>(values: &HashMap<usize, V>) -> (order: Vec<usize>)
    ensures
        lists_in_order(order@, values@.dom()),
{
    let mut order: Vec<usize> = Vec::new();
    let ghost members = values.keys().remaining();
    proof {
        vstd::std_specs::hash::axiom_spec_keys_iter(values);
    }
    for x in it: values.keys()
        invariant
            it.seq() == members,
            members.no_duplicates(),
            ascending(order@),
            holds_first(order@, members, it.index()),
    {
        let ghost before = order@;
        proof {
            lemma_next_is_new(before, members, it.index());
        }
        insert_ascending(&mut order, *x);
        proof {
            lemma_holds_next(before, order@, members, it.index());
        }
    }
    proof {
        lemma_holds_all(order@, members, values@.dom());
    }
    order
}

} // verus!
