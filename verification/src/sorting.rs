//! Stable sorting.

use crate::branch::BranchInfo;
use itertools::Itertools;
use vstd::prelude::*;
use vstd::relations::{sorted_by, total_ordering};
use vstd::seq_lib::lemma_sorted_unique;
use vstd::set_lib::{lemma_int_range, lemma_subset_equality, set_int_range};

verus! {

/// Whether position `a` comes before position `b` once positions are arranged by key, positions
/// of equal keys in their own order.
pub open spec fn precedes(keys: Seq<(int, int)>, a: int, b: int) -> bool {
    ||| keys[a].0 < keys[b].0
    ||| keys[a].0 == keys[b].0 && keys[a].1 < keys[b].1
    ||| keys[a] == keys[b] && a < b
}

/// Whether `order` lists the positions of `keys`, each once, by key, positions of equal keys in
/// their own order.
pub open spec fn is_stable_order(keys: Seq<(int, int)>, order: Seq<int>) -> bool {
    &&& order.len() == keys.len()
    &&& forall|i: int| 0 <= i < order.len() ==> 0 <= #[trigger] order[i] < keys.len()
    &&& forall|i: int, j: int|
        #![trigger order[i], order[j]]
        0 <= i < j < order.len() ==> precedes(keys, order[i], order[j])
}

/// The positions of `keys`, arranged by key, positions of equal keys in their own order.
pub open spec fn stable_order(keys: Seq<(int, int)>) -> Seq<int> {
    choose|order: Seq<int>| is_stable_order(keys, order)
}

/// The elements of `items` that `order` lists, in that order.
pub open spec fn arranged<T>(items: Seq<T>, order: Seq<int>) -> Seq<T> {
    order.map_values(|i: int| items[i])
}

/// Whether `sorted` holds what `items` holds, rearranged by the keys of the items, items of equal
/// keys in the order in which they stand in `items`.
pub open spec fn is_stable_sort<T>(items: Seq<T>, keys: Seq<(int, int)>, sorted: Seq<T>) -> bool {
    exists|order: Seq<int>| #[trigger]
        is_stable_order(keys, order) && sorted == arranged(items, order)
}

/// The keys of keyed items.
pub open spec fn item_keys<T>(items: Seq<((i32, i32), T)>) -> Seq<(int, int)> {
    items.map_values(|item: ((i32, i32), T)| (item.0.0 as int, item.0.1 as int))
}

/// Sorts keyed items with `Itertools::sorted_by_key`, which collects the items and sorts them
/// with the stable `slice::sort_by_key`: what comes out is a rearrangement of the items by key,
/// items of equal keys in the order in which they came.
#[verifier::external_body]
pub(crate) fn sorted_by_key<T>(items: Vec<((i32, i32), T)>) -> (sorted: Vec<((i32, i32), T)>)
    ensures
        is_stable_sort(items@, item_keys(items@), sorted@),
{
    items.into_iter().sorted_by_key(|item| item.0).collect()
}

/// The keys by which branches are sorted: persistence first, merged branches before others.
pub open spec fn branch_keys(branches: Seq<BranchInfo>) -> Seq<(int, int)> {
    branches.map_values(
        |branch: BranchInfo|
            (
                branch.persistence as int,
                if branch.is_merged {
                    0int
                } else {
                    1int
                },
            ),
    )
}

/// The key by which a branch is sorted.
fn branch_key(branch: &BranchInfo) -> (key: (u8, bool))
    ensures
        key == (branch.persistence, !branch.is_merged),
{
    (branch.persistence, !branch.is_merged)
}

/// Sorts branches in place with the stable `slice::sort_by_cached_key`: what remains is a
/// rearrangement of the branches by persistence and by `!is_merged`, `false` before `true`,
/// branches of equal keys in the order in which they stood.
#[verifier::external_body]
pub(crate) fn sort_by_cached_key(branches: &mut Vec<BranchInfo>)
    ensures
        is_stable_sort(old(branches)@, branch_keys(old(branches)@), final(branches)@),
{
    branches.sort_by_cached_key(branch_key);
}

spec fn ascending(keys: Seq<(int, int)>) -> spec_fn(int, int) -> bool {
    |a: int, b: int| a == b || precedes(keys, a, b)
}

spec fn positions(len: nat) -> Seq<int> {
    Seq::new(len, |i: int| i)
}

/// A sequence that lists distinct positions below its length lists all of them.
proof fn lemma_distinct_positions(order: Seq<int>)
    requires
        order.no_duplicates(),
        forall|i: int| 0 <= i < order.len() ==> 0 <= #[trigger] order[i] < order.len(),
    ensures
        order.to_multiset() == positions(order.len()).to_multiset(),
{
    broadcast use vstd::seq_lib::group_to_multiset_ensures;

    let all = positions(order.len());
    order.unique_seq_to_set();
    lemma_int_range(0, order.len() as int);
    lemma_subset_equality(order.to_set(), set_int_range(0, order.len() as int));
    order.lemma_multiset_has_no_duplicates();
    all.lemma_multiset_has_no_duplicates();
    assert forall|x: int| #[trigger] order.to_multiset().count(x) == all.to_multiset().count(x) by {
        if 0 <= x < order.len() {
            assert(all[x] == x);
            assert(order.to_set().contains(x));
            assert(order.to_multiset().contains(x));
            assert(all.to_multiset().contains(x));
        } else {
            assert(!order.contains(x));
            assert(!all.contains(x));
        }
    }
    assert(order.to_multiset() =~= all.to_multiset());
}

/// There is an order by key of the positions of any keys.
pub proof fn lemma_stable_order(keys: Seq<(int, int)>)
    ensures
        is_stable_order(keys, stable_order(keys)),
{
    broadcast use vstd::seq_lib::group_to_multiset_ensures;

    let leq = ascending(keys);
    let all = positions(keys.len());
    let order = all.sort_by(leq);
    assert(total_ordering(leq));
    all.lemma_sort_by_ensures(leq);
    all.lemma_multiset_has_no_duplicates();
    order.lemma_multiset_has_no_duplicates_conv();
    assert(order.len() == order.to_multiset().len());
    assert(all.len() == all.to_multiset().len());
    assert forall|i: int| 0 <= i < order.len() implies 0 <= #[trigger] order[i] < keys.len() by {
        assert(order.contains(order[i]));
        assert(all.contains(order[i]));
    }
    assert forall|i: int, j: int|
        #![trigger order[i], order[j]]
        0 <= i < j < order.len() implies precedes(keys, order[i], order[j]) by {
        assert(leq(order[i], order[j]));
    }
    assert(is_stable_order(keys, order));
}

/// There is only one order by key of the positions of any keys.
pub proof fn lemma_stable_order_unique(keys: Seq<(int, int)>, order: Seq<int>)
    requires
        is_stable_order(keys, order),
    ensures
        order == stable_order(keys),
{
    let leq = ascending(keys);
    let other = stable_order(keys);
    lemma_stable_order(keys);
    assert(total_ordering(leq));
    lemma_stable_order_distinct(keys, order);
    lemma_stable_order_distinct(keys, other);
    lemma_distinct_positions(order);
    lemma_distinct_positions(other);
    assert(sorted_by(order, leq));
    assert(sorted_by(other, leq));
    lemma_sorted_unique(order, other, leq);
}

/// An order by key lists no position twice.
pub proof fn lemma_stable_order_distinct(keys: Seq<(int, int)>, order: Seq<int>)
    requires
        is_stable_order(keys, order),
    ensures
        order.no_duplicates(),
{
    assert forall|i: int, j: int|
        0 <= i < order.len() && 0 <= j < order.len() && i != j implies order[i] != order[j] by {
        if i < j {
            assert(precedes(keys, order[i], order[j]));
        } else {
            assert(precedes(keys, order[j], order[i]));
        }
    }
}

/// An order by key lists every position.
pub proof fn lemma_stable_order_complete(keys: Seq<(int, int)>, order: Seq<int>, position: int)
    requires
        is_stable_order(keys, order),
        0 <= position < keys.len(),
    ensures
        order.contains(position),
{
    broadcast use vstd::seq_lib::group_to_multiset_ensures;

    lemma_stable_order_distinct(keys, order);
    lemma_distinct_positions(order);
    assert(positions(order.len())[position] == position);
    assert(positions(order.len()).to_multiset().contains(position));
    assert(order.to_multiset().contains(position));
}

} // verus!
