//! The mathematical model of a store: its groups, and what filing an
//! item does to them.

use vstd::prelude::*;
use vstd::seq_lib::{lemma_multiset_commutative, to_multiset_build};
use crate::sizes::{has_empty_group, total_of};

verus! {

/// The groups of a store in the order in which their keys first came in,
/// each with its items in the order in which they came in.
pub type Groups<K, T> = Seq<(K, Seq<T>)>;

/// All items, group after group.
pub open spec fn flat<K, T>(groups: Groups<K, T>) -> Seq<T>
    decreases groups.len(),
{
    if groups.len() == 0 {
        Seq::empty()
    } else {
        flat(groups.drop_last()) + groups.last().1
    }
}

/// The number of items of each group.
pub open spec fn sizes_of<K, T>(groups: Groups<K, T>) -> Seq<nat> {
    groups.map_values(|g: (K, Seq<T>)| g.1.len())
}

/// The keys of the groups, in group order.
pub open spec fn keys_of<K, T>(groups: Groups<K, T>) -> Seq<K> {
    groups.map_values(|g: (K, Seq<T>)| g.0)
}

/// What a store keeps of its groups: none is empty, and no key heads two.
pub open spec fn well_grouped<K, T>(groups: Groups<K, T>) -> bool {
    &&& !has_empty_group(sizes_of(groups))
    &&& keys_of(groups).no_duplicates()
}

/// The index of the group filed under `key`, if there is one.
pub open spec fn key_index<K, T>(groups: Groups<K, T>, key: K) -> Option<int>
    decreases groups.len(),
{
    if groups.len() == 0 {
        None
    } else {
        match key_index(groups.drop_last(), key) {
            Some(i) => Some(i),
            None => if groups.last().0 == key {
                Some(groups.len() - 1)
            } else {
                None
            },
        }
    }
}

/// The groups after `item` has joined group `i`.
pub open spec fn joined<K, T>(groups: Groups<K, T>, i: int, item: T) -> Groups<K, T>
    recommends
        0 <= i < groups.len(),
{
    groups.update(i, (groups[i].0, groups[i].1.push(item)))
}

/// The groups after `item` has opened a new group under `key`.
pub open spec fn opened<K, T>(groups: Groups<K, T>, key: K, item: T) -> Groups<K, T> {
    groups.push((key, seq![item]))
}

/// The groups after `item` has been filed under `key`: it joins the group
/// of that key, or opens one behind the others.
pub open spec fn inserted<K, T>(groups: Groups<K, T>, key: K, item: T) -> Groups<K, T> {
    match key_index(groups, key) {
        Some(i) => joined(groups, i, item),
        None => opened(groups, key, item),
    }
}

/// The groups that a run of insertions builds, starting from nothing.
pub open spec fn built<K, T>(entries: Seq<(K, T)>) -> Groups<K, T>
    decreases entries.len(),
{
    if entries.len() == 0 {
        Seq::empty()
    } else {
        inserted(built(entries.drop_last()), entries.last().0, entries.last().1)
    }
}

/// The groups after the `items` have joined group `i`.
pub open spec fn extended<K, T>(groups: Groups<K, T>, i: int, items: Seq<T>) -> Groups<K, T>
    recommends
        0 <= i < groups.len(),
{
    groups.update(i, (groups[i].0, groups[i].1 + items))
}

/// The groups after the `items` have been filed under `key`, one after
/// the other.
pub open spec fn inserted_all<K, T>(groups: Groups<K, T>, key: K, items: Seq<T>) -> Groups<K, T>
    decreases items.len(),
{
    if items.len() == 0 {
        groups
    } else {
        inserted(inserted_all(groups, key, items.drop_last()), key, items.last())
    }
}

/// The groups that a run of batches builds, starting from nothing: each
/// batch files its items under its key.
pub open spec fn gathered<K, T>(batches: Groups<K, T>) -> Groups<K, T>
    decreases batches.len(),
{
    if batches.len() == 0 {
        Seq::empty()
    } else {
        inserted_all(gathered(batches.drop_last()), batches.last().0, batches.last().1)
    }
}

/// The items of the first `n + 1` groups are those of the first `n`
/// followed by those of group `n`.
pub proof fn lemma_flat_step<K, T>(groups: Groups<K, T>, n: int)
    requires
        0 <= n < groups.len(),
    ensures
        flat(groups.take(n + 1)) == flat(groups.take(n)) + groups[n].1,
{
    assert(groups.take(n + 1).drop_last() =~= groups.take(n));
}

/// The first `n` groups hold no more items than all groups.
pub proof fn lemma_flat_prefix<K, T>(groups: Groups<K, T>, n: int)
    requires
        0 <= n <= groups.len(),
    ensures
        flat(groups.take(n)).len() <= flat(groups).len(),
    decreases groups.len() - n,
{
    if n == groups.len() {
        assert(groups.take(n) =~= groups);
    } else {
        lemma_flat_prefix(groups, n + 1);
        lemma_flat_step(groups, n);
    }
}

/// There are as many items as the group sizes add up to.
pub proof fn lemma_flat_len<K, T>(groups: Groups<K, T>)
    ensures
        flat(groups).len() == total_of(sizes_of(groups)),
    decreases groups.len(),
{
    if groups.len() > 0 {
        lemma_flat_len(groups.drop_last());
        assert(sizes_of(groups).drop_last() =~= sizes_of(groups.drop_last()));
    }
}

/// What `key_index` finds is the first group filed under the key, and it
/// finds none only where there is none.
pub proof fn lemma_key_index<K, T>(groups: Groups<K, T>, key: K)
    ensures
        match key_index(groups, key) {
            Some(i) => 0 <= i < groups.len() && groups[i].0 == key && forall|j: int|
                0 <= j < i ==> (#[trigger] groups[j]).0 != key,
            None => forall|j: int| 0 <= j < groups.len() ==> (#[trigger] groups[j]).0 != key,
        },
    decreases groups.len(),
{
    if groups.len() > 0 {
        lemma_key_index(groups.drop_last(), key);
        assert forall|j: int| 0 <= j < groups.len() - 1 implies groups[j]
            == groups.drop_last()[j] by {}
    }
}

/// The first group filed under the key is the one that `key_index` finds.
pub proof fn lemma_key_index_is<K, T>(groups: Groups<K, T>, key: K, i: int)
    requires
        0 <= i < groups.len(),
        groups[i].0 == key,
        forall|j: int| 0 <= j < i ==> (#[trigger] groups[j]).0 != key,
    ensures
        key_index(groups, key) == Some(i),
{
    lemma_key_index(groups, key);
}

/// An item that opens a group comes last among all items.
pub proof fn lemma_flat_opened<K, T>(groups: Groups<K, T>, key: K, item: T)
    ensures
        flat(opened(groups, key, item)) == flat(groups).push(item),
{
    assert(opened(groups, key, item).drop_last() =~= groups);
    assert(flat(groups) + seq![item] =~= flat(groups).push(item));
}

/// An item that joins a group is one more item among the others, which
/// all stay.
pub proof fn lemma_flat_joined<K, T>(groups: Groups<K, T>, i: int, item: T)
    requires
        0 <= i < groups.len(),
    ensures
        flat(joined(groups, i, item)).to_multiset() == flat(groups).to_multiset().insert(item),
        flat(joined(groups, i, item)).len() == flat(groups).len() + 1,
    decreases groups.len(),
{
    broadcast use vstd::multiset::group_multiset_axioms;

    let after = joined(groups, i, item);
    let head = flat(groups.drop_last());
    let tail = groups.last().1;
    if i == groups.len() - 1 {
        assert(after.drop_last() =~= groups.drop_last());
        assert(head + tail.push(item) =~= (head + tail).push(item));
        to_multiset_build(head + tail, item);
    } else {
        lemma_flat_joined(groups.drop_last(), i, item);
        assert(after.drop_last() =~= joined(groups.drop_last(), i, item));
        let head_after = flat(after.drop_last());
        lemma_multiset_commutative(head_after, tail);
        lemma_multiset_commutative(head, tail);
        assert(head.to_multiset().insert(item).add(tail.to_multiset()) =~= head.to_multiset().add(
            tail.to_multiset(),
        ).insert(item));
    }
}

/// Items that open a group come last among all items.
pub proof fn lemma_flat_pushed<K, T>(groups: Groups<K, T>, key: K, items: Seq<T>)
    ensures
        flat(groups.push((key, items))) == flat(groups) + items,
{
    assert(groups.push((key, items)).drop_last() =~= groups);
}

/// Items that join a group are so many more items among the others,
/// which all stay.
pub proof fn lemma_flat_extended<K, T>(groups: Groups<K, T>, i: int, items: Seq<T>)
    requires
        0 <= i < groups.len(),
    ensures
        flat(extended(groups, i, items)).to_multiset() == flat(groups).to_multiset().add(
            items.to_multiset(),
        ),
        flat(extended(groups, i, items)).len() == flat(groups).len() + items.len(),
    decreases groups.len(),
{
    broadcast use vstd::multiset::group_multiset_axioms;

    let after = extended(groups, i, items);
    let head = flat(groups.drop_last());
    let tail = groups.last().1;
    if i == groups.len() - 1 {
        assert(after.drop_last() =~= groups.drop_last());
        assert(head + (tail + items) =~= (head + tail) + items);
        lemma_multiset_commutative(head + tail, items);
    } else {
        lemma_flat_extended(groups.drop_last(), i, items);
        assert(after.drop_last() =~= extended(groups.drop_last(), i, items));
        let head_after = flat(after.drop_last());
        lemma_multiset_commutative(head_after, tail);
        lemma_multiset_commutative(head, tail);
        assert(head.to_multiset().add(items.to_multiset()).add(tail.to_multiset())
            =~= head.to_multiset().add(tail.to_multiset()).add(items.to_multiset()));
    }
}

/// Filing items one after the other under one key appends them to the
/// group of that key, or opens one group that holds them all.
pub proof fn lemma_inserted_all<K, T>(groups: Groups<K, T>, key: K, items: Seq<T>)
    ensures
        inserted_all(groups, key, items) == if items.len() == 0 {
            groups
        } else {
            match key_index(groups, key) {
                Some(i) => extended(groups, i, items),
                None => groups.push((key, items)),
            }
        },
    decreases items.len(),
{
    if items.len() > 0 {
        let rest = items.drop_last();
        let last = items.last();
        let before = inserted_all(groups, key, rest);
        lemma_inserted_all(groups, key, rest);
        lemma_key_index(groups, key);
        match key_index(groups, key) {
            Some(i) => {
                if rest.len() > 0 {
                    lemma_key_index_is(before, key, i);
                }
                assert(groups[i].1 + rest + seq![last] =~= groups[i].1 + items);
                assert(groups[i].1.push(last) =~= groups[i].1 + seq![last]);
                assert((groups[i].1 + rest).push(last) =~= groups[i].1 + rest + seq![last]);
                assert(rest.len() == 0 ==> items =~= seq![last]);
                assert(inserted(before, key, last) =~= extended(groups, i, items));
            },
            None => {
                if rest.len() > 0 {
                    lemma_key_index_is(before, key, groups.len() as int);
                    assert(rest.push(last) =~= items);
                    assert(inserted(before, key, last) =~= groups.push((key, items)));
                } else {
                    assert(items =~= seq![last]);
                }
            },
        }
    }
}

} // verus!
