//! What holds of every store, whatever was filed in it.

use vstd::prelude::*;
use vstd::arithmetic::div_mod::{
    lemma_fundamental_div_mod, lemma_mod_bound, lemma_mod_equivalence, lemma_small_mod,
};
use vstd::seq_lib::{lemma_multiset_commutative, to_multiset_build};
use crate::disperse::{indices, lemma_dispersed_keeps_items, lemma_dispersed_of_own_slots};
use crate::groups::{
    built, flat, gathered, inserted, inserted_all, key_index, keys_of, lemma_flat_joined,
    lemma_flat_len, lemma_flat_opened, lemma_key_index, sizes_of, well_grouped, Groups,
};
use crate::jitter::{jittered_slots, lemma_jittered_slots_fit, radius_of, seeded_draws};
use crate::position::{lemma_ring_slots_fit, ring_rule, ring_slot_of, ring_slots, spread_of};
use crate::sizes::{
    group_values, has_empty_group, item_values_upto, lemma_count_within_total, total_of,
};
use crate::store::{drawn_order, jittered_order, ring_order};

verus! {

/// The keys of the entries, in the order in which they were filed.
pub open spec fn entry_keys<K, T>(entries: Seq<(K, T)>) -> Seq<K> {
    entries.map_values(|e: (K, T)| e.0)
}

/// The items of the entries, in the order in which they were filed.
pub open spec fn entry_items<K, T>(entries: Seq<(K, T)>) -> Seq<T> {
    entries.map_values(|e: (K, T)| e.1)
}

/// Filing an item keeps the groups well grouped, adds the item to the
/// items and the key to the keys, and takes nothing away.
pub proof fn law_insert<K, T>(groups: Groups<K, T>, key: K, item: T)
    requires
        well_grouped(groups),
    ensures
        well_grouped(inserted(groups, key, item)),
        flat(inserted(groups, key, item)).to_multiset() == flat(groups).to_multiset().insert(item),
        flat(inserted(groups, key, item)).len() == flat(groups).len() + 1,
        keys_of(inserted(groups, key, item)).to_set() == keys_of(groups).to_set().insert(key),
{
    let after = inserted(groups, key, item);
    lemma_key_index(groups, key);
    match key_index(groups, key) {
        Some(i) => {
            lemma_flat_joined(groups, i, item);
            assert(keys_of(after) =~= keys_of(groups));
            assert(keys_of(groups)[i] == key);
            assert(keys_of(groups).to_set().insert(key) =~= keys_of(groups).to_set());
            assert forall|t: int| 0 <= t < after.len() implies sizes_of(after)[t] != 0 by {
                assert(sizes_of(groups)[t] != 0);
            }
        },
        None => {
            lemma_flat_opened(groups, key, item);
            to_multiset_build(flat(groups), item);
            assert(keys_of(after) =~= keys_of(groups).push(key));
            keys_of(groups).lemma_push_to_set_commute(key);
            assert forall|t: int| 0 <= t < after.len() implies sizes_of(after)[t] != 0 by {
                if t < groups.len() {
                    assert(sizes_of(groups)[t] != 0);
                }
            }
            assert forall|a: int, b: int|
                0 <= a < keys_of(after).len() && 0 <= b < keys_of(after).len() && a
                    != b implies keys_of(after)[a] != keys_of(after)[b] by {
                if a < groups.len() {
                    assert(keys_of(groups)[a] == groups[a].0);
                }
                if b < groups.len() {
                    assert(keys_of(groups)[b] == groups[b].0);
                }
            }
        },
    }
}

/// Whatever is filed, in whatever order: the store is well grouped, it
/// holds the filed items and no others, each as often as it was filed,
/// and its keys are the filed keys.
pub proof fn law_built<K, T>(entries: Seq<(K, T)>)
    ensures
        well_grouped(built(entries)),
        flat(built(entries)).to_multiset() == entry_items(entries).to_multiset(),
        flat(built(entries)).len() == entries.len(),
        keys_of(built(entries)).to_set() == entry_keys(entries).to_set(),
    decreases entries.len(),
{
    if entries.len() == 0 {
        assert(flat(built(entries)) =~= entry_items(entries));
        assert(keys_of(built(entries)) =~= entry_keys(entries));
    } else {
        let rest = entries.drop_last();
        let (key, item) = entries.last();
        law_built(rest);
        law_insert(built(rest), key, item);
        assert(entry_items(entries) =~= entry_items(rest).push(item));
        to_multiset_build(entry_items(rest), item);
        assert(entry_keys(entries) =~= entry_keys(rest).push(key));
        entry_keys(rest).lemma_push_to_set_commute(key);
    }
}

/// Filing a batch keeps the groups well grouped, adds its items to the
/// items, and takes nothing away.
pub proof fn law_insert_all<K, T>(groups: Groups<K, T>, key: K, items: Seq<T>)
    requires
        well_grouped(groups),
    ensures
        well_grouped(inserted_all(groups, key, items)),
        flat(inserted_all(groups, key, items)).to_multiset() == flat(groups).to_multiset().add(
            items.to_multiset(),
        ),
        flat(inserted_all(groups, key, items)).len() == flat(groups).len() + items.len(),
    decreases items.len(),
{
    broadcast use vstd::multiset::group_multiset_axioms;

    if items.len() == 0 {
        assert(flat(groups) + items =~= flat(groups));
        lemma_multiset_commutative(flat(groups), items);
    } else {
        let rest = items.drop_last();
        let last = items.last();
        law_insert_all(groups, key, rest);
        law_insert(inserted_all(groups, key, rest), key, last);
        assert(rest.push(last) =~= items);
        to_multiset_build(rest, last);
        assert(flat(groups).to_multiset().add(rest.to_multiset()).insert(last) =~= flat(
            groups,
        ).to_multiset().add(rest.to_multiset().insert(last)));
    }
}

/// Whatever batches are filed: the store is well grouped and holds the
/// items of the batches and no others, each as often as it came.
pub proof fn law_gathered<K, T>(batches: Groups<K, T>)
    ensures
        well_grouped(gathered(batches)),
        flat(gathered(batches)).to_multiset() == flat(batches).to_multiset(),
        flat(gathered(batches)).len() == flat(batches).len(),
    decreases batches.len(),
{
    if batches.len() == 0 {
        assert(gathered(batches) =~= batches);
        assert(keys_of(batches) =~= Seq::<K>::empty());
    } else {
        let rest = batches.drop_last();
        let (key, items) = batches.last();
        law_gathered(rest);
        law_insert_all(gathered(rest), key, items);
        lemma_multiset_commutative(flat(rest), items);
    }
}

/// Count preservation: after any run of insertions the store lists as
/// many items as were filed, and a shuffle hands out as many, each filed
/// item as often as it was filed.
pub proof fn law_count_preservation<K, T>(entries: Seq<(K, T)>)
    ensures
        flat(built(entries)).len() == entries.len(),
        ring_order(built(entries)).len() == entries.len(),
        ring_order(built(entries)).to_multiset() == entry_items(entries).to_multiset(),
{
    law_built(entries);
    law_shuffle_keeps_items(built(entries));
}

/// Group accounting: after any run of insertions there are as many groups
/// as distinct keys were filed.
pub proof fn law_group_accounting<K, T>(entries: Seq<(K, T)>)
    ensures
        built(entries).len() == entry_keys(entries).to_set().len(),
{
    law_built(entries);
    keys_of(built(entries)).unique_seq_to_set();
}

/// A ring shuffle hands out the items of the store, each once.
pub proof fn law_shuffle_keeps_items<K, T>(groups: Groups<K, T>)
    requires
        !has_empty_group(sizes_of(groups)),
    ensures
        ring_order(groups).to_multiset() == flat(groups).to_multiset(),
        ring_order(groups).len() == flat(groups).len(),
{
    lemma_flat_len(groups);
    lemma_ring_slots_fit(sizes_of(groups));
    lemma_dispersed_keeps_items(flat(groups), ring_slots(sizes_of(groups)));
}

/// A jittered shuffle hands out the items of the store, each once,
/// whatever was drawn.
pub proof fn law_jitter_keeps_items<K, T>(
    groups: Groups<K, T>,
    fraction: (nat, nat),
    draws: Seq<nat>,
)
    requires
        !has_empty_group(sizes_of(groups)),
    ensures
        drawn_order(groups, fraction, draws).to_multiset() == flat(groups).to_multiset(),
        drawn_order(groups, fraction, draws).len() == flat(groups).len(),
{
    let sizes = sizes_of(groups);
    let radius = radius_of(total_of(sizes), fraction);
    lemma_flat_len(groups);
    lemma_jittered_slots_fit(sizes, radius, draws);
    lemma_dispersed_keeps_items(flat(groups), jittered_slots(sizes, radius, draws));
}

/// Determinism: two ring shuffles of one store hand out the same
/// sequence.
pub proof fn law_determinism<K, T>(groups: Groups<K, T>, first: Seq<T>, second: Seq<T>)
    requires
        first == ring_order(groups),
        second == ring_order(groups),
    ensures
        first == second,
{
}

/// Reproducibility under a seed: two jittered shuffles of one store with
/// one configuration and one seed hand out the same sequence, and with
/// any seed the items of the store, each once.
pub proof fn law_reproducible_under_seed<K, T>(
    groups: Groups<K, T>,
    fraction: (nat, nat),
    seed: u64,
    first: Seq<T>,
    second: Seq<T>,
)
    requires
        !has_empty_group(sizes_of(groups)),
        first == jittered_order(groups, fraction, seed),
        second == jittered_order(groups, fraction, seed),
    ensures
        first == second,
        first.to_multiset() == flat(groups).to_multiset(),
        first.len() == flat(groups).len(),
{
    let sizes = sizes_of(groups);
    let radius = radius_of(total_of(sizes), fraction);
    law_jitter_keeps_items(groups, fraction, seeded_draws(sizes, radius, seed));
}

/// The ring rule keeps the items of a group apart: no two of them share
/// a slot.
pub proof fn law_group_keeps_apart(total: nat, size: nat, i: nat, j1: nat, j2: nat)
    requires
        0 < size <= total,
        j1 < j2 < size,
    ensures
        ring_slot_of(total, spread_of(total, size), i, j1) != ring_slot_of(
            total,
            spread_of(total, size),
            i,
            j2,
        ),
{
    let step = spread_of(total, size);
    let near = i + j1 * step;
    let far = i + j2 * step;
    let gap = (j2 - j1) * step;
    lemma_fundamental_div_mod(total as int, size as int);
    lemma_mod_bound(total as int, size as int);
    assert(step >= 1) by (nonlinear_arith)
        requires
            total == size * step + total % size,
            0 <= total % size < size,
            size <= total,
            step >= 0,
    ;
    assert(0 < gap < total) by (nonlinear_arith)
        requires
            total == size * step + total % size,
            0 <= total % size,
            step >= 1,
            j1 < j2 < size,
            gap == (j2 - j1) * step,
    ;
    assert(far - near == gap) by (nonlinear_arith)
        requires
            near == i + j1 * step,
            far == i + j2 * step,
            gap == (j2 - j1) * step,
    ;
    lemma_mod_equivalence(far as int, near as int, total as int);
    lemma_small_mod(gap as nat, total);
}

/// The ring rule starts every group at the slot of its own number.
pub proof fn law_group_starts_at_its_number(sizes: Seq<nat>, i: nat, k: nat)
    requires
        !has_empty_group(sizes),
        i < sizes.len(),
    ensures
        ring_rule(sizes)(i, 0, k) == i,
{
    lemma_count_within_total(sizes);
    assert(0 * spread_of(total_of(sizes), sizes[i as int]) == 0) by (nonlinear_arith);
    lemma_small_mod(i, total_of(sizes));
}

/// A single group: the ring shuffle hands its items out in the order in
/// which they were filed.
pub proof fn law_single_group<K, T>(key: K, items: Seq<T>)
    requires
        items.len() > 0,
    ensures
        ring_order(seq![(key, items)]) == items,
{
    let groups = seq![(key, items)];
    let sizes = sizes_of(groups);
    let total = items.len();
    assert(sizes =~= seq![total]);
    assert(sizes.drop_last() =~= Seq::<nat>::empty());
    assert(total_of(sizes) == total) by {
        reveal_with_fuel(total_of, 2);
    }
    assert(groups.drop_last() =~= Seq::<(K, Seq<T>)>::empty());
    assert(flat(groups) =~= items) by {
        reveal_with_fuel(flat, 2);
    }
    let rule = ring_rule(sizes);
    assert(sizes.take(0) =~= Seq::<nat>::empty());
    assert(item_values_upto(sizes, rule, 1) =~= group_values(rule, 0, total, 0)) by {
        reveal_with_fuel(item_values_upto, 2);
    }
    assert forall|j: int| 0 <= j < total implies group_values(rule, 0, total, 0)[j] == j as nat by {
        assert(total / total == 1) by (nonlinear_arith)
            requires
                total > 0,
        ;
        assert((0 + j * 1) % (total as int) == j) by (nonlinear_arith)
            requires
                0 <= j < total,
        ;
    }
    assert(ring_slots(sizes) =~= indices(total));
    lemma_dispersed_of_own_slots(items);
}

/// Where every entry is filed under one key, the store holds one group,
/// and a ring shuffle hands the items out in the order in which they were
/// filed.
pub proof fn law_single_key<K, T>(entries: Seq<(K, T)>, key: K)
    requires
        entries.len() > 0,
        forall|e: int| 0 <= e < entries.len() ==> (#[trigger] entries[e]).0 == key,
    ensures
        built(entries) == seq![(key, entry_items(entries))],
        ring_order(built(entries)) == entry_items(entries),
    decreases entries.len(),
{
    let rest = entries.drop_last();
    let item = entries.last().1;
    let one = seq![(key, entry_items(rest))];
    if rest.len() == 0 {
        assert(built(rest) =~= Seq::<(K, Seq<T>)>::empty());
        assert(key_index(built(rest), key) is None);
        assert(built(entries) =~= seq![(key, seq![item])]);
        assert(entry_items(entries) =~= seq![item]);
    } else {
        law_single_key(rest, key);
        assert(one.drop_last() =~= Seq::<(K, Seq<T>)>::empty());
        assert(key_index(one, key) == Some(0int)) by {
            reveal_with_fuel(key_index, 2);
        }
        assert(entry_items(entries) =~= entry_items(rest).push(item));
        assert(built(entries) =~= seq![(key, entry_items(entries))]);
    }
    law_single_group(key, entry_items(entries));
}

/// An empty store: the ring shuffle hands out nothing.
pub proof fn law_empty_store<K, T>(groups: Groups<K, T>)
    requires
        !has_empty_group(sizes_of(groups)),
        flat(groups).len() == 0,
    ensures
        ring_order(groups) == Seq::<T>::empty(),
        groups.len() == 0,
{
    law_shuffle_keeps_items(groups);
    assert(ring_order(groups) =~= Seq::<T>::empty());
    lemma_flat_len(groups);
    lemma_count_within_total(sizes_of(groups));
}

} // verus!
