//! Slot assignment: where on the ring each item of each group is placed.
//!
//! The ring has one slot per item. Group `i` starts at slot `i` and steps
//! by its spread, the number of slots per item of the group, wrapping
//! around the ring.

use vstd::prelude::*;
use crate::disperse::slots_in_range;
use crate::error::ShuffleError;
use crate::sizes::{
    group_values, has_empty_group, item_values, item_values_upto, lemma_item_values_upto,
    lemma_size_within_total, lemma_total_prefix, lemma_total_step, nats, total_of,
};

verus! {

/// The spacing between consecutive items of a group of `size` items on a
/// ring of `total` slots.
pub open spec fn spread_of(total: nat, size: nat) -> nat
    recommends
        size > 0,
{
    total / size
}

/// The ring slot of item `j` of group `i`, for a group that steps by `spread`.
pub open spec fn ring_slot_of(total: nat, spread: nat, i: nat, j: nat) -> nat
    recommends
        total > 0,
{
    (i + j * spread) % total
}

/// The ring rule for groups of the given sizes: item `j` of group `i` is
/// placed by the spread of its group on a ring with a slot for every item.
pub open spec fn ring_rule(sizes: Seq<nat>) -> spec_fn(nat, nat, nat) -> nat {
    |i: nat, j: nat, k: nat|
        ring_slot_of(total_of(sizes), spread_of(total_of(sizes), sizes[i as int]), i, j)
}

/// The ring slot of every item, group after group and within a group in
/// item order, for groups of the given sizes.
pub open spec fn ring_slots(sizes: Seq<nat>) -> Seq<nat> {
    item_values(sizes, ring_rule(sizes))
}

/// Computes the spread of a group, refusing a group without items.
pub fn spread(total_items: usize, group_size: usize) -> (r: Result<usize, ShuffleError>)
    ensures
        match r {
            Ok(step) => group_size > 0 && step == spread_of(total_items as nat, group_size as nat),
            Err(e) => group_size == 0 && e == ShuffleError::EmptyGroup,
        },
{
    if group_size == 0 {
        Err(ShuffleError::EmptyGroup)
    } else {
        Ok(total_items / group_size)
    }
}

/// Computes the ring slot of item `j` of group `i`.
pub fn ring_slot(total_items: usize, spread: usize, i: usize, j: usize) -> (slot: usize)
    requires
        total_items > 0,
    ensures
        slot == ring_slot_of(total_items as nat, spread as nat, i as nat, j as nat),
        slot < total_items,
{
    assert(j * spread <= 0xffff_ffff_ffff_ffff * 0xffff_ffff_ffff_ffff) by (nonlinear_arith)
        requires
            j <= 0xffff_ffff_ffff_ffff,
            spread <= 0xffff_ffff_ffff_ffff,
    ;
    let steps: u128 = (j as u128) * (spread as u128);
    let place: u128 = (i as u128 + steps) % (total_items as u128);
    place as usize
}

/// Adds up the group sizes.
pub fn sum_sizes(sizes: &Vec<usize>) -> (total: usize)
    requires
        total_of(nats(sizes@)) <= usize::MAX,
    ensures
        total == total_of(nats(sizes@)),
{
    let ghost all = nats(sizes@);
    let mut total: usize = 0;
    let mut i: usize = 0;
    while i < sizes.len()
        invariant
            i <= sizes.len(),
            all == nats(sizes@),
            total_of(all) <= usize::MAX,
            total == total_of(all.take(i as int)),
        decreases sizes.len() - i,
    {
        proof {
            lemma_total_step(all, i as int);
            lemma_total_prefix(all, i + 1);
        }
        total = total + sizes[i];
        i += 1;
    }
    assert(all.take(sizes.len() as int) =~= all);
    total
}

/// Where no group is empty, the ring assignment gives every item a slot
/// on the ring.
pub proof fn lemma_ring_slots_fit(sizes: Seq<nat>)
    requires
        !has_empty_group(sizes),
    ensures
        ring_slots(sizes).len() == total_of(sizes),
        slots_in_range(ring_slots(sizes)),
{
    assert(sizes.take(sizes.len() as int) =~= sizes);
    if sizes.len() > 0 {
        lemma_size_within_total(sizes, 0);
    }
    lemma_item_values_upto(sizes, ring_rule(sizes), sizes.len(), total_of(sizes));
}

/// Assigns every item its ring slot.
///
/// `sizes[i]` is the number of items of group `i`. The result lists the
/// slots group after group. A group without items is refused.
pub fn assign_ring(sizes: &Vec<usize>) -> (r: Result<Vec<usize>, ShuffleError>)
    requires
        total_of(nats(sizes@)) <= usize::MAX,
    ensures
        match r {
            Ok(slots) => !has_empty_group(nats(sizes@)) && nats(slots@) == ring_slots(
                nats(sizes@),
            ),
            Err(e) => has_empty_group(nats(sizes@)) && e == ShuffleError::EmptyGroup,
        },
{
    let ghost all = nats(sizes@);
    let total = sum_sizes(sizes);
    let mut slots: Vec<usize> = Vec::new();
    let mut i: usize = 0;
    while i < sizes.len()
        invariant
            i <= sizes.len(),
            all == nats(sizes@),
            total == total_of(all),
            forall|t: int| 0 <= t < i ==> all[t] > 0,
            nats(slots@) == item_values_upto(all, ring_rule(all), i as nat),
        decreases sizes.len() - i,
    {
        let size = sizes[i];
        assert(all[i as int] == size);
        let step = match spread(total, size) {
            Ok(step) => step,
            Err(e) => {
                return Err(e);
            },
        };
        proof {
            lemma_size_within_total(all, i as int);
        }
        let ghost before = nats(slots@);
        let ghost group = group_values(
            ring_rule(all),
            i as nat,
            size as nat,
            total_of(all.take(i as int)),
        );
        let mut j: usize = 0;
        while j < size
            invariant
                j <= size,
                0 < size <= total,
                step == spread_of(total as nat, size as nat),
                total == total_of(all),
                i < all.len(),
                size == all[i as int],
                group == group_values(
                    ring_rule(all),
                    i as nat,
                    size as nat,
                    total_of(all.take(i as int)),
                ),
                nats(slots@) == before + group.take(j as int),
            decreases size - j,
        {
            let slot = ring_slot(total, step, i, j);
            let ghost sofar = slots@;
            slots.push(slot);
            proof {
                assert(nats(sofar.push(slot)) =~= nats(sofar).push(slot as nat));
                assert(group.take(j + 1) =~= group.take(j as int).push(group[j as int]));
                assert(before + group.take(j + 1) =~= (before + group.take(j as int)).push(
                    group[j as int],
                ));
            }
            j += 1;
        }
        assert(group.take(size as int) =~= group);
        i += 1;
    }
    Ok(slots)
}

} // verus!
