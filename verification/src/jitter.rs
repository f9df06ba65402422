//! Jittered slot assignment: the even spacing of the ring rule, loosened
//! by bounded random offsets.
//!
//! The first item of a group lands on one of the first slots, one slot for
//! each group. Every later item lands within a radius of its even place,
//! the radius being a fraction of the ring. The offsets are drawn from a
//! generator that is seeded anew for every item, so a seed settles the
//! whole assignment.

use vstd::prelude::*;
use vstd::arithmetic::div_mod::{
    lemma_div_by_multiple_is_strongly_ordered, lemma_div_multiples_vanish, lemma_fundamental_div_mod,
    lemma_mod_bound, lemma_mod_multiples_vanish,
};
use crate::disperse::slots_in_range;
use crate::error::ShuffleError;
use crate::position::{spread, spread_of, sum_sizes};
use crate::random::{draw_between, seeded_draw};
use crate::sizes::{
    group_values, has_empty_group, item_values, item_values_upto, lemma_count_within_total,
    lemma_item_values_upto, lemma_size_within_total, lemma_total_prefix, lemma_total_step, nats,
    total_of,
};

verus! {

/// A vector of draws read as a sequence of natural numbers.
pub open spec fn draw_nats(v: Seq<u128>) -> Seq<nat> {
    v.map_values(|x: u128| x as nat)
}

/// A fraction, numerator over denominator, strictly between zero and one.
pub open spec fn proper_fraction(fraction: (nat, nat)) -> bool {
    0 < fraction.0 < fraction.1
}

/// The jitter radius on a ring of `total` slots: that fraction of the
/// ring, rounded down.
pub open spec fn radius_of(total: nat, fraction: (nat, nat)) -> nat {
    total * fraction.0 / fraction.1
}

/// The number of places among which item `j` of a group is drawn: a slot
/// for each group for the first item, the window of the radius round its
/// even place for a later one.
pub open spec fn span_of(group_count: nat, radius: nat, j: nat) -> nat {
    if j == 0 {
        group_count
    } else {
        2 * radius + 1
    }
}

/// The slot of item `j` of a group that steps by `spread`, for the number
/// `draw` that was drawn for it. The draw is first brought below the
/// item's span. The first item takes it as its slot; a later item takes
/// it as its place in the window, which wraps around the ring.
pub open spec fn jittered_slot_of(
    total: nat,
    group_count: nat,
    spread: nat,
    radius: nat,
    j: nat,
    draw: nat,
) -> nat
    recommends
        group_count > 0,
        total > 0,
{
    let offset = draw % span_of(group_count, radius, j);
    if j == 0 {
        offset
    } else {
        ((j * spread - radius + offset) % (total as int)) as nat
    }
}

/// The seed of the generator that draws for item `k` of all.
pub open spec fn item_seed(seed: u64, k: nat) -> u64 {
    ((seed + k) % 0x1_0000_0000_0000_0000) as u64
}

/// The number drawn for item `k` of all where `span` places are open to
/// it. Where there is one place or none, nothing is drawn.
pub open spec fn item_draw(seed: u64, k: nat, span: nat) -> nat {
    if span <= 1 {
        0
    } else {
        seeded_draw(item_seed(seed, k), 0, span as u128) as nat
    }
}

/// The rule by which the draws are made for groups of the given sizes.
pub open spec fn draw_rule(sizes: Seq<nat>, radius: nat, seed: u64) -> spec_fn(nat, nat, nat) -> nat {
    |i: nat, j: nat, k: nat| item_draw(seed, k, span_of(sizes.len(), radius, j))
}

/// The draws that `seed` settles, one for every item.
pub open spec fn seeded_draws(sizes: Seq<nat>, radius: nat, seed: u64) -> Seq<nat> {
    item_values(sizes, draw_rule(sizes, radius, seed))
}

/// The rule by which the items of groups of the given sizes are placed,
/// for the given draws.
pub open spec fn jitter_rule(sizes: Seq<nat>, radius: nat, draws: Seq<nat>) -> spec_fn(
    nat,
    nat,
    nat,
) -> nat {
    |i: nat, j: nat, k: nat|
        jittered_slot_of(
            total_of(sizes),
            sizes.len(),
            spread_of(total_of(sizes), sizes[i as int]),
            radius,
            j,
            draws[k as int],
        )
}

/// The jittered slot of every item, group after group, for the given
/// draws.
pub open spec fn jittered_slots(sizes: Seq<nat>, radius: nat, draws: Seq<nat>) -> Seq<nat> {
    item_values(sizes, jitter_rule(sizes, radius, draws))
}

/// How far a jittered shuffle may move an item from its even place, as a
/// fraction of the ring. The view is the fraction, numerator first.
#[derive(Clone, Copy, Debug)]
pub struct JitterConfig {
    numerator: u64,
    denominator: u64,
}

impl View for JitterConfig {
    type V = (nat, nat);

    closed spec fn view(&self) -> (nat, nat) {
        (self.numerator as nat, self.denominator as nat)
    }
}

impl JitterConfig {
    #[verifier::type_invariant]
    spec fn inv(self) -> bool {
        0 < self.numerator < self.denominator
    }

    /// The fraction `numerator / denominator`, which must lie strictly
    /// between zero and one.
    pub fn new(numerator: u64, denominator: u64) -> (r: Result<JitterConfig, ShuffleError>)
        ensures
            match r {
                Ok(config) => proper_fraction(config@) && config@ == (
                    numerator as nat,
                    denominator as nat,
                ),
                Err(e) => !(0 < numerator < denominator) && e == ShuffleError::InvalidJitterConfig,
            },
    {
        if 0 < numerator && numerator < denominator {
            Ok(JitterConfig { numerator, denominator })
        } else {
            Err(ShuffleError::InvalidJitterConfig)
        }
    }

    /// The numerator of the fraction.
    pub fn numerator(&self) -> (n: u64)
        ensures
            n == self@.0,
    {
        self.numerator
    }

    /// The denominator of the fraction.
    pub fn denominator(&self) -> (d: u64)
        ensures
            d == self@.1,
    {
        self.denominator
    }

    /// The jitter radius on a ring of `total_items` slots.
    pub fn radius(&self, total_items: usize) -> (radius: usize)
        ensures
            radius == radius_of(total_items as nat, self@),
            proper_fraction(self@),
            total_items > 0 ==> radius < total_items,
    {
        proof {
            use_type_invariant(self);
            lemma_radius_within(total_items as nat, self@);
        }
        assert(total_items * self.numerator <= 0xffff_ffff_ffff_ffff * 0xffff_ffff_ffff_ffff)
            by (nonlinear_arith)
            requires
                total_items <= 0xffff_ffff_ffff_ffff,
                self.numerator <= 0xffff_ffff_ffff_ffff,
        ;
        let scaled: u128 = (total_items as u128) * (self.numerator as u128);
        (scaled / (self.denominator as u128)) as usize
    }
}

impl Default for JitterConfig {
    /// A twentieth of the ring.
    fn default() -> (config: JitterConfig)
        ensures
            config@ == (1nat, 20nat),
    {
        JitterConfig { numerator: 1, denominator: 20 }
    }
}

/// The rule by which a shuffle places the items.
#[derive(Clone, Copy, Debug)]
pub enum ShuffleMode {
    /// The ring rule: the store alone settles the order.
    Deterministic,
    /// The jitter rule, with draws that the seed settles.
    Jittered { config: JitterConfig, seed: u64 },
}

/// A proper fraction of a ring is less than the ring.
pub proof fn lemma_radius_within(total: nat, fraction: (nat, nat))
    requires
        proper_fraction(fraction),
    ensures
        radius_of(total, fraction) <= total,
        total > 0 ==> radius_of(total, fraction) < total,
{
    let (num, den) = fraction;
    if total > 0 {
        assert(total * num < total * den) by (nonlinear_arith)
            requires
                total > 0,
                num < den,
        ;
        lemma_div_by_multiple_is_strongly_ordered(
            (total * num) as int,
            (total * den) as int,
            total as int,
            den as int,
        );
        lemma_div_multiples_vanish(total as int, den as int);
        assert(total * den == den * total) by (nonlinear_arith);
    } else {
        assert(total * num == 0) by (nonlinear_arith)
            requires
                total == 0,
        ;
    }
}

/// Computes the jittered slot of item `j` of a group for the number drawn
/// for it.
pub fn jittered_slot(
    total_items: usize,
    group_count: usize,
    spread: usize,
    radius: usize,
    j: usize,
    draw: u128,
) -> (slot: usize)
    requires
        group_count > 0,
        radius < total_items,
    ensures
        slot == jittered_slot_of(
            total_items as nat,
            group_count as nat,
            spread as nat,
            radius as nat,
            j as nat,
            draw as nat,
        ),
        group_count <= total_items ==> slot < total_items,
{
    if j == 0 {
        (draw % (group_count as u128)) as usize
    } else {
        assert(j * spread <= 0xffff_ffff_ffff_ffff * 0xffff_ffff_ffff_ffff) by (nonlinear_arith)
            requires
                j <= 0xffff_ffff_ffff_ffff,
                spread <= 0xffff_ffff_ffff_ffff,
        ;
        let span: u128 = 2 * (radius as u128) + 1;
        let offset: u128 = draw % span;
        let even: u128 = (j as u128) * (spread as u128);
        let base: u128 = (total_items - radius) as u128;
        let place: u128 = (base + even % (total_items as u128) + offset) % (total_items as u128);
        proof {
            let t = total_items as int;
            let turns = 1 - even as int / t;
            let window = even as int - radius as int + offset as int;
            lemma_fundamental_div_mod(even as int, t);
            assert(base + even % (total_items as u128) + offset == t * turns + window)
                by (nonlinear_arith)
                requires
                    base == t - radius,
                    even == t * (even as int / t) + even % (total_items as u128),
                    turns == 1 - even as int / t,
                    window == even as int - radius as int + offset as int,
            ;
            lemma_mod_multiples_vanish(turns, window, t);
            lemma_mod_bound(window, t);
        }
        place as usize
    }
}

/// Where no group is empty and the radius is less than the ring, the
/// jittered assignment gives every item a slot on the ring, whatever was
/// drawn.
pub proof fn lemma_jittered_slots_fit(sizes: Seq<nat>, radius: nat, draws: Seq<nat>)
    requires
        !has_empty_group(sizes),
    ensures
        jittered_slots(sizes, radius, draws).len() == total_of(sizes),
        slots_in_range(jittered_slots(sizes, radius, draws)),
{
    let total = total_of(sizes);
    let rule = jitter_rule(sizes, radius, draws);
    assert(sizes.take(sizes.len() as int) =~= sizes);
    lemma_count_within_total(sizes);
    assert forall|i: nat, j: nat, k: nat| i < sizes.len() && j < sizes[i as int] implies #[trigger] rule(
        i,
        j,
        k,
    ) < total by {
        lemma_size_within_total(sizes, i as int);
        let span = span_of(sizes.len(), radius, j);
        lemma_mod_bound(draws[k as int] as int, span as int);
        if j > 0 {
            let offset = draws[k as int] % span;
            lemma_mod_bound(
                j * spread_of(total, sizes[i as int]) - radius + offset,
                total as int,
            );
        }
    }
    lemma_item_values_upto(sizes, rule, sizes.len(), total);
}

/// Makes the draw for item `k` of all, to which `span` places are open.
fn draw_item(seed: u64, k: usize, span: u128) -> (draw: u128)
    ensures
        draw == item_draw(seed, k as nat, span as nat),
{
    if span <= 1 {
        0
    } else {
        draw_between(seed.wrapping_add(k as u64), 0, span)
    }
}

/// Makes the draws that `seed` settles, one for every item: for the first
/// item of a group among as many places as there are groups, for a later
/// item among the places of its window.
pub fn draw_offsets(sizes: &Vec<usize>, config: &JitterConfig, seed: u64) -> (draws: Vec<u128>)
    requires
        total_of(nats(sizes@)) <= usize::MAX,
    ensures
        draw_nats(draws@) == seeded_draws(
            nats(sizes@),
            radius_of(total_of(nats(sizes@)), config@),
            seed,
        ),
        draws@.len() == total_of(nats(sizes@)),
{
    let ghost all = nats(sizes@);
    let total = sum_sizes(sizes);
    let radius = config.radius(total);
    let ghost rule = draw_rule(all, radius as nat, seed);
    let groups = sizes.len();
    let mut draws: Vec<u128> = Vec::new();
    let mut i: usize = 0;
    while i < groups
        invariant
            i <= groups,
            groups == sizes@.len(),
            all == nats(sizes@),
            total == total_of(all),
            rule == draw_rule(all, radius as nat, seed),
            draws@.len() == total_of(all.take(i as int)),
            draw_nats(draws@) == item_values_upto(all, rule, i as nat),
        decreases groups - i,
    {
        let size = sizes[i];
        assert(all[i as int] == size);
        proof {
            lemma_total_step(all, i as int);
            lemma_total_prefix(all, i + 1);
        }
        let ghost first = total_of(all.take(i as int));
        let ghost before = draw_nats(draws@);
        let ghost group = group_values(rule, i as nat, size as nat, first);
        let mut j: usize = 0;
        while j < size
            invariant
                j <= size,
                groups == sizes@.len(),
                all == nats(sizes@),
                first + size <= usize::MAX,
                rule == draw_rule(all, radius as nat, seed),
                group == group_values(rule, i as nat, size as nat, first),
                draws@.len() == first + j,
                draw_nats(draws@) == before + group.take(j as int),
            decreases size - j,
        {
            let span: u128 = if j == 0 {
                groups as u128
            } else {
                2 * (radius as u128) + 1
            };
            let draw = draw_item(seed, draws.len(), span);
            let ghost sofar = draws@;
            draws.push(draw);
            proof {
                assert(draw_nats(sofar.push(draw)) =~= draw_nats(sofar).push(draw as nat));
                assert(group.take(j + 1) =~= group.take(j as int).push(group[j as int]));
                assert(before + group.take(j + 1) =~= (before + group.take(j as int)).push(
                    group[j as int],
                ));
            }
            j += 1;
        }
        assert(group.take(size as int) =~= group);
        i += 1;
    }
    assert(all.take(groups as int) =~= all);
    draws
}

/// Assigns every item its jittered slot, for the given draws.
///
/// `sizes[i]` is the number of items of group `i`, and `draws[k]` the
/// number drawn for item `k` of all. Any number serves as a draw: it is
/// brought below the item's span. A group without items is refused.
pub fn assign_jittered(sizes: &Vec<usize>, config: &JitterConfig, draws: &Vec<u128>) -> (r: Result<
    Vec<usize>,
    ShuffleError,
>)
    requires
        total_of(nats(sizes@)) <= usize::MAX,
        draws@.len() == total_of(nats(sizes@)),
    ensures
        match r {
            Ok(slots) => !has_empty_group(nats(sizes@)) && nats(slots@) == jittered_slots(
                nats(sizes@),
                radius_of(total_of(nats(sizes@)), config@),
                draw_nats(draws@),
            ),
            Err(e) => has_empty_group(nats(sizes@)) && e == ShuffleError::EmptyGroup,
        },
{
    let ghost all = nats(sizes@);
    let total = sum_sizes(sizes);
    let radius = config.radius(total);
    let ghost rule = jitter_rule(all, radius as nat, draw_nats(draws@));
    let groups = sizes.len();
    let mut slots: Vec<usize> = Vec::new();
    let mut i: usize = 0;
    while i < groups
        invariant
            i <= groups,
            groups == sizes@.len(),
            all == nats(sizes@),
            total == total_of(all),
            draws@.len() == total,
            total > 0 ==> radius < total,
            rule == jitter_rule(all, radius as nat, draw_nats(draws@)),
            forall|t: int| 0 <= t < i ==> all[t] > 0,
            slots@.len() == total_of(all.take(i as int)),
            nats(slots@) == item_values_upto(all, rule, i as nat),
        decreases groups - i,
    {
        let size = sizes[i];
        assert(all[i as int] == size);
        let step = match spread(total, size) {
            Ok(step) => step,
            Err(e) => {
                return Err(e);
            },
        };
        proof {
            lemma_total_step(all, i as int);
            lemma_total_prefix(all, i + 1);
            lemma_size_within_total(all, i as int);
        }
        let ghost first = total_of(all.take(i as int));
        let ghost before = nats(slots@);
        let ghost group = group_values(rule, i as nat, size as nat, first);
        let mut j: usize = 0;
        while j < size
            invariant
                j <= size,
                0 < size <= total,
                radius < total,
                groups == sizes@.len(),
                all == nats(sizes@),
                total == total_of(all),
                i < all.len(),
                size == all[i as int],
                step == spread_of(total as nat, size as nat),
                first + size <= total,
                draws@.len() == total,
                rule == jitter_rule(all, radius as nat, draw_nats(draws@)),
                group == group_values(rule, i as nat, size as nat, first),
                slots@.len() == first + j,
                nats(slots@) == before + group.take(j as int),
            decreases size - j,
        {
            let k = slots.len();
            let slot = jittered_slot(total, groups, step, radius, j, draws[k]);
            let ghost sofar = slots@;
            slots.push(slot);
            proof {
                assert(draw_nats(draws@)[k as int] == draws@[k as int]);
                assert(nats(sofar.push(slot)) =~= nats(sofar).push(slot as nat));
                assert(group.take(j + 1) =~= group.take(j as int).push(group[j as int]));
                assert(before + group.take(j + 1) =~= (before + group.take(j as int)).push(
                    group[j as int],
                ));
            }
            j += 1;
        }
        assert(group.take(size as int) =~= group);
        i += 1;
    }
    assert(all.take(groups as int) =~= all);
    Ok(slots)
}

} // verus!
