//! The disperser: reads a slot assignment back as one ordering of the items.
//!
//! Every slot is a bucket. Items that share a slot all stay, in the order
//! in which they were assigned.

use vstd::prelude::*;
use vstd::seq_lib::{lemma_multiset_commutative, to_multiset_build, to_multiset_len};
use crate::sizes::nats;

verus! {

/// The item numbers `0, 1, .., n - 1`.
pub open spec fn indices(n: nat) -> Seq<nat> {
    Seq::new(n, |k: int| k as nat)
}

/// The test "item `k` sits in slot `s`".
pub open spec fn in_slot(slots: Seq<nat>, s: nat) -> spec_fn(nat) -> bool {
    |k: nat| slots[k as int] == s
}

/// The test "item `k` sits in one of the first `n` slots".
pub open spec fn in_first_slots(slots: Seq<nat>, n: nat) -> spec_fn(nat) -> bool {
    |k: nat| slots[k as int] < n
}

/// The items among the first `k` that sit in slot `s`, in item order.
pub open spec fn bucket_upto(slots: Seq<nat>, s: nat, k: nat) -> Seq<nat> {
    indices(k).filter(in_slot(slots, s))
}

/// The bucket of slot `s`: every item assigned to it, in item order.
pub open spec fn bucket(slots: Seq<nat>, s: nat) -> Seq<nat> {
    bucket_upto(slots, s, slots.len())
}

/// The buckets of the first `n` slots, one after the other.
pub open spec fn dispersed_upto(slots: Seq<nat>, n: nat) -> Seq<nat>
    decreases n,
{
    if n == 0 {
        Seq::empty()
    } else {
        dispersed_upto(slots, (n - 1) as nat) + bucket(slots, (n - 1) as nat)
    }
}

/// The order in which the items leave the ring: slot by slot, and within a
/// slot in item order. The ring has as many slots as there are items.
pub open spec fn dispersed(slots: Seq<nat>) -> Seq<nat> {
    dispersed_upto(slots, slots.len())
}

/// Every item has a slot on the ring.
pub open spec fn slots_in_range(slots: Seq<nat>) -> bool {
    forall|k: int| 0 <= k < slots.len() ==> #[trigger] slots[k] < slots.len()
}

/// The items taken in the given order.
pub open spec fn arranged<T>(items: Seq<T>, order: Seq<nat>) -> Seq<T> {
    order.map_values(|k: nat| items[k as int])
}

/// Walks the ring and lists the items slot by slot.
///
/// `slots[k]` is the slot of item `k`. The result names the items in the
/// order in which they leave the ring.
pub fn disperse(slots: &Vec<usize>) -> (order: Vec<usize>)
    requires
        slots_in_range(nats(slots@)),
    ensures
        nats(order@) == dispersed(nats(slots@)),
{
    let n = slots.len();
    let ghost ring = nats(slots@);
    let mut buckets: Vec<Vec<usize>> = Vec::new();
    let mut s: usize = 0;
    while s < n
        invariant
            s <= n,
            buckets@.len() == s,
            forall|t: int| 0 <= t < s ==> nats((#[trigger] buckets@[t])@) == bucket_upto(ring, t as nat, 0),
        decreases n - s,
    {
        let fresh: Vec<usize> = Vec::new();
        proof {
            reveal(Seq::filter);
            assert(nats(fresh@) =~= bucket_upto(ring, s as nat, 0));
        }
        buckets.push(fresh);
        s += 1;
    }
    let mut k: usize = 0;
    while k < n
        invariant
            k <= n,
            n == slots@.len(),
            ring == nats(slots@),
            slots_in_range(ring),
            buckets@.len() == n,
            forall|t: int| 0 <= t < n ==> nats((#[trigger] buckets@[t])@) == bucket_upto(ring, t as nat, k as nat),
        decreases n - k,
    {
        let s = slots[k];
        assert(ring[k as int] == s);
        let ghost before = buckets@;
        buckets[s].push(k);
        proof {
            assert forall|t: int| 0 <= t < n implies nats((#[trigger] buckets@[t])@) == bucket_upto(
                ring,
                t as nat,
                (k + 1) as nat,
            ) by {
                lemma_bucket_step(ring, t as nat, k as nat);
                if t == s {
                    assert(nats(before[t]@.push(k)) =~= nats(before[t]@).push(k as nat));
                }
            }
        }
        k += 1;
    }
    let mut order: Vec<usize> = Vec::new();
    let mut s: usize = 0;
    while s < n
        invariant
            s <= n,
            n == slots@.len(),
            ring == nats(slots@),
            buckets@.len() == n,
            forall|t: int| s <= t < n ==> nats((#[trigger] buckets@[t])@) == bucket(ring, t as nat),
            nats(order@) == dispersed_upto(ring, s as nat),
        decreases n - s,
    {
        let ghost before = order@;
        let ghost added = buckets@[s as int]@;
        order.append(&mut buckets[s]);
        proof {
            assert(nats(before + added) =~= nats(before) + nats(added));
        }
        s += 1;
    }
    order
}

/// One more item lengthens the bucket of its slot and no other.
proof fn lemma_bucket_step(slots: Seq<nat>, s: nat, k: nat)
    ensures
        bucket_upto(slots, s, k + 1) == if slots[k as int] == s {
            bucket_upto(slots, s, k).push(k)
        } else {
            bucket_upto(slots, s, k)
        },
{
    assert(indices(k + 1) =~= indices(k).push(k));
    indices(k).lemma_filter_push(k, in_slot(slots, s));
}

/// A bucket of the first `k` items holds numbers below `k`.
proof fn lemma_bucket_in_range(slots: Seq<nat>, s: nat, k: nat)
    ensures
        forall|i: int|
            0 <= i < bucket_upto(slots, s, k).len() ==> #[trigger] bucket_upto(slots, s, k)[i] < k,
    decreases k,
{
    if k == 0 {
        reveal(Seq::filter);
    } else {
        lemma_bucket_in_range(slots, s, (k - 1) as nat);
        lemma_bucket_step(slots, s, (k - 1) as nat);
    }
}

/// Every entry of the dispersed order names an item.
pub proof fn lemma_dispersed_in_range(slots: Seq<nat>, n: nat)
    ensures
        forall|i: int|
            0 <= i < dispersed_upto(slots, n).len() ==> #[trigger] dispersed_upto(slots, n)[i]
                < slots.len(),
    decreases n,
{
    if n > 0 {
        let head = dispersed_upto(slots, (n - 1) as nat);
        let tail = bucket(slots, (n - 1) as nat);
        lemma_dispersed_in_range(slots, (n - 1) as nat);
        lemma_bucket_in_range(slots, (n - 1) as nat, slots.len());
        assert forall|i: int| 0 <= i < (head + tail).len() implies #[trigger] (head + tail)[i]
            < slots.len() by {
            if i >= head.len() {
                assert((head + tail)[i] == tail[i - head.len()]);
            }
        }
    }
}

/// A test that every number passes selects them all.
proof fn lemma_filter_all(idx: Seq<nat>, p: spec_fn(nat) -> bool)
    requires
        forall|i: int| 0 <= i < idx.len() ==> p(#[trigger] idx[i]),
    ensures
        idx.filter(p) == idx,
    decreases idx.len(),
{
    reveal(Seq::filter);
    if idx.len() > 0 {
        lemma_filter_all(idx.drop_last(), p);
        assert(idx.drop_last().push(idx.last()) =~= idx);
    }
}

/// A test that no number passes selects none.
proof fn lemma_filter_none(idx: Seq<nat>, p: spec_fn(nat) -> bool)
    requires
        forall|i: int| 0 <= i < idx.len() ==> !p(#[trigger] idx[i]),
    ensures
        idx.filter(p) == Seq::<nat>::empty(),
    decreases idx.len(),
{
    reveal(Seq::filter);
    if idx.len() > 0 {
        lemma_filter_none(idx.drop_last(), p);
    }
}

/// One more number in the order is one more item in the arrangement.
proof fn lemma_arranged_push<T>(items: Seq<T>, order: Seq<nat>, k: nat)
    ensures
        arranged(items, order.push(k)) == arranged(items, order).push(items[k as int]),
        arranged(items, order.push(k)).to_multiset() == arranged(items, order).to_multiset().insert(
            items[k as int],
        ),
{
    assert(arranged(items, order.push(k)) =~= arranged(items, order).push(items[k as int]));
    to_multiset_build(arranged(items, order), items[k as int]);
}

/// Where a test is the union of two tests that exclude each other, the
/// items it selects are those that the two select, taken together.
proof fn lemma_filter_split<T>(
    items: Seq<T>,
    idx: Seq<nat>,
    p: spec_fn(nat) -> bool,
    q: spec_fn(nat) -> bool,
    r: spec_fn(nat) -> bool,
)
    requires
        forall|i: int|
            0 <= i < idx.len() ==> (r(#[trigger] idx[i]) <==> p(idx[i]) || q(idx[i])) && !(p(idx[i])
                && q(idx[i])),
    ensures
        arranged(items, idx.filter(r)).to_multiset() == arranged(
            items,
            idx.filter(p),
        ).to_multiset().add(arranged(items, idx.filter(q)).to_multiset()),
    decreases idx.len(),
{
    broadcast use vstd::multiset::group_multiset_axioms;

    reveal(Seq::filter);
    if idx.len() == 0 {
        let none = arranged(items, idx);
        assert(none + none =~= none);
        lemma_multiset_commutative(none, none);
    } else {
        let rest = idx.drop_last();
        let x = idx.last();
        lemma_filter_split(items, rest, p, q, r);
        lemma_arranged_push(items, rest.filter(r), x);
        lemma_arranged_push(items, rest.filter(p), x);
        lemma_arranged_push(items, rest.filter(q), x);
        let mr = arranged(items, rest.filter(r)).to_multiset();
        let mp = arranged(items, rest.filter(p)).to_multiset();
        let mq = arranged(items, rest.filter(q)).to_multiset();
        let v = items[x as int];
        assert(r(idx[idx.len() - 1]) <==> p(x) || q(x));
        if p(x) {
            assert(mp.add(mq).insert(v) =~= mp.insert(v).add(mq));
        } else if q(x) {
            assert(mp.add(mq).insert(v) =~= mp.add(mq.insert(v)));
        }
    }
}

/// The buckets of the first `n` slots hold, between them, the items that
/// sit in those slots.
proof fn lemma_dispersed_upto_items<T>(items: Seq<T>, slots: Seq<nat>, n: nat)
    ensures
        arranged(items, dispersed_upto(slots, n)).to_multiset() == arranged(
            items,
            indices(slots.len()).filter(in_first_slots(slots, n)),
        ).to_multiset(),
    decreases n,
{
    let idx = indices(slots.len());
    if n == 0 {
        lemma_filter_none(idx, in_first_slots(slots, 0));
    } else {
        let m = (n - 1) as nat;
        lemma_dispersed_upto_items(items, slots, m);
        lemma_filter_split(items, idx, in_first_slots(slots, m), in_slot(slots, m), in_first_slots(slots, n));
        let head = dispersed_upto(slots, m);
        let tail = bucket(slots, m);
        assert(arranged(items, head + tail) =~= arranged(items, head) + arranged(items, tail));
        lemma_multiset_commutative(arranged(items, head), arranged(items, tail));
    }
}

/// Dispersing loses no item and repeats none: the items taken in the
/// dispersed order are the items themselves, rearranged.
pub proof fn lemma_dispersed_keeps_items<T>(items: Seq<T>, slots: Seq<nat>)
    requires
        slots.len() == items.len(),
        slots_in_range(slots),
    ensures
        arranged(items, dispersed(slots)).to_multiset() == items.to_multiset(),
        arranged(items, dispersed(slots)).len() == items.len(),
        dispersed(slots).len() == items.len(),
{
    let idx = indices(slots.len());
    lemma_dispersed_upto_items(items, slots, slots.len());
    lemma_filter_all(idx, in_first_slots(slots, slots.len()));
    assert(arranged(items, idx) =~= items);
    to_multiset_len(arranged(items, dispersed(slots)));
    to_multiset_len(items);
}

/// Where every item sits in the slot of its own number, the bucket of a
/// slot holds the one item of that number.
proof fn lemma_bucket_of_own_slot(n: nat, s: nat, k: nat)
    requires
        k <= n,
    ensures
        bucket_upto(indices(n), s, k) == if s < k {
            seq![s]
        } else {
            Seq::<nat>::empty()
        },
    decreases k,
{
    if k == 0 {
        reveal(Seq::filter);
    } else {
        lemma_bucket_of_own_slot(n, s, (k - 1) as nat);
        lemma_bucket_step(indices(n), s, (k - 1) as nat);
        assert(Seq::<nat>::empty().push(s) =~= seq![s]);
    }
}

/// Where every item sits in the slot of its own number, the first `m`
/// slots hand out the first `m` items in their order.
proof fn lemma_dispersed_upto_own_slots(n: nat, m: nat)
    requires
        m <= n,
    ensures
        dispersed_upto(indices(n), m) == indices(m),
    decreases m,
{
    if m > 0 {
        let before = (m - 1) as nat;
        lemma_dispersed_upto_own_slots(n, before);
        lemma_bucket_of_own_slot(n, before, n);
        assert(indices(before) + seq![before] =~= indices(m));
    } else {
        assert(indices(0) =~= Seq::<nat>::empty());
    }
}

/// Where every item sits in the slot of its own number, the items leave
/// the ring in their own order.
pub proof fn lemma_dispersed_of_own_slots<T>(items: Seq<T>)
    ensures
        dispersed(indices(items.len())) == indices(items.len()),
        arranged(items, dispersed(indices(items.len()))) == items,
{
    lemma_dispersed_upto_own_slots(items.len(), items.len());
    assert(arranged(items, indices(items.len())) =~= items);
}

} // verus!
