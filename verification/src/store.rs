//! The group store and the shuffles that read it.

use vstd::prelude::*;
use vstd::laws_eq::obeys_concrete_eq;
use vstd::multiset::Multiset;
use vstd::pervasive::cloned;
use vstd::seq_lib::{lemma_multiset_commutative, to_multiset_build, to_multiset_len};
use crate::disperse::{
    arranged, disperse, dispersed, lemma_dispersed_in_range, lemma_dispersed_keeps_items,
    slots_in_range,
};
use crate::groups::{
    extended, flat, gathered, inserted, inserted_all, joined, key_index, keys_of,
    lemma_flat_extended, lemma_flat_joined, lemma_flat_len, lemma_flat_opened, lemma_flat_prefix,
    lemma_flat_pushed, lemma_flat_step, lemma_inserted_all, lemma_key_index, opened, sizes_of,
    Groups,
};
use crate::jitter::{
    assign_jittered, draw_nats, draw_offsets, jittered_slots, lemma_jittered_slots_fit, radius_of,
    seeded_draws, JitterConfig, ShuffleMode,
};
use crate::position::{assign_ring, lemma_ring_slots_fit, ring_slots};
use crate::sizes::{has_empty_group, nats, total_of};

verus! {

/// Each item of `copy` is a clone of the item of `source` in its place.
pub open spec fn copies<T: Clone>(source: Seq<T>, copy: Seq<T>) -> bool {
    &&& copy.len() == source.len()
    &&& forall|j: int| 0 <= j < source.len() ==> cloned(source[j], #[trigger] copy[j])
}

/// The order in which a ring shuffle hands out the items of the groups.
pub open spec fn ring_order<K, T>(groups: Groups<K, T>) -> Seq<T> {
    arranged(flat(groups), dispersed(ring_slots(sizes_of(groups))))
}

/// The order in which a jittered shuffle hands out the items of the
/// groups, for the given fraction of the ring and the given draws.
pub open spec fn drawn_order<K, T>(
    groups: Groups<K, T>,
    fraction: (nat, nat),
    draws: Seq<nat>,
) -> Seq<T> {
    let sizes = sizes_of(groups);
    let radius = radius_of(total_of(sizes), fraction);
    arranged(flat(groups), dispersed(jittered_slots(sizes, radius, draws)))
}

/// The order in which a jittered shuffle hands out the items of the
/// groups, for the given fraction of the ring and the given seed.
pub open spec fn jittered_order<K, T>(groups: Groups<K, T>, fraction: (nat, nat), seed: u64) -> Seq<
    T,
> {
    let sizes = sizes_of(groups);
    let radius = radius_of(total_of(sizes), fraction);
    drawn_order(groups, fraction, seeded_draws(sizes, radius, seed))
}

/// The order in which a shuffle in the given mode hands out the items of
/// the groups.
pub open spec fn order_in<K, T>(groups: Groups<K, T>, mode: ShuffleMode) -> Seq<T> {
    match mode {
        ShuffleMode::Deterministic => ring_order(groups),
        ShuffleMode::Jittered { config, seed } => jittered_order(groups, config@, seed),
    }
}

/// Batches read as groups: each key with the items that came with it.
pub open spec fn batches_of<K, T>(batches: Seq<(K, Vec<T>)>) -> Groups<K, T> {
    batches.map_values(|b: (K, Vec<T>)| (b.0, b.1@))
}

/// The keys, the items filed under each, and the running count of items.
struct Filed<K, T> {
    keys: Vec<K>,
    items: Vec<Vec<T>>,
    num_values: usize,
}

impl<K: Eq, T> Filed<K, T> {
    spec fn groups(self) -> Groups<K, T> {
        Seq::new(self.keys@.len(), |i: int| (self.keys@[i], self.items@[i]@))
    }

    spec fn wf(self) -> bool {
        &&& self.keys@.len() == self.items@.len()
        &&& forall|i: int| 0 <= i < self.items@.len() ==> (#[trigger] self.items@[i])@.len() > 0
        &&& self.num_values == flat(self.groups()).len()
        &&& obeys_concrete_eq::<K>() ==> self.keys@.no_duplicates()
    }

    fn empty() -> (r: Self)
        ensures
            r.wf(),
            r.groups() == Seq::<(K, Seq<T>)>::empty(),
    {
        let r = Filed { keys: Vec::new(), items: Vec::new(), num_values: 0 };
        assert(r.groups() =~= Seq::<(K, Seq<T>)>::empty());
        r
    }
}

/// Looks for `key` among the keys, from the front.
fn find_key<K: Eq>(keys: &Vec<K>, key: &K) -> (found: Option<usize>)
    ensures
        found matches Some(i) ==> i < keys@.len(),
        obeys_concrete_eq::<K>() ==> match found {
            Some(i) => keys@[i as int] == *key && forall|j: int|
                0 <= j < i ==> #[trigger] keys@[j] != *key,
            None => forall|j: int| 0 <= j < keys@.len() ==> #[trigger] keys@[j] != *key,
        },
{
    let mut i: usize = 0;
    while i < keys.len()
        invariant
            i <= keys@.len(),
            obeys_concrete_eq::<K>() ==> forall|j: int| 0 <= j < i ==> #[trigger] keys@[j] != *key,
        decreases keys@.len() - i,
    {
        proof {
            reveal(obeys_concrete_eq);
        }
        if keys[i] == *key {
            return Some(i);
        }
        i += 1;
    }
    None
}

/// A store of items filed under group keys, which hands the items out
/// interleaved: the items of each group spread evenly over the whole.
///
/// The groups stand in the order in which their keys first came in, and
/// the items of a group in the order in which they came in. The view of a
/// store is that sequence of groups.
pub struct BalancedGroupShuffle<K: Eq, T: Clone> {
    filed: Filed<K, T>,
}

impl<K: Eq, T: Clone> View for BalancedGroupShuffle<K, T> {
    type V = Groups<K, T>;

    closed spec fn view(&self) -> Groups<K, T> {
        self.filed.groups()
    }
}

impl<K: Eq, T: Clone> BalancedGroupShuffle<K, T> {
    #[verifier::type_invariant]
    spec fn inv(self) -> bool {
        self.filed.wf()
    }

    /// An empty store.
    pub fn new() -> (store: BalancedGroupShuffle<K, T>)
        ensures
            store@ == Seq::<(K, Seq<T>)>::empty(),
    {
        BalancedGroupShuffle { filed: Filed::empty() }
    }

    /// Files the items under `key`, in their order.
    fn file_all(&mut self, key: K, items: Vec<T>)
        requires
            flat(old(self)@).len() + items@.len() <= usize::MAX,
        ensures
            flat(final(self)@).to_multiset() == flat(old(self)@).to_multiset().add(
                items@.to_multiset(),
            ),
            flat(final(self)@).len() == flat(old(self)@).len() + items@.len(),
            obeys_concrete_eq::<K>() ==> final(self)@ == inserted_all(old(self)@, key, items@),
    {
        broadcast use vstd::multiset::group_multiset_axioms;

        proof {
            use_type_invariant(&*self);
            lemma_inserted_all(self@, key, items@);
            lemma_key_index(self@, key);
        }
        let ghost before = self@;
        let ghost added = items@;
        if items.len() == 0 {
            proof {
                to_multiset_len(added);
                assert(added.to_multiset() =~= Multiset::<T>::empty());
                assert(flat(before).to_multiset().add(added.to_multiset()) =~= flat(
                    before,
                ).to_multiset());
            }
            return ;
        }
        let mut items = items;
        let mut filed = Filed::empty();
        std::mem::swap(&mut self.filed, &mut filed);
        assert(filed.groups() == before);
        filed.num_values = filed.num_values + items.len();
        match find_key(&filed.keys, &key) {
            Some(i) => {
                filed.items[i].append(&mut items);
                proof {
                    assert(filed.groups() =~= extended(before, i as int, added));
                    lemma_flat_extended(before, i as int, added);
                    assert(before[i as int].0 == filed.keys@[i as int]);
                }
            },
            None => {
                filed.keys.push(key);
                filed.items.push(items);
                proof {
                    assert(filed.groups() =~= before.push((key, added)));
                    lemma_flat_pushed(before, key, added);
                    lemma_multiset_commutative(flat(before), added);
                }
            },
        }
        self.filed = filed;
    }

    /// A store that holds the given batches: the items of each batch are
    /// filed under its key, one after the other, batch after batch.
    ///
    /// A batch without items leaves no group, and batches under one key
    /// share a group.
    pub fn from_groups(groups: Vec<(K, Vec<T>)>) -> (store: BalancedGroupShuffle<K, T>)
        requires
            flat(batches_of(groups@)).len() <= usize::MAX,
        ensures
            flat(store@).to_multiset() == flat(batches_of(groups@)).to_multiset(),
            flat(store@).len() == flat(batches_of(groups@)).len(),
            obeys_concrete_eq::<K>() ==> store@ == gathered(batches_of(groups@)),
    {
        let ghost batches = batches_of(groups@);
        let mut store = BalancedGroupShuffle::new();
        for batch in it: groups.into_iter()
            invariant
                batches == batches_of(it.seq()),
                flat(batches).len() <= usize::MAX,
                flat(store@).to_multiset() == flat(batches.take(it.index())).to_multiset(),
                flat(store@).len() == flat(batches.take(it.index())).len(),
                obeys_concrete_eq::<K>() ==> store@ == gathered(batches.take(it.index())),
        {
            let ghost n = it.index();
            let (key, items) = batch;
            proof {
                assert(batches[n] == (key, items@));
                lemma_flat_step(batches, n);
                lemma_flat_prefix(batches, n + 1);
                lemma_multiset_commutative(flat(batches.take(n)), items@);
                assert(batches.take(n + 1).drop_last() =~= batches.take(n));
            }
            store.file_all(key, items);
        }
        assert(batches.take(batches.len() as int) =~= batches);
        store
    }

    /// The number of groups, which is the number of distinct keys.
    ///
    /// That the keys are distinct is known where `==` on `K` is equality.
    pub fn group_count(&self) -> (count: usize)
        ensures
            count == self@.len(),
            obeys_concrete_eq::<K>() ==> keys_of(self@).no_duplicates() && count == keys_of(
                self@,
            ).to_set().len(),
    {
        proof {
            use_type_invariant(self);
            assert(keys_of(self@) =~= self.filed.keys@);
            if obeys_concrete_eq::<K>() {
                keys_of(self@).unique_seq_to_set();
            }
        }
        self.filed.keys.len()
    }

    /// The number of groups, which is the number of distinct keys.
    pub fn len(&self) -> (count: usize)
        ensures
            count == self@.len(),
            obeys_concrete_eq::<K>() ==> keys_of(self@).no_duplicates() && count == keys_of(
                self@,
            ).to_set().len(),
    {
        self.group_count()
    }

    /// The number of items, kept up to date by every insertion. No group
    /// is without items.
    pub fn total_items(&self) -> (total: usize)
        ensures
            total == flat(self@).len(),
            !has_empty_group(sizes_of(self@)),
    {
        proof {
            use_type_invariant(self);
            assert forall|i: int| 0 <= i < self@.len() implies sizes_of(self@)[i] != 0 by {
                assert(self.filed.items@[i]@.len() > 0);
            }
        }
        self.filed.num_values
    }

    /// Files `item` under `key`: behind the items already filed under that
    /// key, or in a new group behind the other groups.
    ///
    /// Returns a copy of the items that the group held before, and `None`
    /// where the key is new. Keys are compared with `==`; what that finds
    /// is known where `==` on `K` is equality.
    pub fn insert(&mut self, key: K, item: T) -> (previous: Option<Vec<T>>)
        requires
            flat(old(self)@).len() < usize::MAX,
        ensures
            match previous {
                Some(prior) => exists|i: int|
                    0 <= i < old(self)@.len() && final(self)@ == #[trigger] joined(
                        old(self)@,
                        i,
                        item,
                    ) && copies(old(self)@[i].1, prior@),
                None => final(self)@ == opened(old(self)@, key, item),
            },
            obeys_concrete_eq::<K>() ==> final(self)@ == inserted(old(self)@, key, item) && (
            previous is Some <==> key_index(old(self)@, key) is Some),
            flat(final(self)@).to_multiset() == flat(old(self)@).to_multiset().insert(item),
            flat(final(self)@).len() == flat(old(self)@).len() + 1,
    {
        proof {
            use_type_invariant(&*self);
            lemma_key_index(self@, key);
        }
        let ghost before = self@;
        let found = find_key(&self.filed.keys, &key);
        let previous = match found {
            Some(i) => Some(self.filed.items[i].clone()),
            None => None,
        };
        let mut filed = Filed::empty();
        std::mem::swap(&mut self.filed, &mut filed);
        assert(filed.groups() == before);
        match found {
            Some(i) => {
                filed.items[i].push(item);
                proof {
                    assert(filed.groups() =~= joined(before, i as int, item));
                    lemma_flat_joined(before, i as int, item);
                    assert(before[i as int].0 == filed.keys@[i as int]);
                }
            },
            None => {
                filed.keys.push(key);
                let mut group: Vec<T> = Vec::new();
                group.push(item);
                filed.items.push(group);
                proof {
                    assert(filed.groups() =~= opened(before, key, item));
                    lemma_flat_opened(before, key, item);
                    to_multiset_build(flat(before), item);
                }
            },
        }
        filed.num_values = filed.num_values + 1;
        self.filed = filed;
        previous
    }

    /// All items, group after group: an inventory, not an interleaving.
    pub fn all_values(&self) -> (out: Vec<&T>)
        ensures
            out@.unref() == flat(self@),
    {
        proof {
            use_type_invariant(self);
        }
        let ghost groups = self@;
        let mut out: Vec<&T> = Vec::new();
        let mut i: usize = 0;
        while i < self.filed.items.len()
            invariant
                i <= self.filed.items@.len(),
                groups == self.filed.groups(),
                groups.len() == self.filed.items@.len(),
                out@.unref() == flat(groups.take(i as int)),
            decreases self.filed.items@.len() - i,
        {
            let group = &self.filed.items[i];
            let ghost done = out@.unref();
            let mut j: usize = 0;
            while j < group.len()
                invariant
                    j <= group@.len(),
                    out@.unref() == done + group@.take(j as int),
                decreases group@.len() - j,
            {
                let ghost sofar = out@;
                out.push(&group[j]);
                proof {
                    assert(sofar.push(&group@[j as int]).unref() =~= sofar.unref().push(
                        group@[j as int],
                    ));
                    assert(done + group@.take(j + 1) =~= (done + group@.take(j as int)).push(
                        group@[j as int],
                    ));
                }
                j += 1;
            }
            proof {
                assert(group@.take(group@.len() as int) =~= group@);
                lemma_flat_step(groups, i as int);
            }
            i += 1;
        }
        assert(groups.take(groups.len() as int) =~= groups);
        out
    }

    /// A copy of all items, group after group.
    pub fn values(&self) -> (out: Vec<T>)
        ensures
            copies(flat(self@), out@),
    {
        proof {
            use_type_invariant(self);
        }
        let ghost groups = self@;
        let mut out: Vec<T> = Vec::new();
        let mut i: usize = 0;
        while i < self.filed.items.len()
            invariant
                i <= self.filed.items@.len(),
                groups == self.filed.groups(),
                groups.len() == self.filed.items@.len(),
                copies(flat(groups.take(i as int)), out@),
            decreases self.filed.items@.len() - i,
        {
            let ghost done = out@;
            out.extend_from_slice(self.filed.items[i].as_slice());
            proof {
                lemma_flat_step(groups, i as int);
                let sources = flat(groups.take(i + 1));
                assert forall|j: int| 0 <= j < sources.len() implies cloned(
                    sources[j],
                    #[trigger] out@[j],
                ) by {
                    if j < done.len() {
                        assert(out@[j] == done[j]);
                    }
                }
            }
            i += 1;
        }
        assert(groups.take(groups.len() as int) =~= groups);
        out
    }

    /// The number of items of each group.
    pub fn group_sizes(&self) -> (sizes: Vec<usize>)
        ensures
            nats(sizes@) == sizes_of(self@),
            !has_empty_group(sizes_of(self@)),
            total_of(sizes_of(self@)) == flat(self@).len(),
            flat(self@).len() <= usize::MAX,
    {
        proof {
            use_type_invariant(self);
            lemma_flat_len(self@);
        }
        let ghost groups = self@;
        let mut sizes: Vec<usize> = Vec::new();
        let mut i: usize = 0;
        while i < self.filed.items.len()
            invariant
                i <= self.filed.items@.len(),
                groups == self.filed.groups(),
                groups.len() == self.filed.items@.len(),
                nats(sizes@) == sizes_of(groups).take(i as int),
            decreases self.filed.items@.len() - i,
        {
            let ghost sofar = sizes@;
            let size = self.filed.items[i].len();
            sizes.push(size);
            proof {
                assert(nats(sofar.push(size)) =~= nats(sofar).push(size as nat));
                assert(sizes_of(groups).take(i + 1) =~= sizes_of(groups).take(i as int).push(
                    size as nat,
                ));
            }
            i += 1;
        }
        assert(sizes_of(groups).take(groups.len() as int) =~= sizes_of(groups));
        sizes
    }

    /// Hands the items out by the given slots: slot by slot, and the items
    /// of one slot in the order in which the store holds them.
    ///
    /// `slots[k]` is the slot of item `k` of `all_values`.
    pub fn arrange(&self, slots: &Vec<usize>) -> (out: Vec<&T>)
        requires
            slots@.len() == flat(self@).len(),
            slots_in_range(nats(slots@)),
        ensures
            out@.unref() == arranged(flat(self@), dispersed(nats(slots@))),
            out@.unref().to_multiset() == flat(self@).to_multiset(),
            out@.len() == flat(self@).len(),
    {
        let order = disperse(slots);
        let items = self.all_values();
        let ghost wanted = arranged(flat(self@), nats(order@));
        proof {
            lemma_dispersed_in_range(nats(slots@), slots@.len());
            lemma_dispersed_keeps_items(flat(self@), nats(slots@));
        }
        let mut out: Vec<&T> = Vec::new();
        let mut k: usize = 0;
        while k < order.len()
            invariant
                k <= order@.len(),
                items@.unref() == flat(self@),
                wanted == arranged(flat(self@), nats(order@)),
                forall|i: int| 0 <= i < order@.len() ==> #[trigger] nats(order@)[i] < items@.len(),
                out@.unref() == wanted.take(k as int),
            decreases order@.len() - k,
        {
            let ghost sofar = out@;
            let at = order[k];
            assert(nats(order@)[k as int] == at);
            assert(items@.unref()[at as int] == *items@[at as int]);
            out.push(items[at]);
            proof {
                assert(sofar.push(items@[at as int]).unref() =~= sofar.unref().push(
                    *items@[at as int],
                ));
                assert(wanted.take(k + 1) =~= wanted.take(k as int).push(wanted[k as int]));
            }
            k += 1;
        }
        assert(wanted.take(order@.len() as int) =~= wanted);
        out
    }

    /// Hands the items out interleaved by the ring rule: group `i` starts
    /// at slot `i` and places its items a spread apart.
    ///
    /// The result depends on the store alone, holds every item once, and
    /// leaves the store as it is.
    pub fn shuffle(&self) -> (out: Vec<&T>)
        ensures
            out@.unref() == ring_order(self@),
            out@.unref().to_multiset() == flat(self@).to_multiset(),
            out@.len() == flat(self@).len(),
    {
        let sizes = self.group_sizes();
        match assign_ring(&sizes) {
            Ok(slots) => {
                proof {
                    lemma_ring_slots_fit(sizes_of(self@));
                }
                self.arrange(&slots)
            },
            // No group of a store is empty, so nothing is refused.
            Err(_) => Vec::new(),
        }
    }

    /// Hands the items out interleaved by the jitter rule, for draws that
    /// the caller supplies: `draws[k]` is the number drawn for item `k` of
    /// `all_values`. Any number serves as a draw.
    ///
    /// Whatever the draws, the result holds every item once.
    pub fn shuffle_with_draws(&self, config: &JitterConfig, draws: &Vec<u128>) -> (out: Vec<&T>)
        requires
            draws@.len() == flat(self@).len(),
        ensures
            out@.unref() == drawn_order(self@, config@, draw_nats(draws@)),
            out@.unref().to_multiset() == flat(self@).to_multiset(),
            out@.len() == flat(self@).len(),
    {
        let sizes = self.group_sizes();
        match assign_jittered(&sizes, config, draws) {
            Ok(slots) => {
                proof {
                    lemma_jittered_slots_fit(
                        sizes_of(self@),
                        radius_of(total_of(sizes_of(self@)), config@),
                        draw_nats(draws@),
                    );
                }
                self.arrange(&slots)
            },
            // No group of a store is empty, so nothing is refused.
            Err(_) => Vec::new(),
        }
    }

    /// Hands the items out interleaved by the jitter rule, with draws that
    /// `seed` settles.
    ///
    /// The result depends on the store, the configuration and the seed
    /// alone, and holds every item once.
    pub fn shuffle_jittered(&self, config: &JitterConfig, seed: u64) -> (out: Vec<&T>)
        ensures
            out@.unref() == jittered_order(self@, config@, seed),
            out@.unref().to_multiset() == flat(self@).to_multiset(),
            out@.len() == flat(self@).len(),
    {
        let sizes = self.group_sizes();
        let draws = draw_offsets(&sizes, config, seed);
        self.shuffle_with_draws(config, &draws)
    }

    /// Hands the items out interleaved by the rule of the given mode.
    pub fn shuffle_in(&self, mode: &ShuffleMode) -> (out: Vec<&T>)
        ensures
            out@.unref() == order_in(self@, *mode),
            out@.unref().to_multiset() == flat(self@).to_multiset(),
            out@.len() == flat(self@).len(),
    {
        match mode {
            ShuffleMode::Deterministic => self.shuffle(),
            ShuffleMode::Jittered { config, seed } => self.shuffle_jittered(config, *seed),
        }
    }

    /// Hands the items out interleaved by the ring rule, as `shuffle` does.
    pub fn disperse(&self) -> (out: Vec<&T>)
        ensures
            out@.unref() == ring_order(self@),
            out@.unref().to_multiset() == flat(self@).to_multiset(),
            out@.len() == flat(self@).len(),
    {
        self.shuffle()
    }
}

} // verus!
