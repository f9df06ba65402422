//! Group sizes, their sum, and numbers given to the items group after
//! group.

use vstd::prelude::*;

verus! {

/// A vector of machine integers read as a sequence of natural numbers.
pub open spec fn nats(v: Seq<usize>) -> Seq<nat> {
    v.map_values(|x: usize| x as nat)
}

/// The sum of a sequence of group sizes.
pub open spec fn total_of(sizes: Seq<nat>) -> nat
    decreases sizes.len(),
{
    if sizes.len() == 0 {
        0
    } else {
        total_of(sizes.drop_last()) + sizes.last()
    }
}

/// Some group in the sequence has no items.
pub open spec fn has_empty_group(sizes: Seq<nat>) -> bool {
    exists|i: int| 0 <= i < sizes.len() && sizes[i] == 0
}

/// The numbers that `rule` gives to the `size` items of group `i`, the
/// first of which is item `first` of all: `rule(i, j, k)` is the number of
/// item `j` of the group, which is item `k` of all.
pub open spec fn group_values(
    rule: spec_fn(nat, nat, nat) -> nat,
    i: nat,
    size: nat,
    first: nat,
) -> Seq<nat> {
    Seq::new(size, |j: int| rule(i, j as nat, first + j as nat))
}

/// The numbers that `rule` gives to the items of the first `n` groups,
/// group after group.
pub open spec fn item_values_upto(
    sizes: Seq<nat>,
    rule: spec_fn(nat, nat, nat) -> nat,
    n: nat,
) -> Seq<nat>
    decreases n,
{
    if n == 0 {
        Seq::empty()
    } else {
        item_values_upto(sizes, rule, (n - 1) as nat) + group_values(
            rule,
            (n - 1) as nat,
            sizes[n - 1],
            total_of(sizes.take(n - 1)),
        )
    }
}

/// The numbers that `rule` gives to all items, group after group and
/// within a group in item order.
pub open spec fn item_values(sizes: Seq<nat>, rule: spec_fn(nat, nat, nat) -> nat) -> Seq<nat> {
    item_values_upto(sizes, rule, sizes.len())
}

/// The sizes of the first `n + 1` groups sum to those of the first `n`
/// plus the size of group `n`.
pub proof fn lemma_total_step(sizes: Seq<nat>, n: int)
    requires
        0 <= n < sizes.len(),
    ensures
        total_of(sizes.take(n + 1)) == total_of(sizes.take(n)) + sizes[n],
{
    assert(sizes.take(n + 1).drop_last() =~= sizes.take(n));
}

/// The sum of the first `n` sizes does not exceed the sum of all.
pub proof fn lemma_total_prefix(sizes: Seq<nat>, n: int)
    requires
        0 <= n <= sizes.len(),
    ensures
        total_of(sizes.take(n)) <= total_of(sizes),
    decreases sizes.len() - n,
{
    if n == sizes.len() {
        assert(sizes.take(n) =~= sizes);
    } else {
        lemma_total_prefix(sizes, n + 1);
        lemma_total_step(sizes, n);
    }
}

/// No group is larger than all groups together.
pub proof fn lemma_size_within_total(sizes: Seq<nat>, i: int)
    requires
        0 <= i < sizes.len(),
    ensures
        sizes[i] <= total_of(sizes),
{
    lemma_total_prefix(sizes, i + 1);
    lemma_total_step(sizes, i);
}

/// Where no group is empty, there are at least as many items as groups.
pub proof fn lemma_count_within_total(sizes: Seq<nat>)
    requires
        !has_empty_group(sizes),
    ensures
        sizes.len() <= total_of(sizes),
    decreases sizes.len(),
{
    if sizes.len() > 0 {
        let rest = sizes.drop_last();
        assert forall|i: int| 0 <= i < rest.len() implies rest[i] != 0 by {
            assert(rest[i] == sizes[i]);
        }
        lemma_count_within_total(rest);
        assert(sizes[sizes.len() - 1] != 0);
    }
}

/// A rule gives the items of the first `n` groups one number each, and
/// numbers below `bound` where it stays below `bound` on those items.
pub proof fn lemma_item_values_upto(
    sizes: Seq<nat>,
    rule: spec_fn(nat, nat, nat) -> nat,
    n: nat,
    bound: nat,
)
    requires
        n <= sizes.len(),
        forall|i: nat, j: nat, k: nat| i < n && j < sizes[i as int] ==> #[trigger] rule(i, j, k) < bound,
    ensures
        item_values_upto(sizes, rule, n).len() == total_of(sizes.take(n as int)),
        forall|k: int|
            0 <= k < item_values_upto(sizes, rule, n).len() ==> #[trigger] item_values_upto(
                sizes,
                rule,
                n,
            )[k] < bound,
    decreases n,
{
    if n > 0 {
        let m = (n - 1) as nat;
        lemma_item_values_upto(sizes, rule, m, bound);
        lemma_total_step(sizes, m as int);
        let head = item_values_upto(sizes, rule, m);
        let first = total_of(sizes.take(m as int));
        let tail = group_values(rule, m, sizes[m as int], first);
        assert forall|k: int| 0 <= k < (head + tail).len() implies #[trigger] (head + tail)[k]
            < bound by {
            if k >= head.len() {
                let j = (k - head.len()) as nat;
                assert((head + tail)[k] == tail[j as int]);
                assert(tail[j as int] == rule(m, j, first + j));
            }
        }
    } else {
        assert(sizes.take(0) =~= Seq::<nat>::empty());
    }
}

} // verus!
