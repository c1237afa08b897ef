//! Item frequencies, and the two ways to tell the rare items from the common ones.

use crate::index::{lemma_support_push, only, support_count, supporters, Index};
use crate::itemset::{
    ascending_keys, high_of, key_high, key_low, low_of, pack, pack_key, sorted_keys,
};
use rand::Rng;
use std::collections::HashSet;
use vstd::prelude::*;
use vstd::seq_lib::{commutative_foldl, lemma_fold_left_permutation};

verus! {

broadcast use vstd::std_specs::hash::group_hash_axioms;

/// One more than the largest count.
pub open spec fn count_limit() -> int {
    0x1_0000_0000
}

/// The sum of the counts of `counts` that lie below `bound`.
pub open spec fn sum_below(counts: Seq<u32>, bound: int) -> int
    decreases counts.len(),
{
    if counts.len() == 0 {
        0
    } else {
        sum_below(counts.drop_last(), bound) + if counts.last() < bound {
            counts.last() as int
        } else {
            0
        }
    }
}

/// The sum of all counts.
pub open spec fn total(counts: Seq<u32>) -> int {
    sum_below(counts, count_limit())
}

/// The Pareto rule: an item that occurs is rare where the counts below its own,
/// together with its own, stay under a quarter of the sum of all counts. Items of
/// one count are therefore rare together or not at all.
pub open spec fn pareto_rare(counts: Seq<u32>, item: u32) -> bool {
    &&& item < counts.len()
    &&& counts[item as int] > 0
    &&& sum_below(counts, counts[item as int] as int) + counts[item as int] < total(counts) / 4
}

/// The items that the Pareto rule calls rare.
pub open spec fn pareto_rare_set(counts: Seq<u32>) -> Set<u32> {
    Set::new(|item: u32| pareto_rare(counts, item))
}

/// The counts below a bound sum to no more than all counts below a larger bound, and
/// to no less than zero.
pub proof fn lemma_sum_below_monotone(counts: Seq<u32>, low: int, high: int)
    requires
        low <= high,
    ensures
        0 <= sum_below(counts, low) <= sum_below(counts, high),
        sum_below(counts, high) <= counts.len() * 0xffff_ffff,
    decreases counts.len(),
{
    if counts.len() > 0 {
        lemma_sum_below_monotone(counts.drop_last(), low, high);
    }
}

/// How often each item occurs: the count of item `id` stands at index `id`.
pub struct ItemCount {
    counts: Vec<u32>,
}

impl View for ItemCount {
    type V = Seq<u32>;

    /// The table of counts; an item beyond its end has not occurred.
    closed spec fn view(&self) -> Seq<u32> {
        self.counts@
    }
}

/// The count that a table holds for an item.
pub open spec fn count_in(counts: Seq<u32>, item: u32) -> u32 {
    if item < counts.len() {
        counts[item as int]
    } else {
        0
    }
}

/// A count raised by one, but not beyond what 32 bits hold.
pub open spec fn bumped(count: u32) -> u32 {
    if count < u32::MAX {
        (count + 1) as u32
    } else {
        count
    }
}

impl ItemCount {
    /// The table has room for no more than every id.
    pub open spec fn well_formed(&self) -> bool {
        self@.len() <= count_limit()
    }

    /// The count of an item.
    pub open spec fn count_of(&self, item: u32) -> u32 {
        count_in(self@, item)
    }

    /// The counts of a dataset without transactions.
    pub fn new() -> (item_count: ItemCount)
        ensures
            item_count.well_formed(),
            item_count@ == Seq::<u32>::empty(),
    {
        ItemCount { counts: Vec::new() }
    }

    /// How often `item` occurs.
    pub fn get(&self, item: u32) -> (count: u32)
        ensures
            count == self.count_of(item),
    {
        if (item as usize) < self.counts.len() {
            self.counts[item as usize]
        } else {
            0
        }
    }

    /// Counts one more occurrence of `item`; a count that has reached the largest
    /// 32-bit number stays there.
    pub fn increment(&mut self, item: u32)
        requires
            old(self).well_formed(),
        ensures
            final(self).well_formed(),
            final(self)@ == counted(old(self)@, item),
    {
        let slot: usize = item as usize;
        while self.counts.len() <= slot
            invariant
                slot == item,
                old(self)@.len() <= self@.len(),
                self@.len() <= slot + 1 || self@.len() == old(self)@.len(),
                forall|k: int| 0 <= k < old(self)@.len() ==> self@[k] == old(self)@[k],
                forall|k: int| old(self)@.len() <= k < self@.len() ==> self@[k] == 0,
            decreases slot + 1 - self@.len(),
        {
            self.counts.push(0);
        }
        let count: u32 = self.counts[slot];
        if count < u32::MAX {
            self.counts.set(slot, count + 1);
        }
        proof {
            assert(self@ =~= counted(old(self)@, item));
        }
    }

    /// Counts one more occurrence of each item of `transaction`.
    pub fn record(&mut self, transaction: &Vec<u32>)
        requires
            old(self).well_formed(),
        ensures
            final(self).well_formed(),
            final(self)@ == recorded(old(self)@, transaction@),
    {
        let mut k: usize = 0;
        while k < transaction.len()
            invariant
                k <= transaction.len(),
                self.well_formed(),
                self@ == recorded(old(self)@, transaction@.take(k as int)),
            decreases transaction.len() - k,
        {
            self.increment(transaction[k]);
            proof {
                assert(transaction@.take(k + 1).drop_last() =~= transaction@.take(k as int));
            }
            k += 1;
        }
        proof {
            assert(transaction@.take(k as int) =~= transaction@);
        }
    }

    /// The largest count, or zero where no item occurs.
    pub fn max_count(&self) -> (max: u32)
        requires
            self.well_formed(),
        ensures
            forall|item: u32| self.count_of(item) <= max,
            max == 0 || exists|item: u32| self.count_of(item) == max,
    {
        let mut max: u32 = 0;
        let mut at: usize = 0;
        let mut k: usize = 0;
        while k < self.counts.len()
            invariant
                k <= self.counts.len(),
                forall|i: int| 0 <= i < k ==> self@[i] <= max,
                max == 0 || (at < k && self@[at as int] == max),
            decreases self.counts.len() - k,
        {
            if self.counts[k] > max {
                max = self.counts[k];
                at = k;
            }
            k += 1;
        }
        proof {
            if max != 0 {
                assert(self.count_of(at as u32) == max);
            }
        }
        max
    }

    /// The sum of all counts.
    pub fn total_count(&self) -> (sum: u64)
        requires
            self.well_formed(),
        ensures
            sum == total(self@),
    {
        let mut sum: u64 = 0;
        let mut k: usize = 0;
        while k < self.counts.len()
            invariant
                k <= self.counts.len(),
                self.well_formed(),
                sum == total(self@.take(k as int)),
                sum <= k * 0xffff_ffff,
            decreases self.counts.len() - k,
        {
            proof {
                assert(self@.take(k + 1).drop_last() =~= self@.take(k as int));
            }
            sum = sum + self.counts[k] as u64;
            k += 1;
        }
        proof {
            assert(self@.take(k as int) =~= self@);
        }
        sum
    }
}

/// The table after one more occurrence of `item`: long enough to hold the item, and
/// the item's count raised by one.
pub open spec fn counted(counts: Seq<u32>, item: u32) -> Seq<u32> {
    Seq::new(
        if item < counts.len() {
            counts.len()
        } else {
            (item + 1) as nat
        },
        |i: int|
            if i == item {
                bumped(count_in(counts, item))
            } else {
                count_in(counts, i as u32)
            },
    )
}

/// The table after one more occurrence of each item of `items`, from left to right.
pub open spec fn recorded(counts: Seq<u32>, items: Seq<u32>) -> Seq<u32>
    decreases items.len(),
{
    if items.len() == 0 {
        counts
    } else {
        counted(recorded(counts, items.drop_last()), items.last())
    }
}

/// What a sort key adds to the sum of the counts below `bound`: its count, where
/// that lies below `bound`.
pub open spec fn weight_below(key: u64, bound: int) -> int {
    if high_of(key) < bound {
        high_of(key) as int
    } else {
        0
    }
}

/// The step that adds the weight of one key.
pub open spec fn adder(bound: int) -> spec_fn(int, u64) -> int {
    |acc: int, key: u64| acc + weight_below(key, bound)
}

/// The sum of the counts below `bound` that the keys carry.
pub open spec fn keys_below(keys: Seq<u64>, bound: int) -> int {
    keys.fold_left(0int, adder(bound))
}

/// One more key adds its weight.
proof fn lemma_keys_below_push(keys: Seq<u64>, key: u64, bound: int)
    ensures
        keys_below(keys.push(key), bound) == keys_below(keys, bound) + weight_below(key, bound),
{
    assert(keys.push(key).drop_last() =~= keys);
}

/// The sum over a prefix, one key further.
proof fn lemma_keys_below_step(keys: Seq<u64>, j: int, bound: int)
    requires
        0 <= j < keys.len(),
    ensures
        keys_below(keys.take(j + 1), bound) == keys_below(keys.take(j), bound) + weight_below(
            keys[j],
            bound,
        ),
{
    assert(keys.take(j + 1) =~= keys.take(j).push(keys[j]));
    lemma_keys_below_push(keys.take(j), keys[j], bound);
}

/// The sum does not depend on the order of the keys.
proof fn lemma_keys_below_permuted(a: Seq<u64>, b: Seq<u64>, bound: int)
    requires
        a.to_multiset() == b.to_multiset(),
    ensures
        keys_below(a, bound) == keys_below(b, bound),
{
    let f = adder(bound);
    assert(commutative_foldl(f)) by {
        assert forall|x: u64, y: u64, v: int| #[trigger] f(f(v, x), y) == f(f(v, y), x) by {}
    }
    lemma_fold_left_permutation(a, b, f, 0int);
}

/// Among keys in ascending order, the sum of the counts below the count of key `j`
/// is made up by the keys before `j`; it is the sum of all counts before `j` where
/// `j` is the first key of its count.
proof fn lemma_below_is_prefix(keys: Seq<u64>, j: int, upto: int)
    requires
        ascending_keys(keys),
        0 <= j <= upto <= keys.len(),
        j < keys.len(),
    ensures
        keys_below(keys.take(upto), high_of(keys[j]) as int) == keys_below(
            keys.take(j),
            high_of(keys[j]) as int,
        ),
        0 <= keys_below(keys.take(j), high_of(keys[j]) as int) <= keys_below(
            keys.take(j),
            count_limit(),
        ),
        (j == 0 || high_of(keys[j - 1]) < high_of(keys[j])) ==> keys_below(
            keys.take(j),
            high_of(keys[j]) as int,
        ) == keys_below(keys.take(j), count_limit()),
    decreases upto - j, j,
{
    let bound = high_of(keys[j]) as int;
    if upto > j {
        lemma_below_is_prefix(keys, j, upto - 1);
        lemma_keys_below_step(keys, upto - 1, bound);
        assert(keys[j] <= keys[upto - 1]);
    } else {
        lemma_prefix_weights(keys, j, j);
    }
}

/// The two sums over the first `m` keys, against the count of key `j`, which none of
/// them comes after.
proof fn lemma_prefix_weights(keys: Seq<u64>, j: int, m: int)
    requires
        ascending_keys(keys),
        0 <= m <= j < keys.len(),
    ensures
        0 <= keys_below(keys.take(m), high_of(keys[j]) as int) <= keys_below(
            keys.take(m),
            count_limit(),
        ),
        (j == 0 || high_of(keys[j - 1]) < high_of(keys[j])) ==> keys_below(
            keys.take(m),
            high_of(keys[j]) as int,
        ) == keys_below(keys.take(m), count_limit()),
    decreases m,
{
    let bound = high_of(keys[j]) as int;
    if m > 0 {
        lemma_prefix_weights(keys, j, m - 1);
        lemma_keys_below_step(keys, m - 1, bound);
        lemma_keys_below_step(keys, m - 1, count_limit());
        if j > 0 {
            assert(keys[m - 1] <= keys[j - 1]);
        }
    } else {
        assert(keys.take(0) =~= Seq::<u64>::empty());
    }
}

/// Among keys in ascending order, the keys whose counts lie under a bound add all
/// of their counts to the sum below that bound.
proof fn lemma_below_covers(keys: Seq<u64>, m: int, upto: int, bound: int)
    requires
        0 <= m <= upto <= keys.len(),
        forall|i: int| 0 <= i < m ==> high_of(#[trigger] keys[i]) < bound,
    ensures
        keys_below(keys.take(upto), bound) >= keys_below(keys.take(m), count_limit()),
        keys_below(keys.take(m), count_limit()) >= 0,
    decreases upto - m, m,
{
    if upto > m {
        lemma_below_covers(keys, m, upto - 1, bound);
        lemma_keys_below_step(keys, upto - 1, bound);
    } else if m > 0 {
        lemma_below_covers(keys, m - 1, m - 1, bound);
        lemma_keys_below_step(keys, m - 1, bound);
        lemma_keys_below_step(keys, m - 1, count_limit());
    } else {
        assert(keys.take(0) =~= Seq::<u64>::empty());
    }
}

/// Whether a sort key carries an item of the table, with its count, which is not zero.
pub open spec fn key_of_table(counts: Seq<u32>, key: u64) -> bool {
    &&& low_of(key) < counts.len()
    &&& counts[low_of(key) as int] > 0
    &&& high_of(key) == counts[low_of(key) as int]
}

/// Whether key `j` passes the Pareto test against the threshold.
pub open spec fn passes(keys: Seq<u64>, threshold: int, j: int) -> bool {
    keys_below(keys, high_of(keys[j]) as int) + high_of(keys[j]) < threshold
}

/// Whether one of the first `upto` keys carries `item` and passes the Pareto test.
pub open spec fn chosen(keys: Seq<u64>, threshold: int, upto: int, item: u32) -> bool {
    exists|j: int| 0 <= j < upto && low_of(#[trigger] keys[j]) == item && passes(keys, threshold, j)
}

/// The rare items by the Pareto rule.
///
/// The items that occur are walked in the order of their counts, smallest first, and
/// the counts are added up on the way. An item is rare where the sum, with its own
/// count, is still under a quarter of the sum of all counts, or where its count is
/// that of the item taken just before. The walk ends as soon as the sum has passed
/// the quarter and the tie has ended. The outcome depends on the counts alone.
pub fn find_pareto_rare_items(item_count: &ItemCount) -> (rare_items: HashSet<u32>)
    requires
        item_count.well_formed(),
    ensures
        rare_items@ == pareto_rare_set(item_count@),
{
    let ghost counts = item_count@;
    let mut keys: Vec<u64> = Vec::new();
    let mut k: usize = 0;
    while k < item_count.counts.len()
        invariant
            k <= item_count.counts.len(),
            item_count.well_formed(),
            counts == item_count@,
            keys@.len() <= k,
            forall|p: int| 0 <= p < keys@.len() ==> key_of_table(counts, #[trigger] keys@[p]),
            forall|i: int|
                0 <= i < k && counts[i] > 0 ==>
                    keys@.contains(#[trigger] pack(counts[i], i as u32)),
            forall|bound: int| #[trigger]
                keys_below(keys@, bound) == sum_below(counts.take(k as int), bound),
        decreases item_count.counts.len() - k,
    {
        let count: u32 = item_count.counts[k];
        let ghost keys0 = keys@;
        proof {
            assert(counts.take(k + 1).drop_last() =~= counts.take(k as int));
        }
        if count > 0 {
            let key: u64 = pack_key(count, k as u32);
            keys.push(key);
            proof {
                assert forall|bound: int| #[trigger]
                    keys_below(keys@, bound) == sum_below(counts.take(k + 1), bound) by {
                    lemma_keys_below_push(keys0, key, bound);
                    assert(keys_below(keys0, bound) == sum_below(counts.take(k as int), bound));
                }
                assert forall|i: int| 0 <= i < k + 1 && counts[i] > 0 implies keys@.contains(
                    #[trigger] pack(counts[i], i as u32),
                ) by {
                    if i < k {
                        assert(keys0.contains(pack(counts[i], i as u32)));
                        let p = choose|p: int|
                            0 <= p < keys0.len() && keys0[p] == pack(counts[i], i as u32);
                        assert(keys@[p] == keys0[p]);
                    } else {
                        assert(keys@[keys0.len() as int] == key);
                    }
                }
            }
        } else {
            proof {
                assert forall|bound: int| #[trigger]
                    keys_below(keys@, bound) == sum_below(counts.take(k + 1), bound) by {
                    assert(keys_below(keys0, bound) == sum_below(counts.take(k as int), bound));
                }
            }
        }
        k += 1;
    }
    let total_count: u64 = item_count.total_count();
    let threshold: u64 = total_count / 4;
    let order = sorted_keys(&keys);
    proof {
        broadcast use vstd::seq_lib::group_to_multiset_ensures;

        assert(counts.take(k as int) =~= counts);
        assert(order@.to_multiset().len() == order@.len());
        assert(keys@.to_multiset().len() == keys@.len());
        assert forall|bound: int| #[trigger]
            keys_below(order@, bound) == sum_below(counts, bound) by {
            lemma_keys_below_permuted(order@, keys@, bound);
            assert(keys_below(keys@, bound) == sum_below(counts.take(k as int), bound));
        }
        assert forall|p: int| 0 <= p < order@.len() implies key_of_table(
            counts,
            #[trigger] order@[p],
        ) by {
            assert(order@.contains(order@[p]));
            assert(order@.to_multiset().count(order@[p]) > 0);
            assert(keys@.contains(order@[p]));
            let q = choose|q: int| 0 <= q < keys@.len() && keys@[q] == order@[p];
            assert(key_of_table(counts, keys@[q]));
        }
        assert forall|i: int| 0 <= i < counts.len() && counts[i] > 0 implies order@.contains(
            #[trigger] pack(counts[i], i as u32),
        ) by {
            assert(keys@.contains(pack(counts[i], i as u32)));
            assert(keys@.to_multiset().count(pack(counts[i], i as u32)) > 0);
        }
        assert(order@.take(0) =~= Seq::<u64>::empty());
        assert(order@.len() <= counts.len());
    }
    let mut rare_items: HashSet<u32> = HashSet::new();
    let mut sum: u64 = 0;
    let mut taken: Option<u32> = None;
    let mut j: usize = 0;
    let mut stopped: bool = false;
    while j < order.len() && !stopped
        invariant
            j <= order.len(),
            ascending_keys(order@),
            order@.len() <= count_limit(),
            sum == keys_below(order@.take(j as int), count_limit()),
            sum <= j * 0xffff_ffff,
            j == 0 ==> taken is None,
            j > 0 ==> (taken == Some(high_of(order@[j - 1])) <==> passes(
                order@,
                threshold as int,
                j - 1,
            )),
            j > 0 && taken is Some ==> taken->Some_0 <= high_of(order@[j - 1]),
            stopped ==> forall|i: int|
                j <= i < order@.len() ==> !#[trigger] passes(order@, threshold as int, i),
            forall|item: u32|
                rare_items@.contains(item) <==> chosen(order@, threshold as int, j as int, item),
        decreases order.len() - j,
    {
        let count: u32 = key_high(order[j]);
        let item: u32 = key_low(order[j]);
        let ghost rare0 = rare_items@;
        proof {
            lemma_below_is_prefix(order@, j as int, order@.len() as int);
            assert(order@.take(order@.len() as int) =~= order@);
            lemma_keys_below_step(order@, j as int, count_limit());
            if j > 0 {
                assert(order@[j - 1] <= order@[j as int]);
            }
        }
        sum = sum + count as u64;
        let tie: bool = match taken {
            Some(before) => before == count,
            None => false,
        };
        let counts_as_rare: bool = sum < threshold || tie;
        proof {
            assert(counts_as_rare == passes(order@, threshold as int, j as int));
        }
        if counts_as_rare {
            rare_items.insert(item);
            taken = Some(count);
        } else if sum > threshold {
            // The sum has passed the threshold and the tie has ended: no later item
            // is rare, and the walk stops.
            stopped = true;
            proof {
                assert forall|i: int| j + 1 <= i < order@.len() implies !#[trigger] passes(
                    order@,
                    threshold as int,
                    i,
                ) by {
                    assert(order@[j as int] <= order@[i]);
                    if high_of(order@[i]) > high_of(order@[j as int]) {
                        assert forall|q: int| 0 <= q < j + 1 implies high_of(#[trigger] order@[q])
                            < high_of(order@[i]) by {
                            assert(order@[q] <= order@[j as int]);
                        }
                        lemma_below_covers(
                            order@,
                            j + 1,
                            order@.len() as int,
                            high_of(order@[i]) as int,
                        );
                    }
                }
            }
        }
        proof {
            assert forall|other: u32|
                rare_items@.contains(other) <==> chosen(
                    order@,
                    threshold as int,
                    j + 1,
                    other,
                ) by {
                if chosen(order@, threshold as int, j + 1, other) {
                    let i = choose|i: int|
                        0 <= i < j + 1 && low_of(#[trigger] order@[i]) == other && passes(
                            order@,
                            threshold as int,
                            i,
                        );
                    if i < j {
                        assert(chosen(order@, threshold as int, j as int, other));
                    }
                }
                if rare0.contains(other) {
                    assert(chosen(order@, threshold as int, j as int, other));
                    let i = choose|i: int|
                        0 <= i < j && low_of(#[trigger] order@[i]) == other && passes(
                            order@,
                            threshold as int,
                            i,
                        );
                    assert(0 <= i < j + 1);
                }
                if counts_as_rare && other == item {
                    assert(low_of(order@[j as int]) == other);
                }
            }
        }
        j += 1;
    }
    proof {
        assert forall|item: u32|
            chosen(order@, threshold as int, order@.len() as int, item) implies chosen(
            order@,
            threshold as int,
            j as int,
            item,
        ) by {
            let i = choose|i: int|
                0 <= i < order@.len() && low_of(#[trigger] order@[i]) == item && passes(
                    order@,
                    threshold as int,
                    i,
                );
            if i >= j {
                assert(!passes(order@, threshold as int, i));
            }
        }
    }
    proof {
        assert forall|item: u32| rare_items@.contains(item) <==> pareto_rare(counts, item) by {
            if rare_items@.contains(item) {
                assert(chosen(order@, threshold as int, j as int, item));
                let i = choose|i: int|
                    0 <= i < j && low_of(#[trigger] order@[i]) == item && passes(
                        order@,
                        threshold as int,
                        i,
                    );
                assert(key_of_table(counts, order@[i]));
                assert(keys_below(order@, counts[item as int] as int) == sum_below(
                    counts,
                    counts[item as int] as int,
                ));
            }
            if pareto_rare(counts, item) {
                let key = pack(counts[item as int], item);
                assert(order@.contains(pack(counts[item as int], item as int as u32)));
                let i = choose|i: int| 0 <= i < order@.len() && order@[i] == key;
                assert(low_of(key) == item && high_of(key) == counts[item as int]);
                assert(keys_below(order@, counts[item as int] as int) == sum_below(
                    counts,
                    counts[item as int] as int,
                ));
                assert(passes(order@, threshold as int, i));
                assert(low_of(order@[i]) == item);
                assert(chosen(order@, threshold as int, order@.len() as int, item));
            }
        }
        assert(rare_items@ =~= pareto_rare_set(counts));
    }
    rare_items
}

/// Items of one count are rare together or not at all, whatever their ids.
pub proof fn lemma_pareto_ties_together(counts: Seq<u32>, a: u32, b: u32)
    requires
        a < counts.len(),
        b < counts.len(),
        counts[a as int] == counts[b as int],
    ensures
        pareto_rare(counts, a) == pareto_rare(counts, b),
{
}

/// The number of synthetic datasets that the Gaussian method draws.
pub const SYNTHETIC_RUNS: u32 = 100;

/// Calls `rand::thread_rng` and, on the generator it hands out, `Rng::gen_range`
/// with the range `0..bound`: some number of that range comes back, and nothing
/// more is known of it.
#[verifier::external_body]
fn random_below(bound: u64) -> (n: u64)
    requires
        bound > 0,
    ensures
        n < bound,
{
    rand::thread_rng().gen_range(0..bound)
}

/// Some item of `1..=max_item_id`, left to chance: a number is drawn below
/// `max_item_id`, and `item_of_draw` says which item that is.
fn random_item(max_item_id: u32) -> (item: u32)
    requires
        max_item_id >= 1,
    ensures
        1 <= item <= max_item_id,
{
    item_of_draw(random_below(max_item_id as u64))
}

/// The item that a draw stands for: draw 0 is item 1, draw 1 is item 2, and so on,
/// since 0 names no item.
pub fn item_of_draw(draw: u64) -> (item: u32)
    requires
        draw < u32::MAX,
    ensures
        item == draw + 1,
{
    (draw + 1) as u32
}

/// The quotient of `sum` by `parts`, rounded up.
pub open spec fn rounded_up(sum: int, parts: int) -> int {
    (sum + parts - 1) / parts
}

/// The length of the transactions of a synthetic dataset: the mean length of the
/// transactions counted, rounded up.
pub fn average_transaction_length(item_count: &ItemCount, num_transactions: u32) -> (len: u64)
    requires
        item_count.well_formed(),
        num_transactions > 0,
    ensures
        len == rounded_up(total(item_count@), num_transactions as int),
{
    let sum: u64 = item_count.total_count();
    proof {
        lemma_sum_below_monotone(item_count@, count_limit(), count_limit());
    }
    (sum + (num_transactions as u64 - 1)) / (num_transactions as u64)
}

/// The sum of a row of counts.
pub open spec fn sum_of(counts: Seq<u64>) -> int
    decreases counts.len(),
{
    if counts.len() == 0 {
        0
    } else {
        sum_of(counts.drop_last()) + counts.last()
    }
}

/// No count is larger than the sum of all, and a count changed changes the sum by
/// as much.
proof fn lemma_sum_of(counts: Seq<u64>, at: int, count: u64)
    requires
        0 <= at < counts.len(),
    ensures
        0 <= counts[at] <= sum_of(counts),
        sum_of(counts.update(at, count)) == sum_of(counts) - counts[at] + count,
    decreases counts.len(),
{
    let changed = counts.update(at, count);
    lemma_sum_of_floor(counts.drop_last());
    if at == counts.len() - 1 {
        assert(changed.drop_last() =~= counts.drop_last());
    } else {
        lemma_sum_of(counts.drop_last(), at, count);
        assert(changed.drop_last() =~= counts.drop_last().update(at, count));
    }
}

/// A sum of counts is not negative.
proof fn lemma_sum_of_floor(counts: Seq<u64>)
    ensures
        0 <= sum_of(counts),
    decreases counts.len(),
{
    if counts.len() > 0 {
        lemma_sum_of_floor(counts.drop_last());
    }
}

/// Counts of zero sum to zero.
proof fn lemma_sum_of_zeros(counts: Seq<u64>)
    requires
        forall|k: int| 0 <= k < counts.len() ==> #[trigger] counts[k] == 0,
    ensures
        sum_of(counts) == 0,
    decreases counts.len(),
{
    if counts.len() > 0 {
        lemma_sum_of_zeros(counts.drop_last());
    }
}

/// Whether `counts` can be the item counts of a synthetic dataset of `draws` draws
/// from the items `1..=max_item_id`: there is a count for each id, none for id 0,
/// no count is above the number of draws, and the counts sum to it, as long as
/// that fits 64 bits.
pub open spec fn synthetic(counts: Seq<u64>, draws: int, max_item_id: u32) -> bool {
    &&& counts.len() == max_item_id + 1
    &&& counts[0] == 0
    &&& forall|i: int| 0 <= i < counts.len() ==> #[trigger] counts[i] <= draws
    &&& draws <= u64::MAX ==> sum_of(counts) == draws
}

/// The item counts of one synthetic dataset of `num_transactions` transactions, each
/// of `transaction_len` items drawn from `1..=max_item_id`: the count of item `id`
/// stands at index `id`. Which items are drawn is left to chance; the counts sum to
/// the number of draws, as long as that fits 64 bits.
pub fn synthetic_counts(num_transactions: u32, transaction_len: u64, max_item_id: u32) -> (counts:
    Vec<u64>)
    requires
        1 <= max_item_id < u32::MAX,
    ensures
        synthetic(counts@, num_transactions * transaction_len, max_item_id),
{
    let mut counts: Vec<u64> = Vec::new();
    let mut i: usize = 0;
    while i <= max_item_id as usize
        invariant
            max_item_id < u32::MAX,
            i <= max_item_id + 1,
            counts@.len() == i,
            forall|k: int| 0 <= k < i ==> #[trigger] counts@[k] == 0,
        decreases max_item_id + 1 - i,
    {
        counts.push(0);
        i += 1;
    }
    proof {
        lemma_sum_of_zeros(counts@);
    }
    let ghost mut drawn: int = 0;
    let mut t: u32 = 0;
    while t < num_transactions
        invariant
            t <= num_transactions,
            max_item_id >= 1,
            counts@.len() == max_item_id + 1,
            counts@[0] == 0,
            drawn == t * transaction_len,
            forall|k: int| 0 <= k < counts@.len() ==> #[trigger] counts@[k] <= drawn,
            drawn <= u64::MAX ==> sum_of(counts@) == drawn,
        decreases num_transactions - t,
    {
        let ghost start = drawn;
        let mut s: u64 = 0;
        while s < transaction_len
            invariant
                s <= transaction_len,
                max_item_id >= 1,
                counts@.len() == max_item_id + 1,
                counts@[0] == 0,
                drawn == start + s,
                forall|k: int| 0 <= k < counts@.len() ==> #[trigger] counts@[k] <= drawn,
                drawn <= u64::MAX ==> sum_of(counts@) == drawn,
            decreases transaction_len - s,
        {
            let item: u32 = random_item(max_item_id);
            let count: u64 = counts[item as usize];
            let ghost before = counts@;
            proof {
                lemma_sum_of(before, item as int, (count + 1) as u64);
            }
            if count < u64::MAX {
                counts.set(item as usize, count + 1);
            }
            proof {
                drawn = drawn + 1;
            }
            s += 1;
        }
        proof {
            assert((t + 1) * transaction_len == t * transaction_len + transaction_len)
                by (nonlinear_arith);
        }
        t += 1;
    }
    proof {
        assert(t == num_transactions);
    }
    counts
}

/// The smaller of two counts, index by index.
pub open spec fn smaller(a: Seq<u64>, b: Seq<u64>) -> Seq<u64> {
    Seq::new(
        a.len(),
        |i: int|
            if a[i] <= b[i] {
                a[i]
            } else {
                b[i]
            },
    )
}

/// The least count at each index over one or more rows of counts.
pub open spec fn least_of(rows: Seq<Seq<u64>>) -> Seq<u64>
    decreases rows.len(),
{
    if rows.len() == 0 {
        Seq::empty()
    } else if rows.len() == 1 {
        rows[0]
    } else {
        smaller(least_of(rows.drop_last()), rows.last())
    }
}

/// Whether `rows` can be the item counts of `runs` synthetic datasets.
pub open spec fn synthetic_runs(
    rows: Seq<Seq<u64>>,
    runs: int,
    draws: int,
    max_item_id: u32,
) -> bool {
    &&& rows.len() == runs
    &&& forall|r: int| 0 <= r < rows.len() ==> synthetic(#[trigger] rows[r], draws, max_item_id)
}

/// Whether `least` can be the least counts over `runs` synthetic datasets.
pub open spec fn least_over(least: Seq<u64>, runs: int, draws: int, max_item_id: u32) -> bool {
    exists|rows: Seq<Seq<u64>>|
        synthetic_runs(rows, runs, draws, max_item_id) && least == #[trigger] least_of(rows)
}

/// The smaller counts do not sum to more than the first of the two rows.
pub proof fn lemma_smaller_sum(a: Seq<u64>, b: Seq<u64>)
    requires
        a.len() == b.len(),
    ensures
        sum_of(smaller(a, b)) <= sum_of(a),
    decreases a.len(),
{
    if a.len() > 0 {
        lemma_smaller_sum(a.drop_last(), b.drop_last());
        assert(smaller(a, b).drop_last() =~= smaller(a.drop_last(), b.drop_last()));
    }
}

/// The least counts over synthetic datasets have a count for each id, none for id
/// 0, none above the number of draws of one dataset, and do not sum to more than
/// that number; over one dataset they sum to it.
pub proof fn lemma_least_of(rows: Seq<Seq<u64>>, draws: int, max_item_id: u32)
    requires
        rows.len() >= 1,
        synthetic_runs(rows, rows.len() as int, draws, max_item_id),
    ensures
        least_of(rows).len() == max_item_id + 1,
        least_of(rows)[0] == 0,
        forall|i: int| 0 <= i < max_item_id + 1 ==> #[trigger] least_of(rows)[i] <= draws,
        forall|i: int, r: int|
            0 <= i < max_item_id + 1 && 0 <= r < rows.len() ==> least_of(rows)[i]
                <= #[trigger] rows[r][i],
        draws <= u64::MAX ==> sum_of(least_of(rows)) <= draws,
        draws <= u64::MAX && rows.len() == 1 ==> sum_of(least_of(rows)) == draws,
    decreases rows.len(),
{
    assert(synthetic(rows[0], draws, max_item_id));
    if rows.len() > 1 {
        let front = rows.drop_last();
        assert forall|r: int| 0 <= r < front.len() implies synthetic(
            #[trigger] front[r],
            draws,
            max_item_id,
        ) by {
            assert(front[r] == rows[r]);
        }
        lemma_least_of(front, draws, max_item_id);
        assert(synthetic(rows[rows.len() - 1], draws, max_item_id));
        lemma_smaller_sum(least_of(front), rows.last());
        assert forall|i: int, r: int|
            0 <= i < max_item_id + 1 && 0 <= r < rows.len() implies least_of(rows)[i]
            <= #[trigger] rows[r][i] by {
            if r < front.len() {
                assert(least_of(front)[i] <= front[r][i]);
            }
        }
    }
}

/// The smaller of two counts, index by index.
pub fn pointwise_min(a: &Vec<u64>, b: &Vec<u64>) -> (least: Vec<u64>)
    requires
        a@.len() == b@.len(),
    ensures
        least@ == smaller(a@, b@),
{
    let mut least: Vec<u64> = Vec::new();
    let mut i: usize = 0;
    while i < a.len()
        invariant
            i <= a.len(),
            a@.len() == b@.len(),
            least@.len() == i,
            forall|k: int|
                0 <= k < i ==> #[trigger] least@[k] == if a@[k] <= b@[k] {
                    a@[k]
                } else {
                    b@[k]
                },
        decreases a.len() - i,
    {
        if a[i] <= b[i] {
            least.push(a[i]);
        } else {
            least.push(b[i]);
        }
        i += 1;
    }
    proof {
        assert(least@ =~= smaller(a@, b@));
    }
    least
}

/// The least count of each item over `runs` synthetic datasets, each drawn as
/// `synthetic_counts` draws one.
pub fn least_synthetic_counts(
    runs: u32,
    num_transactions: u32,
    transaction_len: u64,
    max_item_id: u32,
) -> (least: Vec<u64>)
    requires
        runs >= 1,
        1 <= max_item_id < u32::MAX,
    ensures
        least_over(least@, runs as int, num_transactions * transaction_len, max_item_id),
        least@.len() == max_item_id + 1,
        least@[0] == 0,
        forall|i: int|
            0 <= i < least@.len() ==> #[trigger] least@[i] <= num_transactions * transaction_len,
        num_transactions * transaction_len <= u64::MAX ==> sum_of(least@) <= num_transactions
            * transaction_len,
{
    let ghost draws: int = num_transactions * transaction_len;
    let mut least: Vec<u64> = synthetic_counts(num_transactions, transaction_len, max_item_id);
    let ghost mut rows: Seq<Seq<u64>> = seq![least@];
    let mut run: u32 = 1;
    while run < runs
        invariant
            1 <= run <= runs,
            1 <= max_item_id < u32::MAX,
            draws == num_transactions * transaction_len,
            synthetic_runs(rows, run as int, draws, max_item_id),
            least@ == least_of(rows),
        decreases runs - run,
    {
        let next = synthetic_counts(num_transactions, transaction_len, max_item_id);
        proof {
            lemma_least_of(rows, draws, max_item_id);
        }
        least = pointwise_min(&least, &next);
        proof {
            let before = rows;
            rows = rows.push(next@);
            assert(rows.drop_last() =~= before);
            assert forall|r: int| 0 <= r < rows.len() implies synthetic(
                #[trigger] rows[r],
                draws,
                max_item_id,
            ) by {
                if r < before.len() {
                    assert(rows[r] == before[r]);
                }
            }
        }
        run += 1;
    }
    proof {
        lemma_least_of(rows, draws, max_item_id);
    }
    least
}

/// The Gaussian rule, given the least synthetic counts: an item that occurs is rare
/// where its least synthetic count exceeds its count by more than `margin`.
pub open spec fn margin_rare(counts: Seq<u32>, least: Seq<u64>, margin: u64, item: u32) -> bool {
    &&& item < counts.len()
    &&& counts[item as int] > 0
    &&& item < least.len()
    &&& least[item as int] - counts[item as int] > margin
}

/// The items that the Gaussian rule calls rare, given the least synthetic counts.
pub open spec fn margin_rare_set(counts: Seq<u32>, least: Seq<u64>, margin: u64) -> Set<u32> {
    Set::new(|item: u32| margin_rare(counts, least, margin, item))
}

/// The items whose count falls short of their least synthetic count by more than
/// `margin`.
pub fn rare_by_margin(item_count: &ItemCount, least: &Vec<u64>, margin: u64) -> (rare_items:
    HashSet<u32>)
    requires
        item_count.well_formed(),
    ensures
        rare_items@ == margin_rare_set(item_count@, least@, margin),
{
    let mut rare_items: HashSet<u32> = HashSet::new();
    let mut k: usize = 0;
    while k < item_count.counts.len() && k < least.len()
        invariant
            item_count.well_formed(),
            k <= item_count@.len(),
            k <= least@.len(),
            forall|item: u32|
                rare_items@.contains(item) <==> (item < k && margin_rare(
                    item_count@,
                    least@,
                    margin,
                    item,
                )),
        decreases item_count.counts.len() - k,
    {
        let count: u32 = item_count.counts[k];
        let floor: u64 = least[k];
        if count > 0 && floor > count as u64 && floor - count as u64 > margin {
            rare_items.insert(k as u32);
        }
        k += 1;
    }
    proof {
        assert(rare_items@ =~= margin_rare_set(item_count@, least@, margin));
    }
    rare_items
}

/// What rows of counts hold.
pub open spec fn rows_of(rows: Seq<Vec<u64>>) -> Seq<Seq<u64>> {
    Seq::new(rows.len(), |r: int| rows[r]@)
}

/// Whether the rows are of one length.
pub open spec fn even_rows(rows: Seq<Vec<u64>>) -> bool {
    forall|r: int| 0 <= r < rows.len() ==> (#[trigger] rows[r])@.len() == rows[0]@.len()
}

/// The least count at each index over one or more rows of counts of one length.
pub fn least_counts(rows: &Vec<Vec<u64>>) -> (least: Vec<u64>)
    requires
        rows@.len() >= 1,
        even_rows(rows@),
    ensures
        least@ == least_of(rows_of(rows@)),
{
    let ghost all = rows_of(rows@);
    let mut least: Vec<u64> = pointwise_min(&rows[0], &rows[0]);
    proof {
        assert(least@ =~= rows@[0]@);
        assert(all.take(1)[0] == rows@[0]@);
    }
    let mut r: usize = 1;
    while r < rows.len()
        invariant
            1 <= r <= rows@.len(),
            even_rows(rows@),
            all == rows_of(rows@),
            least@.len() == rows@[0]@.len(),
            least@ == least_of(all.take(r as int)),
        decreases rows@.len() - r,
    {
        proof {
            assert(rows@[r as int]@.len() == rows@[0]@.len());
            assert(all.take(r + 1).drop_last() =~= all.take(r as int));
            assert(all.take(r + 1).last() == rows@[r as int]@);
        }
        least = pointwise_min(&least, &rows[r]);
        r += 1;
    }
    proof {
        assert(all.take(r as int) =~= all);
    }
    least
}

/// The items that the Gaussian rule calls rare by the least counts over the item
/// counts of one or more synthetic datasets.
pub fn rare_among_runs(item_count: &ItemCount, rows: &Vec<Vec<u64>>, margin: u64) -> (rare_items:
    HashSet<u32>)
    requires
        item_count.well_formed(),
        rows@.len() >= 1,
        even_rows(rows@),
    ensures
        rare_items@ == margin_rare_set(item_count@, least_of(rows_of(rows@)), margin),
{
    let least = least_counts(rows);
    rare_by_margin(item_count, &least, margin)
}

/// Whether `rare` can be what the Gaussian method calls rare: the items that the
/// rule picks by the least counts over `runs` synthetic datasets.
pub open spec fn gaussian_rare(
    rare: Set<u32>,
    counts: Seq<u32>,
    margin: u64,
    runs: int,
    draws: int,
    max_item_id: u32,
) -> bool {
    exists|least: Seq<u64>|
        least_over(least, runs, draws, max_item_id) && rare == #[trigger] margin_rare_set(
            counts,
            least,
            margin,
        )
}

/// What the Gaussian method calls rare is an item from 1 up to the largest id
/// that occurs, with a count that stays more than the margin under the number of
/// draws of one dataset.
pub proof fn lemma_gaussian_rare(
    rare: Set<u32>,
    counts: Seq<u32>,
    margin: u64,
    runs: int,
    draws: int,
    max_item_id: u32,
    item: u32,
)
    requires
        runs >= 1,
        gaussian_rare(rare, counts, margin, runs, draws, max_item_id),
        rare.contains(item),
    ensures
        1 <= item <= max_item_id,
        item < counts.len(),
        counts[item as int] > 0,
        counts[item as int] + margin < draws,
{
    let least = choose|least: Seq<u64>|
        least_over(least, runs, draws, max_item_id) && rare == #[trigger] margin_rare_set(
            counts,
            least,
            margin,
        );
    let rows = choose|rows: Seq<Seq<u64>>|
        synthetic_runs(rows, runs, draws, max_item_id) && least == #[trigger] least_of(rows);
    lemma_least_of(rows, draws, max_item_id);
    assert(margin_rare(counts, least, margin, item));
}

/// The rare items by the Gaussian method.
///
/// `SYNTHETIC_RUNS` synthetic datasets are drawn, each of `num_transactions`
/// transactions of the mean length of the real ones, with items drawn from
/// `1..=max_item_id`. An item that occurs is rare where its least count over those
/// datasets exceeds its real count by more than `margin`. The draws come from the
/// random number generator of the thread, which the system seeds: there is no
/// fixed seed, and two calls may differ. What comes back is what the rule picks by
/// the least counts of some such datasets: so every rare item is one of
/// `1..=max_item_id`, occurs, and has a count that stays more than `margin` under
/// the number of draws of one dataset.
pub fn find_gaussian_rare_items(
    item_count: &ItemCount,
    num_transactions: u32,
    max_item_id: u32,
    margin: u64,
) -> (rare_items: HashSet<u32>)
    requires
        item_count.well_formed(),
        num_transactions > 0,
        1 <= max_item_id < u32::MAX,
    ensures
        gaussian_rare(
            rare_items@,
            item_count@,
            margin,
            SYNTHETIC_RUNS as int,
            num_transactions * rounded_up(total(item_count@), num_transactions as int),
            max_item_id,
        ),
        forall|item: u32|
            rare_items@.contains(item) ==> 1 <= item <= max_item_id && item_count.count_of(item)
                > 0 && item_count.count_of(item) + margin < num_transactions * rounded_up(
                total(item_count@),
                num_transactions as int,
            ),
{
    let transaction_len: u64 = average_transaction_length(item_count, num_transactions);
    let least = least_synthetic_counts(
        SYNTHETIC_RUNS,
        num_transactions,
        transaction_len,
        max_item_id,
    );
    let rare_items = rare_by_margin(item_count, &least, margin);
    proof {
        let draws: int = num_transactions * transaction_len;
        assert(gaussian_rare(
            rare_items@,
            item_count@,
            margin,
            SYNTHETIC_RUNS as int,
            draws,
            max_item_id,
        ));
        assert forall|item: u32| rare_items@.contains(item) implies 1 <= item <= max_item_id
            && item_count.count_of(item) > 0 && item_count.count_of(item) + margin
            < num_transactions * rounded_up(total(item_count@), num_transactions as int) by {
            lemma_gaussian_rare(
                rare_items@,
                item_count@,
                margin,
                SYNTHETIC_RUNS as int,
                draws,
                max_item_id,
                item,
            );
        }
    }
    rare_items
}

/// Whether a transaction holds a rare item.
pub fn contains_rare_item(transaction: &Vec<u32>, rare_items: &HashSet<u32>) -> (found: bool)
    ensures
        found == exists|k: int|
            0 <= k < transaction@.len() && rare_items@.contains(#[trigger] transaction@[k]),
{
    let mut k: usize = 0;
    while k < transaction.len()
        invariant
            k <= transaction.len(),
            forall|j: int| 0 <= j < k ==> !rare_items@.contains(#[trigger] transaction@[j]),
        decreases transaction.len() - k,
    {
        if rare_items.contains(&transaction[k]) {
            return true;
        }
        k += 1;
    }
    false
}

/// One count less at one place makes the sum one less.
proof fn lemma_total_update(counts: Seq<u32>, at: int, count: u32)
    requires
        0 <= at < counts.len(),
    ensures
        total(counts.update(at, count)) == total(counts) - counts[at] + count,
    decreases counts.len(),
{
    let changed = counts.update(at, count);
    if at == counts.len() - 1 {
        assert(changed.drop_last() =~= counts.drop_last());
    } else {
        lemma_total_update(counts.drop_last(), at, count);
        assert(changed.drop_last() =~= counts.drop_last().update(at, count));
    }
}

/// The sum of a prefix, one count further.
proof fn lemma_total_step(counts: Seq<u32>, upto: int)
    requires
        0 <= upto < counts.len(),
    ensures
        total(counts.take(upto + 1)) == total(counts.take(upto)) + counts[upto],
        0 <= total(counts.take(upto)),
{
    assert(counts.take(upto + 1).drop_last() =~= counts.take(upto));
    lemma_sum_below_monotone(counts.take(upto), count_limit(), count_limit());
}

/// Takes one of the occurrences that are left: with the occurrences laid out item
/// after item, the one at place `n`. The item of that occurrence comes back, and
/// has one occurrence less left.
pub fn take_occurrence(remaining: &mut Vec<u32>, n: u64) -> (item: u32)
    requires
        old(remaining)@.len() <= count_limit(),
        n < total(old(remaining)@),
    ensures
        item < old(remaining)@.len(),
        old(remaining)@[item as int] > 0,
        final(remaining)@ == old(remaining)@.update(
            item as int,
            (old(remaining)@[item as int] - 1) as u32,
        ),
        total(old(remaining)@.take(item as int)) <= n < total(
            old(remaining)@.take(item + 1),
        ),
        total(final(remaining)@) == total(old(remaining)@) - 1,
{
    let ghost counts = remaining@;
    let mut left: u64 = n;
    let mut i: usize = 0;
    proof {
        assert(counts.take(0) =~= Seq::<u32>::empty());
        assert(counts.take(counts.len() as int) =~= counts);
    }
    while i < remaining.len() && left >= remaining[i] as u64
        invariant
            i <= remaining@.len(),
            remaining@ == counts,
            counts.len() <= count_limit(),
            left + total(counts.take(i as int)) == n,
            n < total(counts),
        decreases remaining@.len() - i,
    {
        proof {
            lemma_total_step(counts, i as int);
        }
        left = left - remaining[i] as u64;
        i += 1;
    }
    proof {
        if i == counts.len() {
            assert(counts.take(i as int) =~= counts);
            assert(false);
        }
        lemma_total_step(counts, i as int);
        lemma_total_update(counts, i as int, (counts[i as int] - 1) as u32);
    }
    let count: u32 = remaining[i];
    remaining.set(i, count - 1);
    i as u32
}

/// No count is larger than the sum of all.
proof fn lemma_total_floor(counts: Seq<u32>, at: int)
    requires
        0 <= at < counts.len(),
    ensures
        counts[at] <= total(counts),
    decreases counts.len(),
{
    lemma_sum_below_monotone(counts.drop_last(), count_limit(), count_limit());
    if at < counts.len() - 1 {
        lemma_total_floor(counts.drop_last(), at);
    }
}

/// In how many of the transactions, `current` among them, `item` stands.
pub open spec fn holders(transactions: Seq<Set<u32>>, current: Set<u32>, item: u32) -> int {
    support_count(transactions, only(item)) + if current.contains(item) {
        1int
    } else {
        0int
    }
}

/// Whether the occurrences of `item` are dealt out as they should be, where
/// `remaining` of them are left: no more transactions hold the item than
/// occurrences of it were dealt, and one holds it where any was.
pub open spec fn dealt_fairly(
    transactions: Seq<Set<u32>>,
    current: Set<u32>,
    counts: Seq<u32>,
    remaining: Seq<u32>,
    item: u32,
) -> bool {
    &&& remaining[item as int] <= counts[item as int]
    &&& holders(transactions, current, item) + remaining[item as int] <= counts[item as int]
    &&& remaining[item as int] < counts[item as int] ==> holders(transactions, current, item) >= 1
}

/// Whether transaction `t` of a dataset dealt out of `sum` occurrences, `len` to
/// each transaction as long as any are left, has the size that is due to it: no
/// more than `len` items, and one at least exactly where the transactions before
/// it have left an occurrence.
pub open spec fn sized(row: Set<u32>, t: int, len: int, sum: int) -> bool {
    &&& row.finite()
    &&& row.len() <= len
    &&& (row.len() > 0) == (t * len < sum)
}

/// What is left of `sum` occurrences after `t` transactions of `len` each.
pub open spec fn left_after(sum: int, t: int, len: int) -> int {
    if t * len < sum {
        sum - t * len
    } else {
        0
    }
}

/// A synthetic dataset with the item counts of the real one, as far as sets can
/// have them: the occurrences counted are dealt out to `num_transactions`
/// transactions, to each as many as the mean length of the real ones, rounded up,
/// as long as any are left. Which occurrence goes where is left to chance, and an
/// item dealt twice to one transaction stands in it once. So each transaction has
/// the size that is due to it, every item that was counted stands in one
/// transaction at least and in no more than it was counted in, and no other item
/// stands in any.
pub fn generate_random_dataset(item_count: &ItemCount, num_transactions: u32) -> (index: Index)
    requires
        item_count.well_formed(),
        num_transactions > 0,
    ensures
        index.well_formed(),
        index@.len() == num_transactions,
        forall|t: int|
            0 <= t < index@.len() ==> sized(
                #[trigger] index@[t],
                t,
                rounded_up(total(item_count@), num_transactions as int),
                total(item_count@),
            ),
        forall|item: u32|
            item_count.count_of(item) > 0 ==> 1 <= #[trigger] support_count(index@, only(item))
                <= item_count.count_of(item),
        forall|t: int, item: u32|
            0 <= t < index@.len() && #[trigger] index@[t].contains(item) ==> item_count.count_of(
                item,
            ) > 0,
{
    let transaction_len: u64 = average_transaction_length(item_count, num_transactions);
    let mut left: u64 = item_count.total_count();
    let mut remaining: Vec<u32> = crate::itemset::copy_of(&item_count.counts);
    let mut index = Index::new();
    let ghost counts = item_count@;
    let ghost sum: int = total(counts);
    let ghost len: int = transaction_len as int;
    proof {
        lemma_sum_below_monotone(counts, count_limit(), count_limit());
        assert(len == 0 ==> sum == 0) by (nonlinear_arith)
            requires
                len == (sum + num_transactions - 1) / (num_transactions as int),
                num_transactions > 0,
                sum >= 0,
        ;
        assert(num_transactions * len >= sum) by (nonlinear_arith)
            requires
                len == (sum + num_transactions - 1) / (num_transactions as int),
                num_transactions > 0,
                sum >= 0,
        ;
        assert(0 * len == 0) by (nonlinear_arith);
        assert forall|item: u32| item < counts.len() implies #[trigger] dealt_fairly(
            index@,
            Set::<u32>::empty(),
            counts,
            remaining@,
            item,
        ) by {
            assert(supporters(index@, only(item)) =~= Set::<int>::empty());
        }
    }
    let mut t: u32 = 0;
    while t < num_transactions
        invariant
            t <= num_transactions,
            item_count.well_formed(),
            counts == item_count@,
            sum == total(counts),
            len == transaction_len,
            len == 0 ==> sum == 0,
            remaining@.len() == counts.len(),
            left == total(remaining@),
            left == left_after(sum, t as int, len),
            forall|item: u32|
                item < counts.len() ==> #[trigger] dealt_fairly(
                    index@,
                    Set::<u32>::empty(),
                    counts,
                    remaining@,
                    item,
                ),
            index.well_formed(),
            index@.len() == t,
            forall|u: int| 0 <= u < index@.len() ==> sized(#[trigger] index@[u], u, len, sum),
            forall|u: int, item: u32|
                0 <= u < index@.len() && #[trigger] index@[u].contains(item)
                    ==> item_count.count_of(item) > 0,
        decreases num_transactions - t,
    {
        let mut transaction: Vec<u32> = Vec::new();
        let mut s: u64 = 0;
        let ghost start: int = left as int;
        proof {
            assert(transaction@.to_set() =~= Set::<u32>::empty());
        }
        while s < transaction_len && left > 0
            invariant
                item_count.well_formed(),
                counts == item_count@,
                len == transaction_len,
                remaining@.len() == counts.len(),
                left == total(remaining@),
                s <= transaction_len,
                s == transaction@.len(),
                left == start - s,
                forall|item: u32|
                    item < counts.len() ==> #[trigger] dealt_fairly(
                        index@,
                        transaction@.to_set(),
                        counts,
                        remaining@,
                        item,
                    ),
                forall|k: int|
                    0 <= k < transaction@.len() ==> item_count.count_of(#[trigger] transaction@[k])
                        > 0,
            decreases transaction_len - s,
        {
            let n: u64 = random_below(left);
            let ghost before = remaining@;
            let ghost held = transaction@;
            let item: u32 = take_occurrence(&mut remaining, n);
            left = left - 1;
            transaction.push(item);
            s += 1;
            proof {
                assert(dealt_fairly(index@, held.to_set(), counts, before, item));
                assert forall|other: u32| other < counts.len() implies #[trigger] dealt_fairly(
                    index@,
                    transaction@.to_set(),
                    counts,
                    remaining@,
                    other,
                ) by {
                    assert(dealt_fairly(index@, held.to_set(), counts, before, other));
                    crate::itemset::lemma_push_contains(held, item);
                    assert(transaction@.to_set().contains(other) == (held.to_set().contains(other)
                        || other == item));
                }
            }
        }
        let ghost earlier = index@;
        index.insert(&transaction);
        proof {
            let row = transaction@.to_set();
            assert forall|u: int, item: u32|
                0 <= u < index@.len() && #[trigger] index@[u].contains(
                    item,
                ) implies item_count.count_of(item) > 0 by {
                if u < earlier.len() {
                    assert(earlier[u].contains(item));
                } else {
                    assert(row.contains(item));
                    let k = choose|k: int| 0 <= k < transaction@.len() && transaction@[k] == item;
                    assert(item_count.count_of(transaction@[k]) > 0);
                }
            }
            assert forall|item: u32| item < counts.len() implies #[trigger] dealt_fairly(
                index@,
                Set::<u32>::empty(),
                counts,
                remaining@,
                item,
            ) by {
                assert(dealt_fairly(earlier, row, counts, remaining@, item));
                lemma_support_push(earlier, row, only(item));
                assert(only(item).contains(item));
                assert(only(item).subset_of(row) == row.contains(item));
            }
            assert((t + 1) * len == t * len + len) by (nonlinear_arith);
            transaction@.lemma_cardinality_of_set();
            transaction@.lemma_cardinality_of_empty_set_is_0();
            vstd::seq_lib::seq_to_set_is_finite(transaction@);
            assert(sized(row, t as int, len, sum));
            assert forall|u: int| 0 <= u < index@.len() implies sized(
                #[trigger] index@[u],
                u,
                len,
                sum,
            ) by {
                if u < earlier.len() {
                    assert(index@[u] == earlier[u]);
                }
            }
        }
        t += 1;
    }
    proof {
        assert(left == 0);
        assert forall|item: u32| item_count.count_of(item) > 0 implies 1
            <= #[trigger] support_count(index@, only(item)) <= item_count.count_of(item) by {
            assert(dealt_fairly(index@, Set::<u32>::empty(), counts, remaining@, item));
            lemma_total_floor(remaining@, item as int);
        }
    }
    index
}

} // verus!
