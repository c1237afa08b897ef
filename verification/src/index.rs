//! The transaction index: for each item the transactions that hold it, and from
//! those the number of transactions that hold a whole itemset.

use crate::itemset::{
    copy_of, intersect, key_low, low_of, lemma_ascending_count, lemma_ascending_floor,
    lemma_push_contains, lemma_take_step, pack, pack_key, sorted_keys, strictly_ascending,
};
use crate::config::Fraction;
use std::collections::HashMap;
use vstd::prelude::*;
use vstd::set_lib::{lemma_int_range, lemma_len_subset, set_int_range};

verus! {

broadcast use vstd::std_specs::hash::group_hash_axioms;

/// The transactions, by their position in `transactions`, that hold every item of
/// `items`.
pub open spec fn supporters(transactions: Seq<Set<u32>>, items: Set<u32>) -> Set<int> {
    Set::new(|t: int| 0 <= t < transactions.len() && items.subset_of(transactions[t]))
}

/// The number of transactions that hold every item of `items`.
pub open spec fn support_count(transactions: Seq<Set<u32>>, items: Set<u32>) -> nat {
    supporters(transactions, items).len()
}

/// The supporters of an itemset are among the transactions, so there are finitely
/// many of them, and no more than there are transactions.
pub proof fn lemma_supporters_bounded(transactions: Seq<Set<u32>>, items: Set<u32>)
    ensures
        supporters(transactions, items).finite(),
        support_count(transactions, items) <= transactions.len(),
{
    let all = set_int_range(0, transactions.len() as int);
    lemma_int_range(0, transactions.len() as int);
    assert(supporters(transactions, items).subset_of(all));
    lemma_len_subset(supporters(transactions, items), all);
}

/// The set of one item.
pub open spec fn only(item: u32) -> Set<u32> {
    Set::<u32>::empty().insert(item)
}

/// With one more transaction the supporters of an itemset are those of before, and
/// the new transaction where it holds the itemset.
pub proof fn lemma_support_push(transactions: Seq<Set<u32>>, next: Set<u32>, items: Set<u32>)
    ensures
        support_count(transactions.push(next), items) ==
            support_count(transactions, items) + if items.subset_of(
            next,
        ) {
            1nat
        } else {
            0nat
        },
{
    let before = supporters(transactions, items);
    let after = supporters(transactions.push(next), items);
    let n = transactions.len() as int;
    lemma_supporters_bounded(transactions, items);
    assert(!before.contains(n));
    assert forall|t: int| after.contains(t) <==> (before.contains(t) || (t == n && items.subset_of(
        next,
    ))) by {
        if 0 <= t < n {
            assert(transactions.push(next)[t] == transactions[t]);
        }
        if t == n {
            assert(transactions.push(next)[t] == next);
        }
    }
    if items.subset_of(next) {
        assert(after =~= before.insert(n));
    } else {
        assert(after =~= before);
    }
}

/// The empty itemset is held by every transaction.
pub proof fn lemma_support_of_nothing(transactions: Seq<Set<u32>>)
    ensures
        support_count(transactions, Set::<u32>::empty()) == transactions.len(),
{
    let all = set_int_range(0, transactions.len() as int);
    lemma_int_range(0, transactions.len() as int);
    assert(supporters(transactions, Set::<u32>::empty()) =~= all);
}

/// A larger itemset is held by no more transactions than a smaller one.
pub proof fn lemma_support_antitone(
    transactions: Seq<Set<u32>>,
    smaller: Set<u32>,
    larger: Set<u32>,
)
    requires
        smaller.subset_of(larger),
    ensures
        support_count(transactions, larger) <= support_count(transactions, smaller),
{
    lemma_supporters_bounded(transactions, smaller);
    assert(supporters(transactions, larger).subset_of(supporters(transactions, smaller)));
    lemma_len_subset(supporters(transactions, larger), supporters(transactions, smaller));
}

/// One more item never raises the count, and the empty itemset counts every
/// transaction.
pub proof fn lemma_intersection_law(transactions: Seq<Set<u32>>, items: Set<u32>, item: u32)
    ensures
        support_count(transactions, items.insert(item)) <= support_count(transactions, items),
        support_count(transactions, Set::<u32>::empty()) == transactions.len(),
{
    lemma_support_antitone(transactions, items, items.insert(item));
    lemma_support_of_nothing(transactions);
}

/// Whether the posting lists `postings` say of each item exactly which of
/// `transactions` hold it, each list in ascending order.
pub open spec fn represents(postings: Map<u32, Vec<u32>>, transactions: Seq<Set<u32>>) -> bool {
    &&& forall|item: u32| #[trigger]
        postings.contains_key(item) ==> strictly_ascending(postings[item]@)
    &&& forall|item: u32, k: int|
        postings.contains_key(item) && 0 <= k < postings[item]@.len() ==>
            (#[trigger] postings[item]@[k])
            < transactions.len() && transactions[postings[item]@[k] as int].contains(item)
    &&& forall|item: u32, t: int|
        0 <= t < transactions.len() && #[trigger] transactions[t].contains(item)
            ==> postings.contains_key(item) && postings[item]@.contains(t as u32)
}

/// Whether the `j`-th sort key carries the `j`-th item, and that item has a posting list.
pub open spec fn key_at(
    postings: Map<u32, Vec<u32>>,
    items: Seq<u32>,
    keys: Seq<u64>,
    j: int,
) -> bool {
    postings.contains_key(items[j]) && low_of(keys[j]) == items[j]
}

/// Whether one of the sort keys of `order` carries `item` as its low part.
pub open spec fn keyed(order: Seq<u64>, item: u32) -> bool {
    exists|j: int| 0 <= j < order.len() && low_of(#[trigger] order[j]) == item
}

/// An inverted index over the transactions of a dataset.
pub struct Index {
    postings: HashMap<u32, Vec<u32>>,
    transaction_count: u32,
    seen: Ghost<Seq<Set<u32>>>,
}

impl View for Index {
    type V = Seq<Set<u32>>;

    /// The transactions inserted so far, in their order, each as the set of its items.
    closed spec fn view(&self) -> Seq<Set<u32>> {
        self.seen@
    }
}

impl Index {
    /// The posting lists agree with the transactions inserted.
    pub closed spec fn well_formed(&self) -> bool {
        &&& self.seen@.len() == self.transaction_count
        &&& represents(self.postings@, self.seen@)
    }

    /// An index of no transactions.
    pub fn new() -> (index: Index)
        ensures
            index.well_formed(),
            index@ == Seq::<Set<u32>>::empty(),
    {
        Index { postings: HashMap::new(), transaction_count: 0, seen: Ghost(Seq::empty()) }
    }

    /// Takes in one more transaction: it gets the next transaction id, and each of its
    /// items lists that id once, however often the item stands in `transaction`.
    pub fn insert(&mut self, transaction: &Vec<u32>)
        requires
            old(self).well_formed(),
            old(self)@.len() < u32::MAX,
        ensures
            final(self).well_formed(),
            final(self)@ == old(self)@.push(transaction@.to_set()),
    {
        let tid: u32 = self.transaction_count;
        let ghost before = self.seen@;
        let mut k: usize = 0;
        proof {
            assert(transaction@.take(0).to_set() =~= Set::<u32>::empty());
            let start = before.push(transaction@.take(0).to_set());
            assert forall|item: u32, t: int|
                0 <= t < start.len() && #[trigger] start[t].contains(item)
                implies self.postings@.contains_key(item)
                    && self.postings@[item]@.contains(t as u32) by {
                assert(t < before.len());
                assert(before[t].contains(item));
            }
            assert(represents(self.postings@, start));
        }
        while k < transaction.len()
            invariant
                k <= transaction.len(),
                tid == before.len(),
                tid < u32::MAX,
                represents(self.postings@, before.push(transaction@.take(k as int).to_set())),
                self.seen@ == before,
                self.transaction_count == tid,
            decreases transaction.len() - k,
        {
            let item: u32 = transaction[k];
            let ghost cur = before.push(transaction@.take(k as int).to_set());
            let ghost next = before.push(transaction@.take(k + 1).to_set());
            let ghost postings0 = self.postings@;
            let mut list: Vec<u32> = match self.postings.remove(&item) {
                Some(l) => l,
                None => Vec::new(),
            };
            let ghost list0 = list@;
            proof {
                lemma_take_step(transaction@, k as int);
                if postings0.contains_key(item) {
                    assert(list0 == postings0[item]@);
                    assert(strictly_ascending(list0));
                } else {
                    assert(list0 =~= Seq::<u32>::empty());
                }
                assert forall|j: int| 0 <= j < list0.len() implies list0[j] <= tid by {
                    assert(postings0[item]@[j] < cur.len());
                }
            }
            let fresh: bool = list.len() == 0 || list[list.len() - 1] != tid;
            if fresh {
                proof {
                    assert forall|j: int| 0 <= j < list0.len() implies list0[j] < tid by {
                        if list0[j] == tid {
                            assert(j <= list0.len() - 1);
                            if j < list0.len() - 1 {
                                assert(list0[j] < list0[list0.len() - 1]);
                            }
                        }
                    }
                }
                list.push(tid);
            }
            let ghost list1 = list@;
            proof {
                lemma_push_contains(list0, tid);
                assert(strictly_ascending(list1));
                assert(list1.contains(tid)) by {
                    if fresh {
                        assert(list1 == list0.push(tid));
                        assert(list1[list0.len() as int] == tid);
                    } else {
                        assert(list1[list1.len() - 1] == tid);
                    }
                }
                assert(forall|x: u32| list0.contains(x) ==> list1.contains(x));
                assert forall|j: int| 0 <= j < list1.len() implies list1[j] == tid
                    || list0.contains(list1[j]) by {
                    if j < list0.len() {
                        assert(list0[j] == list1[j]);
                    }
                }
            }
            self.postings.insert(item, list);
            proof {
                let postings1 = self.postings@;
                assert(postings1 =~= postings0.insert(item, list));
                assert forall|x: u32| next[tid as int].contains(x) <==> cur[tid as int].insert(
                    item,
                ).contains(x) by {
                    assert(next[tid as int] == transaction@.take(k + 1).to_set());
                    assert(cur[tid as int] == transaction@.take(k as int).to_set());
                    lemma_take_step(transaction@, k as int);
                    lemma_push_contains(transaction@.take(k as int), item);
                    assert(transaction@.take(k + 1) == transaction@.take(k as int).push(item));
                    assert(transaction@.take(k + 1).contains(x) <==> (transaction@.take(
                        k as int,
                    ).contains(x) || x == item));
                }
                assert(next[tid as int] =~= cur[tid as int].insert(item));
                assert forall|other: u32| #[trigger]
                    postings1.contains_key(other) implies strictly_ascending(
                    postings1[other]@,
                ) by {
                    if other != item {
                        assert(postings0.contains_key(other));
                    }
                }
                assert forall|other: u32, j: int|
                    postings1.contains_key(other) && 0 <= j < postings1[other]@.len()
                    implies (#[trigger] postings1[other]@[j]) < next.len()
                        && next[postings1[other]@[j] as int].contains(other) by {
                    let t = postings1[other]@[j];
                    if other != item {
                        assert(postings0.contains_key(other));
                        assert(postings0[other]@[j] == t);
                        assert(t < cur.len() && cur[t as int].contains(other));
                        if t < tid {
                            assert(next[t as int] == cur[t as int]);
                        }
                    } else {
                        if t != tid {
                            assert(list0.contains(t));
                            let i = choose|i: int| 0 <= i < list0.len() && list0[i] == t;
                            assert(postings0[item]@[i] == t);
                            assert(cur[t as int].contains(item));
                            assert(next[t as int] == cur[t as int]);
                        }
                    }
                }
                assert forall|other: u32, t: int|
                    0 <= t < next.len() && #[trigger] next[t].contains(other)
                    implies postings1.contains_key(other)
                        && postings1[other]@.contains(t as u32) by {
                    if t < tid {
                        assert(next[t] == cur[t]);
                        assert(cur[t].contains(other));
                        assert(postings0.contains_key(other) && postings0[other]@.contains(
                            t as u32,
                        ));
                    } else {
                        if other != item {
                            assert(cur[t].contains(other));
                            assert(postings0.contains_key(other) && postings0[other]@.contains(
                                t as u32,
                            ));
                        }
                    }
                }
            }
            k += 1;
        }
        proof {
            assert(transaction@.take(k as int) =~= transaction@);
        }
        self.transaction_count = tid + 1;
        self.seen = Ghost(before.push(transaction@.to_set()));
    }

    /// The number of transactions inserted.
    pub fn num_transactions(&self) -> (n: u32)
        requires
            self.well_formed(),
        ensures
            n == self@.len(),
    {
        self.transaction_count
    }

    /// The support of an itemset: of all transactions, the share that hold every
    /// item of `items`. It is a number where the index holds a transaction.
    pub fn support(&self, items: &Vec<u32>) -> (share: Fraction)
        requires
            self.well_formed(),
        ensures
            share.numerator == support_count(self@, items@.to_set()),
            share.denominator == self@.len(),
    {
        Fraction {
            numerator: self.count(items) as u64,
            denominator: self.transaction_count as u64,
        }
    }

    /// The number of transactions that hold every item of `items`.
    ///
    /// The posting lists of the items are intersected one after the other, the
    /// shortest first, and the work ends as soon as nothing is left.
    pub fn count(&self, items: &Vec<u32>) -> (n: u32)
        requires
            self.well_formed(),
        ensures
            n == support_count(self@, items@.to_set()),
    {
        let ghost wanted = items@.to_set();
        if items.len() == 0 {
            proof {
                assert(wanted =~= Set::<u32>::empty());
                lemma_support_of_nothing(self@);
            }
            return self.transaction_count;
        }
        let mut keys: Vec<u64> = Vec::new();
        let mut k: usize = 0;
        while k < items.len()
            invariant
                k <= items.len(),
                self.well_formed(),
                wanted == items@.to_set(),
                keys@.len() == k,
                forall|j: int| 0 <= j < k ==> #[trigger] key_at(self.postings@, items@, keys@, j),
            decreases items.len() - k,
        {
            let item: u32 = items[k];
            let found = self.postings.get(&item);
            if found.is_none() {
                proof {
                    assert(items@.contains(item));
                    assert forall|t: int| !supporters(self@, wanted).contains(t) by {
                        if supporters(self@, wanted).contains(t) {
                            assert(wanted.contains(item));
                            assert(self@[t].contains(item));
                        }
                    }
                    assert(supporters(self@, wanted) =~= Set::<int>::empty());
                }
                return 0;
            }
            let list = found.unwrap();
            let key: u64 = pack_key(list.len() as u32, item);
            let ghost keys0 = keys@;
            keys.push(key);
            proof {
                assert(self.postings@.contains_key(item));
                assert forall|j: int| 0 <= j < k + 1 implies #[trigger] key_at(
                    self.postings@,
                    items@,
                    keys@,
                    j,
                ) by {
                    if j < k {
                        assert(key_at(self.postings@, items@, keys0, j));
                    }
                }
            }
            k += 1;
        }
        let order = sorted_keys(&keys);
        proof {
            broadcast use vstd::seq_lib::group_to_multiset_ensures;

            assert(order@.to_multiset().len() == order@.len());
            assert(keys@.to_multiset().len() == keys@.len());
            assert(order@.len() == keys@.len());
            assert forall|j: int| 0 <= j < order@.len() implies
                self.postings@.contains_key(#[trigger] low_of(order@[j])) by {
                assert(order@.to_multiset().count(order@[j]) > 0);
                assert(keys@.to_multiset().count(order@[j]) > 0);
                assert(keys@.contains(order@[j]));
                let i = choose|i: int| 0 <= i < keys@.len() && keys@[i] == order@[j];
                assert(key_at(self.postings@, items@, keys@, i));
            }
            assert forall|i: int| 0 <= i < items@.len() implies #[trigger] keyed(
                order@,
                items@[i],
            ) by {
                assert(keys@.contains(keys@[i]));
                assert(keys@.to_multiset().count(keys@[i]) > 0);
                assert(order@.to_multiset().count(keys@[i]) > 0);
                assert(order@.contains(keys@[i]));
                let j = choose|j: int| 0 <= j < order@.len() && order@[j] == keys@[i];
                assert(key_at(self.postings@, items@, keys@, i));
                assert(low_of(order@[j]) == items[i]);
            }
        }
        let first = self.postings.get(&key_low(order[0])).unwrap();
        let mut running: Vec<u32> = copy_of(first);
        let mut j: usize = 1;
        proof {
            let item = low_of(order@[0]);
            assert forall|t: u32| running@.contains(t) <==> (t < self@.len() && forall|i: int|
                0 <= i < 1 ==> self@[t as int].contains(#[trigger] low_of(order@[i]))) by {
                if running@.contains(t) {
                    let i = choose|i: int| 0 <= i < running@.len() && running@[i] == t;
                    assert(self.postings@[item]@[i] == t);
                }
                if t < self@.len() && self@[t as int].contains(item) {
                    assert(self.postings@[item]@.contains(t as u32));
                }
            }
        }
        while j < order.len() && running.len() > 0
            invariant
                1 <= j <= order.len(),
                self.well_formed(),
                wanted == items@.to_set(),
                forall|i: int| 0 <= i < items@.len() ==> #[trigger] keyed(order@, items@[i]),
                strictly_ascending(running@),
                forall|i: int|
                    0 <= i < order@.len() ==> self.postings@.contains_key(#[trigger] low_of(
                        order@[i])),
                forall|t: u32|
                    running@.contains(t) <==> (t < self@.len() && forall|i: int|
                        0 <= i < j ==> self@[t as int].contains(#[trigger] low_of(order@[i]))),
            decreases order.len() - j,
        {
            let item: u32 = key_low(order[j]);
            let list = self.postings.get(&item).unwrap();
            let ghost running0 = running@;
            running = intersect(&running, list);
            proof {
                assert forall|t: u32| running@.contains(t) <==> (t < self@.len() && forall|i: int|
                    0 <= i < j + 1 ==> self@[t as int].contains(#[trigger] low_of(order@[i]))) by {
                    if running@.contains(t) {
                        assert(running0.contains(t));
                        assert(list@.contains(t));
                        let i = choose|i: int| 0 <= i < list@.len() && list@[i] == t;
                        assert(self.postings@[item]@[i] == t);
                        assert(self@[t as int].contains(item));
                    }
                    if t < self@.len() && forall|i: int|
                        0 <= i < j + 1 ==> self@[t as int].contains(#[trigger] low_of(order@[i])) {
                        assert(self@[t as int].contains(low_of(order@[j as int])));
                        assert(self.postings@[item]@.contains(t as u32));
                        assert(running0.contains(t));
                    }
                }
            }
            j += 1;
        }
        proof {
            let found = supporters(self@, wanted);
            assert forall|t: int| found.contains(t) <==> (0 <= t <= u32::MAX && running@.contains(
                t as u32,
            )) by {
                if found.contains(t) {
                    assert forall|i: int| 0 <= i < j implies
                        self@[t].contains(#[trigger] low_of(order@[i])) by {
                        assert(order@.to_multiset().count(order@[i]) > 0) by {
                            broadcast use vstd::seq_lib::group_to_multiset_ensures;

                            assert(order@.contains(order@[i]));
                        }
                        assert(keys@.contains(order@[i])) by {
                            broadcast use vstd::seq_lib::group_to_multiset_ensures;

                        }
                        let p = choose|p: int| 0 <= p < keys@.len() && keys@[p] == order@[i];
                        assert(key_at(self.postings@, items@, keys@, p));
                        assert(items@.contains(items[p]));
                        assert(wanted.contains(items[p]));
                    }
                    if running@.len() == 0 {
                    }
                }
                if 0 <= t <= u32::MAX && running@.contains(t as u32) {
                    if j < order@.len() {
                        assert(running@.len() > 0);
                        assert(false);
                    }
                    assert forall|item: u32| wanted.contains(item) implies self@[t].contains(
                        item,
                    ) by {
                        let p = choose|p: int| 0 <= p < items@.len() && items@[p] == item;
                        assert(keyed(order@, items@[p]));
                        let i = choose|i: int|
                            0 <= i < order@.len() && low_of(#[trigger] order@[i]) == items@[p];
                        assert(self@[t].contains(low_of(order@[i])));
                    }
                }
            }
            lemma_ascending_count(running@, found);
            if running@.len() > 0 {
                lemma_ascending_floor(running@, running@.len() - 1);
                assert(running@.contains(running@[running@.len() - 1]));
            }
        }
        running.len() as u32
    }
}

} // verus!
