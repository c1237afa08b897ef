//! The two passes over a dataset: the item frequencies first, then the index and
//! the tree, the frequent itemsets and the rules.

use crate::config::Fraction;
use crate::fptree::{frequency_sorted, nonempty_prefix, sort_transaction, FPTree, SortOrder};
use crate::growth::{
    accepted, covers, distinct, found_from, grown, grows, holds_some, mined, paths_of, rare_view,
    rip_growth, within,
};
use crate::index::{
    lemma_support_push, lemma_supporters_bounded, only, support_count, supporters, Index,
};
use crate::itemset::{
    canonical, counted_as, entries, lemma_counted_as, strictly_ascending, without, ItemSet,
};
use crate::rarity::{bumped, contains_rare_item, count_in, counted, recorded, ItemCount};
use crate::rules::{
    derived, derives, distinct_rules, generate_rules, holds_rule, lemma_yielded, Rule, RuleView,
};
use std::collections::HashSet;
use vstd::prelude::*;

verus! {

broadcast use vstd::std_specs::hash::group_hash_axioms;

/// Why a dataset cannot be mined.
#[derive(Clone, Copy, Debug, PartialEq, Eq, Structural)]
pub enum DataError {
    /// The dataset has no transaction.
    EmptyDataset,
    /// The dataset has more transactions than 32 bits count.
    TooManyTransactions,
    /// No item is rare.
    NoRareItems,
}

/// The transactions of a dataset, each as the set of its items.
pub open spec fn sets_of(transactions: Seq<Vec<u32>>) -> Seq<Set<u32>> {
    Seq::new(transactions.len(), |k: int| transactions[k]@.to_set())
}

/// A number of transactions as a count: itself, or the largest 32-bit number where
/// it is larger.
pub open spec fn clipped(n: nat) -> u32 {
    if n <= u32::MAX {
        n as u32
    } else {
        u32::MAX
    }
}

/// After the items of an itemset are counted, each of them has one occurrence more.
pub proof fn lemma_recorded(counts: Seq<u32>, items: Seq<u32>, item: u32)
    requires
        strictly_ascending(items),
    ensures
        count_in(recorded(counts, items), item) == if items.contains(item) {
            bumped(count_in(counts, item))
        } else {
            count_in(counts, item)
        },
    decreases items.len(),
{
    if items.len() > 0 {
        let head = items.drop_last();
        let last = items.last();
        lemma_recorded(counts, head, item);
        assert(items =~= head.push(last));
        crate::itemset::lemma_push_contains(head, last);
        if head.contains(last) {
            let i = choose|i: int| 0 <= i < head.len() && head[i] == last;
            assert(items[i] < items[items.len() - 1]);
        }
        let inner = recorded(counts, head);
        assert(count_in(counted(inner, last), item) == if item == last {
            bumped(count_in(inner, item))
        } else {
            count_in(inner, item)
        });
    }
}

/// The item frequencies of a dataset: for each item the number of transactions that
/// hold it, however often it stands in one of them. The number of transactions
/// comes back too.
pub fn count_item_frequencies(transactions: &Vec<Vec<u32>>) -> (counted: (ItemCount, usize))
    ensures
        counted.0.well_formed(),
        counted.1 == transactions@.len(),
        forall|item: u32| #[trigger]
            counted.0.count_of(item) == clipped(
                support_count(sets_of(transactions@), only(item)),
            ),
{
    let ghost sets = sets_of(transactions@);
    let mut item_count = ItemCount::new();
    let mut k: usize = 0;
    proof {
        assert(sets.take(0) =~= Seq::<Set<u32>>::empty());
        assert forall|item: u32| #[trigger]
            item_count.count_of(item) == clipped(support_count(sets.take(0), only(item))) by {
            assert(supporters(sets.take(0), only(item)) =~= Set::<int>::empty());
        }
    }
    while k < transactions.len()
        invariant
            k <= transactions.len(),
            sets == sets_of(transactions@),
            item_count.well_formed(),
            forall|item: u32| #[trigger]
                item_count.count_of(item) == clipped(
                    support_count(sets.take(k as int), only(item)),
                ),
        decreases transactions.len() - k,
    {
        let ghost before = item_count@;
        let ghost earlier_count = item_count;
        let transaction = canonical(&transactions[k]);
        item_count.record(&transaction);
        proof {
            assert(sets.take(k + 1) =~= sets.take(k as int).push(sets[k as int]));
            assert forall|item: u32| #[trigger]
                item_count.count_of(item) == clipped(
                    support_count(sets.take(k + 1), only(item)),
                ) by {
                lemma_recorded(before, transaction@, item);
                lemma_support_push(sets.take(k as int), sets[k as int], only(item));
                assert(earlier_count.count_of(item) == clipped(
                    support_count(sets.take(k as int), only(item)),
                ));
                assert(only(item).subset_of(sets[k as int]) <==> transaction@.contains(item)) by {
                    assert(only(item).contains(item));
                    assert(transaction@.to_set().contains(item) <==> sets[k as int].contains(
                        item,
                    ));
                }
            }
        }
        k += 1;
    }
    proof {
        assert(sets.take(k as int) =~= sets);
    }
    (item_count, transactions.len())
}

/// Whether a set of items holds a rare item.
pub open spec fn has_rare(items: Set<u32>, rare: Set<u32>) -> bool {
    exists|item: u32| items.contains(item) && rare.contains(item)
}

/// Whether one of the transactions holds every item of `items`.
pub open spec fn held(transactions: Seq<Set<u32>>, items: Set<u32>) -> bool {
    exists|t: int| 0 <= t < transactions.len() && items.subset_of(#[trigger] transactions[t])
}

/// An itemset is held by a transaction where its count is not zero, and only there.
pub proof fn lemma_held(transactions: Seq<Set<u32>>, items: Set<u32>)
    ensures
        held(transactions, items) <==> support_count(transactions, items) >= 1,
{
    lemma_supporters_bounded(transactions, items);
    let found = supporters(transactions, items);
    if held(transactions, items) {
        let t = choose|t: int|
            0 <= t < transactions.len() && items.subset_of(#[trigger] transactions[t]);
        assert(found.contains(t));
        if found.len() == 0 {
            found.lemma_len0_is_empty();
            assert(false);
        }
    }
    if found.len() >= 1 {
        let t = found.choose();
        assert(found.contains(t)) by {
            if found.is_empty() {
                assert(found =~= Set::<int>::empty());
            }
        }
        assert(items.subset_of(transactions[t]));
    }
}

/// What the tree gets of a transaction: its items in the order of decreasing
/// frequency.
pub open spec fn planting(counts: Seq<u32>, items: Set<u32>) -> Seq<u32> {
    frequency_sorted(counts, SortOrder::Decreasing, items)
}

/// Whether transaction `j` holds a rare item and `path` is a prefix, not the empty
/// one, of what the tree gets of it.
pub open spec fn planted_by(
    sets: Seq<Set<u32>>,
    counts: Seq<u32>,
    rare: Set<u32>,
    j: int,
    path: Seq<u32>,
) -> bool {
    has_rare(sets[j], rare) && nonempty_prefix(path, planting(counts, sets[j]))
}

/// Whether one of the first `upto` transactions plants `path` in the tree.
pub open spec fn planted(
    sets: Seq<Set<u32>>,
    counts: Seq<u32>,
    rare: Set<u32>,
    upto: int,
    path: Seq<u32>,
) -> bool {
    exists|j: int| 0 <= j < upto && #[trigger] planted_by(sets, counts, rare, j, path)
}

/// The number of the first `upto` transactions that plant `path` in the tree.
pub open spec fn passing(
    sets: Seq<Set<u32>>,
    counts: Seq<u32>,
    rare: Set<u32>,
    upto: int,
    path: Seq<u32>,
) -> nat
    decreases upto,
{
    if upto <= 0 {
        0
    } else {
        passing(sets, counts, rare, upto - 1, path) + if planted_by(
            sets,
            counts,
            rare,
            upto - 1,
            path,
        ) {
            1nat
        } else {
            0nat
        }
    }
}

/// No more transactions plant a path than there are.
pub proof fn lemma_passing(
    sets: Seq<Set<u32>>,
    counts: Seq<u32>,
    rare: Set<u32>,
    upto: int,
    path: Seq<u32>,
)
    requires
        0 <= upto,
    ensures
        passing(sets, counts, rare, upto, path) <= upto,
    decreases upto,
{
    if upto > 0 {
        lemma_passing(sets, counts, rare, upto - 1, path);
    }
}

/// Whether what the tree gets of transaction `j`, where that holds a rare item, is
/// a sequence of the items of the transaction.
pub open spec fn planting_holds(sets: Seq<Set<u32>>, counts: Seq<u32>, rare: Set<u32>,
    j: int) -> bool {
    has_rare(sets[j], rare) ==> planting(counts, sets[j]).len() >= 1 && planting(
        counts,
        sets[j],
    ).to_set() == sets[j]
}

/// The index of a dataset and its tree: every transaction goes into the index, and
/// those that hold a rare item go into the tree, their items in the order of
/// decreasing frequency. The count of a node of the tree is the number of
/// transactions that run through it.
pub fn build_tree(
    transactions: &Vec<Vec<u32>>,
    item_count: &ItemCount,
    rare_items: &HashSet<u32>,
) -> (built: (Index, FPTree))
    requires
        transactions@.len() < u32::MAX,
    ensures
        built.0.well_formed(),
        built.0@ == sets_of(transactions@),
        built.1.well_formed(),
        forall|path: Seq<u32>| #[trigger]
            built.1.has_path(path) <==> planted(
                sets_of(transactions@),
                item_count@,
                rare_items@,
                transactions@.len() as int,
                path,
            ),
        forall|path: Seq<u32>| #[trigger]
            built.1.count_at(path) == passing(
                sets_of(transactions@),
                item_count@,
                rare_items@,
                transactions@.len() as int,
                path,
            ),
        forall|j: int|
            0 <= j < transactions@.len() ==> #[trigger] planting_holds(
                sets_of(transactions@),
                item_count@,
                rare_items@,
                j,
            ),
{
    let ghost sets = sets_of(transactions@);
    let ghost rare = rare_items@;
    let ghost counts = item_count@;
    let mut index = Index::new();
    let mut tree = FPTree::new();
    let mut k: usize = 0;
    proof {
        assert(sets.take(0) =~= Seq::<Set<u32>>::empty());
        assert forall|path: Seq<u32>| #[trigger]
            tree.count_at(path) == passing(sets, counts, rare, 0, path) by {}
    }
    while k < transactions.len()
        invariant
            k <= transactions.len(),
            transactions@.len() < u32::MAX,
            sets == sets_of(transactions@),
            rare == rare_items@,
            counts == item_count@,
            index.well_formed(),
            index@ == sets.take(k as int),
            tree.well_formed(),
            forall|path: Seq<u32>| #[trigger]
                tree.has_path(path) <==> planted(sets, counts, rare, k as int, path),
            forall|path: Seq<u32>| #[trigger]
                tree.count_at(path) == passing(sets, counts, rare, k as int, path),
            forall|j: int| 0 <= j < k ==> #[trigger] planting_holds(sets, counts, rare, j),
        decreases transactions.len() - k,
    {
        let transaction = canonical(&transactions[k]);
        let ghost tree0 = tree;
        index.insert(&transaction);
        proof {
            assert(sets.take(k + 1) =~= sets.take(k as int).push(sets[k as int]));
        }
        let rare_inside: bool = contains_rare_item(&transaction, rare_items);
        proof {
            assert(rare_inside == has_rare(sets[k as int], rare)) by {
                if rare_inside {
                    let i = choose|i: int|
                        0 <= i < transaction@.len() && rare.contains(#[trigger] transaction@[i]);
                    assert(transaction@.contains(transaction@[i]));
                    assert(sets[k as int].contains(transaction@[i]));
                }
                if has_rare(sets[k as int], rare) {
                    let item = choose|item: u32| sets[k as int].contains(item)
                        && rare.contains(item);
                    assert(transaction@.to_set().contains(item));
                    let i = choose|i: int| 0 <= i < transaction@.len() && transaction@[i] == item;
                    assert(rare.contains(transaction@[i]));
                }
            }
        }
        if rare_inside {
            let mut ordered = transaction;
            sort_transaction(&mut ordered, item_count, SortOrder::Decreasing);
            proof {
                assert(ordered@ == planting(counts, sets[k as int]));
                assert(ordered@.len() >= 1) by {
                    let i = choose|i: int|
                        0 <= i < transaction@.len() && rare.contains(#[trigger] transaction@[i]);
                }
            }
            tree.insert(&ordered, 1);
        }
        proof {
            assert forall|path: Seq<u32>| #[trigger]
                tree.count_at(path) == passing(sets, counts, rare, k + 1, path) by {
                assert(tree0.count_at(path) == passing(sets, counts, rare, k as int, path));
                lemma_passing(sets, counts, rare, k as int, path);
            }
            assert forall|path: Seq<u32>| #[trigger]
                tree.has_path(path) <==> planted(sets, counts, rare, k + 1, path) by {
                assert(tree0.has_path(path) <==> planted(sets, counts, rare, k as int, path));
                if planted(sets, counts, rare, k as int, path) {
                    let j = choose|j: int|
                        0 <= j < k && #[trigger] planted_by(sets, counts, rare, j, path);
                    assert(0 <= j < k + 1);
                }
                if planted(sets, counts, rare, k + 1, path) {
                    let j = choose|j: int|
                        0 <= j < k + 1 && #[trigger] planted_by(sets, counts, rare, j, path);
                    if j < k {
                        assert(planted(sets, counts, rare, k as int, path));
                    }
                }
                if planted_by(sets, counts, rare, k as int, path) {
                    assert(planted(sets, counts, rare, k + 1, path));
                }
            }
        }
        k += 1;
    }
    proof {
        assert(sets.take(k as int) =~= sets);
    }
    (index, tree)
}

/// What a dataset yields: its index, its frequent itemsets and its rules.
pub struct Mined {
    /// The index of all transactions.
    pub index: Index,
    /// The frequent itemsets: each itemset with a rare item that a transaction
    /// holds, once, with the number of transactions that hold it.
    pub itemsets: Vec<ItemSet>,
    /// The rules that reach both thresholds.
    pub rules: Vec<Rule>,
}

/// Whether the counts of a rule are the numbers of transactions that hold its
/// sides, and both sides together.
pub open spec fn truly_counted(rule: RuleView, transactions: Seq<Set<u32>>) -> bool {
    &&& rule.both_count == support_count(
        transactions,
        rule.antecedent.to_set().union(rule.consequent.to_set()),
    )
    &&& rule.antecedent_count == support_count(transactions, rule.antecedent.to_set())
    &&& rule.consequent_count == support_count(transactions, rule.consequent.to_set())
    &&& rule.dataset_size == transactions.len()
    &&& rule.both_count <= rule.antecedent_count
}

/// Whether `found` is a frequent itemset of the transactions: in ascending order,
/// with a rare item, held by a transaction, and with the number of transactions
/// that hold it.
pub open spec fn frequent(found: ItemSet, transactions: Seq<Set<u32>>, rare: Set<u32>) -> bool {
    &&& strictly_ascending(found.items@)
    &&& has_rare(found.items@.to_set(), rare)
    &&& held(transactions, found.items@.to_set())
    &&& found.count == support_count(transactions, found.items@.to_set())
}

/// What mining owes for a dataset that can be mined.
pub open spec fn mined_from(
    result: Mined,
    transactions: Seq<Vec<u32>>,
    rare: Set<u32>,
    min_confidence: Fraction,
    min_lift: Fraction,
) -> bool {
    let sets = sets_of(transactions);
    &&& result.index.well_formed()
    &&& result.index@ == sets
    &&& distinct(result.itemsets@)
    &&& forall|k: int|
        0 <= k < result.itemsets@.len() ==> frequent(#[trigger] result.itemsets@[k], sets, rare)
    &&& forall|items: Set<u32>|
        has_rare(items, rare) && held(sets, items) ==> #[trigger] found_from(
            result.itemsets@,
            0,
            items,
        )
    &&& distinct_rules(result.rules@)
    &&& forall|j: int|
        0 <= j < result.rules@.len() ==> derived(
            entries(result.itemsets@),
            transactions.len() as u32,
            min_confidence,
            min_lift,
            rare,
            (#[trigger] result.rules@[j])@,
        )
    &&& forall|rule: RuleView| #[trigger]
        derived(
            entries(result.itemsets@),
            transactions.len() as u32,
            min_confidence,
            min_lift,
            rare,
            rule,
        ) ==> holds_rule(result.rules@, rule)
    &&& forall|j: int|
        0 <= j < result.rules@.len() ==> (#[trigger] result.rules@[j])@.consequent.len() == 1
            && rare.contains(result.rules@[j]@.consequent[0])
    &&& forall|j: int|
        0 <= j < result.rules@.len() ==> (#[trigger] result.rules@[j])@.confidence().reaches(
            &min_confidence,
        ) && result.rules@[j]@.lift().reaches(&min_lift)
    &&& forall|j: int|
        0 <= j < result.rules@.len() ==> truly_counted((#[trigger] result.rules@[j])@, sets)
}

/// Mines a dataset, given its item frequencies and its rare items.
///
/// Every transaction goes into the index; those with a rare item go into the tree.
/// Growth on the tree gives the frequent itemsets, and those give the rules, each
/// with one rare item on its right side, that reach the two thresholds. The
/// family-wise filter comes after, from `fisher_inputs` and `retain_rules`.
pub fn mine_rip_tree(
    transactions: &Vec<Vec<u32>>,
    item_count: &ItemCount,
    rare_items: &HashSet<u32>,
    min_confidence: &Fraction,
    min_lift: &Fraction,
) -> (outcome: Result<Mined, DataError>)
    ensures
        match outcome {
            Err(DataError::EmptyDataset) => transactions@.len() == 0,
            Err(DataError::TooManyTransactions) => transactions@.len() >= u32::MAX,
            Err(DataError::NoRareItems) => 0 < transactions@.len() < u32::MAX
                && rare_items@.is_empty(),
            Ok(result) => 0 < transactions@.len() < u32::MAX && !rare_items@.is_empty()
                && mined_from(
                result,
                transactions@,
                rare_items@,
                *min_confidence,
                *min_lift,
            ),
        },
{
    if transactions.len() == 0 {
        return Err(DataError::EmptyDataset);
    }
    if transactions.len() >= u32::MAX as usize {
        return Err(DataError::TooManyTransactions);
    }
    if rare_items.is_empty() {
        return Err(DataError::NoRareItems);
    }
    let ghost sets = sets_of(transactions@);
    let ghost rare = rare_items@;
    let ghost counts = item_count@;
    let (index, tree) = build_tree(transactions, item_count, rare_items);
    let empty: Vec<u32> = Vec::new();
    let itemsets = rip_growth(&tree, Some(rare_items), &empty, &index);
    let dataset_size: u32 = transactions.len() as u32;
    proof {
        let paths = paths_of(&tree);
        let base = empty@.to_set();
        assert(base =~= Set::<u32>::empty());
        assert forall|items: Set<u32>|
            grown(paths, base, Some(rare), items) <==> (has_rare(items, rare) && held(
                sets,
                items,
            )) by {
            if grown(paths, base, Some(rare), items) {
                let more = choose|more: Set<u32>| #[trigger]
                    grows(paths, base, Some(rare), items, more);
                assert(items =~= more);
                let path = choose|path: Seq<u32>| #[trigger] within(paths, more, path);
                assert(tree.has_path(path));
                assert(planted(sets, counts, rare, transactions@.len() as int, path));
                let j = choose|j: int|
                    0 <= j < transactions@.len() && #[trigger] planted_by(
                        sets,
                        counts,
                        rare,
                        j,
                        path,
                    );
                assert(planting_holds(sets, counts, rare, j));
                let whole = planting(counts, sets[j]);
                assert forall|x: u32| items.contains(x) implies sets[j].contains(x) by {
                    assert(path.to_set().contains(x));
                    let i = choose|i: int| 0 <= i < path.len() && path[i] == x;
                    assert(whole.take(path.len() as int)[i] == x);
                    assert(whole[i] == x);
                    assert(whole.contains(x));
                    assert(whole.to_set().contains(x));
                }
                assert(items.subset_of(sets[j]));
            }
            if has_rare(items, rare) && held(sets, items) {
                let t = choose|t: int| 0 <= t < sets.len() && items.subset_of(#[trigger] sets[t]);
                let item = choose|item: u32| items.contains(item) && rare.contains(item);
                assert(sets[t].contains(item));
                assert(has_rare(sets[t], rare));
                assert(planting_holds(sets, counts, rare, t));
                let path = planting(counts, sets[t]);
                assert(path.take(path.len() as int) =~= path);
                assert(planted_by(sets, counts, rare, t, path));
                assert(planted(sets, counts, rare, transactions@.len() as int, path));
                assert(tree.has_path(path));
                assert(within(paths, items, path));
                assert(items =~= base.union(items));
                assert(grows(paths, base, Some(rare), items, items));
            }
        }
        assert forall|k: int| 0 <= k < itemsets@.len() implies frequent(
            #[trigger] itemsets@[k],
            sets,
            rare,
        ) by {
            assert(mined(paths, base, Some(rare), index@, itemsets@[k]));
        }
        assert forall|items: Set<u32>|
            has_rare(items, rare) && held(sets, items) implies #[trigger] found_from(
            itemsets@,
            0,
            items,
        ) by {
            assert(grown(paths, base, Some(rare), items));
        }
    }
    let rules = generate_rules(&itemsets, dataset_size, min_confidence, min_lift, rare_items);
    proof {
        let list = entries(itemsets@);
        assert forall|j: int| 0 <= j < rules@.len() implies truly_counted(
            (#[trigger] rules@[j])@,
            sets,
        ) by {
            let rule = rules@[j]@;
            let (k, item) = choose|k: int, item: u32| #[trigger]
                derives(list, dataset_size, *min_confidence, *min_lift, rare, k, item, rule);
            let items = list[k].0;
            assert(items == itemsets@[k].items@);
            assert(frequent(itemsets@[k], sets, rare));
            lemma_yielded(list, dataset_size, *min_confidence, *min_lift, rare, items, item, rule);
            crate::itemset::lemma_split_out(items, item);
            lemma_truly(itemsets@, sets, rare, items, rule.both_count);
            lemma_truly(itemsets@, sets, rare, without(items, item), rule.antecedent_count);
            lemma_truly(itemsets@, sets, rare, seq![item], rule.consequent_count);
            assert(rule.antecedent.to_set().union(rule.consequent.to_set()) =~= items.to_set()) by {
                assert forall|x: u32|
                    rule.antecedent.to_set().union(rule.consequent.to_set()).contains(x)
                        <==> items.to_set().contains(x) by {
                    if seq![item].contains(x) {
                        let i = choose|i: int| 0 <= i < seq![item].len() && seq![item][i] == x;
                    }
                    if x == item {
                        assert(seq![item][0] == x);
                    }
                }
            }
            crate::index::lemma_support_antitone(sets, rule.antecedent.to_set(), items.to_set());
        }
    }
    Ok(Mined { index, itemsets, rules })
}

/// A count that the list of frequent itemsets gives for some items is the number
/// of transactions that hold them.
proof fn lemma_truly(
    itemsets: Seq<ItemSet>,
    sets: Seq<Set<u32>>,
    rare: Set<u32>,
    items: Seq<u32>,
    count: u32,
)
    requires
        forall|k: int| 0 <= k < itemsets.len() ==> frequent(#[trigger] itemsets[k], sets, rare),
        counted_as(entries(itemsets), items) == Some(count),
    ensures
        count == support_count(sets, items.to_set()),
{
    let list = entries(itemsets);
    lemma_counted_as(list, items);
    let k = choose|k: int| 0 <= k < list.len() && #[trigger] list[k] == (items, count);
    assert(frequent(itemsets[k], sets, rare));
}

} // verus!
