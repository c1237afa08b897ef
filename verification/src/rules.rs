//! Rules with a single rare item as their consequent, and their measures.

use crate::config::{wide_product, Fraction};
use crate::growth::{dedup_itemsets, lemma_first_occurrences, seen_before, first_occurrences};
use crate::index::{support_count, Index};
use crate::itemset::{
    ascending, canonical, copy_of, counted_as, entries, lemma_ascending_of,
    lemma_ascending_unique, lemma_split_out, split_out_item, strictly_ascending, union, without,
    ItemSet,
};
use crate::itemizer::Itemizer;
use crate::render::{all_assigned, render_side, side_text};
use crate::support::SupportTable;
use std::collections::HashSet;
use vstd::prelude::*;
use vstd::string::StringExecFns;

verus! {

broadcast use vstd::std_specs::hash::group_hash_axioms;

/// What a rule says.
pub struct RuleView {
    /// The items of the left side, in ascending order.
    pub antecedent: Seq<u32>,
    /// The items of the right side, in ascending order.
    pub consequent: Seq<u32>,
    /// The number of transactions that hold both sides.
    pub both_count: u32,
    /// The number of transactions that hold the left side.
    pub antecedent_count: u32,
    /// The number of transactions that hold the right side.
    pub consequent_count: u32,
    /// The number of transactions of the dataset.
    pub dataset_size: u32,
}

/// A rule `antecedent ==> consequent` with the counts that its measures are made of.
///
/// Two rules are the same rule where their sides are the same; the counts are no
/// part of what a rule is.
#[derive(Debug)]
pub struct Rule {
    antecedent: Vec<u32>,
    consequent: Vec<u32>,
    both_count: u32,
    antecedent_count: u32,
    consequent_count: u32,
    dataset_size: u32,
}

impl View for Rule {
    type V = RuleView;

    closed spec fn view(&self) -> RuleView {
        RuleView {
            antecedent: self.antecedent@,
            consequent: self.consequent@,
            both_count: self.both_count,
            antecedent_count: self.antecedent_count,
            consequent_count: self.consequent_count,
            dataset_size: self.dataset_size,
        }
    }
}

impl RuleView {
    /// The confidence of the rule: of the transactions that hold the left side, the
    /// share that hold the right side too.
    pub open spec fn confidence(self) -> Fraction {
        Fraction { numerator: self.both_count as u64, denominator: self.antecedent_count as u64 }
    }

    /// The lift of the rule: the support of both sides over the product of the
    /// supports of each.
    pub open spec fn lift(self) -> Fraction {
        Fraction {
            numerator: (self.both_count * self.dataset_size) as u64,
            denominator: (self.antecedent_count * self.consequent_count) as u64,
        }
    }

    /// The support of the rule: of all transactions, the share that hold both sides.
    pub open spec fn support(self) -> Fraction {
        Fraction { numerator: self.both_count as u64, denominator: self.dataset_size as u64 }
    }

    /// Whether two rules have the same sides.
    pub open spec fn same_rule(self, other: RuleView) -> bool {
        self.antecedent == other.antecedent && self.consequent == other.consequent
    }
}

/// The product of two 32-bit numbers, which always fits 64 bits.
pub fn product(a: u32, b: u32) -> (p: u64)
    ensures
        p == a * b,
{
    proof {
        assert(0 <= a as int * b as int <= 0xffff_ffff * 0xffff_ffff) by (nonlinear_arith)
            requires
                0 <= a as int <= 0xffff_ffff,
                0 <= b as int <= 0xffff_ffff,
        ;
    }
    (a as u64) * (b as u64)
}

/// The rule with the given sides, as far as the list of itemsets carries it.
///
/// There is none where a side is empty, where the list lacks the count of a side or
/// of both sides together, where one of the counts that a measure divides by is
/// zero, or where the confidence or the lift stays under its threshold.
pub open spec fn rule_for(
    list: Seq<(Seq<u32>, u32)>,
    dataset_size: u32,
    min_confidence: Fraction,
    min_lift: Fraction,
    antecedent: Seq<u32>,
    consequent: Seq<u32>,
) -> Option<RuleView> {
    let left = ascending(antecedent.to_set());
    let right = ascending(consequent.to_set());
    let both = ascending(antecedent.to_set().union(consequent.to_set()));
    if antecedent.len() == 0 || consequent.len() == 0 {
        None
    } else if counted_as(list, both) is None || counted_as(list, left) is None || counted_as(
        list,
        right,
    ) is None {
        None
    } else {
        let rule = RuleView {
            antecedent: left,
            consequent: right,
            both_count: counted_as(list, both)->Some_0,
            antecedent_count: counted_as(list, left)->Some_0,
            consequent_count: counted_as(list, right)->Some_0,
            dataset_size,
        };
        if rule.antecedent_count == 0 || rule.consequent_count == 0 || dataset_size == 0 {
            None
        } else if !rule.confidence().reaches(&min_confidence) || !rule.lift().reaches(&min_lift) {
            None
        } else {
            Some(rule)
        }
    }
}

impl Rule {
    /// The items of the left side, in ascending order.
    pub fn antecedent(&self) -> (items: &Vec<u32>)
        ensures
            items@ == self@.antecedent,
    {
        &self.antecedent
    }

    /// The items of the right side, in ascending order.
    pub fn consequent(&self) -> (items: &Vec<u32>)
        ensures
            items@ == self@.consequent,
    {
        &self.consequent
    }

    /// The number of transactions that hold both sides.
    pub fn both_count(&self) -> (count: u32)
        ensures
            count == self@.both_count,
    {
        self.both_count
    }

    /// The number of transactions that hold the left side.
    pub fn antecedent_count(&self) -> (count: u32)
        ensures
            count == self@.antecedent_count,
    {
        self.antecedent_count
    }

    /// The number of transactions that hold the right side.
    pub fn consequent_count(&self) -> (count: u32)
        ensures
            count == self@.consequent_count,
    {
        self.consequent_count
    }

    /// The number of transactions of the dataset.
    pub fn dataset_size(&self) -> (count: u32)
        ensures
            count == self@.dataset_size,
    {
        self.dataset_size
    }

    /// The confidence of the rule.
    pub fn confidence(&self) -> (measure: Fraction)
        ensures
            measure == self@.confidence(),
    {
        Fraction { numerator: self.both_count as u64, denominator: self.antecedent_count as u64 }
    }

    /// The lift of the rule.
    pub fn lift(&self) -> (measure: Fraction)
        ensures
            measure == self@.lift(),
    {
        Fraction {
            numerator: product(self.both_count, self.dataset_size),
            denominator: product(self.antecedent_count, self.consequent_count),
        }
    }

    /// The support of the rule.
    pub fn support(&self) -> (measure: Fraction)
        ensures
            measure == self@.support(),
    {
        Fraction { numerator: self.both_count as u64, denominator: self.dataset_size as u64 }
    }

    /// A copy of the rule.
    pub fn copy(&self) -> (rule: Rule)
        ensures
            rule@ == self@,
    {
        Rule {
            antecedent: copy_of(&self.antecedent),
            consequent: copy_of(&self.consequent),
            both_count: self.both_count,
            antecedent_count: self.antecedent_count,
            consequent_count: self.consequent_count,
            dataset_size: self.dataset_size,
        }
    }

    /// Whether two rules have the same sides.
    pub fn same_rule(&self, other: &Rule) -> (same: bool)
        ensures
            same == self@.same_rule(other@),
    {
        crate::itemset::same_items(&self.antecedent, &other.antecedent)
            && crate::itemset::same_items(&self.consequent, &other.consequent)
    }

    /// The rule with the given sides, where the table of itemsets carries it and it
    /// reaches both thresholds. Its sides come out in ascending order.
    pub fn make(
        antecedent: Vec<u32>,
        consequent: Vec<u32>,
        table: &SupportTable,
        dataset_size: u32,
        min_confidence: &Fraction,
        min_lift: &Fraction,
    ) -> (made: Option<Rule>)
        requires
            table.well_formed(),
        ensures
            match made {
                Some(rule) => rule_for(
                    table@,
                    dataset_size,
                    *min_confidence,
                    *min_lift,
                    antecedent@,
                    consequent@,
                ) == Some(rule@),
                None => rule_for(
                    table@,
                    dataset_size,
                    *min_confidence,
                    *min_lift,
                    antecedent@,
                    consequent@,
                ) is None,
            },
    {
        if antecedent.len() == 0 || consequent.len() == 0 {
            return None;
        }
        let left = canonical(&antecedent);
        let right = canonical(&consequent);
        let both = union(&left, &right);
        proof {
            assert(both@.to_set() =~= antecedent@.to_set().union(consequent@.to_set()));
            lemma_ascending_of(both@);
        }
        let both_count: u32 = match table.get(&both) {
            Some(count) => count,
            None => {
                return None;
            },
        };
        let antecedent_count: u32 = match table.get(&left) {
            Some(count) => count,
            None => {
                return None;
            },
        };
        if antecedent_count == 0 {
            return None;
        }
        let confidence = Fraction {
            numerator: both_count as u64,
            denominator: antecedent_count as u64,
        };
        let confident: bool = confidence.at_least(min_confidence);
        let consequent_count: u32 = match table.get(&right) {
            Some(count) => count,
            None => {
                return None;
            },
        };
        if consequent_count == 0 || dataset_size == 0 || !confident {
            return None;
        }
        let lift = Fraction {
            numerator: product(both_count, dataset_size),
            denominator: product(antecedent_count, consequent_count),
        };
        if !lift.at_least(min_lift) {
            return None;
        }
        Some(
            Rule {
                antecedent: left,
                consequent: right,
                both_count,
                antecedent_count,
                consequent_count,
                dataset_size,
            },
        )
    }
}

/// Whether the itemset `items` yields `rule` by handing its rare item `item` to the
/// right side.
pub open spec fn yields(
    list: Seq<(Seq<u32>, u32)>,
    dataset_size: u32,
    min_confidence: Fraction,
    min_lift: Fraction,
    rare: Set<u32>,
    items: Seq<u32>,
    item: u32,
    rule: RuleView,
) -> bool {
    &&& items.len() >= 2
    &&& items.contains(item)
    &&& rare.contains(item)
    &&& rule_for(list, dataset_size, min_confidence, min_lift, without(items, item), seq![item])
        == Some(rule)
}

/// Whether entry `k` of the list yields `rule` through `item`.
pub open spec fn derives(
    list: Seq<(Seq<u32>, u32)>,
    dataset_size: u32,
    min_confidence: Fraction,
    min_lift: Fraction,
    rare: Set<u32>,
    k: int,
    item: u32,
    rule: RuleView,
) -> bool {
    &&& 0 <= k < list.len()
    &&& yields(list, dataset_size, min_confidence, min_lift, rare, list[k].0, item, rule)
}

/// Whether some itemset of the list, of two items or more, yields `rule` by handing
/// one of its rare items to the right side.
pub open spec fn derived(
    list: Seq<(Seq<u32>, u32)>,
    dataset_size: u32,
    min_confidence: Fraction,
    min_lift: Fraction,
    rare: Set<u32>,
    rule: RuleView,
) -> bool {
    exists|k: int, item: u32| #[trigger]
        derives(list, dataset_size, min_confidence, min_lift, rare, k, item, rule)
}

/// Whether a list of rules holds `rule`.
pub open spec fn holds_rule(rules: Seq<Rule>, rule: RuleView) -> bool {
    exists|j: int| 0 <= j < rules.len() && (#[trigger] rules[j])@ == rule
}

/// Whether no two rules of a list have the same sides.
pub open spec fn distinct_rules(rules: Seq<Rule>) -> bool {
    forall|a: int, b: int|
        0 <= a < b < rules.len() ==> !(#[trigger] rules[a])@.same_rule((#[trigger] rules[b])@)
}

/// Whether entry `from.0` of `firsts` yields `rule` through its item at `from.1`.
pub open spec fn stems(
    firsts: Seq<(Seq<u32>, u32)>,
    list: Seq<(Seq<u32>, u32)>,
    dataset_size: u32,
    min_confidence: Fraction,
    min_lift: Fraction,
    rare: Set<u32>,
    from: (int, int),
    rule: RuleView,
) -> bool {
    &&& 0 <= from.0 < firsts.len()
    &&& 0 <= from.1 < firsts[from.0].0.len()
    &&& yields(
        list,
        dataset_size,
        min_confidence,
        min_lift,
        rare,
        firsts[from.0].0,
        firsts[from.0].0[from.1],
        rule,
    )
}

/// Whether a place in the list of itemsets comes before another.
pub open spec fn earlier(a: (int, int), b: (int, int)) -> bool {
    a.0 < b.0 || (a.0 == b.0 && a.1 < b.1)
}

/// What a rule that an itemset yields looks like: the itemset without the item on
/// the left, the item alone on the right, and both thresholds reached.
pub proof fn lemma_yielded(
    list: Seq<(Seq<u32>, u32)>,
    dataset_size: u32,
    min_confidence: Fraction,
    min_lift: Fraction,
    rare: Set<u32>,
    items: Seq<u32>,
    item: u32,
    rule: RuleView,
)
    requires
        strictly_ascending(items),
        yields(list, dataset_size, min_confidence, min_lift, rare, items, item, rule),
    ensures
        rule.antecedent == without(items, item),
        rule.consequent == seq![item],
        rule.dataset_size == dataset_size,
        rule.antecedent_count > 0,
        rule.consequent_count > 0,
        dataset_size > 0,
        counted_as(list, items) == Some(rule.both_count),
        counted_as(list, without(items, item)) == Some(rule.antecedent_count),
        counted_as(list, seq![item]) == Some(rule.consequent_count),
        rule.confidence().reaches(&min_confidence),
        rule.lift().reaches(&min_lift),
{
    lemma_split_out(items, item);
    lemma_ascending_of(without(items, item));
    let single = seq![item];
    assert(strictly_ascending(single));
    lemma_ascending_of(single);
    assert(without(items, item).to_set().union(single.to_set()) =~= items.to_set()) by {
        assert forall|x: u32|
            without(items, item).to_set().union(single.to_set()).contains(x)
                <==> items.to_set().contains(x) by {
            if single.contains(x) {
                let i = choose|i: int| 0 <= i < single.len() && single[i] == x;
            }
            if x == item {
                assert(single[0] == x);
            }
        }
    }
    lemma_ascending_of(items);
}

/// The rules that a list of frequent itemsets yields.
///
/// Each itemset of two items or more hands each of its rare items in turn to the
/// right side of a rule, the rest to the left side. A rule is kept where the list
/// carries the counts of its sides and of the itemset, and its confidence and lift
/// reach the thresholds. No rule comes out twice.
pub fn generate_rules(
    itemsets: &Vec<ItemSet>,
    dataset_size: u32,
    min_confidence: &Fraction,
    min_lift: &Fraction,
    rare_items: &HashSet<u32>,
) -> (rules: Vec<Rule>)
    requires
        forall|k: int|
            0 <= k < itemsets@.len() ==> strictly_ascending((#[trigger] itemsets@[k]).items@),
    ensures
        distinct_rules(rules@),
        forall|j: int|
            0 <= j < rules@.len() ==> derived(
                entries(itemsets@),
                dataset_size,
                *min_confidence,
                *min_lift,
                rare_items@,
                (#[trigger] rules@[j])@,
            ),
        forall|rule: RuleView| #[trigger]
            derived(
                entries(itemsets@),
                dataset_size,
                *min_confidence,
                *min_lift,
                rare_items@,
                rule,
            ) ==> holds_rule(rules@, rule),
        forall|j: int|
            0 <= j < rules@.len() ==> (#[trigger] rules@[j])@.consequent.len() == 1
                && rare_items@.contains(rules@[j]@.consequent[0]) && rules@[j]@.antecedent.len()
                >= 1,
        forall|j: int|
            0 <= j < rules@.len() ==> (#[trigger] rules@[j])@.confidence().reaches(min_confidence)
                && rules@[j]@.lift().reaches(min_lift),
{
    let ghost list = entries(itemsets@);
    let ghost rare = rare_items@;
    let ghost minc = *min_confidence;
    let ghost minl = *min_lift;
    let distinct_sets = dedup_itemsets(itemsets);
    let table = SupportTable::from_itemsets(itemsets);
    let ghost firsts = entries(distinct_sets@);
    proof {
        lemma_first_occurrences(list);
        assert forall|f: int| 0 <= f < firsts.len() implies strictly_ascending(
            (#[trigger] firsts[f]).0,
        ) by {
            assert(list.contains(firsts[f]));
            let k = choose|k: int| 0 <= k < list.len() && list[k] == firsts[f];
            assert(list[k].0 == itemsets@[k].items@);
        }
    }
    let mut rules: Vec<Rule> = Vec::new();
    let ghost mut origin: Seq<(int, int)> = Seq::empty();
    let mut f: usize = 0;
    while f < distinct_sets.len()
        invariant
            f <= distinct_sets.len(),
            list == entries(itemsets@),
            table.well_formed(),
            table@ == list,
            firsts == entries(distinct_sets@),
            firsts == first_occurrences(list),
            rare == rare_items@,
            minc == *min_confidence,
            minl == *min_lift,
            forall|i: int| 0 <= i < firsts.len() ==> strictly_ascending((#[trigger] firsts[i]).0),
            forall|a: int, b: int|
                0 <= a < b < firsts.len() ==> (#[trigger] firsts[a]).0 != (#[trigger] firsts[b]).0,
            origin.len() == rules@.len(),
            distinct_rules(rules@),
            forall|j: int|
                0 <= j < rules@.len() ==> stems(
                    firsts,
                    list,
                    dataset_size,
                    minc,
                    minl,
                    rare,
                    #[trigger] origin[j],
                    rules@[j]@,
                ) && earlier(origin[j], (f as int, 0int)),
            forall|i: int, item: u32, rule: RuleView|
                0 <= i < f && #[trigger] yields(
                    list,
                    dataset_size,
                    minc,
                    minl,
                    rare,
                    firsts[i].0,
                    item,
                    rule,
                ) ==> holds_rule(rules@, rule),
        decreases distinct_sets.len() - f,
    {
        let items: &Vec<u32> = &distinct_sets[f].items;
        proof {
            assert(firsts[f as int].0 == items@);
        }
        let mut p: usize = 0;
        while p < items.len() && items.len() > 1
            invariant
                p <= items.len(),
                f < distinct_sets.len(),
                items@ == firsts[f as int].0,
                strictly_ascending(items@),
                list == entries(itemsets@),
                table.well_formed(),
                table@ == list,
                firsts == entries(distinct_sets@),
                rare == rare_items@,
                minc == *min_confidence,
                minl == *min_lift,
                forall|i: int|
                    0 <= i < firsts.len() ==> strictly_ascending((#[trigger] firsts[i]).0),
                forall|a: int, b: int|
                    0 <= a < b < firsts.len() ==> (#[trigger] firsts[a]).0 != (
                    #[trigger] firsts[b]).0,
                origin.len() == rules@.len(),
                distinct_rules(rules@),
                forall|j: int|
                    0 <= j < rules@.len() ==> stems(
                        firsts,
                        list,
                        dataset_size,
                        minc,
                        minl,
                        rare,
                        #[trigger] origin[j],
                        rules@[j]@,
                    ) && earlier(origin[j], (f as int, p as int)),
                forall|i: int, item: u32, rule: RuleView|
                    0 <= i < f && #[trigger] yields(
                        list,
                        dataset_size,
                        minc,
                        minl,
                        rare,
                        firsts[i].0,
                        item,
                        rule,
                    ) ==> holds_rule(rules@, rule),
                forall|q: int, rule: RuleView|
                    0 <= q < p && #[trigger] yields(
                        list,
                        dataset_size,
                        minc,
                        minl,
                        rare,
                        items@,
                        items@[q],
                        rule,
                    ) ==> holds_rule(rules@, rule),
            decreases items.len() - p,
        {
            let item: u32 = items[p];
            let ghost rules0 = rules@;
            let ghost origin0 = origin;
            if rare_items.contains(&item) {
                let (antecedent, consequent) = split_out_item(items, item);
                let made = Rule::make(
                    antecedent,
                    consequent,
                    &table,
                    dataset_size,
                    min_confidence,
                    min_lift,
                );
                if made.is_some() {
                    let rule = made.unwrap();
                    proof {
                        assert(items@[p as int] == item);
                        assert(items@.contains(item));
                        assert(yields(list, dataset_size, minc, minl, rare, items@, item, rule@));
                        lemma_yielded(list, dataset_size, minc, minl, rare, items@, item, rule@);
                        assert forall|j: int| 0 <= j < rules0.len() implies !(
                        #[trigger] rules0[j])@.same_rule(rule@) by {
                            let from = origin0[j];
                            assert(stems(
                                firsts,
                                list,
                                dataset_size,
                                minc,
                                minl,
                                rare,
                                from,
                                rules0[j]@,
                            ));
                            let other = firsts[from.0].0;
                            let other_item = other[from.1];
                            lemma_yielded(
                                list,
                                dataset_size,
                                minc,
                                minl,
                                rare,
                                other,
                                other_item,
                                rules0[j]@,
                            );
                            if rules0[j]@.same_rule(rule@) {
                                assert(seq![other_item][0] == seq![item][0]);
                                lemma_split_out(items@, item);
                                lemma_split_out(other, item);
                                assert(other.contains(other_item));
                                assert(other.to_set() =~= items@.to_set()) by {
                                    assert(other.to_set().remove(item) == items@.to_set().remove(
                                        item,
                                    ));
                                    assert forall|x: u32|
                                        other.to_set().contains(x) <==> items@.to_set().contains(
                                            x,
                                        ) by {
                                        if x != item {
                                            assert(other.to_set().remove(item).contains(x)
                                                <==> items@.to_set().remove(item).contains(x));
                                        }
                                    }
                                }
                                lemma_ascending_unique(other, items@);
                                assert(from.0 == f);
                                assert(from.1 < p);
                                assert(items@[from.1] < items@[p as int]);
                            }
                        }
                    }
                    rules.push(rule);
                    proof {
                        origin = origin0.push((f as int, p as int));
                        assert forall|j: int| 0 <= j < rules@.len() implies stems(
                            firsts,
                            list,
                            dataset_size,
                            minc,
                            minl,
                            rare,
                            #[trigger] origin[j],
                            rules@[j]@,
                        ) && earlier(origin[j], (f as int, p + 1)) by {
                            if j < rules0.len() {
                                assert(origin[j] == origin0[j]);
                                assert(rules@[j] == rules0[j]);
                            }
                        }
                        assert forall|a: int, b: int| 0 <= a < b < rules@.len() implies !(
                        #[trigger] rules@[a])@.same_rule((#[trigger] rules@[b])@) by {
                            assert(rules@[a] == rules0[a]);
                            if b < rules0.len() {
                                assert(rules@[b] == rules0[b]);
                            }
                        }
                    }
                }
            }
            proof {
                assert forall|j: int| 0 <= j < rules@.len() implies stems(
                    firsts,
                    list,
                    dataset_size,
                    minc,
                    minl,
                    rare,
                    #[trigger] origin[j],
                    rules@[j]@,
                ) && earlier(origin[j], (f as int, p + 1)) by {
                    if rules@.len() == rules0.len() {
                        assert(earlier(origin[j], (f as int, p as int)));
                    }
                }
                assert forall|i: int, other: u32, rule: RuleView|
                    0 <= i < f && #[trigger] yields(
                        list,
                        dataset_size,
                        minc,
                        minl,
                        rare,
                        firsts[i].0,
                        other,
                        rule,
                    ) implies holds_rule(rules@, rule) by {
                    assert(holds_rule(rules0, rule));
                    let j = choose|j: int| 0 <= j < rules0.len() && (#[trigger] rules0[j])@ == rule;
                    assert(rules@[j] == rules0[j]);
                }
                assert forall|q: int, rule: RuleView|
                    0 <= q < p + 1 && #[trigger] yields(
                        list,
                        dataset_size,
                        minc,
                        minl,
                        rare,
                        items@,
                        items@[q],
                        rule,
                    ) implies holds_rule(rules@, rule) by {
                    if q < p {
                        assert(holds_rule(rules0, rule));
                        let j = choose|j: int|
                            0 <= j < rules0.len() && (#[trigger] rules0[j])@ == rule;
                        assert(rules@[j] == rules0[j]);
                    } else {
                        assert(rules@.len() == rules0.len() + 1);
                        assert(rules@[rules0.len() as int]@ == rule);
                    }
                }
            }
            p += 1;
        }
        proof {
            assert forall|i: int, item: u32, rule: RuleView|
                0 <= i < f + 1 && #[trigger] yields(
                    list,
                    dataset_size,
                    minc,
                    minl,
                    rare,
                    firsts[i].0,
                    item,
                    rule,
                ) implies holds_rule(rules@, rule) by {
                if i == f {
                    let q = choose|q: int| 0 <= q < items@.len() && items@[q] == item;
                    assert(yields(list, dataset_size, minc, minl, rare, items@, items@[q], rule));
                }
            }
            assert forall|j: int| 0 <= j < rules@.len() implies stems(
                firsts,
                list,
                dataset_size,
                minc,
                minl,
                rare,
                #[trigger] origin[j],
                rules@[j]@,
            ) && earlier(origin[j], (f + 1, 0int)) by {
                assert(earlier(origin[j], (f as int, p as int)));
            }
        }
        f += 1;
    }
    proof {
        assert forall|j: int| 0 <= j < rules@.len() implies derived(
            list,
            dataset_size,
            minc,
            minl,
            rare,
            (#[trigger] rules@[j])@,
        ) && rules@[j]@.consequent.len() == 1 && rare.contains(rules@[j]@.consequent[0])
            && rules@[j]@.antecedent.len() >= 1 && rules@[j]@.confidence().reaches(
            min_confidence,
        ) && rules@[j]@.lift().reaches(min_lift) by {
            let from = origin[j];
            assert(stems(firsts, list, dataset_size, minc, minl, rare, from, rules@[j]@));
            let items = firsts[from.0].0;
            let item = items[from.1];
            lemma_yielded(list, dataset_size, minc, minl, rare, items, item, rules@[j]@);
            assert(list.contains(firsts[from.0]));
            let k = choose|k: int| 0 <= k < list.len() && list[k] == firsts[from.0];
            assert(derives(list, dataset_size, minc, minl, rare, k, item, rules@[j]@));
            lemma_split_out(items, item);
            assert(without(items, item).len() >= 1) by {
                let other = if items[0] == item {
                    items[1]
                } else {
                    items[0]
                };
                assert(items.contains(other));
                assert(without(items, item).contains(other));
            }
        }
        assert forall|rule: RuleView| #[trigger]
            derived(list, dataset_size, minc, minl, rare, rule) implies holds_rule(
            rules@,
            rule,
        ) by {
            let (k, item) = choose|k: int, item: u32| #[trigger]
                derives(list, dataset_size, minc, minl, rare, k, item, rule);
            assert(seen_before(firsts, firsts.len() as int, list[k].0));
            let i = choose|i: int| 0 <= i < firsts.len() && (#[trigger] firsts[i]).0 == list[k].0;
            assert(yields(list, dataset_size, minc, minl, rare, firsts[i].0, item, rule));
        }
    }
    rules
}

/// The number of rules among the first `upto` whose right side is `consequent`.
pub open spec fn sharing(rules: Seq<Rule>, consequent: Seq<u32>, upto: int) -> nat
    decreases upto,
{
    if upto <= 0 {
        0
    } else {
        sharing(rules, consequent, upto - 1) + if rules[upto - 1]@.consequent == consequent {
            1nat
        } else {
            0nat
        }
    }
}

/// No more rules share a right side than there are rules.
pub proof fn lemma_sharing_bound(rules: Seq<Rule>, consequent: Seq<u32>, upto: int)
    requires
        0 <= upto,
    ensures
        sharing(rules, consequent, upto) <= upto,
    decreases upto,
{
    if upto > 0 {
        lemma_sharing_bound(rules, consequent, upto - 1);
    }
}

/// The tally that a map holds for an item, or 0.
pub open spec fn tallied(tally: Map<u32, u64>, item: u32) -> nat {
    if tally.contains_key(item) {
        tally[item] as nat
    } else {
        0
    }
}

/// For each rule the size of its family: the number of rules of the list with the
/// same right side, the rule itself among them.
pub fn family_sizes(rules: &Vec<Rule>) -> (sizes: Vec<u64>)
    requires
        forall|j: int| 0 <= j < rules@.len() ==> (#[trigger] rules@[j])@.consequent.len() == 1,
    ensures
        sizes@.len() == rules@.len(),
        forall|j: int|
            0 <= j < rules@.len() ==> #[trigger] sizes@[j] == sharing(
                rules@,
                rules@[j]@.consequent,
                rules@.len() as int,
            ),
{
    let mut tally: std::collections::HashMap<u32, u64> = std::collections::HashMap::new();
    let mut j: usize = 0;
    while j < rules.len()
        invariant
            j <= rules.len(),
            forall|i: int| 0 <= i < rules@.len() ==> (#[trigger] rules@[i])@.consequent.len() == 1,
            forall|item: u32| #[trigger] tallied(tally@, item) ==
                sharing(rules@, seq![item], j as int),
        decreases rules.len() - j,
    {
        let item: u32 = rules[j].consequent[0];
        let ghost before = tally@;
        let found = tally.get(&item);
        let count: u64 = if found.is_some() {
            *found.unwrap()
        } else {
            0
        };
        proof {
            assert(count == tallied(before, item));
            lemma_sharing_bound(rules@, seq![item], j as int);
            assert(rules@[j as int]@.consequent =~= seq![item]);
        }
        tally.insert(item, count + 1);
        proof {
            assert forall|other: u32| #[trigger]
                tallied(tally@, other) == sharing(rules@, seq![other], j + 1) by {
                assert(tallied(before, other) == sharing(rules@, seq![other], j as int));
                if other != item {
                    assert(seq![other][0] != seq![item][0]);
                }
            }
        }
        j += 1;
    }
    let mut sizes: Vec<u64> = Vec::new();
    let mut k: usize = 0;
    while k < rules.len()
        invariant
            k <= rules.len(),
            sizes@.len() == k,
            forall|i: int| 0 <= i < rules@.len() ==> (#[trigger] rules@[i])@.consequent.len() == 1,
            forall|item: u32| #[trigger]
                tallied(tally@, item) == sharing(rules@, seq![item], rules@.len() as int),
            forall|i: int|
                0 <= i < k ==> #[trigger] sizes@[i] == sharing(
                    rules@,
                    rules@[i]@.consequent,
                    rules@.len() as int,
                ),
        decreases rules.len() - k,
    {
        let item: u32 = rules[k].consequent[0];
        let found = tally.get(&item);
        let count: u64 = if found.is_some() {
            *found.unwrap()
        } else {
            0
        };
        proof {
            assert(count == tallied(tally@, item));
            assert(rules@[k as int]@.consequent =~= seq![item]);
        }
        sizes.push(count);
        k += 1;
    }
    sizes
}

/// The counts that the significance of a rule is judged by.
#[derive(Clone, Copy, Debug)]
pub struct FisherInput {
    /// The number of transactions that hold both sides of the rule.
    pub both: u32,
    /// The number of transactions that hold the left side.
    pub antecedent: u32,
    /// The number of transactions that hold the right side.
    pub consequent: u32,
    /// The number of transactions.
    pub total: u32,
    /// The number of rules with the same right side.
    pub family: u64,
}

/// Whether `input` holds the counts of `rule` in the transactions, and the size of
/// its family in `rules`.
pub open spec fn judges(
    input: FisherInput,
    rules: Seq<Rule>,
    rule: RuleView,
    transactions: Seq<Set<u32>>,
) -> bool {
    &&& input.both == support_count(
        transactions,
        rule.antecedent.to_set().union(rule.consequent.to_set()),
    )
    &&& input.antecedent == support_count(transactions, rule.antecedent.to_set())
    &&& input.consequent == support_count(transactions, rule.consequent.to_set())
    &&& input.total == transactions.len()
    &&& input.family == sharing(rules, rule.consequent, rules.len() as int)
}

/// For each rule what its significance is judged by: the counts of its sides, and
/// of both together, in the transactions of the index, and the size of its family.
pub fn fisher_inputs(rules: &Vec<Rule>, index: &Index) -> (inputs: Vec<FisherInput>)
    requires
        index.well_formed(),
        forall|j: int| 0 <= j < rules@.len() ==> (#[trigger] rules@[j])@.consequent.len() == 1,
    ensures
        inputs@.len() == rules@.len(),
        forall|j: int|
            0 <= j < rules@.len() ==> judges(#[trigger] inputs@[j], rules@, rules@[j]@, index@),
{
    let sizes = family_sizes(rules);
    let total: u32 = index.num_transactions();
    let mut inputs: Vec<FisherInput> = Vec::new();
    let mut j: usize = 0;
    while j < rules.len()
        invariant
            j <= rules.len(),
            index.well_formed(),
            total == index@.len(),
            inputs@.len() == j,
            sizes@.len() == rules@.len(),
            forall|i: int|
                0 <= i < rules@.len() ==> #[trigger] sizes@[i] == sharing(
                    rules@,
                    rules@[i]@.consequent,
                    rules@.len() as int,
                ),
            forall|i: int|
                0 <= i < j ==> judges(#[trigger] inputs@[i], rules@, rules@[i]@, index@),
        decreases rules.len() - j,
    {
        let rule = &rules[j];
        let mut both: Vec<u32> = copy_of(&rule.antecedent);
        let mut k: usize = 0;
        while k < rule.consequent.len()
            invariant
                k <= rule.consequent.len(),
                both@ == rule.antecedent@ + rule.consequent@.take(k as int),
            decreases rule.consequent.len() - k,
        {
            both.push(rule.consequent[k]);
            proof {
                assert(rule.consequent@.take(k + 1) =~= rule.consequent@.take(k as int).push(
                    rule.consequent@[k as int],
                ));
                assert(both@ =~= rule.antecedent@ + rule.consequent@.take(k + 1));
            }
            k += 1;
        }
        proof {
            assert(rule.consequent@.take(k as int) =~= rule.consequent@);
            vstd::seq_lib::seq_to_set_distributes_over_add(rule.antecedent@, rule.consequent@);
        }
        let input = FisherInput {
            both: index.count(&both),
            antecedent: index.count(&rule.antecedent),
            consequent: index.count(&rule.consequent),
            total,
            family: sizes[j],
        };
        inputs.push(input);
        j += 1;
    }
    inputs
}

/// What the rules of a list say, in their order.
pub open spec fn views(rules: Seq<Rule>) -> Seq<RuleView> {
    Seq::new(rules.len(), |k: int| rules[k]@)
}

/// The rules whose flag is set, in their order.
pub open spec fn flagged(rules: Seq<RuleView>, keep: Seq<bool>) -> Seq<RuleView>
    decreases rules.len(),
{
    if rules.len() == 0 {
        rules
    } else if keep[rules.len() - 1] {
        flagged(rules.drop_last(), keep).push(rules.last())
    } else {
        flagged(rules.drop_last(), keep)
    }
}

/// The rules of a list whose flag is set, in their order: the family-wise filter
/// hands in, for each rule, whether it is significant.
pub fn retain_rules(rules: &Vec<Rule>, keep: &Vec<bool>) -> (kept: Vec<Rule>)
    requires
        keep@.len() == rules@.len(),
    ensures
        views(kept@) == flagged(views(rules@), keep@),
{
    let mut kept: Vec<Rule> = Vec::new();
    let mut j: usize = 0;
    proof {
        assert(views(rules@).take(0) =~= Seq::<RuleView>::empty());
        assert(views(kept@) =~= flagged(views(rules@).take(0), keep@));
    }
    while j < rules.len()
        invariant
            j <= rules.len(),
            keep@.len() == rules@.len(),
            views(kept@) == flagged(views(rules@).take(j as int), keep@),
        decreases rules.len() - j,
    {
        let ghost before = kept@;
        proof {
            assert(views(rules@).take(j + 1).drop_last() =~= views(rules@).take(j as int));
            assert(views(rules@).take(j + 1).last() == rules@[j as int]@);
        }
        if keep[j] {
            kept.push(rules[j].copy());
            proof {
                assert(views(kept@) =~= views(before).push(rules@[j as int]@));
            }
        }
        j += 1;
    }
    proof {
        assert(views(rules@).take(j as int) =~= views(rules@));
    }
    kept
}

/// Whether `rule` is one of the rules of a list whose flag is set.
pub open spec fn picked(rules: Seq<RuleView>, keep: Seq<bool>, rule: RuleView) -> bool {
    exists|j: int| 0 <= j < rules.len() && keep[j] && #[trigger] rules[j] == rule
}

/// Whether no two rules of a list have the same sides.
pub open spec fn distinct_views(rules: Seq<RuleView>) -> bool {
    forall|a: int, b: int|
        0 <= a < b < rules.len() ==> !(#[trigger] rules[a]).same_rule(#[trigger] rules[b])
}

/// Every kept rule is one of the list with its flag set, every rule of the list
/// with its flag set is kept, and what is kept of rules with distinct sides has
/// distinct sides.
pub proof fn lemma_flagged(rules: Seq<RuleView>, keep: Seq<bool>)
    requires
        keep.len() == rules.len(),
    ensures
        forall|k: int|
            0 <= k < flagged(rules, keep).len() ==> picked(
                rules,
                keep,
                #[trigger] flagged(rules, keep)[k],
            ),
        forall|j: int|
            0 <= j < rules.len() && keep[j] ==> flagged(rules, keep).contains(#[trigger] rules[j]),
        distinct_views(rules) ==> distinct_views(flagged(rules, keep)),
    decreases rules.len(),
{
    let out = flagged(rules, keep);
    if rules.len() > 0 {
        let head = rules.drop_last();
        let head_keep = keep.drop_last();
        let inner = flagged(head, keep);
        lemma_flagged_frame(head, keep, head_keep);
        lemma_flagged(head, head_keep);
        assert forall|k: int| 0 <= k < out.len() implies picked(rules, keep, #[trigger] out[k]) by {
            if k < inner.len() {
                assert(picked(head, head_keep, inner[k]));
                let j = choose|j: int|
                    0 <= j < head.len() && head_keep[j] && #[trigger] head[j] == inner[k];
                assert(rules[j] == head[j] && keep[j]);
            } else {
                assert(rules[rules.len() - 1] == out[k]);
            }
        }
        assert forall|j: int| 0 <= j < rules.len() && keep[j] implies out.contains(
            #[trigger] rules[j],
        ) by {
            if j < head.len() {
                assert(head[j] == rules[j] && head_keep[j]);
                assert(inner.contains(head[j]));
                let k = choose|k: int| 0 <= k < inner.len() && inner[k] == head[j];
                assert(out[k] == inner[k]);
            } else {
                assert(out[inner.len() as int] == rules[j]);
            }
        }
        if distinct_views(rules) {
            assert forall|a: int, b: int| 0 <= a < b < head.len() implies !(
            #[trigger] head[a]).same_rule(#[trigger] head[b]) by {
                assert(head[a] == rules[a] && head[b] == rules[b]);
            }
            assert(distinct_views(head));
            assert forall|a: int, b: int| 0 <= a < b < out.len() implies !(
            #[trigger] out[a]).same_rule(#[trigger] out[b]) by {
                if b < inner.len() {
                    assert(out[a] == inner[a] && out[b] == inner[b]);
                } else {
                    assert(picked(head, head_keep, inner[a]));
                    let j = choose|j: int|
                        0 <= j < head.len() && head_keep[j] && #[trigger] head[j] == inner[a];
                    assert(rules[j] == head[j]);
                    assert(!rules[j].same_rule(rules[rules.len() - 1]));
                }
            }
        }
    }
}

/// Only the flags of the rules at hand count.
proof fn lemma_flagged_frame(rules: Seq<RuleView>, keep: Seq<bool>, other: Seq<bool>)
    requires
        rules.len() <= keep.len(),
        rules.len() <= other.len(),
        forall|j: int| 0 <= j < rules.len() ==> keep[j] == other[j],
    ensures
        flagged(rules, keep) == flagged(rules, other),
    decreases rules.len(),
{
    if rules.len() > 0 {
        lemma_flagged_frame(rules.drop_last(), keep, other);
    }
}

/// A rule as it is written: the left side, ` ==> `, the right side.
pub open spec fn rendered(rule: RuleView, names: Seq<Seq<char>>) -> Seq<char> {
    side_text(rule.antecedent, names) + " ==> "@ + side_text(rule.consequent, names)
}

/// Whether every item of a rule has a name.
pub open spec fn nameable(rule: RuleView, itemizer: &Itemizer) -> bool {
    &&& all_assigned(rule.antecedent, itemizer)
    &&& all_assigned(rule.consequent, itemizer)
}

impl Rule {
    /// The rule as it is written: the names of the items of the left side, ` ==> `,
    /// and the names of the items of the right side. Within a side the names stand
    /// in numeric order where each of them is a number, and else in the order of
    /// their characters, with one blank between each two.
    pub fn to_string(&self, itemizer: &Itemizer) -> (text: String)
        requires
            nameable(self@, itemizer),
        ensures
            text@ == rendered(self@, itemizer@),
    {
        let mut text: String = render_side(&self.antecedent, itemizer);
        let right: String = render_side(&self.consequent, itemizer);
        text.append(" ==> ");
        text.append(right.as_str());
        text
    }
}

/// What a rule is written as depends on its sides and on the names alone: two rules
/// with the same sides are written the same.
pub proof fn lemma_rendering_fixed(a: RuleView, b: RuleView, names: Seq<Seq<char>>)
    requires
        a.same_rule(b),
    ensures
        rendered(a, names) == rendered(b, names),
{
}

} // verus!
