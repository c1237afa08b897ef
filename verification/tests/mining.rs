use riptree::config::Fraction;
use riptree::fptree::FPTree;
use riptree::growth::{dedup_itemsets, rip_growth};
use riptree::index::Index;
use riptree::itemizer::Itemizer;
use riptree::itemset::ItemSet;
use riptree::mine::{build_tree, count_item_frequencies, mine_rip_tree, DataError};
use riptree::rarity::find_pareto_rare_items;
use riptree::rules::{fisher_inputs, retain_rules};
use std::collections::HashSet;

fn census(itemizer: &mut Itemizer) -> Vec<Vec<u32>> {
    let lines: Vec<Vec<&str>> = vec![
        vec!["a", "b", "c"],
        vec!["d", "b", "c"],
        vec!["a", "b", "e"],
        vec!["f", "g", "c"],
        vec!["d", "g", "e"],
        vec!["f", "b", "c"],
        vec!["f", "b", "c"],
        vec!["a", "b", "e"],
        vec!["a", "b", "c"],
        vec!["a", "b", "e"],
        vec!["a", "b", "e"],
    ];
    lines.iter().map(|line| itemizer.to_id_vec(line)).collect()
}

fn names(items: &Vec<u32>, itemizer: &Itemizer) -> String {
    items.iter().map(|id| itemizer.str_of(*id)).collect::<Vec<String>>().join("")
}

fn one() -> Fraction {
    Fraction { numerator: 1, denominator: 1 }
}

fn five_percent() -> Fraction {
    Fraction { numerator: 5, denominator: 100 }
}

#[test]
fn census_item_frequencies() {
    let mut itemizer = Itemizer::new();
    let transactions = census(&mut itemizer);
    let (item_count, num_transactions) = count_item_frequencies(&transactions);
    assert_eq!(num_transactions, 11);
    let counts: Vec<u32> = (0..=8).map(|id| item_count.get(id)).collect();
    // a: 6, b: 9, c: 6, d: 2, e: 5, f: 3, g: 2
    assert_eq!(counts, vec![0, 6, 9, 6, 2, 5, 3, 2, 0]);
    assert_eq!(item_count.total_count(), 33);
    assert_eq!(item_count.max_count(), 9);
}

#[test]
fn census_mined_with_pareto_rarity() {
    let mut itemizer = Itemizer::new();
    let transactions = census(&mut itemizer);
    let (item_count, _) = count_item_frequencies(&transactions);
    let rare_items = find_pareto_rare_items(&item_count);
    let mut rare: Vec<String> = rare_items.iter().map(|id| itemizer.str_of(*id)).collect();
    rare.sort();
    // The counts sum to 33, a quarter of that is 8: d and g (2 + 2) and f (4 + 3).
    assert_eq!(rare, vec!["d", "f", "g"]);

    let mined =
        mine_rip_tree(&transactions, &item_count, &rare_items, &five_percent(), &one()).unwrap();
    assert_eq!(mined.index.num_transactions(), 11);
    let mut itemsets: Vec<(String, u32)> =
        mined.itemsets.iter().map(|f| (names(&f.items, &itemizer), f.count)).collect();
    itemsets.sort();
    let expected: Vec<(String, u32)> = vec![
        ("bcd", 1),
        ("bcf", 2),
        ("bd", 1),
        ("bf", 2),
        ("cd", 1),
        ("cf", 3),
        ("cfg", 1),
        ("cg", 1),
        ("d", 2),
        ("de", 1),
        ("deg", 1),
        ("dg", 1),
        ("eg", 1),
        ("f", 3),
        ("fg", 1),
        ("g", 2),
    ]
    .into_iter()
    .map(|(name, count)| (name.to_string(), count))
    .collect();
    assert_eq!(itemsets, expected);
    for found in mined.itemsets.iter() {
        assert_eq!(found.count, mined.index.count(&found.items));
        assert!(found.items.windows(2).all(|pair| pair[0] < pair[1]));
        assert!(found.items.iter().any(|item| rare_items.contains(item)));
    }

    let mut rules: Vec<String> = mined.rules.iter().map(|r| r.to_string(&itemizer)).collect();
    rules.sort();
    assert_eq!(
        rules,
        vec![
            "c f ==> g",
            "c g ==> f",
            "d ==> g",
            "d e ==> g",
            "e g ==> d",
            "f ==> g",
            "g ==> d",
            "g ==> f",
        ]
    );
    for rule in mined.rules.iter() {
        let mut both = rule.antecedent().clone();
        both.extend(rule.consequent().iter());
        assert_eq!(rule.both_count(), mined.index.count(&both));
        assert_eq!(rule.antecedent_count(), mined.index.count(rule.antecedent()));
        assert_eq!(rule.consequent_count(), mined.index.count(rule.consequent()));
        assert_eq!(rule.dataset_size(), 11);
        assert!(rule.both_count() <= rule.antecedent_count());
        assert!(rule.confidence().at_least(&five_percent()));
        assert!(rule.lift().at_least(&one()));
    }
}

#[test]
fn mining_twice_gives_the_same_rules() {
    let mut first = Itemizer::new();
    let mut second = Itemizer::new();
    let a = census(&mut first);
    let b = census(&mut second);
    let (count_a, _) = count_item_frequencies(&a);
    let (count_b, _) = count_item_frequencies(&b);
    let rare_a = find_pareto_rare_items(&count_a);
    let rare_b = find_pareto_rare_items(&count_b);
    assert_eq!(rare_a, rare_b);
    let mined_a = mine_rip_tree(&a, &count_a, &rare_a, &five_percent(), &one()).unwrap();
    let mined_b = mine_rip_tree(&b, &count_b, &rare_b, &five_percent(), &one()).unwrap();
    let written_a: Vec<String> = mined_a.rules.iter().map(|r| r.to_string(&first)).collect();
    let written_b: Vec<String> = mined_b.rules.iter().map(|r| r.to_string(&second)).collect();
    assert_eq!(written_a, written_b);
}

// Three transactions, a,b,c and a,b and c: every item stands in two of them. The
// counts sum to 6, a quarter of that is 1, and no count stays under it: no item is
// rare, and the dataset cannot be mined.
#[test]
fn small_dataset_has_no_rare_item_by_pareto() {
    let mut itemizer = Itemizer::new();
    let transactions: Vec<Vec<u32>> = vec![
        itemizer.to_id_vec(&["a", "b", "c"]),
        itemizer.to_id_vec(&["a", "b"]),
        itemizer.to_id_vec(&["c"]),
    ];
    let (item_count, num_transactions) = count_item_frequencies(&transactions);
    assert_eq!(num_transactions, 3);
    let rare_items = find_pareto_rare_items(&item_count);
    assert!(rare_items.is_empty());
    let half = Fraction { numerator: 1, denominator: 2 };
    let outcome = mine_rip_tree(&transactions, &item_count, &rare_items, &half, &one());
    assert!(matches!(outcome, Err(DataError::NoRareItems)));
}

#[test]
fn small_dataset_with_given_rare_items() {
    let mut itemizer = Itemizer::new();
    let transactions: Vec<Vec<u32>> = vec![
        itemizer.to_id_vec(&["a", "b", "c"]),
        itemizer.to_id_vec(&["a", "b"]),
        itemizer.to_id_vec(&["c"]),
    ];
    let (item_count, _) = count_item_frequencies(&transactions);
    let rare_items: HashSet<u32> = [itemizer.id_of("a"), itemizer.id_of("b")].into_iter().collect();
    let half = Fraction { numerator: 1, denominator: 2 };
    let mined = mine_rip_tree(&transactions, &item_count, &rare_items, &half, &one()).unwrap();
    let rule = mined.rules.iter().find(|r| r.to_string(&itemizer) == "a ==> b").unwrap();
    let confidence = rule.confidence();
    assert_eq!(confidence.numerator, confidence.denominator);
    assert_eq!((rule.both_count(), rule.antecedent_count()), (2, 2));
}

#[test]
fn empty_dataset_is_refused() {
    let transactions: Vec<Vec<u32>> = Vec::new();
    let (item_count, num_transactions) = count_item_frequencies(&transactions);
    assert_eq!(num_transactions, 0);
    let rare_items: HashSet<u32> = [1].into_iter().collect();
    let outcome = mine_rip_tree(&transactions, &item_count, &rare_items, &five_percent(), &one());
    assert!(matches!(outcome, Err(DataError::EmptyDataset)));
}

#[test]
fn empty_rare_set_is_refused() {
    let transactions: Vec<Vec<u32>> = vec![vec![1, 2], vec![2, 3]];
    let (item_count, _) = count_item_frequencies(&transactions);
    let rare_items: HashSet<u32> = HashSet::new();
    let outcome = mine_rip_tree(&transactions, &item_count, &rare_items, &five_percent(), &one());
    assert!(matches!(outcome, Err(DataError::NoRareItems)));
}

#[test]
fn repeated_items_of_a_row_count_once() {
    let transactions: Vec<Vec<u32>> = vec![vec![1, 1, 2], vec![1]];
    let (item_count, _) = count_item_frequencies(&transactions);
    assert_eq!(item_count.get(1), 2);
    assert_eq!(item_count.get(2), 1);
    let rare_items: HashSet<u32> = [2].into_iter().collect();
    let (index, tree) = build_tree(&transactions, &item_count, &rare_items);
    assert_eq!(index.count(&vec![1]), 2);
    // Only the first transaction holds the rare item: the tree has the path 1, 2.
    assert_eq!(tree.node_count(), 3);
    let first = tree.child_of(0, 1);
    assert_eq!(tree.node(first).count, 1);
    let second = tree.child_of(first, 2);
    assert_eq!(tree.node(second).count, 1);
}

#[test]
fn identical_transactions() {
    let transactions: Vec<Vec<u32>> = (0..100).map(|_| vec![1, 2]).collect();
    let (item_count, num_transactions) = count_item_frequencies(&transactions);
    assert_eq!(num_transactions, 100);
    // Both items stand in every transaction: by the Pareto rule neither is rare.
    assert!(find_pareto_rare_items(&item_count).is_empty());
    let rare_items: HashSet<u32> = [2].into_iter().collect();
    let mined = mine_rip_tree(&transactions, &item_count, &rare_items, &one(), &one()).unwrap();
    let both = mined.itemsets.iter().find(|f| f.items == vec![1, 2]).unwrap();
    assert_eq!(both.count, 100);
    // The antecedent {1} holds no rare item, so its count is not among the frequent
    // itemsets and no rule is made of it.
    assert!(mined.rules.is_empty());
    let all_rare: HashSet<u32> = [1, 2].into_iter().collect();
    let mined = mine_rip_tree(&transactions, &item_count, &all_rare, &one(), &one()).unwrap();
    assert_eq!(mined.rules.len(), 2);
    for rule in mined.rules.iter() {
        let confidence = rule.confidence();
        assert_eq!(confidence.numerator, confidence.denominator);
        let lift = rule.lift();
        assert_eq!(lift.numerator, lift.denominator);
        let support = rule.support();
        assert_eq!(support.numerator, support.denominator);
    }
}

fn ln_factorials(n: usize) -> Vec<f64> {
    let mut table = vec![0.0, 0.0];
    for k in 2..=n {
        let previous = table[k - 1];
        table.push(previous + (k as f64).ln());
    }
    table
}

// The chance that a table with the given margins has `both` or more in its corner.
fn right_tail(both: u32, antecedent: u32, consequent: u32, total: u32, ln: &Vec<f64>) -> f64 {
    let (a, b, n) = (antecedent as usize, consequent as usize, total as usize);
    let ln_choose = |top: usize, of: usize| ln[top] - ln[of] - ln[top - of];
    let mut sum = 0.0;
    let mut k = both as usize;
    while k <= a && k <= b {
        if b - k <= n - a {
            sum += (ln_choose(a, k) + ln_choose(n - a, b - k) - ln_choose(n, b)).exp();
        }
        k += 1;
    }
    sum
}

// A rare item in one transaction of 1000, beside three common items: the rules
// from one common item to the rare item reach the thresholds, but are not
// significant in their family, and the filter takes them out.
#[test]
fn family_wise_filter_prunes() {
    let rare: u32 = 4;
    let mut transactions: Vec<Vec<u32>> = vec![vec![1, 2, 3, rare]];
    for t in 1..1000u32 {
        transactions.push(vec![1 + t % 3, 1 + (t + 1) % 3]);
    }
    let (item_count, _) = count_item_frequencies(&transactions);
    let rare_items: HashSet<u32> = [rare].into_iter().collect();
    let none = Fraction { numerator: 0, denominator: 1 };
    let mined = mine_rip_tree(&transactions, &item_count, &rare_items, &none, &one()).unwrap();
    assert!(mined.rules.is_empty());

    // With the common items rare too, their counts are in the table.
    let all: HashSet<u32> = [1, 2, 3, rare].into_iter().collect();
    let mined = mine_rip_tree(&transactions, &item_count, &all, &none, &one()).unwrap();
    let to_rare: Vec<usize> = (0..mined.rules.len())
        .filter(|j| mined.rules[*j].consequent() == &vec![rare])
        .collect();
    assert_eq!(to_rare.len(), 7);
    let inputs = fisher_inputs(&mined.rules, &mined.index);
    assert_eq!(inputs.len(), mined.rules.len());
    let ln = ln_factorials(1000);
    let keep: Vec<bool> = inputs
        .iter()
        .map(|input| {
            let p = right_tail(input.both, input.antecedent, input.consequent, input.total, &ln);
            p < 0.05 / input.family as f64
        })
        .collect();
    let kept = retain_rules(&mined.rules, &keep);
    for j in to_rare.iter() {
        let input = inputs[*j];
        assert_eq!(input.family, 7);
        assert_eq!(input.total, 1000);
        assert_eq!(input.consequent, 1);
        assert_eq!(input.both, 1);
        assert_eq!(input.antecedent, mined.index.count(mined.rules[*j].antecedent()));
    }
    let single: Vec<usize> =
        to_rare.iter().cloned().filter(|j| mined.rules[*j].antecedent().len() == 1).collect();
    assert_eq!(single.len(), 3);
    for j in single.iter() {
        // The one common item stands in about two thirds of the transactions.
        assert!(inputs[*j].antecedent > 600);
        assert!(!keep[*j]);
        assert!(kept.iter().all(|rule| !rule.same_rule(&mined.rules[*j])));
    }
    // Without the filter the rules stay.
    let unfiltered = retain_rules(&mined.rules, &vec![true; mined.rules.len()]);
    assert_eq!(unfiltered.len(), mined.rules.len());
    for j in single.iter() {
        assert!(unfiltered.iter().any(|rule| rule.same_rule(&mined.rules[*j])));
    }
    // The rule from all three common items to the rare item is significant.
    let full = to_rare.iter().find(|j| mined.rules[**j].antecedent().len() == 3).unwrap();
    assert_eq!(inputs[*full].antecedent, 1);
    assert!(keep[*full]);
    assert_eq!(kept.len(), keep.iter().filter(|flag| **flag).count());
}

#[test]
fn ln_table_steps_by_the_logarithm() {
    let table = ln_factorials(50);
    for k in 1..=50usize {
        assert!(((table[k] - table[k - 1]).exp() - k as f64).abs() < 1e-9);
    }
}

#[test]
fn growth_on_a_small_tree() {
    let mut index = Index::new();
    let transactions: Vec<Vec<u32>> = vec![vec![1, 2, 3], vec![1, 2], vec![1, 3], vec![2]];
    let mut tree = FPTree::new();
    for transaction in &transactions {
        index.insert(transaction);
        tree.insert(transaction, 1);
    }
    let itemsets = rip_growth(&tree, None, &Vec::new(), &index);
    let mut found: Vec<(Vec<u32>, u32)> =
        itemsets.iter().map(|f| (f.items.clone(), f.count)).collect();
    found.sort();
    assert_eq!(
        found,
        vec![
            (vec![1], 3),
            (vec![1, 2], 2),
            (vec![1, 2, 3], 1),
            (vec![1, 3], 2),
            (vec![2], 3),
            (vec![2, 3], 1),
            (vec![3], 2),
        ]
    );
    let rare: HashSet<u32> = [3].into_iter().collect();
    let itemsets = rip_growth(&tree, Some(&rare), &Vec::new(), &index);
    let mut found: Vec<Vec<u32>> = itemsets.iter().map(|f| f.items.clone()).collect();
    found.sort();
    assert_eq!(found, vec![vec![1, 2, 3], vec![1, 3], vec![2, 3], vec![3]]);
    // Under a prefix every itemset holds the prefix.
    let itemsets = rip_growth(&tree, Some(&rare), &vec![3], &index);
    let mut found: Vec<Vec<u32>> = itemsets.iter().map(|f| f.items.clone()).collect();
    found.sort();
    assert_eq!(
        found,
        vec![vec![1, 2, 3], vec![1, 3], vec![2, 3], vec![3]]
    );
}

#[test]
fn growth_emits_an_itemset_once_whatever_the_order_of_the_paths() {
    let mut index = Index::new();
    index.insert(&vec![1, 2]);
    index.insert(&vec![1, 2]);
    let mut tree = FPTree::new();
    tree.insert(&vec![1, 2], 1);
    tree.insert(&vec![2, 1], 1);
    let itemsets = rip_growth(&tree, None, &Vec::new(), &index);
    let mut found: Vec<(Vec<u32>, u32)> =
        itemsets.iter().map(|f| (f.items.clone(), f.count)).collect();
    found.sort();
    assert_eq!(found, vec![(vec![1], 2), (vec![1, 2], 2), (vec![2], 2)]);
}

#[test]
fn dedup_keeps_first_occurrences() {
    let list = vec![
        ItemSet::new(vec![1, 2], 5),
        ItemSet::new(vec![1], 7),
        ItemSet::new(vec![1, 2], 6),
        ItemSet::new(vec![], 9),
        ItemSet::new(vec![1, 2, 3], 1),
        ItemSet::new(vec![], 8),
        ItemSet::new(vec![1], 7),
    ];
    let kept = dedup_itemsets(&list);
    let found: Vec<(Vec<u32>, u32)> = kept.iter().map(|f| (f.items.clone(), f.count)).collect();
    assert_eq!(
        found,
        vec![(vec![1, 2], 5), (vec![1], 7), (vec![], 9), (vec![1, 2, 3], 1)]
    );
}

// A dataset made by a fixed rule, mined and then checked against the plain
// definition: the frequent itemsets are the itemsets with a rare item that a
// transaction holds, and the rules are the splits of those that reach the
// thresholds.
#[test]
fn mined_dataset_matches_the_definition() {
    let mut state: u64 = 0x2545_F491_4F6C_DD1D;
    let mut next = |bound: u64| {
        state = state.wrapping_mul(6364136223846793005).wrapping_add(1442695040888963407);
        (state >> 33) % bound
    };
    let mut transactions: Vec<Vec<u32>> = Vec::new();
    for _ in 0..60 {
        let mut transaction: Vec<u32> = Vec::new();
        for item in 1..=9u32 {
            // The larger the id, the rarer the item.
            if next(10) >= item as u64 {
                transaction.push(item);
            }
        }
        if transaction.is_empty() {
            transaction.push(1);
        }
        transactions.push(transaction);
    }
    let (item_count, _) = count_item_frequencies(&transactions);
    let rare_items = find_pareto_rare_items(&item_count);
    assert!(!rare_items.is_empty());
    let min_confidence = Fraction { numerator: 1, denominator: 4 };
    let min_lift = Fraction { numerator: 11, denominator: 10 };
    let mined =
        mine_rip_tree(&transactions, &item_count, &rare_items, &min_confidence, &min_lift).unwrap();

    let count = |items: &Vec<u32>| -> u32 {
        transactions.iter().filter(|t| items.iter().all(|item| t.contains(item))).count() as u32
    };
    let mut expected: Vec<(Vec<u32>, u32)> = Vec::new();
    for mask in 1u32..(1 << 9) {
        let items: Vec<u32> = (1..=9u32).filter(|item| mask & (1 << (item - 1)) != 0).collect();
        let held = count(&items);
        if held > 0 && items.iter().any(|item| rare_items.contains(item)) {
            expected.push((items, held));
        }
    }
    expected.sort();
    let mut found: Vec<(Vec<u32>, u32)> =
        mined.itemsets.iter().map(|f| (f.items.clone(), f.count)).collect();
    found.sort();
    assert_eq!(found, expected);

    let mut expected_rules: Vec<(Vec<u32>, u32)> = Vec::new();
    for (items, both) in expected.iter() {
        if items.len() < 2 {
            continue;
        }
        for rare in items.iter().filter(|item| rare_items.contains(item)) {
            let antecedent: Vec<u32> = items.iter().cloned().filter(|item| item != rare).collect();
            if !antecedent.iter().any(|item| rare_items.contains(item)) {
                // Its count is not among the frequent itemsets.
                continue;
            }
            let (a, c, n) = (count(&antecedent) as u64, count(&vec![*rare]) as u64, 60u64);
            let both = *both as u64;
            if both * 4 >= a && both * n * 10 >= 11 * a * c {
                expected_rules.push((antecedent, *rare));
            }
        }
    }
    expected_rules.sort();
    let mut found_rules: Vec<(Vec<u32>, u32)> =
        mined.rules.iter().map(|r| (r.antecedent().clone(), r.consequent()[0])).collect();
    found_rules.sort();
    assert_eq!(found_rules, expected_rules);
    assert!(!found_rules.is_empty());
}
