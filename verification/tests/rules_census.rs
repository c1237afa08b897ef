use riptree::config::Fraction;
use riptree::index::Index;
use riptree::itemizer::Itemizer;
use riptree::itemset::ItemSet;
use riptree::rules::generate_rules;
use std::collections::HashMap;
use std::collections::HashSet;

fn census_transactions() -> Vec<Vec<&'static str>> {
    vec![
        vec!["a", "b", "c"],
        vec!["d", "b", "c"],
        vec!["a", "b", "e"],
        vec!["f", "g", "c"],
        vec!["d", "g", "e"],
        vec!["f", "b", "c"],
        vec!["f", "b", "c"],
        vec!["a", "b", "e"],
        vec!["a", "b", "c"],
        vec!["a", "b", "e"],
        vec!["a", "b", "e"],
    ]
}

fn census_itemsets() -> Vec<Vec<&'static str>> {
    vec![
        vec!["b", "e"],
        vec!["a", "e"],
        vec!["a", "b", "e"],
        vec!["f"],
        vec!["c", "f"],
        vec!["b", "f"],
        vec!["b", "c", "f"],
        vec!["g"],
        vec!["a"],
        vec!["a", "b"],
        vec!["b"],
        vec!["c"],
        vec!["b", "c"],
        vec!["c", "g"],
        vec!["d", "g"],
        vec!["d", "e", "g"],
        vec!["e", "g"],
        vec!["f", "g"],
        vec!["c", "f", "g"],
        vec!["a", "c"],
        vec!["a", "b", "c"],
        vec!["d"],
        vec!["b", "d"],
        vec!["c", "d"],
        vec!["b", "c", "d"],
        vec!["d", "e"],
        vec!["e"],
    ]
}

fn census_rules() -> Vec<&'static str> {
    vec![
        "a ==> b",
        "a ==> b e",
        "a ==> e",
        "a b ==> e",
        "a c ==> b",
        "a e ==> b",
        "b ==> a",
        "b ==> a e",
        "b ==> c",
        "b ==> c d",
        "b c ==> d",
        "b c ==> f",
        "b d ==> c",
        "b e ==> a",
        "b f ==> c",
        "c ==> b",
        "c ==> b d",
        "c ==> f",
        "c ==> f g",
        "c d ==> b",
        "c f ==> g",
        "c g ==> f",
        "d ==> b c",
        "d ==> e",
        "d ==> e g",
        "d ==> g",
        "d e ==> g",
        "d g ==> e",
        "e ==> a",
        "e ==> a b",
        "e ==> d",
        "e ==> d g",
        "e ==> g",
        "e g ==> d",
        "f ==> c",
        "f ==> c g",
        "f ==> g",
        "f g ==> c",
        "g ==> c f",
        "g ==> d",
        "g ==> d e",
        "g ==> e",
        "g ==> f",
    ]
}

// The census dataset of eleven transactions over the items a to g. Every item
// counts as rare, so that each item of an itemset goes to the right side in turn.
// A rule has one item on its right side: the entries of the table with more are
// never emitted, and each of the others is emitted once.
#[test]
fn test_index() {
    let mut index = Index::new();
    let transactions = census_transactions();
    let mut itemizer: Itemizer = Itemizer::new();
    for line in &transactions {
        let transaction = line.iter().map(|s| itemizer.id_of(s)).collect::<Vec<u32>>();
        index.insert(&transaction);
    }

    let itemsets = census_itemsets()
        .iter()
        .map(|s| itemizer.to_id_vec(s))
        .map(|i| {
            let support = index.count(&i) as f64 / index.num_transactions() as f64;
            ItemSet::new(i.clone(), (support * transactions.len() as f64) as u32)
        })
        .collect::<Vec<ItemSet>>();

    let rare_items: HashSet<u32> = (1..=itemizer.max_item_id()).collect();
    let min_confidence = Fraction { numerator: 5, denominator: 100 };
    let min_lift = Fraction { numerator: 1, denominator: 1 };
    let rules = generate_rules(
        &itemsets,
        transactions.len() as u32,
        &min_confidence,
        &min_lift,
        &rare_items,
    );

    let mut expected_rules: HashMap<&str, u32> =
        census_rules().iter().map(|rule| (*rule, 0)).collect();
    assert_eq!(expected_rules.len(), 43);

    for rule_str in rules.iter().map(|r| r.to_string(&itemizer)) {
        assert_eq!(expected_rules.contains_key::<str>(&rule_str), true);
        if let Some(count) = expected_rules.get_mut::<str>(&rule_str) {
            *count += 1;
        }
    }

    for (rule, count) in expected_rules.iter() {
        let consequent = rule.split(" ==> ").nth(1).unwrap();
        if consequent.split(' ').count() == 1 {
            assert_eq!(*count, 1);
        } else {
            assert_eq!(*count, 0);
        }
    }
    assert_eq!(rules.len(), 31);
}

#[test]
fn census_rule_measures_are_exact() {
    let mut index = Index::new();
    let mut itemizer = Itemizer::new();
    for line in &census_transactions() {
        let transaction = itemizer.to_id_vec(line);
        index.insert(&transaction);
    }
    let itemsets = census_itemsets()
        .iter()
        .map(|s| itemizer.to_id_vec(s))
        .map(|i| ItemSet::new(i.clone(), index.count(&i)))
        .collect::<Vec<ItemSet>>();
    let rare_items: HashSet<u32> = (1..=itemizer.max_item_id()).collect();
    let min_confidence = Fraction { numerator: 5, denominator: 100 };
    let min_lift = Fraction { numerator: 1, denominator: 1 };
    let rules = generate_rules(&itemsets, 11, &min_confidence, &min_lift, &rare_items);
    let rule = rules.iter().find(|r| r.to_string(&itemizer) == "a c ==> b").unwrap();
    // {a, b, c} is held by 2 transactions, {a, c} by 2, {b} by 9, of 11.
    assert_eq!(rule.both_count(), 2);
    assert_eq!(rule.antecedent_count(), 2);
    assert_eq!(rule.consequent_count(), 9);
    assert_eq!(rule.dataset_size(), 11);
    let confidence = rule.confidence();
    assert_eq!((confidence.numerator, confidence.denominator), (2, 2));
    let lift = rule.lift();
    assert_eq!((lift.numerator, lift.denominator), (22, 18));
    let support = rule.support();
    assert_eq!((support.numerator, support.denominator), (2, 11));
    // b c ==> a has the lift 22/30, under the threshold of one.
    assert!(rules.iter().all(|r| r.to_string(&itemizer) != "b c ==> a"));
}

#[test]
fn rules_have_one_rare_item_on_the_right_and_come_once() {
    let mut index = Index::new();
    let mut itemizer = Itemizer::new();
    for line in &census_transactions() {
        let transaction = itemizer.to_id_vec(line);
        index.insert(&transaction);
    }
    let itemsets = census_itemsets()
        .iter()
        .map(|s| itemizer.to_id_vec(s))
        .map(|i| ItemSet::new(i.clone(), index.count(&i)))
        .collect::<Vec<ItemSet>>();
    let d = itemizer.id_of("d");
    let g = itemizer.id_of("g");
    let rare_items: HashSet<u32> = [d, g].into_iter().collect();
    let min_confidence = Fraction { numerator: 1, denominator: 2 };
    let min_lift = Fraction { numerator: 1, denominator: 1 };
    let rules = generate_rules(&itemsets, 11, &min_confidence, &min_lift, &rare_items);
    assert!(!rules.is_empty());
    for rule in rules.iter() {
        assert_eq!(rule.consequent().len(), 1);
        assert!(rare_items.contains(&rule.consequent()[0]));
        assert!(rule.confidence().at_least(&min_confidence));
        assert!(rule.lift().at_least(&min_lift));
        assert!(rule.both_count() <= rule.antecedent_count());
    }
    for a in 0..rules.len() {
        for b in (a + 1)..rules.len() {
            assert!(!rules[a].same_rule(&rules[b]));
        }
    }
    let mut written: Vec<String> = rules.iter().map(|r| r.to_string(&itemizer)).collect();
    written.sort();
    // d and g each stand in 2 transactions, together in 1: the confidence is 1/2.
    assert_eq!(written, vec!["d ==> g", "d e ==> g", "e g ==> d", "g ==> d"]);
}
