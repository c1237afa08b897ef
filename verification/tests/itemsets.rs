use riptree::index::Index;
use riptree::itemizer::Itemizer;
use riptree::itemset::{
    canonical, intersect, same_items, split_out_item, union, with_item, ItemSet,
};
use riptree::support::SupportTable;

#[test]
fn union_merges_two_itemsets() {
    let a: Vec<u32> = vec![1, 3, 5];
    let b: Vec<u32> = vec![2, 3, 6];
    assert_eq!(union(&a, &b), vec![1, 2, 3, 5, 6]);
    assert_eq!(union(&a, &Vec::new()), vec![1, 3, 5]);
    assert_eq!(union(&Vec::new(), &b), vec![2, 3, 6]);
    assert_eq!(union(&a, &a), vec![1, 3, 5]);
}

#[test]
fn intersect_keeps_what_both_hold() {
    let a: Vec<u32> = vec![1, 3, 5, 7];
    let b: Vec<u32> = vec![2, 3, 6, 7, 9];
    assert_eq!(intersect(&a, &b), vec![3, 7]);
    assert_eq!(intersect(&a, &Vec::new()), Vec::<u32>::new());
}

#[test]
fn split_out_item_takes_one_item_out() {
    let items: Vec<u32> = vec![2, 4, 6];
    let (antecedent, consequent) = split_out_item(&items, 4);
    assert_eq!(antecedent, vec![2, 6]);
    assert_eq!(consequent, vec![4]);
    let (all, lone) = split_out_item(&items, 5);
    assert_eq!(all, vec![2, 4, 6]);
    assert_eq!(lone, vec![5]);
}

#[test]
fn canonical_sorts_and_drops_repeats() {
    let raw: Vec<u32> = vec![9, 2, 7, 2, 9, 1];
    assert_eq!(canonical(&raw), vec![1, 2, 7, 9]);
    assert_eq!(canonical(&Vec::new()), Vec::<u32>::new());
    assert_eq!(canonical(&vec![4_000_000_000, 3]), vec![3, 4_000_000_000]);
}

#[test]
fn with_item_adds_an_item_in_its_place() {
    assert_eq!(with_item(&vec![2, 8], 5), vec![2, 5, 8]);
    assert_eq!(with_item(&vec![2, 8], 8), vec![2, 8]);
    assert_eq!(with_item(&Vec::new(), 3), vec![3]);
}

#[test]
fn same_items_compares_vectors() {
    assert!(same_items(&vec![1, 2], &vec![1, 2]));
    assert!(!same_items(&vec![1, 2], &vec![2, 1]));
    assert!(!same_items(&vec![1, 2], &vec![1, 2, 3]));
}

#[test]
fn support_table_takes_the_last_entry() {
    let itemsets = vec![
        ItemSet::new(vec![1, 2], 4),
        ItemSet::new(vec![3], 9),
        ItemSet::new(vec![1, 2], 6),
        ItemSet::new(vec![1, 2, 5], 2),
    ];
    let mut table = SupportTable::from_itemsets(&itemsets);
    assert_eq!(table.get(&vec![1, 2]), Some(6));
    assert_eq!(table.get(&vec![3]), Some(9));
    assert_eq!(table.get(&vec![1, 2, 5]), Some(2));
    assert_eq!(table.get(&vec![2, 1]), None);
    assert_eq!(table.get(&vec![1]), None);
    assert_eq!(table.get(&Vec::new()), None);
    table.add(&Vec::new(), 11);
    table.add(&vec![1], 0);
    assert_eq!(table.get(&Vec::new()), Some(11));
    assert_eq!(table.get(&vec![1]), Some(0));
    assert_eq!(SupportTable::new().get(&vec![1]), None);
}

#[test]
fn itemizer_gives_ids_in_the_order_of_first_sight() {
    let mut itemizer = Itemizer::new();
    assert_eq!(itemizer.max_item_id(), 0);
    assert_eq!(itemizer.id_of("milk"), 1);
    assert_eq!(itemizer.id_of("bread"), 2);
    assert_eq!(itemizer.id_of("milk"), 1);
    assert_eq!(itemizer.id_of(""), 3);
    assert_eq!(itemizer.max_item_id(), 3);
    assert_eq!(itemizer.str_of(1), "milk");
    assert_eq!(itemizer.str_of(2), "bread");
    assert_eq!(itemizer.str_of(3), "");
    assert_eq!(itemizer.lookup("bread"), 2);
    assert_eq!(itemizer.lookup("butter"), 0);
    assert_eq!(itemizer.to_id_vec(&["bread", "eggs", "milk", "eggs"]), vec![2, 4, 1, 4]);
    assert_eq!(itemizer.max_item_id(), 4);
}

#[test]
fn index_counts_the_transactions_that_hold_an_itemset() {
    let mut index = Index::new();
    assert_eq!(index.num_transactions(), 0);
    assert_eq!(index.count(&Vec::new()), 0);
    index.insert(&vec![1, 2, 3]);
    index.insert(&vec![2, 3]);
    index.insert(&vec![3]);
    index.insert(&vec![1, 3, 4]);
    assert_eq!(index.num_transactions(), 4);
    assert_eq!(index.count(&Vec::new()), 4);
    assert_eq!(index.count(&vec![3]), 4);
    assert_eq!(index.count(&vec![1]), 2);
    assert_eq!(index.count(&vec![2, 3]), 2);
    assert_eq!(index.count(&vec![3, 2]), 2);
    assert_eq!(index.count(&vec![1, 2, 3]), 1);
    assert_eq!(index.count(&vec![1, 2, 4]), 0);
    assert_eq!(index.count(&vec![5]), 0);
    assert_eq!(index.count(&vec![3, 5]), 0);
}

#[test]
fn index_intersection_law() {
    let mut index = Index::new();
    let transactions: Vec<Vec<u32>> =
        vec![vec![1, 2, 3], vec![2, 3], vec![3], vec![1, 3, 4], vec![4], vec![1, 2, 3, 4]];
    for transaction in &transactions {
        index.insert(transaction);
    }
    assert_eq!(index.count(&Vec::new()), transactions.len() as u32);
    let itemsets: Vec<Vec<u32>> = vec![vec![], vec![1], vec![2, 3], vec![1, 4], vec![3]];
    for items in &itemsets {
        for item in 1..=5u32 {
            let larger = with_item(items, item);
            assert!(index.count(&larger) <= index.count(items));
        }
    }
}

#[test]
fn index_counts_a_repeated_item_once() {
    let mut index = Index::new();
    index.insert(&vec![7, 7, 8]);
    index.insert(&vec![7]);
    assert_eq!(index.count(&vec![7]), 2);
    assert_eq!(index.count(&vec![7, 8]), 1);
    assert_eq!(index.count(&vec![7, 7]), 2);
}

#[test]
fn support_is_the_share_of_the_transactions() {
    let mut index = Index::new();
    index.insert(&vec![1, 2]);
    index.insert(&vec![2]);
    index.insert(&vec![3]);
    let share = index.support(&vec![2]);
    assert_eq!((share.numerator, share.denominator), (2, 3));
    let share = index.support(&vec![1, 3]);
    assert_eq!((share.numerator, share.denominator), (0, 3));
    let share = index.support(&Vec::new());
    assert_eq!((share.numerator, share.denominator), (3, 3));
}

#[test]
fn itemizer_finds_names_that_share_a_beginning() {
    let mut itemizer = Itemizer::new();
    assert_eq!(itemizer.id_of("milk shake"), 1);
    assert_eq!(itemizer.lookup("milk"), 0);
    assert_eq!(itemizer.id_of("milk"), 2);
    assert_eq!(itemizer.id_of("mil"), 3);
    assert_eq!(itemizer.id_of("milk shake"), 1);
    assert_eq!(itemizer.lookup("milk shak"), 0);
    assert_eq!(itemizer.lookup("milk shakes"), 0);
    assert_eq!(itemizer.id_of("Ünïcödé"), 4);
    assert_eq!(itemizer.lookup("Ünïcödé"), 4);
    assert_eq!(itemizer.str_of(4), "Ünïcödé");
    assert_eq!(itemizer.max_item_id(), 4);
}
