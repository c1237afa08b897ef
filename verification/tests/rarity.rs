use riptree::fptree::{sort_transaction, FPTree, SortOrder, WeightedPath};
use riptree::rarity::{
    average_transaction_length, contains_rare_item, find_gaussian_rare_items,
    find_pareto_rare_items, generate_random_dataset, item_of_draw, least_counts,
    least_synthetic_counts, pointwise_min, rare_among_runs, rare_by_margin, synthetic_counts,
    take_occurrence, ItemCount,
};
use std::collections::HashSet;

fn counts_of(table: &[u32]) -> ItemCount {
    let mut item_count = ItemCount::new();
    for (item, count) in table.iter().enumerate() {
        for _ in 0..*count {
            item_count.increment(item as u32);
        }
    }
    item_count
}

fn sorted(set: &HashSet<u32>) -> Vec<u32> {
    let mut items: Vec<u32> = set.iter().cloned().collect();
    items.sort();
    items
}

#[test]
fn item_count_counts_occurrences() {
    let mut item_count = ItemCount::new();
    assert_eq!(item_count.get(3), 0);
    item_count.increment(3);
    item_count.increment(3);
    item_count.increment(1);
    item_count.record(&vec![1, 5, 5]);
    assert_eq!(item_count.get(0), 0);
    assert_eq!(item_count.get(1), 2);
    assert_eq!(item_count.get(3), 2);
    assert_eq!(item_count.get(5), 2);
    assert_eq!(item_count.get(6), 0);
    assert_eq!(item_count.total_count(), 6);
    assert_eq!(item_count.max_count(), 2);
}

#[test]
fn pareto_takes_the_lowest_counts_under_a_quarter() {
    // The counts sum to 100, the threshold is 25. In ascending order the counts
    // are 2, 3, 5, 10, 30, 50 and their running sums 2, 5, 10, 20, 50, 100.
    let item_count = counts_of(&[0, 50, 2, 30, 3, 10, 5]);
    assert_eq!(sorted(&find_pareto_rare_items(&item_count)), vec![2, 4, 5, 6]);
}

#[test]
fn pareto_keeps_items_of_one_count_together() {
    // The counts sum to 40, the threshold is 10. Counts 3, 3, 3: the counts below
    // are 0, and 0 + 3 < 10: all three are rare, however the sum runs while they
    // are walked. Count 4: 9 + 4 is not below 10.
    let item_count = counts_of(&[0, 3, 27, 3, 4, 3]);
    assert_eq!(sorted(&find_pareto_rare_items(&item_count)), vec![1, 3, 5]);
    // Counts 5, 5, 5, 25: the threshold is 10, and 0 + 5 < 10 for each of the
    // three, though their sum passes the threshold on the way.
    let item_count = counts_of(&[0, 5, 5, 25, 5]);
    assert_eq!(sorted(&find_pareto_rare_items(&item_count)), vec![1, 2, 4]);
    // Four items of the count 1: the threshold is 1, and 0 + 1 is not below it. No
    // item is rare, whichever comes first.
    let item_count = counts_of(&[0, 1, 1, 1, 1]);
    assert!(find_pareto_rare_items(&item_count).is_empty());
}

#[test]
fn pareto_does_not_depend_on_the_ids() {
    let one = counts_of(&[0, 2, 9, 1, 30]);
    let other = counts_of(&[0, 30, 1, 9, 2]);
    // The threshold is 10: count 1 (1 < 10) and count 2 (1 + 2 < 10) are rare, count
    // 9 (3 + 9) is not.
    assert_eq!(sorted(&find_pareto_rare_items(&one)), vec![1, 3]);
    assert_eq!(sorted(&find_pareto_rare_items(&other)), vec![2, 4]);
    assert_eq!(find_pareto_rare_items(&one), find_pareto_rare_items(&one));
}

#[test]
fn pareto_of_nothing() {
    assert!(find_pareto_rare_items(&ItemCount::new()).is_empty());
    assert!(find_pareto_rare_items(&counts_of(&[0, 7])).is_empty());
}

#[test]
fn average_length_rounds_up() {
    let item_count = counts_of(&[0, 4, 3]);
    assert_eq!(average_transaction_length(&item_count, 7), 1);
    assert_eq!(average_transaction_length(&item_count, 3), 3);
    assert_eq!(average_transaction_length(&item_count, 2), 4);
    assert_eq!(average_transaction_length(&item_count, 8), 1);
    assert_eq!(average_transaction_length(&ItemCount::new(), 5), 0);
}

#[test]
fn synthetic_counts_draw_every_item() {
    let counts = synthetic_counts(1000, 4, 4);
    assert_eq!(counts.len(), 5);
    assert_eq!(counts[0], 0);
    assert_eq!(counts.iter().sum::<u64>(), 4000);
    // Each of the four items is drawn about a thousand times.
    for item in 1..=4 {
        assert!(counts[item] > 500);
        assert!(counts[item] < 1500);
    }
    let least = least_synthetic_counts(10, 1000, 4, 4);
    assert_eq!(least.len(), 5);
    assert_eq!(least[0], 0);
    for item in 1..=4 {
        assert!(least[item] > 500);
        assert!(least[item] <= 1000);
    }
}

#[test]
fn pointwise_min_takes_the_smaller() {
    assert_eq!(pointwise_min(&vec![3, 0, 9], &vec![2, 5, 9]), vec![2, 0, 9]);
    assert_eq!(pointwise_min(&Vec::new(), &Vec::new()), Vec::<u64>::new());
}

#[test]
fn rare_by_margin_compares_with_the_least_counts() {
    let item_count = counts_of(&[0, 10, 0, 4, 7]);
    let least: Vec<u64> = vec![0, 12, 50, 9, 8];
    // Item 1: 12 - 10 = 2; item 2 does not occur; item 3: 9 - 4 = 5; item 4: 1.
    assert_eq!(sorted(&rare_by_margin(&item_count, &least, 0)), vec![1, 3, 4]);
    assert_eq!(sorted(&rare_by_margin(&item_count, &least, 1)), vec![1, 3]);
    assert_eq!(sorted(&rare_by_margin(&item_count, &least, 2)), vec![3]);
    assert_eq!(sorted(&rare_by_margin(&item_count, &least, 4)), vec![3]);
    assert!(rare_by_margin(&item_count, &least, 5).is_empty());
    // An item beyond the least counts is not rare.
    assert_eq!(sorted(&rare_by_margin(&item_count, &vec![0, 12], 0)), vec![1]);
}

#[test]
fn gaussian_finds_the_item_that_falls_short() {
    // 1000 transactions of 3 items: items 1 to 3 stand in almost all of them, item 4
    // in 5. A synthetic dataset draws each of the four items about 750 times.
    let mut item_count = ItemCount::new();
    for t in 0..1000 {
        item_count.record(&vec![1, 2, 3]);
        if t < 5 {
            item_count.increment(4);
        }
    }
    let rare_items = find_gaussian_rare_items(&item_count, 1000, 4, 100);
    assert_eq!(sorted(&rare_items), vec![4]);
    // No item falls short of the number of draws by more than the number of draws.
    assert!(find_gaussian_rare_items(&item_count, 1000, 4, 4000).is_empty());
}

#[test]
fn contains_rare_item_looks_at_every_item() {
    let rare: HashSet<u32> = [4, 9].into_iter().collect();
    assert!(contains_rare_item(&vec![1, 2, 9], &rare));
    assert!(contains_rare_item(&vec![4], &rare));
    assert!(!contains_rare_item(&vec![1, 2, 3], &rare));
    assert!(!contains_rare_item(&Vec::new(), &rare));
}

#[test]
fn sort_transaction_orders_by_frequency() {
    let item_count = counts_of(&[0, 6, 9, 6, 2, 5, 3, 2]);
    let mut transaction: Vec<u32> = vec![1, 2, 3, 4, 5, 6, 7];
    sort_transaction(&mut transaction, &item_count, SortOrder::Decreasing);
    assert_eq!(transaction, vec![2, 1, 3, 5, 6, 4, 7]);
    sort_transaction(&mut transaction, &item_count, SortOrder::Increasing);
    assert_eq!(transaction, vec![4, 7, 6, 5, 1, 3, 2]);
    let mut unknown: Vec<u32> = vec![9, 7, 8];
    sort_transaction(&mut unknown, &item_count, SortOrder::Decreasing);
    assert_eq!(unknown, vec![7, 8, 9]);
    let mut empty: Vec<u32> = Vec::new();
    sort_transaction(&mut empty, &item_count, SortOrder::Decreasing);
    assert!(empty.is_empty());
}

#[test]
fn tree_shares_prefixes_and_chains_items() {
    let mut tree = FPTree::new();
    assert_eq!(tree.node_count(), 1);
    assert_eq!(tree.height(), 0);
    assert!(tree.items().is_empty());
    let end = tree.insert(&vec![2, 1, 3], 1);
    assert_eq!(end, 3);
    assert_eq!(tree.insert(&vec![2, 1], 1), 2);
    assert_eq!(tree.insert(&vec![2, 3], 4), 4);
    assert_eq!(tree.insert(&Vec::new(), 7), 0);
    assert_eq!(tree.node_count(), 5);
    assert_eq!(tree.height(), 3);
    assert_eq!(tree.items(), &vec![2, 1, 3]);
    let two = tree.child_of(0, 2);
    assert_eq!(two, 1);
    assert_eq!(tree.node(two).count, 6);
    assert_eq!(tree.node(two).item, 2);
    let one = tree.child_of(two, 1);
    assert_eq!(tree.node(one).count, 2);
    assert_eq!(tree.node(one).parent, two);
    assert_eq!(tree.child_of(two, 7), 0);
    assert_eq!(tree.child_of(0, 1), 0);
    // The nodes of item 3: the one made last points to the one made before it.
    assert_eq!(tree.node(4).item, 3);
    assert_eq!(tree.node(4).next_sibling, 3);
    assert_eq!(tree.node(3).next_sibling, 0);
    assert_eq!(tree.prefix_path(3), vec![2, 1]);
    assert_eq!(tree.prefix_path(4), vec![2]);
    assert_eq!(tree.prefix_path(1), Vec::<u32>::new());
    let mut base: Vec<(Vec<u32>, u32)> = tree
        .conditional_base(3)
        .into_iter()
        .map(|path| (path.items, path.weight))
        .collect();
    base.sort();
    assert_eq!(base, vec![(vec![2], 4), (vec![2, 1], 1)]);
    assert!(tree.conditional_base(9).is_empty());
}

#[test]
fn tree_counts_stay_at_the_largest_number() {
    let mut tree = FPTree::new();
    let node = tree.insert(&vec![5], u32::MAX - 1);
    tree.insert(&vec![5], 3);
    assert_eq!(tree.node(node).count, u32::MAX);
}

#[test]
fn tree_from_a_pattern_base() {
    let base = vec![
        WeightedPath { items: vec![2, 1], weight: 3 },
        WeightedPath { items: vec![2], weight: 4 },
        WeightedPath { items: vec![5, 1], weight: 1 },
        WeightedPath { items: vec![], weight: 9 },
    ];
    let tree = FPTree::from_paths(&base);
    assert_eq!(tree.node_count(), 5);
    assert_eq!(tree.height(), 2);
    let two = tree.find(&vec![2]).unwrap();
    assert_eq!(tree.node(two).count, 7);
    let two_one = tree.find(&vec![2, 1]).unwrap();
    assert_eq!(tree.node(two_one).count, 3);
    let five_one = tree.find(&vec![5, 1]).unwrap();
    assert_eq!(tree.node(five_one).count, 1);
    assert_eq!(tree.find(&vec![1]), None);
    assert_eq!(tree.find(&vec![2, 1, 1]), None);
    assert_eq!(tree.find(&Vec::new()), Some(0));
    // Item 1 stands at the end of two paths, with the counts 3 and 1.
    assert_eq!(tree.item_total(1), 4);
    assert_eq!(tree.item_total(2), 7);
    assert_eq!(tree.item_total(9), 0);
    assert_eq!(FPTree::from_paths(&Vec::new()).node_count(), 1);
}

#[test]
fn occurrences_are_taken_in_the_order_of_the_items() {
    let mut remaining: Vec<u32> = vec![0, 2, 0, 3];
    // The occurrences lie in the order 1, 1, 3, 3, 3.
    assert_eq!(take_occurrence(&mut remaining, 0), 1);
    assert_eq!(remaining, vec![0, 1, 0, 3]);
    assert_eq!(take_occurrence(&mut remaining, 3), 3);
    assert_eq!(remaining, vec![0, 1, 0, 2]);
    assert_eq!(take_occurrence(&mut remaining, 1), 3);
    assert_eq!(take_occurrence(&mut remaining, 0), 1);
    assert_eq!(take_occurrence(&mut remaining, 0), 3);
    assert_eq!(remaining, vec![0, 0, 0, 0]);
}

#[test]
fn random_dataset_deals_out_the_occurrences() {
    let item_count = counts_of(&[0, 40, 0, 25, 15]);
    let index = generate_random_dataset(&item_count, 20);
    assert_eq!(index.num_transactions(), 20);
    // 80 occurrences in 20 transactions of 4: every occurrence is dealt out, and a
    // transaction holds an item at most as often as it has room.
    assert_eq!(index.count(&vec![2]), 0);
    assert_eq!(index.count(&vec![5]), 0);
    assert!(index.count(&vec![1]) >= 10);
    assert!(index.count(&vec![1]) <= 20);
    assert!(index.count(&vec![3]) >= 7);
    assert!(index.count(&vec![4]) >= 4);
    assert!(index.count(&vec![4]) <= 15);
    let none = generate_random_dataset(&ItemCount::new(), 3);
    assert_eq!(none.num_transactions(), 3);
    assert_eq!(none.count(&vec![1]), 0);
}

#[test]
fn random_dataset_gives_every_counted_item_a_place() {
    // One occurrence of each of five items, one to a transaction: each item
    // stands in exactly one transaction, and no two in one.
    let item_count = counts_of(&[0, 1, 1, 1, 1, 1]);
    let index = generate_random_dataset(&item_count, 5);
    assert_eq!(index.num_transactions(), 5);
    for item in 1..=5u32 {
        assert_eq!(index.count(&vec![item]), 1);
        for other in (item + 1)..=5u32 {
            assert_eq!(index.count(&vec![item, other]), 0);
        }
    }
    // Seven occurrences in three transactions of three: the counted items are
    // there, each in no more transactions than it was counted in.
    let item_count = counts_of(&[0, 4, 0, 2, 1]);
    for _ in 0..50 {
        let index = generate_random_dataset(&item_count, 3);
        assert_eq!(index.num_transactions(), 3);
        let of_one = index.count(&vec![1]);
        let of_three = index.count(&vec![3]);
        let of_four = index.count(&vec![4]);
        assert!(1 <= of_one && of_one <= 3);
        assert!(1 <= of_three && of_three <= 2);
        assert_eq!(of_four, 1);
        assert_eq!(index.count(&vec![2]), 0);
    }
}

#[test]
fn gaussian_rare_items_are_counted_items() {
    let item_count = counts_of(&[0, 900, 5, 0, 1095]);
    for _ in 0..5 {
        let rare_items = find_gaussian_rare_items(&item_count, 1000, 4, 0);
        assert!(!rare_items.contains(&0));
        assert!(!rare_items.contains(&3));
        assert!(rare_items.iter().all(|item| 1 <= *item && *item <= 4));
        assert!(rare_items.contains(&2));
    }
    // The least counts of one run are the counts of that run, and sum to its draws.
    let least = least_synthetic_counts(1, 1000, 2, 4);
    assert_eq!(least.len(), 5);
    assert_eq!(least[0], 0);
    assert_eq!(least.iter().sum::<u64>(), 2000);
    let least = least_synthetic_counts(7, 1000, 2, 4);
    assert_eq!(least.len(), 5);
    assert_eq!(least[0], 0);
    assert!(least.iter().sum::<u64>() <= 2000);
    assert!(least.iter().skip(1).all(|count| *count > 0));
}

#[test]
fn least_counts_go_over_every_run() {
    let runs = vec![vec![0, 5, 9, 3], vec![0, 7, 2, 3], vec![0, 6, 4, 1]];
    assert_eq!(least_counts(&runs), vec![0, 5, 2, 1]);
    assert_eq!(least_counts(&vec![vec![0, 5, 9, 3]]), vec![0, 5, 9, 3]);
    // Counts of 1, 8 and 2: with the margin 0 the items under their least count.
    let item_count = counts_of(&[0, 1, 8, 2]);
    assert_eq!(sorted(&rare_among_runs(&item_count, &runs, 0)), vec![1]);
    assert_eq!(sorted(&rare_among_runs(&item_count, &runs, 3)), vec![1]);
    assert!(rare_among_runs(&item_count, &runs, 4).is_empty());
    let item_count = counts_of(&[0, 1, 1, 0]);
    assert_eq!(sorted(&rare_among_runs(&item_count, &runs, 0)), vec![1, 2]);
}

#[test]
fn a_child_can_be_hung_in_a_new_tree() {
    let mut tree = FPTree::new();
    assert_eq!(tree.height(), 0);
    let first = tree.add_child(0, 7);
    assert_eq!(first, 1);
    assert_eq!(tree.height(), 1);
    assert_eq!(tree.depth(first), 1);
    assert_eq!(tree.child_of(0, 7), first);
    let second = tree.add_child(first, 9);
    assert_eq!(tree.height(), 2);
    assert_eq!(tree.depth(second), 2);
    let third = tree.add_child(0, 9);
    assert_eq!(tree.height(), 2);
    assert_eq!(tree.depth(third), 1);
    assert_eq!(tree.depth(0), 0);
    assert_eq!(tree.node(third).next_sibling, second);
    assert_eq!(tree.node(second).parent, first);
    assert_eq!(tree.node(second).count, 0);
    // What insert finds is what was hung.
    let end = tree.insert(&vec![7, 9], 3);
    assert_eq!(end, second);
    assert_eq!(tree.node(second).count, 3);
    assert_eq!(tree.node(first).count, 3);
    assert_eq!(tree.node_count(), 4);
    assert_eq!(tree.height(), 2);
}

#[test]
fn a_draw_stands_for_the_item_one_above_it() {
    assert_eq!(item_of_draw(0), 1);
    assert_eq!(item_of_draw(1), 2);
    assert_eq!(item_of_draw(41), 42);
    assert_eq!(item_of_draw(u32::MAX as u64 - 1), u32::MAX);
}
