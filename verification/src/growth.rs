//! RIP-growth: the itemsets that a tree holds, found by growing conditional trees.

use crate::fptree::{
    drawn, lemma_longest, listed, longest, nonempty_prefix, placed, FPTree, WeightedPath,
};
use crate::index::{support_count, Index};
use crate::itemset::{copy_of, entries, strictly_ascending, with_item, ItemSet};
use crate::rarity::contains_rare_item;
use std::collections::HashSet;
use vstd::prelude::*;

verus! {

broadcast use vstd::std_specs::hash::group_hash_axioms;

/// The paths of a tree.
pub open spec fn paths_of(tree: &FPTree) -> Set<Seq<u32>> {
    Set::new(|path: Seq<u32>| tree.has_path(path))
}

/// Whether a set of paths holds no empty path and, with a path, each of its prefixes
/// but the empty one.
pub open spec fn prefix_closed(paths: Set<Seq<u32>>) -> bool {
    &&& forall|path: Seq<u32>| #[trigger] paths.contains(path) ==> path.len() >= 1
    &&& forall|path: Seq<u32>, len: int|
        paths.contains(path) && 1 <= len <= path.len() ==> #[trigger] paths.contains(
            path.take(len),
        )
}

/// Whether a set of items has a member.
pub open spec fn holds_some(items: Set<u32>) -> bool {
    exists|item: u32| items.contains(item)
}

/// Whether `path` is one of `paths` and holds every item of `items`.
pub open spec fn within(paths: Set<Seq<u32>>, items: Set<u32>, path: Seq<u32>) -> bool {
    paths.contains(path) && items.subset_of(path.to_set())
}

/// Whether one of `paths` holds every item of `items`.
pub open spec fn covers(paths: Set<Seq<u32>>, items: Set<u32>) -> bool {
    exists|path: Seq<u32>| #[trigger] within(paths, items, path)
}

/// Whether an itemset may be emitted: always where no set of rare items is given,
/// and else where it holds a rare item.
pub open spec fn accepted(itemset: Set<u32>, rare: Option<Set<u32>>) -> bool {
    match rare {
        None => true,
        Some(rare_items) => exists|item: u32| itemset.contains(item) && rare_items.contains(item),
    }
}

/// Whether `itemset` is `base` together with the items `more`, which are some, and
/// which one of `paths` holds; and `itemset` may be emitted.
pub open spec fn grows(
    paths: Set<Seq<u32>>,
    base: Set<u32>,
    rare: Option<Set<u32>>,
    itemset: Set<u32>,
    more: Set<u32>,
) -> bool {
    &&& holds_some(more)
    &&& covers(paths, more)
    &&& itemset == base.union(more)
    &&& accepted(itemset, rare)
}

/// The itemsets that growth emits from a tree with the paths `paths`, under the
/// prefix `base`: `base` together with one or more items of one path, where that may
/// be emitted.
pub open spec fn grown(
    paths: Set<Seq<u32>>,
    base: Set<u32>,
    rare: Option<Set<u32>>,
    itemset: Set<u32>,
) -> bool {
    exists|more: Set<u32>| #[trigger] grows(paths, base, rare, itemset, more)
}

/// Whether `path` ends with `item` and is one of `paths`.
pub open spec fn ends(paths: Set<Seq<u32>>, item: u32, path: Seq<u32>) -> bool {
    paths.contains(path) && path.last() == item
}

/// Whether one of `paths` ends with `item`.
pub open spec fn item_of(paths: Set<Seq<u32>>, item: u32) -> bool {
    exists|path: Seq<u32>| #[trigger] ends(paths, item, path)
}

/// Whether `short` is a prefix of `prefix`, not the empty one, and `prefix` with
/// `item` behind it is one of `paths`.
pub open spec fn conditional_of(
    paths: Set<Seq<u32>>,
    item: u32,
    short: Seq<u32>,
    prefix: Seq<u32>,
) -> bool {
    paths.contains(prefix.push(item)) && nonempty_prefix(short, prefix)
}

/// The paths of the conditional tree of `item`: the prefixes of what stands before
/// `item` at the end of a path.
pub open spec fn conditional_paths(paths: Set<Seq<u32>>, item: u32) -> Set<Seq<u32>> {
    Set::new(
        |short: Seq<u32>| exists|prefix: Seq<u32>| #[trigger]
            conditional_of(paths, item, short, prefix),
    )
}

/// Whether growth emits `itemset` while it works on `item`: as `base` with `item`,
/// or from the conditional tree of `item`.
pub open spec fn emitted_at(
    paths: Set<Seq<u32>>,
    base: Set<u32>,
    rare: Option<Set<u32>>,
    itemset: Set<u32>,
    item: u32,
) -> bool {
    &&& item_of(paths, item)
    &&& ((itemset == base.insert(item) && accepted(itemset, rare)) || grown(
        conditional_paths(paths, item),
        base.insert(item),
        rare,
        itemset,
    ))
}

/// The last place of `path` with an item of `items`, or -1.
pub open spec fn last_hit(path: Seq<u32>, items: Set<u32>) -> int
    decreases path.len(),
{
    if path.len() == 0 {
        -1
    } else if items.contains(path.last()) {
        path.len() - 1
    } else {
        last_hit(path.drop_last(), items)
    }
}

/// The last hit is a hit, and nothing behind it is.
proof fn lemma_last_hit(path: Seq<u32>, items: Set<u32>)
    ensures
        -1 <= last_hit(path, items) < path.len(),
        last_hit(path, items) >= 0 ==> items.contains(path[last_hit(path, items)]),
        forall|j: int| last_hit(path, items) < j < path.len() ==>
            !items.contains(#[trigger] path[j]),
    decreases path.len(),
{
    if path.len() > 0 && !items.contains(path.last()) {
        lemma_last_hit(path.drop_last(), items);
        assert forall|j: int| last_hit(path, items) < j < path.len() implies !items.contains(
            #[trigger] path[j],
        ) by {
            if j < path.len() - 1 {
                assert(path.drop_last()[j] == path[j]);
            }
        }
    }
}

/// The conditional paths of a prefix-closed set of paths are prefix-closed.
pub proof fn lemma_conditional_closed(paths: Set<Seq<u32>>, item: u32)
    ensures
        prefix_closed(conditional_paths(paths, item)),
{
    let cond = conditional_paths(paths, item);
    assert forall|path: Seq<u32>, len: int|
        cond.contains(path) && 1 <= len <= path.len() implies #[trigger] cond.contains(
        path.take(len),
    ) by {
        let prefix = choose|prefix: Seq<u32>| #[trigger] conditional_of(paths, item, path, prefix);
        assert(path.take(len) =~= prefix.take(len));
        assert(prefix.take(len).take(len) =~= prefix.take(len));
        assert(conditional_of(paths, item, path.take(len), prefix));
    }
    assert forall|path: Seq<u32>| #[trigger] cond.contains(path) implies path.len() >= 1 by {
        let prefix = choose|prefix: Seq<u32>| #[trigger] conditional_of(paths, item, path, prefix);
    }
}

/// Every itemset that growth owes is emitted while it works on one of the items of
/// the tree.
pub proof fn lemma_grown_splits(
    paths: Set<Seq<u32>>,
    base: Set<u32>,
    rare: Option<Set<u32>>,
    itemset: Set<u32>,
)
    requires
        prefix_closed(paths),
        grown(paths, base, rare, itemset),
    ensures
        exists|item: u32| #[trigger] emitted_at(paths, base, rare, itemset, item),
{
    let more = choose|more: Set<u32>| #[trigger] grows(paths, base, rare, itemset, more);
    let path = choose|path: Seq<u32>| #[trigger] within(paths, more, path);
    let one = choose|item: u32| more.contains(item);
    assert(path.to_set().contains(one));
    let at = choose|j: int| 0 <= j < path.len() && path[j] == one;
    lemma_last_hit(path, more);
    let k = last_hit(path, more);
    assert(k >= 0) by {
        if k < at {
            assert(!more.contains(path[at]));
        }
    }
    let item = path[k];
    let whole = path.take(k + 1);
    assert(paths.contains(whole));
    assert(ends(paths, item, whole));
    let rest = more.remove(item);
    let cond = conditional_paths(paths, item);
    if holds_some(rest) {
        let short = path.take(k);
        assert forall|y: u32| rest.contains(y) implies short.to_set().contains(y) by {
            assert(path.to_set().contains(y));
            let j = choose|j: int| 0 <= j < path.len() && path[j] == y;
            if j > k {
                assert(!more.contains(path[j]));
            }
            assert(short[j] == y);
        }
        let other = choose|y: u32| rest.contains(y);
        assert(short.to_set().contains(other));
        assert(short.len() >= 1);
        assert(short.push(item) =~= whole);
        assert(short.take(short.len() as int) =~= short);
        assert(conditional_of(paths, item, short, short));
        assert(cond.contains(short));
        assert(within(cond, rest, short));
        assert(itemset =~= base.insert(item).union(rest));
        assert(grows(cond, base.insert(item), rare, itemset, rest));
    } else {
        assert(itemset =~= base.insert(item)) by {
            assert forall|y: u32| more.contains(y) implies y == item by {
                if y != item {
                    assert(rest.contains(y));
                }
            }
        }
    }
    assert(emitted_at(paths, base, rare, itemset, item));
}

/// What growth emits while it works on an item of the tree is owed.
pub proof fn lemma_via_grown(
    paths: Set<Seq<u32>>,
    base: Set<u32>,
    rare: Option<Set<u32>>,
    itemset: Set<u32>,
    item: u32,
)
    requires
        prefix_closed(paths),
        emitted_at(paths, base, rare, itemset, item),
    ensures
        grown(paths, base, rare, itemset),
{
    let cond = conditional_paths(paths, item);
    if itemset == base.insert(item) && accepted(itemset, rare) {
        let path = choose|path: Seq<u32>| #[trigger] ends(paths, item, path);
        let more = Set::<u32>::empty().insert(item);
        assert(path[path.len() - 1] == item);
        assert(path.to_set().contains(item));
        assert(within(paths, more, path));
        assert(more.contains(item));
        assert(itemset =~= base.union(more));
        assert(grows(paths, base, rare, itemset, more));
    } else {
        let rest = choose|rest: Set<u32>| #[trigger]
            grows(cond, base.insert(item), rare, itemset, rest);
        let short = choose|short: Seq<u32>| #[trigger] within(cond, rest, short);
        let prefix = choose|prefix: Seq<u32>| #[trigger]
            conditional_of(paths, item, short, prefix);
        let path = prefix.push(item);
        let more = rest.insert(item);
        assert forall|y: u32| more.contains(y) implies path.to_set().contains(y) by {
            if y == item {
                assert(path[prefix.len() as int] == y);
            } else {
                assert(short.to_set().contains(y));
                let j = choose|j: int| 0 <= j < short.len() && short[j] == y;
                assert(prefix.take(short.len() as int)[j] == y);
                assert(path[j] == y);
            }
        }
        assert(within(paths, more, path));
        assert(more.contains(item));
        assert(itemset =~= base.union(more));
        assert(grows(paths, base, rare, itemset, more));
    }
}

impl FPTree {
    /// The paths of a tree are prefix-closed, and its header items are the items at
    /// their ends.
    pub proof fn lemma_paths(&self)
        requires
            self.well_formed(),
        ensures
            prefix_closed(paths_of(self)),
            forall|item: u32| #[trigger]
                self.header_items().contains(item) <==> item_of(paths_of(self), item),
    {
        let paths = paths_of(self);
        assert forall|path: Seq<u32>| #[trigger] paths.contains(path) implies path.len() >= 1 by {
            self.lemma_path_length(path);
        }
        assert forall|path: Seq<u32>, len: int|
            paths.contains(path) && 1 <= len <= path.len() implies #[trigger] paths.contains(
            path.take(len),
        ) by {
            self.lemma_prefix_closed(path, len);
        }
        self.lemma_header_items();
        assert forall|item: u32| #[trigger]
            self.header_items().contains(item) <==> item_of(paths, item) by {
            if self.ends_with(item) {
                let path = choose|path: Seq<u32>| #[trigger]
                    self.has_path(path) && path.last() == item;
                assert(ends(paths, item, path));
            }
            if item_of(paths, item) {
                let path = choose|path: Seq<u32>| #[trigger] ends(paths, item, path);
                assert(self.has_path(path) && path.last() == item);
            }
        }
    }
}

/// The set of rare items that growth is given, if it is given one.
pub open spec fn rare_view(rare_items: Option<&HashSet<u32>>) -> Option<Set<u32>> {
    match rare_items {
        None => None,
        Some(rare) => Some(rare@),
    }
}

/// Whether `found` is an itemset that growth owes, in ascending order, with the
/// number of transactions that hold it.
pub open spec fn mined(
    paths: Set<Seq<u32>>,
    base: Set<u32>,
    rare: Option<Set<u32>>,
    transactions: Seq<Set<u32>>,
    found: ItemSet,
) -> bool {
    &&& strictly_ascending(found.items@)
    &&& grown(paths, base, rare, found.items@.to_set())
    &&& found.count == support_count(transactions, found.items@.to_set())
}

/// Whether `out` holds `itemset` at `start` or behind it.
pub open spec fn found_from(out: Seq<ItemSet>, start: int, itemset: Set<u32>) -> bool {
    exists|k: int| start <= k < out.len() && (#[trigger] out[k]).items@.to_set() == itemset
}

/// What is found in a list is found in a longer list that starts with it.
proof fn lemma_found_stays(shorter: Seq<ItemSet>, longer: Seq<ItemSet>, start: int,
    itemset: Set<u32>)
    requires
        0 <= start,
        shorter.len() <= longer.len(),
        longer.take(shorter.len() as int) == shorter,
        found_from(shorter, start, itemset),
    ensures
        found_from(longer, start, itemset),
{
    let k = choose|k: int|
        start <= k < shorter.len() && (#[trigger] shorter[k]).items@.to_set() == itemset;
    assert(longer.take(shorter.len() as int)[k] == longer[k]);
}

/// The conditional tree of an item of `tree`: the tree of the conditional pattern
/// base of the item. Its paths are the prefixes of what stands before the item at
/// the end of a path of `tree`, and it is lower than `tree`.
fn conditional_tree(tree: &FPTree, item: u32) -> (cond: FPTree)
    requires
        tree.well_formed(),
        tree.header_items().contains(item),
    ensures
        cond.well_formed(),
        cond.spec_height() < tree.spec_height(),
        paths_of(&cond) == conditional_paths(paths_of(tree), item),
{
    let base = tree.conditional_base(item);
    let cond = FPTree::from_paths(&base);
    proof {
        tree.lemma_header_items();
        let end = choose|path: Seq<u32>| #[trigger] tree.has_path(path) && path.last() == item;
        tree.lemma_path_length(end);
        lemma_longest(base@, base@.len() as int);
        if base@.len() > 0 {
            let k = choose|k: int|
                0 <= k < base@.len() && (#[trigger] base@[k]).items@.len() == longest(
                    base@,
                    base@.len() as int,
                );
            tree.lemma_path_length(base@[k].items@.push(item));
        }
        let paths = paths_of(tree);
        assert forall|short: Seq<u32>|
            paths_of(&cond).contains(short) <==> conditional_paths(paths, item).contains(
                short,
            ) by {
            if cond.has_path(short) {
                assert(drawn(base@, base@.len() as int, short));
                let k = choose|k: int|
                    0 <= k < base@.len() && nonempty_prefix(short, (#[trigger] base@[k]).items@);
                assert(conditional_of(paths, item, short, base@[k].items@));
            }
            if conditional_paths(paths, item).contains(short) {
                let prefix = choose|prefix: Seq<u32>| #[trigger]
                    conditional_of(paths, item, short, prefix);
                assert(tree.has_path(prefix.push(item)));
                assert(listed(base@, prefix));
                let k = choose|k: int| 0 <= k < base@.len()
                    && (#[trigger] base@[k]).items@ == prefix;
                assert(drawn(base@, base@.len() as int, short));
            }
        }
        assert(paths_of(&cond) =~= conditional_paths(paths, item));
    }
    cond
}

/// Whether a prefix is anchored: no set of rare items is given, or the prefix holds
/// a rare item.
pub open spec fn anchored_by(path: Seq<u32>, rare: Option<Set<u32>>) -> bool {
    match rare {
        None => true,
        Some(rare_items) => exists|k: int|
            0 <= k < path.len() && rare_items.contains(#[trigger] path[k]),
    }
}

/// Growth on one tree under one prefix: what it finds goes behind what `out` holds.
fn grow(
    tree: &FPTree,
    rare_items: Option<&HashSet<u32>>,
    path: &Vec<u32>,
    index: &Index,
    out: &mut Vec<ItemSet>,
)
    requires
        tree.well_formed(),
        index.well_formed(),
        strictly_ascending(path@),
    ensures
        final(out)@.len() >= old(out)@.len(),
        final(out)@.take(old(out)@.len() as int) == old(out)@,
        forall|k: int|
            old(out)@.len() <= k < final(out)@.len() ==> mined(
                paths_of(tree),
                path@.to_set(),
                rare_view(rare_items),
                index@,
                #[trigger] final(out)@[k],
            ),
        forall|itemset: Set<u32>|
            grown(paths_of(tree), path@.to_set(), rare_view(rare_items), itemset)
                ==> #[trigger] found_from(final(out)@, old(out)@.len() as int, itemset),
    decreases tree.spec_height(),
{
    let ghost paths = paths_of(tree);
    let ghost base = path@.to_set();
    let ghost rare = rare_view(rare_items);
    let ghost start = out@.len() as int;
    proof {
        tree.lemma_paths();
        assert(out@.take(start) =~= out@);
    }
    let anchored: bool = match rare_items {
        None => true,
        Some(rare_set) => contains_rare_item(path, rare_set),
    };
    let items = tree.items();
    let mut j: usize = 0;
    while j < items.len()
        invariant
            j <= items.len(),
            items@ == tree.header_items(),
            tree.well_formed(),
            index.well_formed(),
            strictly_ascending(path@),
            prefix_closed(paths),
            paths == paths_of(tree),
            base == path@.to_set(),
            rare == rare_view(rare_items),
            anchored == anchored_by(path@, rare),
            forall|item: u32| #[trigger]
                tree.header_items().contains(item) <==> item_of(paths, item),
            out@.len() >= start,
            start == old(out)@.len(),
            out@.take(start) == old(out)@,
            forall|k: int|
                start <= k < out@.len() ==> mined(paths, base, rare, index@, #[trigger] out@[k]),
            forall|itemset: Set<u32>, i: int|
                0 <= i < j && #[trigger] emitted_at(paths, base, rare, itemset, items@[i])
                    ==> found_from(out@, start, itemset),
        decreases items.len() - j,
    {
        let item: u32 = items[j];
        let itemset: Vec<u32> = with_item(path, item);
        let ghost larger = base.insert(item);
        let ghost out0 = out@;
        let accept: bool = match rare_items {
            None => true,
            Some(rare_set) => anchored || rare_set.contains(&item),
        };
        proof {
            assert(items@.contains(item));
            assert(item_of(paths, item));
            assert(itemset@.to_set() == larger);
            assert(accept == accepted(larger, rare)) by {
                if rare is Some {
                    let rare_set = rare->Some_0;
                    if accepted(larger, rare) {
                        let hit = choose|hit: u32| larger.contains(hit) && rare_set.contains(hit);
                        if hit != item {
                            assert(path@.contains(hit));
                            let k = choose|k: int| 0 <= k < path@.len() && path@[k] == hit;
                            assert(rare_set.contains(path@[k]));
                        }
                    }
                    if anchored {
                        let k = choose|k: int|
                            0 <= k < path@.len() && rare_set.contains(#[trigger] path@[k]);
                        assert(path@.contains(path@[k]));
                        assert(larger.contains(path@[k]));
                    }
                    if rare_set.contains(item) {
                        assert(larger.contains(item));
                    }
                }
            }
        }
        if accept {
            let count: u32 = index.count(&itemset);
            let found = ItemSet::new(copy_of(&itemset), count);
            out.push(found);
            proof {
                assert(emitted_at(paths, base, rare, larger, item));
                lemma_via_grown(paths, base, rare, larger, item);
                assert(out@.take(start) =~= old(out)@);
                assert forall|k: int| start <= k < out@.len() implies mined(
                    paths,
                    base,
                    rare,
                    index@,
                    #[trigger] out@[k],
                ) by {
                    if k < out0.len() {
                        assert(out@[k] == out0[k]);
                    }
                }
            }
        }
        let ghost out1 = out@;
        proof {
            assert(out1.take(out0.len() as int) =~= out0);
        }
        let cond = conditional_tree(tree, item);
        let ghost cond_paths = conditional_paths(paths, item);
        proof {
            lemma_conditional_closed(paths, item);
        }
        // Growth under a prefix without a rare item can only emit what gets its rare
        // item from the conditional tree: where that holds none, there is nothing
        // to grow.
        let worthwhile: bool = accept || match rare_items {
            None => true,
            Some(rare_set) => contains_rare_item(cond.items(), rare_set),
        };
        if worthwhile {
            grow(&cond, rare_items, &itemset, index, out);
        } else {
            proof {
                cond.lemma_paths();
                let rare_set = rare->Some_0;
                assert forall|s: Set<u32>| !grown(cond_paths, larger, rare, s) by {
                    if grown(cond_paths, larger, rare, s) {
                        let more = choose|more: Set<u32>| #[trigger]
                            grows(cond_paths, larger, rare, s, more);
                        let path = choose|path: Seq<u32>| #[trigger]
                            within(cond_paths, more, path);
                        let hit = choose|hit: u32| s.contains(hit) && rare_set.contains(hit);
                        if larger.contains(hit) {
                            assert(accepted(larger, rare));
                        } else {
                            assert(path.to_set().contains(hit));
                            let at = choose|at: int| 0 <= at < path.len() && path[at] == hit;
                            assert(cond_paths.contains(path.take(at + 1)));
                            assert(ends(cond_paths, hit, path.take(at + 1)));
                            assert(cond.header_items().contains(hit));
                            let k = choose|k: int|
                                0 <= k < cond.header_items().len() && cond.header_items()[k]
                                    == hit;
                            assert(rare_set.contains(cond.header_items()[k]));
                        }
                        assert(false);
                    }
                }
                assert(out@.take(out1.len() as int) =~= out1);
            }
        }
        proof {
            assert(out@.take(start) =~= old(out)@) by {
                assert(out@.take(out1.len() as int) == out1);
                assert forall|k: int| 0 <= k < start implies out@[k] == old(out)@[k] by {
                    assert(out@.take(out1.len() as int)[k] == out@[k]);
                    assert(out1.take(start)[k] == out1[k]);
                }
            }
            assert forall|k: int| start <= k < out@.len() implies mined(
                paths,
                base,
                rare,
                index@,
                #[trigger] out@[k],
            ) by {
                if k < out1.len() {
                    assert(out@.take(out1.len() as int)[k] == out@[k]);
                    assert(mined(paths, base, rare, index@, out1[k]));
                } else {
                    assert(mined(cond_paths, larger, rare, index@, out@[k]));
                    let s = out@[k].items@.to_set();
                    assert(emitted_at(paths, base, rare, s, item));
                    lemma_via_grown(paths, base, rare, s, item);
                }
            }
            assert forall|s: Set<u32>, i: int|
                0 <= i < j + 1 && #[trigger] emitted_at(
                    paths,
                    base,
                    rare,
                    s,
                    items@[i],
                ) implies found_from(out@, start, s) by {
                if i < j {
                    assert(found_from(out0, start, s));
                    lemma_found_stays(out0, out1, start, s);
                    lemma_found_stays(out1, out@, start, s);
                } else {
                    if s == larger && accepted(s, rare) {
                        assert(out1[out0.len() as int].items@.to_set() == s);
                        assert(found_from(out1, start, s));
                        lemma_found_stays(out1, out@, start, s);
                    } else {
                        assert(grown(cond_paths, larger, rare, s));
                        assert(found_from(out@, out1.len() as int, s));
                        let k = choose|k: int|
                            out1.len() <= k < out@.len() && (#[trigger] out@[k]).items@.to_set()
                                == s;
                        assert(start <= k);
                    }
                }
            }
        }
        j += 1;
    }
    proof {
        assert forall|s: Set<u32>| grown(paths, base, rare, s) implies #[trigger] found_from(
            out@,
            start,
            s,
        ) by {
            lemma_grown_splits(paths, base, rare, s);
            let item = choose|item: u32| #[trigger] emitted_at(paths, base, rare, s, item);
            assert(item_of(paths, item));
            assert(tree.header_items().contains(item));
            let i = choose|i: int| 0 <= i < items@.len() && items@[i] == item;
            assert(emitted_at(paths, base, rare, s, items@[i]));
        }
    }
}

/// Whether one of the first `upto` entries has the items `items`.
pub open spec fn seen_before(list: Seq<(Seq<u32>, u32)>, upto: int, items: Seq<u32>) -> bool {
    exists|j: int| 0 <= j < upto && (#[trigger] list[j]).0 == items
}

/// The entries that are the first with their items, in their order.
pub open spec fn first_occurrences(list: Seq<(Seq<u32>, u32)>) -> Seq<(Seq<u32>, u32)>
    decreases list.len(),
{
    if list.len() == 0 {
        list
    } else if seen_before(list, list.len() - 1, list.last().0) {
        first_occurrences(list.drop_last())
    } else {
        first_occurrences(list.drop_last()).push(list.last())
    }
}

/// The first occurrences are entries of the list, no two of them have the same
/// items, and each entry of the list has its items among them.
pub proof fn lemma_first_occurrences(list: Seq<(Seq<u32>, u32)>)
    ensures
        forall|k: int|
            0 <= k < first_occurrences(list).len() ==> list.contains(
                #[trigger] first_occurrences(list)[k],
            ),
        forall|a: int, b: int|
            0 <= a < b < first_occurrences(list).len() ==> (#[trigger] first_occurrences(
                list,
            )[a]).0 != (#[trigger] first_occurrences(list)[b]).0,
        forall|j: int|
            0 <= j < list.len() ==> seen_before(
                first_occurrences(list),
                first_occurrences(list).len() as int,
                (#[trigger] list[j]).0,
            ),
    decreases list.len(),
{
    let firsts = first_occurrences(list);
    if list.len() > 0 {
        let head = list.drop_last();
        let last = list.last();
        let before = first_occurrences(head);
        lemma_first_occurrences(head);
        assert forall|k: int| 0 <= k < firsts.len() implies list.contains(#[trigger] firsts[k]) by {
            if k < before.len() {
                assert(head.contains(before[k]));
                let j = choose|j: int| 0 <= j < head.len() && head[j] == before[k];
                assert(list[j] == before[k]);
            } else {
                assert(list[list.len() - 1] == firsts[k]);
            }
        }
        assert forall|a: int, b: int| 0 <= a < b < firsts.len() implies
            (#[trigger] firsts[a]).0 != (
        #[trigger] firsts[b]).0 by {
            if b >= before.len() {
                assert(head.contains(before[a]));
                let j = choose|j: int| 0 <= j < head.len() && head[j] == before[a];
                assert(list[j].0 == before[a].0);
            }
        }
        assert forall|j: int| 0 <= j < list.len() implies seen_before(
            firsts,
            firsts.len() as int,
            (#[trigger] list[j]).0,
        ) by {
            if j < head.len() {
                assert(head[j] == list[j]);
                assert(seen_before(before, before.len() as int, head[j].0));
                let k = choose|k: int| 0 <= k < before.len()
                    && (#[trigger] before[k]).0 == head[j].0;
                assert(firsts[k] == before[k]);
            } else {
                if seen_before(list, list.len() - 1, last.0) {
                    let i = choose|i: int| 0 <= i < list.len() - 1
                        && (#[trigger] list[i]).0 == last.0;
                    assert(head[i] == list[i]);
                    assert(seen_before(before, before.len() as int, head[i].0));
                    let k = choose|k: int|
                        0 <= k < before.len() && (#[trigger] before[k]).0 == head[i].0;
                    assert(firsts[k] == before[k]);
                } else {
                    assert(firsts[before.len() as int] == last);
                }
            }
        }
    }
}

/// The itemsets of a list without those whose items an earlier entry has.
pub fn dedup_itemsets(candidates: &Vec<ItemSet>) -> (kept: Vec<ItemSet>)
    ensures
        entries(kept@) == first_occurrences(entries(candidates@)),
{
    let ghost list = entries(candidates@);
    let mut seen = FPTree::new();
    let mut marks: Vec<bool> = Vec::new();
    marks.push(false);
    let mut kept: Vec<ItemSet> = Vec::new();
    let mut c: usize = 0;
    proof {
        assert(list.take(0) =~= Seq::<(Seq<u32>, u32)>::empty());
        assert(entries(kept@) =~= first_occurrences(list.take(0)));
    }
    while c < candidates.len()
        invariant
            c <= candidates.len(),
            list == entries(candidates@),
            seen.well_formed(),
            marks@.len() == seen.nodes().len(),
            entries(kept@) == first_occurrences(list.take(c as int)),
            forall|n: int|
                0 <= n < marks@.len() ==> (#[trigger] marks@[n] <==> seen_before(
                    list,
                    c as int,
                    crate::fptree::path_of(seen.nodes(), n),
                )),
            forall|j: int|
                0 <= j < c ==> placed(seen.nodes(), (#[trigger] list[j]).0),
        decreases candidates.len() - c,
    {
        let ghost before = seen;
        let ghost marks0 = marks@;
        let ghost kept0 = kept@;
        let node: usize = seen.insert(&candidates[c].items, 1);
        let ghost items = candidates@[c as int].items@;
        proof {
            assert(list[c as int].0 == items);
        }
        while marks.len() < seen.node_count()
            invariant
                marks0.len() <= marks@.len() <= seen.nodes().len(),
                marks@.take(marks0.len() as int) == marks0,
                forall|n: int| marks0.len() <= n < marks@.len() ==> !(#[trigger] marks@[n]),
            decreases seen.nodes().len() - marks@.len(),
        {
            let ghost grown_marks = marks@;
            marks.push(false);
            proof {
                assert(marks@.take(marks0.len() as int) =~= grown_marks.take(marks0.len() as int));
            }
        }
        let ghost marks1 = marks@;
        let repeated: bool = marks[node];
        proof {
            assert forall|n: int| 0 <= n < marks1.len() implies
                (#[trigger] marks1[n] <==> seen_before(
                list,
                c as int,
                crate::fptree::path_of(seen.nodes(), n),
            )) by {
                if n < marks0.len() {
                    assert(marks1.take(marks0.len() as int)[n] == marks1[n]);
                    assert(crate::fptree::path_of(seen.nodes(), n) == crate::fptree::path_of(
                        before.nodes(),
                        n,
                    ));
                    assert(marks0[n] <==> seen_before(
                        list,
                        c as int,
                        crate::fptree::path_of(before.nodes(), n),
                    ));
                } else {
                    let path = crate::fptree::path_of(seen.nodes(), n);
                    if seen_before(list, c as int, path) {
                        let j = choose|j: int| 0 <= j < c && (#[trigger] list[j]).0 == path;
                        assert(placed(before.nodes(), list[j].0));
                        let m = choose|m: int|
                            0 <= m < before.nodes().len() && #[trigger] crate::fptree::path_of(
                                before.nodes(),
                                m,
                            ) == path;
                        assert(crate::fptree::path_of(seen.nodes(), m) == path);
                        seen.lemma_paths_differ(m, n);
                    }
                }
            }
            assert(repeated == seen_before(list, c as int, items));
            assert(list.take(c + 1).drop_last() =~= list.take(c as int));
            assert(list.take(c + 1).last() == list[c as int]);
            assert(seen_before(list.take(c + 1), c as int, items) == seen_before(
                list,
                c as int,
                items,
            )) by {
                if seen_before(list.take(c + 1), c as int, items) {
                    let j = choose|j: int|
                        0 <= j < c && (#[trigger] list.take(c + 1)[j]).0 == items;
                    assert(list[j].0 == items);
                }
                if seen_before(list, c as int, items) {
                    let j = choose|j: int| 0 <= j < c && (#[trigger] list[j]).0 == items;
                    assert(list.take(c + 1)[j].0 == items);
                }
            }
        }
        if !repeated {
            marks.set(node, true);
            kept.push(ItemSet::new(copy_of(&candidates[c].items), candidates[c].count));
            proof {
                assert(entries(kept@) =~= entries(kept0).push(list[c as int]));
            }
        }
        proof {
            assert forall|n: int| 0 <= n < marks@.len() implies
                (#[trigger] marks@[n] <==> seen_before(
                list,
                c + 1,
                crate::fptree::path_of(seen.nodes(), n),
            )) by {
                let path = crate::fptree::path_of(seen.nodes(), n);
                if n != node {
                    seen.lemma_paths_differ(n, node as int);
                    assert(marks@[n] == marks1[n]);
                    if seen_before(list, c + 1, path) {
                        let j = choose|j: int| 0 <= j < c + 1 && (#[trigger] list[j]).0 == path;
                        assert(j < c);
                        assert(seen_before(list, c as int, path));
                    }
                    if seen_before(list, c as int, path) {
                        let j = choose|j: int| 0 <= j < c && (#[trigger] list[j]).0 == path;
                        assert(0 <= j < c + 1);
                    }
                } else {
                    assert(list[c as int].0 == path);
                }
            }
            assert forall|j: int| 0 <= j < c + 1 implies placed(
                seen.nodes(),
                (#[trigger] list[j]).0,
            ) by {
                if j < c {
                    assert(placed(before.nodes(), list[j].0));
                    let m = choose|m: int|
                        0 <= m < before.nodes().len() && #[trigger] crate::fptree::path_of(
                            before.nodes(),
                            m,
                        ) == list[j].0;
                    assert(crate::fptree::path_of(seen.nodes(), m) == list[j].0);
                } else {
                    assert(crate::fptree::path_of(seen.nodes(), node as int) == list[j].0);
                }
            }
        }
        c += 1;
    }
    proof {
        assert(list.take(c as int) =~= list);
    }
    kept
}

/// Whether no two entries have the same items.
pub open spec fn distinct(out: Seq<ItemSet>) -> bool {
    forall|a: int, b: int|
        0 <= a < b < out.len() ==> (#[trigger] out[a]).items@ != (#[trigger] out[b]).items@
}

/// The frequent itemsets of a tree under a prefix.
///
/// For each item of the tree the prefix with that item is emitted, where it may be:
/// always where no set of rare items is given, else where it holds a rare item. The
/// conditional tree of the item is then grown under the longer prefix, unless
/// neither that prefix nor the conditional tree holds a rare item. So the itemsets
/// emitted are the prefix together with one or more items of one path of the tree,
/// where that may be emitted, each once, in ascending order of its items, with the
/// number of transactions of `index` that hold it.
pub fn rip_growth(
    tree: &FPTree,
    rare_items: Option<&HashSet<u32>>,
    path: &Vec<u32>,
    index: &Index,
) -> (itemsets: Vec<ItemSet>)
    requires
        tree.well_formed(),
        index.well_formed(),
        strictly_ascending(path@),
    ensures
        distinct(itemsets@),
        forall|k: int|
            0 <= k < itemsets@.len() ==> mined(
                paths_of(tree),
                path@.to_set(),
                rare_view(rare_items),
                index@,
                #[trigger] itemsets@[k],
            ),
        forall|itemset: Set<u32>|
            grown(paths_of(tree), path@.to_set(), rare_view(rare_items), itemset)
                ==> #[trigger] found_from(itemsets@, 0, itemset),
{
    let mut out: Vec<ItemSet> = Vec::new();
    grow(tree, rare_items, path, index, &mut out);
    let itemsets = dedup_itemsets(&out);
    proof {
        let list = entries(out@);
        let firsts = entries(itemsets@);
        lemma_first_occurrences(list);
        assert forall|a: int, b: int| 0 <= a < b < itemsets@.len() implies (
        #[trigger] itemsets@[a]).items@ != (#[trigger] itemsets@[b]).items@ by {
            assert(firsts[a].0 != firsts[b].0);
        }
        assert forall|k: int| 0 <= k < itemsets@.len() implies mined(
            paths_of(tree),
            path@.to_set(),
            rare_view(rare_items),
            index@,
            #[trigger] itemsets@[k],
        ) by {
            assert(list.contains(firsts[k]));
            let j = choose|j: int| 0 <= j < list.len() && list[j] == firsts[k];
            assert(mined(paths_of(tree), path@.to_set(), rare_view(rare_items), index@, out@[j]));
            assert(itemsets@[k].items@ == out@[j].items@);
            assert(itemsets@[k].count == out@[j].count);
        }
        assert forall|itemset: Set<u32>|
            grown(
                paths_of(tree),
                path@.to_set(),
                rare_view(rare_items),
                itemset,
            ) implies #[trigger] found_from(itemsets@, 0, itemset) by {
            assert(found_from(out@, 0, itemset));
            let j = choose|j: int|
                0 <= j < out@.len() && (#[trigger] out@[j]).items@.to_set() == itemset;
            assert(seen_before(firsts, firsts.len() as int, list[j].0));
            let k = choose|k: int| 0 <= k < firsts.len() && (#[trigger] firsts[k]).0 == list[j].0;
            assert(itemsets@[k].items@ == out@[j].items@);
        }
    }
    itemsets
}

} // verus!
