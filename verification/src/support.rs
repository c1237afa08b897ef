//! A table from itemsets to their counts, for the lookups of the rule phase: the
//! itemsets are the paths of a prefix tree, and each node carries the count of its
//! path.

use crate::fptree::{path_of, placed, FPTree};
use crate::itemset::{counted_as, entries, lemma_counted_as, ItemSet};
use vstd::prelude::*;

verus! {

/// The counts of a list of itemsets, to be looked up by the items.
pub struct SupportTable {
    tree: FPTree,
    counts: Vec<u32>,
    known: Vec<bool>,
    list: Ghost<Seq<(Seq<u32>, u32)>>,
}

impl View for SupportTable {
    type V = Seq<(Seq<u32>, u32)>;

    /// The entries added so far, in their order: the items and the count of each.
    closed spec fn view(&self) -> Seq<(Seq<u32>, u32)> {
        self.list@
    }
}

/// Whether node `n` carries what the list gives for the path of the node.
pub open spec fn carries(
    nodes: Seq<crate::fptree::Node>,
    counts: Seq<u32>,
    known: Seq<bool>,
    list: Seq<(Seq<u32>, u32)>,
    n: int,
) -> bool {
    &&& known[n] <==> counted_as(list, path_of(nodes, n)) is Some
    &&& known[n] ==> counted_as(list, path_of(nodes, n)) == Some(counts[n])
}

impl SupportTable {
    /// Each node carries the count that the entries give for its path, and each
    /// entry has its node.
    pub closed spec fn well_formed(&self) -> bool {
        &&& self.tree.well_formed()
        &&& self.counts@.len() == self.tree.nodes().len()
        &&& self.known@.len() == self.tree.nodes().len()
        &&& forall|n: int|
            0 <= n < self.tree.nodes().len() ==> #[trigger] carries(
                self.tree.nodes(),
                self.counts@,
                self.known@,
                self.list@,
                n,
            )
        &&& forall|j: int|
            0 <= j < self.list@.len() ==> placed(self.tree.nodes(), (#[trigger] self.list@[j]).0)
    }

    /// A table without entries.
    pub fn new() -> (table: SupportTable)
        ensures
            table.well_formed(),
            table@ == Seq::<(Seq<u32>, u32)>::empty(),
    {
        let tree = FPTree::new();
        let mut counts: Vec<u32> = Vec::new();
        counts.push(0);
        let mut known: Vec<bool> = Vec::new();
        known.push(false);
        SupportTable { tree, counts, known, list: Ghost(Seq::empty()) }
    }

    /// One more entry: `items` now have the count `count`, whatever they had.
    pub fn add(&mut self, items: &Vec<u32>, count: u32)
        requires
            old(self).well_formed(),
        ensures
            final(self).well_formed(),
            final(self)@ == old(self)@.push((items@, count)),
    {
        let ghost before = self.tree;
        let ghost list0 = self.list@;
        let ghost counts0 = self.counts@;
        let ghost known0 = self.known@;
        let ghost list1 = list0.push((items@, count));
        let node: usize = self.tree.insert(items, 1);
        let ghost after = self.tree;
        while self.counts.len() < self.tree.node_count()
            invariant
                self.tree == after,
                self.list@ == list0,
                counts0.len() <= self.counts@.len() <= self.tree.nodes().len(),
                self.counts@.len() == self.known@.len(),
                self.counts@.take(counts0.len() as int) == counts0,
                self.known@.take(counts0.len() as int) == known0,
                counts0.len() == known0.len(),
                forall|n: int| counts0.len() <= n < self.known@.len() ==>
                    !(#[trigger] self.known@[n]),
            decreases self.tree.nodes().len() - self.counts@.len(),
        {
            let ghost grown_counts = self.counts@;
            let ghost grown_known = self.known@;
            self.counts.push(0);
            self.known.push(false);
            proof {
                assert(self.counts@.take(counts0.len() as int) =~= grown_counts.take(
                    counts0.len() as int,
                ));
                assert(self.known@.take(counts0.len() as int) =~= grown_known.take(
                    counts0.len() as int,
                ));
            }
        }
        let ghost counts1 = self.counts@;
        let ghost known1 = self.known@;
        self.counts.set(node, count);
        self.known.set(node, true);
        proof {
            self.list = Ghost(list1);
            assert(list1.drop_last() =~= list0);
            let nodes = self.tree.nodes();
            assert forall|n: int| 0 <= n < nodes.len() implies #[trigger] carries(
                nodes,
                self.counts@,
                self.known@,
                list1,
                n,
            ) by {
                let path = path_of(nodes, n);
                if n == node {
                } else {
                    self.tree.lemma_paths_differ(n, node as int);
                    assert(counted_as(list1, path) == counted_as(list0, path));
                    if n < counts0.len() {
                        assert(path == path_of(before.nodes(), n));
                        assert(carries(before.nodes(), counts0, known0, list0, n));
                        assert(counts1.take(counts0.len() as int)[n] == counts1[n]);
                        assert(known1.take(counts0.len() as int)[n] == known1[n]);
                    } else {
                        assert(!known1[n]);
                        if counted_as(list0, path) is Some {
                            lemma_counted_as(list0, path);
                            let j = choose|j: int|
                                0 <= j < list0.len() && #[trigger] list0[j] == (
                                    path,
                                    counted_as(list0, path)->Some_0,
                                );
                            assert(placed(before.nodes(), list0[j].0));
                            let m = choose|m: int|
                                0 <= m < before.nodes().len() && #[trigger] path_of(
                                    before.nodes(),
                                    m,
                                ) == path;
                            assert(path_of(nodes, m) == path);
                            self.tree.lemma_paths_differ(m, n);
                        }
                    }
                }
            }
            assert forall|j: int| 0 <= j < list1.len() implies placed(
                nodes,
                (#[trigger] list1[j]).0,
            ) by {
                if j < list0.len() {
                    assert(placed(before.nodes(), list0[j].0));
                    let m = choose|m: int|
                        0 <= m < before.nodes().len() && #[trigger] path_of(before.nodes(), m)
                            == list0[j].0;
                    assert(path_of(nodes, m) == list0[j].0);
                } else {
                    assert(path_of(nodes, node as int) == list1[j].0);
                }
            }
        }
    }

    /// The count that the entries give for `items`: that of the last entry with
    /// those items.
    pub fn get(&self, items: &Vec<u32>) -> (count: Option<u32>)
        requires
            self.well_formed(),
        ensures
            count == counted_as(self@, items@),
    {
        match self.tree.find(items) {
            Some(node) => {
                proof {
                    assert(carries(
                        self.tree.nodes(),
                        self.counts@,
                        self.known@,
                        self.list@,
                        node as int,
                    ));
                }
                if self.known[node] {
                    Some(self.counts[node])
                } else {
                    None
                }
            },
            None => {
                proof {
                    if counted_as(self.list@, items@) is Some {
                        lemma_counted_as(self.list@, items@);
                        let j = choose|j: int|
                            0 <= j < self.list@.len() && #[trigger] self.list@[j] == (
                                items@,
                                counted_as(self.list@, items@)->Some_0,
                            );
                        assert(placed(self.tree.nodes(), self.list@[j].0));
                        let m = choose|m: int|
                            0 <= m < self.tree.nodes().len() && #[trigger] path_of(
                                self.tree.nodes(),
                                m,
                            ) == items@;
                        assert(path_of(self.tree.nodes(), m) != items@);
                    }
                }
                None
            },
        }
    }

    /// The table of a list of itemsets.
    pub fn from_itemsets(itemsets: &Vec<ItemSet>) -> (table: SupportTable)
        ensures
            table.well_formed(),
            table@ == entries(itemsets@),
    {
        let mut table = SupportTable::new();
        let mut k: usize = 0;
        proof {
            assert(entries(itemsets@).take(0) =~= Seq::<(Seq<u32>, u32)>::empty());
        }
        while k < itemsets.len()
            invariant
                k <= itemsets.len(),
                table.well_formed(),
                table@ == entries(itemsets@).take(k as int),
            decreases itemsets.len() - k,
        {
            table.add(&itemsets[k].items, itemsets[k].count);
            proof {
                assert(entries(itemsets@).take(k + 1) =~= entries(itemsets@).take(k as int).push(
                    (itemsets@[k as int].items@, itemsets@[k as int].count),
                ));
            }
            k += 1;
        }
        proof {
            assert(entries(itemsets@).take(k as int) =~= entries(itemsets@));
        }
        table
    }
}

} // verus!
