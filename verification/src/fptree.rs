//! The RIP-tree: a prefix tree of transactions, each kept in the order of its items'
//! frequency, with a chain through the nodes of each item.
//!
//! The nodes live in one arena and name each other by index; index 0 is the root,
//! which carries no item, so 0 also stands for "no node" in a link.

use crate::itemset::{
    ascending_keys, high_of, key_low, lemma_low_parts, lemma_push_contains, low_of, low_parts,
    pack, pack_key, sorted_keys,
};
use crate::rarity::{count_in, ItemCount};
use std::collections::HashMap;
use vstd::prelude::*;

verus! {

broadcast use vstd::std_specs::hash::group_hash_axioms;

/// A node of the tree.
#[derive(Clone, Copy, Debug)]
pub struct Node {
    /// The item of the node; 0 at the root.
    pub item: u32,
    /// The weight of the transactions that run through the node.
    pub count: u32,
    /// The node above; of the root, the root.
    pub parent: usize,
    /// The node created last before this one with the same item, or 0.
    pub next_sibling: usize,
}

/// The key of the edge from `parent` down to its child with `item`.
pub open spec fn edge_key(parent: usize, item: u32) -> u128 {
    (parent as u128 * 0x1_0000_0000 + item as u128) as u128
}

/// The items on the way from the root down to node `idx`.
pub open spec fn path_of(nodes: Seq<Node>, idx: int) -> Seq<u32>
    decreases idx,
{
    if 1 <= idx < nodes.len() && nodes[idx].parent < idx {
        path_of(nodes, nodes[idx].parent as int).push(nodes[idx].item)
    } else {
        Seq::empty()
    }
}

/// The node created last among the nodes `1..bound` that carry `item`, or 0.
pub open spec fn last_with_item(nodes: Seq<Node>, item: u32, bound: int) -> int
    decreases bound,
{
    if bound <= 1 {
        0
    } else if nodes[bound - 1].item == item {
        bound - 1
    } else {
        last_with_item(nodes, item, bound - 1)
    }
}

/// Whether `idx` is a node below the root.
pub open spec fn is_node(nodes: Seq<Node>, idx: int) -> bool {
    1 <= idx < nodes.len()
}

/// Whether node `idx` hangs under an older node and is entered in the table of
/// edges under its parent and item.
pub open spec fn hangs(nodes: Seq<Node>, edges: Map<u128, usize>, idx: int) -> bool {
    &&& nodes[idx].parent < idx
    &&& edges.contains_key(edge_key(nodes[idx].parent, nodes[idx].item))
    &&& edges[edge_key(nodes[idx].parent, nodes[idx].item)] == idx
    &&& nodes[idx].next_sibling == last_with_item(nodes, nodes[idx].item, idx)
}

/// Whether the edge entered under `key` leads to a node of that parent and item.
pub open spec fn leads(nodes: Seq<Node>, edges: Map<u128, usize>, key: u128) -> bool {
    &&& is_node(nodes, edges[key] as int)
    &&& edge_key(nodes[edges[key] as int].parent, nodes[edges[key] as int].item) == key
}

/// Whether the header names, for `item`, the node created last with that item, if
/// there is one.
pub open spec fn heads(nodes: Seq<Node>, header: Map<u32, usize>, item: u32) -> bool {
    &&& header.contains_key(item) <==> last_with_item(nodes, item, nodes.len() as int) != 0
    &&& header.contains_key(item) ==> header[item] == last_with_item(
        nodes,
        item,
        nodes.len() as int,
    )
}

/// The shape of a tree: every node hangs under an older one, no node has two
/// children of one item, the chains run through the nodes of each item, and no path
/// is longer than `height`.
pub open spec fn shaped(
    nodes: Seq<Node>,
    edges: Map<u128, usize>,
    header: Map<u32, usize>,
    items: Seq<u32>,
    height: nat,
) -> bool {
    &&& 1 <= nodes.len()
    &&& nodes[0] == Node { item: 0, count: 0, parent: 0, next_sibling: 0 }
    &&& forall|idx: int| is_node(nodes, idx) ==> #[trigger] hangs(nodes, edges, idx)
    &&& forall|key: u128| #[trigger] edges.contains_key(key) ==> leads(nodes, edges, key)
    &&& forall|item: u32| #[trigger] heads(nodes, header, item)
    &&& items.no_duplicates()
    &&& forall|item: u32| #[trigger] items.contains(item) <==> header.contains_key(item)
    &&& forall|idx: int| is_node(nodes, idx) ==> (#[trigger] path_of(nodes, idx)).len() <= height
}

/// The last node with an item, among the first `bound`, is one of them and carries
/// the item; where there is none, no node among them carries it.
pub proof fn lemma_last_with_item(nodes: Seq<Node>, item: u32, bound: int)
    requires
        bound <= nodes.len(),
    ensures
        0 <= last_with_item(nodes, item, bound),
        last_with_item(nodes, item, bound) != 0 ==> 1 <= last_with_item(nodes, item, bound)
            < bound && nodes[last_with_item(nodes, item, bound)].item == item,
        forall|idx: int|
            last_with_item(nodes, item, bound) < idx < bound && 1 <= idx ==> (
            #[trigger] nodes[idx]).item != item,
    decreases bound,
{
    if bound > 1 {
        lemma_last_with_item(nodes, item, bound - 1);
    }
}

/// What decides the links of the first `bound` nodes is their items alone.
pub proof fn lemma_last_with_item_frame(a: Seq<Node>, b: Seq<Node>, item: u32, bound: int)
    requires
        bound <= a.len(),
        bound <= b.len(),
        forall|idx: int| 0 <= idx < bound ==> (#[trigger] a[idx]).item == b[idx].item,
    ensures
        last_with_item(a, item, bound) == last_with_item(b, item, bound),
    decreases bound,
{
    if bound > 1 {
        lemma_last_with_item_frame(a, b, item, bound - 1);
    }
}

/// What decides the path of a node is the items and parents of the nodes up to it.
pub proof fn lemma_path_frame(a: Seq<Node>, b: Seq<Node>, idx: int)
    requires
        idx < a.len(),
        idx < b.len(),
        forall|j: int|
            0 <= j <= idx ==> (#[trigger] a[j]).item == b[j].item && a[j].parent == b[j].parent,
    ensures
        path_of(a, idx) == path_of(b, idx),
    decreases idx,
{
    if 1 <= idx && a[idx].parent < idx {
        lemma_path_frame(a, b, a[idx].parent as int);
    }
}

/// The path of a node below the root ends with the node's item, and before that is
/// the path of its parent; the root alone has the empty path.
pub proof fn lemma_path_shape(nodes: Seq<Node>, idx: int)
    requires
        is_node(nodes, idx),
        nodes[idx].parent < idx,
    ensures
        path_of(nodes, idx).len() >= 1,
        path_of(nodes, idx).last() == nodes[idx].item,
        path_of(nodes, idx).drop_last() == path_of(nodes, nodes[idx].parent as int),
{
    assert(path_of(nodes, nodes[idx].parent as int).push(nodes[idx].item).drop_last()
        =~= path_of(nodes, nodes[idx].parent as int));
}

/// Two nodes with one path are one node.
pub proof fn lemma_path_injective(
    nodes: Seq<Node>,
    edges: Map<u128, usize>,
    header: Map<u32, usize>,
    items: Seq<u32>,
    height: nat,
    a: int,
    b: int,
)
    requires
        shaped(nodes, edges, header, items, height),
        0 <= a < nodes.len(),
        0 <= b < nodes.len(),
        path_of(nodes, a) == path_of(nodes, b),
    ensures
        a == b,
    decreases a,
{
    if a >= 1 {
        assert(hangs(nodes, edges, a));
        lemma_path_shape(nodes, a);
        if b >= 1 {
            assert(hangs(nodes, edges, b));
            lemma_path_shape(nodes, b);
            lemma_path_injective(
                nodes,
                edges,
                header,
                items,
                height,
                nodes[a].parent as int,
                nodes[b].parent as int,
            );
        }
    } else {
        if b >= 1 {
            assert(hangs(nodes, edges, b));
            lemma_path_shape(nodes, b);
        }
    }
}

/// The key of an edge tells its parent and its item.
pub proof fn lemma_edge_key(parent: usize, item: u32, other_parent: usize, other_item: u32)
    requires
        edge_key(parent, item) == edge_key(other_parent, other_item),
    ensures
        parent == other_parent,
        item == other_item,
{
}

/// A count raised by a weight, but not beyond what 32 bits hold.
pub open spec fn raised(count: u32, weight: u32) -> u32 {
    if count + weight <= u32::MAX {
        (count + weight) as u32
    } else {
        u32::MAX
    }
}

/// A prefix tree of item sequences, each node with a count.
pub struct FPTree {
    nodes: Vec<Node>,
    edges: HashMap<u128, usize>,
    header: HashMap<u32, usize>,
    items: Vec<u32>,
    height: usize,
}

impl FPTree {
    /// The nodes, in the order of their creation; the root comes first.
    pub closed spec fn nodes(&self) -> Seq<Node> {
        self.nodes@
    }

    /// The items that the tree holds, in the order in which they first came.
    pub closed spec fn header_items(&self) -> Seq<u32> {
        self.items@
    }

    /// A bound on the length of the paths.
    pub closed spec fn spec_height(&self) -> nat {
        self.height as nat
    }

    /// The links of the tree are in order.
    pub closed spec fn well_formed(&self) -> bool {
        shaped(self.nodes@, self.edges@, self.header@, self.items@, self.height as nat)
    }

    /// Whether a node stands at the end of the path `path` from the root.
    pub open spec fn has_path(&self, path: Seq<u32>) -> bool {
        exists|idx: int| is_node(self.nodes(), idx)
            && (#[trigger] path_of(self.nodes(), idx)) == path
    }

    /// The node at the end of a path.
    pub open spec fn node_at(&self, path: Seq<u32>) -> int {
        choose|idx: int| is_node(self.nodes(), idx)
            && (#[trigger] path_of(self.nodes(), idx)) == path
    }

    /// The count of the node at the end of a path, or 0 where there is none.
    pub open spec fn count_at(&self, path: Seq<u32>) -> u32 {
        if self.has_path(path) {
            self.nodes()[self.node_at(path)].count
        } else {
            0
        }
    }

    /// A tree of the root alone.
    pub fn new() -> (tree: FPTree)
        ensures
            tree.well_formed(),
            tree.nodes().len() == 1,
            tree.spec_height() == 0,
            tree.header_items() == Seq::<u32>::empty(),
            forall|path: Seq<u32>| !tree.has_path(path),
    {
        let mut nodes: Vec<Node> = Vec::new();
        nodes.push(Node { item: 0, count: 0, parent: 0, next_sibling: 0 });
        let tree = FPTree {
            nodes,
            edges: HashMap::new(),
            header: HashMap::new(),
            items: Vec::new(),
            height: 0,
        };
        proof {
            assert forall|item: u32| #[trigger] heads(tree.nodes@, tree.header@, item) by {
                lemma_last_with_item(tree.nodes@, item, 1);
            }
        }
        tree
    }

    /// The number of nodes, the root among them.
    pub fn node_count(&self) -> (n: usize)
        ensures
            n == self.nodes().len(),
    {
        self.nodes.len()
    }

    /// A bound on the length of the paths: the length of the longest sequence
    /// inserted.
    pub fn height(&self) -> (h: usize)
        ensures
            h == self.spec_height(),
    {
        self.height
    }

    /// Node `idx`.
    pub fn node(&self, idx: usize) -> (node: Node)
        requires
            idx < self.nodes().len(),
        ensures
            node == self.nodes()[idx as int],
    {
        self.nodes[idx]
    }

    /// The child of `parent` that carries `item`, or 0 where it has none.
    pub fn child_of(&self, parent: usize, item: u32) -> (child: usize)
        requires
            self.well_formed(),
            parent < self.nodes().len(),
        ensures
            child != 0 ==> is_node(self.nodes(), child as int) && self.nodes()[child as int].parent
                == parent && self.nodes()[child as int].item == item,
            child == 0 ==> forall|idx: int|
                is_node(self.nodes(), idx) ==> !((#[trigger] self.nodes()[idx]).parent == parent
                    && self.nodes()[idx].item == item),
    {
        let key: u128 = (parent as u128) * 0x1_0000_0000 + (item as u128);
        let found = self.edges.get(&key);
        if found.is_some() {
            let child: usize = *found.unwrap();
            proof {
                assert(self.edges@.contains_key(key));
                assert(leads(self.nodes@, self.edges@, key));
                let c = child as int;
                lemma_edge_key(self.nodes@[c].parent, self.nodes@[c].item, parent, item);
            }
            child
        } else {
            proof {
                assert forall|idx: int| is_node(self.nodes(), idx) implies !((
                #[trigger] self.nodes()[idx]).parent == parent && self.nodes()[idx].item
                    == item) by {
                    assert(hangs(self.nodes@, self.edges@, idx));
                }
            }
            0
        }
    }

    /// The number of items on the way from the root down to node `idx`.
    pub fn depth(&self, idx: usize) -> (depth: usize)
        requires
            self.well_formed(),
            idx < self.nodes().len(),
        ensures
            depth == path_of(self.nodes(), idx as int).len(),
            depth <= idx,
    {
        let mut cur: usize = idx;
        let mut depth: usize = 0;
        while cur != 0
            invariant
                self.well_formed(),
                cur <= idx,
                idx < self.nodes@.len(),
                depth + cur <= idx,
                depth + path_of(self.nodes@, cur as int).len() == path_of(
                    self.nodes@,
                    idx as int,
                ).len(),
            decreases cur,
        {
            proof {
                assert(hangs(self.nodes@, self.edges@, cur as int));
            }
            cur = self.nodes[cur].parent;
            depth += 1;
        }
        depth
    }

    /// Hangs a new node with `item`, and the count 0, under `parent`, which has no
    /// child with that item yet; the new node goes to the front of the chain of its
    /// item, and the tree is as high as its new path at least.
    pub fn add_child(&mut self, parent: usize, item: u32) -> (child: usize)
        requires
            old(self).well_formed(),
            parent < old(self).nodes().len(),
            forall|idx: int|
                is_node(old(self).nodes(), idx) ==> !((#[trigger] old(self).nodes()[idx]).parent
                    == parent && old(self).nodes()[idx].item == item),
        ensures
            final(self).well_formed(),
            child == old(self).nodes().len(),
            final(self).nodes().len() == old(self).nodes().len() + 1,
            final(self).nodes().take(child as int) == old(self).nodes(),
            final(self).nodes()[child as int].item == item,
            final(self).nodes()[child as int].parent == parent,
            final(self).nodes()[child as int].count == 0,
            final(self).spec_height() == longer(
                old(self).spec_height(),
                path_of(old(self).nodes(), parent as int).len() + 1,
            ),
            final(self).header_items() == if old(self).header_items().contains(item) {
                old(self).header_items()
            } else {
                old(self).header_items().push(item)
            },
    {
        let len: usize = self.nodes.len();
        let above: usize = self.depth(parent);
        assert(above <= parent < len);
        let depth: usize = above + 1;
        if depth > self.height {
            self.height = depth;
        }
        self.hang(parent, item)
    }

    /// Hangs a new node under `parent`, in a tree that is high enough for its path.
    fn hang(&mut self, parent: usize, item: u32) -> (child: usize)
        requires
            old(self).well_formed(),
            parent < old(self).nodes().len(),
            path_of(old(self).nodes(), parent as int).len() < old(self).spec_height(),
            forall|idx: int|
                is_node(old(self).nodes(), idx) ==> !((#[trigger] old(self).nodes()[idx]).parent
                    == parent && old(self).nodes()[idx].item == item),
        ensures
            final(self).well_formed(),
            child == old(self).nodes().len(),
            final(self).nodes().len() == old(self).nodes().len() + 1,
            final(self).nodes().take(child as int) == old(self).nodes(),
            final(self).nodes()[child as int].item == item,
            final(self).nodes()[child as int].parent == parent,
            final(self).nodes()[child as int].count == 0,
            final(self).spec_height() == old(self).spec_height(),
            final(self).header_items() == if old(self).header_items().contains(item) {
                old(self).header_items()
            } else {
                old(self).header_items().push(item)
            },
    {
        let ghost nodes0 = self.nodes@;
        let ghost edges0 = self.edges@;
        let ghost header0 = self.header@;
        let ghost items0 = self.items@;
        let child: usize = self.nodes.len();
        let key: u128 = (parent as u128) * 0x1_0000_0000 + (item as u128);
        let head = self.header.get(&item);
        let known: bool = head.is_some();
        let next: usize = if known {
            *head.unwrap()
        } else {
            0
        };
        proof {
            assert(heads(nodes0, header0, item));
        }
        self.nodes.push(Node { item, count: 0, parent, next_sibling: next });
        self.edges.insert(key, child);
        self.header.insert(item, child);
        if !known {
            self.items.push(item);
        }
        proof {
            let nodes1 = self.nodes@;
            let edges1 = self.edges@;
            let header1 = self.header@;
            let items1 = self.items@;
            let n = child as int;
            assert(nodes1.take(n) =~= nodes0);
            assert forall|idx: int| is_node(nodes1, idx) implies #[trigger] hangs(
                nodes1,
                edges1,
                idx,
            ) by {
                lemma_last_with_item_frame(nodes1, nodes0, nodes1[idx].item, idx);
                if idx < n {
                    assert(hangs(nodes0, edges0, idx));
                    assert(nodes1[idx] == nodes0[idx]);
                    if edge_key(nodes0[idx].parent, nodes0[idx].item) == key {
                        lemma_edge_key(nodes0[idx].parent, nodes0[idx].item, parent, item);
                    }
                } else {
                    lemma_last_with_item(nodes0, item, n);
                }
            }
            assert forall|other: u128| #[trigger] edges1.contains_key(other) implies leads(
                nodes1,
                edges1,
                other,
            ) by {
                if other != key {
                    assert(edges0.contains_key(other));
                    assert(leads(nodes0, edges0, other));
                    assert(nodes1[edges0[other] as int] == nodes0[edges0[other] as int]);
                }
            }
            assert forall|other: u32| #[trigger] heads(nodes1, header1, other) by {
                assert(heads(nodes0, header0, other));
                lemma_last_with_item_frame(nodes1, nodes0, other, n);
            }
            assert forall|other: u32| #[trigger]
                items1.contains(other) <==> header1.contains_key(other) by {
                assert(items0.contains(other) <==> header0.contains_key(other));
                crate::itemset::lemma_push_contains(items0, item);
            }
            assert(items1.no_duplicates()) by {
                if !known {
                    assert(!items0.contains(item));
                    assert forall|i: int, j: int|
                        0 <= i < items1.len() && 0 <= j < items1.len() && i != j implies items1[i]
                        != items1[j] by {
                        if i < items0.len() {
                            assert(items0.contains(items0[i]));
                        }
                        if j < items0.len() {
                            assert(items0.contains(items0[j]));
                        }
                    }
                }
            }
            assert forall|idx: int| is_node(nodes1, idx) implies (#[trigger] path_of(
                nodes1,
                idx,
            )).len() <= self.height by {
                if idx < n {
                    lemma_path_frame(nodes1, nodes0, idx);
                    assert(path_of(nodes0, idx).len() <= self.height);
                } else {
                    lemma_path_frame(nodes1, nodes0, parent as int);
                }
            }
        }
        child
    }

    /// Raises the count of node `idx` by `weight`; a count that would pass the
    /// largest 32-bit number stays there.
    pub fn add_count(&mut self, idx: usize, weight: u32)
        requires
            old(self).well_formed(),
            is_node(old(self).nodes(), idx as int),
        ensures
            final(self).well_formed(),
            final(self).nodes() == old(self).nodes().update(
                idx as int,
                Node {
                    count: raised(old(self).nodes()[idx as int].count, weight),
                    ..old(self).nodes()[idx as int]
                },
            ),
            final(self).spec_height() == old(self).spec_height(),
            final(self).header_items() == old(self).header_items(),
    {
        let ghost nodes0 = self.nodes@;
        let node: Node = self.nodes[idx];
        let count: u32 = if node.count <= u32::MAX - weight {
            node.count + weight
        } else {
            u32::MAX
        };
        self.nodes.set(
            idx,
            Node {
                item: node.item,
                count,
                parent: node.parent,
                next_sibling: node.next_sibling,
            },
        );
        proof {
            let nodes1 = self.nodes@;
            assert forall|i: int| is_node(nodes1, i) implies #[trigger] hangs(
                nodes1,
                self.edges@,
                i,
            ) by {
                assert(hangs(nodes0, self.edges@, i));
                lemma_last_with_item_frame(nodes1, nodes0, nodes1[i].item, i);
            }
            assert forall|key: u128| #[trigger] self.edges@.contains_key(key) implies leads(
                nodes1,
                self.edges@,
                key,
            ) by {
                assert(leads(nodes0, self.edges@, key));
            }
            assert forall|item: u32| #[trigger] heads(nodes1, self.header@, item) by {
                assert(heads(nodes0, self.header@, item));
                lemma_last_with_item_frame(nodes1, nodes0, item, nodes1.len() as int);
            }
            assert forall|i: int| is_node(nodes1, i) implies (#[trigger] path_of(nodes1, i)).len()
                <= self.height by {
                lemma_path_frame(nodes1, nodes0, i);
                assert(path_of(nodes0, i).len() <= self.height);
            }
        }
    }
}

/// Whether a node of the tree stands at the end of `path`; the root stands at the
/// end of the empty path.
pub open spec fn placed(nodes: Seq<Node>, path: Seq<u32>) -> bool {
    exists|m: int| 0 <= m < nodes.len() && #[trigger] path_of(nodes, m) == path
}

/// Whether `path` is one of the prefixes of `sequence`, the empty one left out.
pub open spec fn nonempty_prefix(path: Seq<u32>, sequence: Seq<u32>) -> bool {
    1 <= path.len() <= sequence.len() && path == sequence.take(path.len() as int)
}

/// The larger of two lengths.
pub open spec fn longer(a: nat, b: nat) -> nat {
    if a >= b {
        a
    } else {
        b
    }
}

impl FPTree {
    /// A node is the node at the end of its path, and of no other path.
    pub proof fn lemma_node_at(&self, idx: int)
        requires
            self.well_formed(),
            is_node(self.nodes(), idx),
        ensures
            self.has_path(path_of(self.nodes(), idx)),
            self.node_at(path_of(self.nodes(), idx)) == idx,
            path_of(self.nodes(), idx).len() >= 1,
    {
        let path = path_of(self.nodes(), idx);
        let found = self.node_at(path);
        lemma_path_injective(
            self.nodes@,
            self.edges@,
            self.header@,
            self.items@,
            self.height as nat,
            found,
            idx,
        );
        assert(hangs(self.nodes@, self.edges@, idx));
        lemma_path_shape(self.nodes@, idx);
    }

    /// Two nodes have two paths.
    pub proof fn lemma_paths_differ(&self, a: int, b: int)
        requires
            self.well_formed(),
            0 <= a < self.nodes().len(),
            0 <= b < self.nodes().len(),
            a != b,
        ensures
            path_of(self.nodes(), a) != path_of(self.nodes(), b),
    {
        if path_of(self.nodes(), a) == path_of(self.nodes(), b) {
            lemma_path_injective(
                self.nodes@,
                self.edges@,
                self.header@,
                self.items@,
                self.height as nat,
                a,
                b,
            );
        }
    }

    /// With a path the tree holds each of its prefixes but the empty one.
    pub proof fn lemma_prefix_closed(&self, path: Seq<u32>, len: int)
        requires
            self.well_formed(),
            self.has_path(path),
            1 <= len <= path.len(),
        ensures
            self.has_path(path.take(len)),
        decreases path.len(),
    {
        if len < path.len() {
            let idx = self.node_at(path);
            assert(hangs(self.nodes@, self.edges@, idx));
            lemma_path_shape(self.nodes@, idx);
            let up = self.nodes@[idx].parent as int;
            assert(path_of(self.nodes@, up) == path.drop_last());
            assert(up >= 1) by {
                if up == 0 {
                    assert(path_of(self.nodes@, 0).len() == 0);
                }
            }
            assert(self.has_path(path.drop_last()));
            self.lemma_prefix_closed(path.drop_last(), len);
            assert(path.drop_last().take(len) =~= path.take(len));
        } else {
            assert(path.take(len) =~= path);
        }
    }

    /// No path of the tree is longer than its height, and none is empty.
    pub proof fn lemma_path_length(&self, path: Seq<u32>)
        requires
            self.well_formed(),
            self.has_path(path),
        ensures
            1 <= path.len() <= self.spec_height(),
    {
        let idx = self.node_at(path);
        self.lemma_node_at(idx);
    }

    /// The items of the header are the items at the ends of the paths, each once.
    pub proof fn lemma_header_items(&self)
        requires
            self.well_formed(),
        ensures
            self.header_items().no_duplicates(),
            forall|item: u32| #[trigger]
                self.header_items().contains(item) <==> self.ends_with(item),
    {
        assert forall|item: u32| #[trigger]
            self.header_items().contains(item) <==> self.ends_with(item) by {
            assert(heads(self.nodes@, self.header@, item));
            lemma_last_with_item(self.nodes@, item, self.nodes@.len() as int);
            if self.header_items().contains(item) {
                assert(self.header@.contains_key(item));
                let idx = last_with_item(self.nodes@, item, self.nodes@.len() as int);
                self.lemma_node_at(idx);
                assert(hangs(self.nodes@, self.edges@, idx));
                lemma_path_shape(self.nodes@, idx);
                assert(self.has_path(path_of(self.nodes@, idx)));
            }
            if self.ends_with(item) {
                let path = choose|path: Seq<u32>| #[trigger]
                    self.has_path(path) && path.last() == item;
                let idx = self.node_at(path);
                assert(hangs(self.nodes@, self.edges@, idx));
                lemma_path_shape(self.nodes@, idx);
                assert(self.nodes@[idx].item == item);
            }
        }
    }

    /// Whether some path of the tree ends with `item`.
    pub open spec fn ends_with(&self, item: u32) -> bool {
        exists|path: Seq<u32>| #[trigger] self.has_path(path) && path.last() == item
    }
}

/// What a new child does to the paths and counts of a tree.
proof fn lemma_child_added(a: &FPTree, b: &FPTree, parent: usize, item: u32)
    requires
        a.well_formed(),
        b.well_formed(),
        parent < a.nodes().len(),
        b.nodes().len() == a.nodes().len() + 1,
        b.nodes().take(a.nodes().len() as int) == a.nodes(),
        b.nodes()[a.nodes().len() as int].item == item,
        b.nodes()[a.nodes().len() as int].parent == parent,
        b.nodes()[a.nodes().len() as int].count == 0,
        forall|idx: int|
            is_node(a.nodes(), idx) ==> !((#[trigger] a.nodes()[idx]).parent == parent
                && a.nodes()[idx].item == item),
    ensures
        path_of(b.nodes(), a.nodes().len() as int) == path_of(a.nodes(), parent as int).push(item),
        path_of(b.nodes(), parent as int) == path_of(a.nodes(), parent as int),
        forall|idx: int|
            0 <= idx < a.nodes().len() ==> #[trigger] path_of(b.nodes(), idx) == path_of(
                a.nodes(),
                idx,
            ),
        !a.has_path(path_of(a.nodes(), parent as int).push(item)),
        forall|path: Seq<u32>| #[trigger]
            b.has_path(path) <==> (a.has_path(path) || path == path_of(
                a.nodes(),
                parent as int,
            ).push(item)),
        forall|path: Seq<u32>| #[trigger] b.count_at(path) == a.count_at(path),
{
    let n = a.nodes().len() as int;
    let fresh = path_of(a.nodes(), parent as int).push(item);
    assert forall|idx: int| 0 <= idx < n implies #[trigger] path_of(b.nodes(), idx) == path_of(
        a.nodes(),
        idx,
    ) by {
        assert forall|j: int| 0 <= j <= idx implies
            (#[trigger] b.nodes()[j]).item == a.nodes()[j].item
            && b.nodes()[j].parent == a.nodes()[j].parent by {
            assert(b.nodes().take(n)[j] == b.nodes()[j]);
        }
        lemma_path_frame(b.nodes(), a.nodes(), idx);
    }
    assert(path_of(b.nodes(), parent as int) == path_of(a.nodes(), parent as int));
    assert(path_of(b.nodes(), n) == fresh);
    if a.has_path(fresh) {
        let idx = a.node_at(fresh);
        assert(hangs(a.nodes@, a.edges@, idx));
        lemma_path_shape(a.nodes(), idx);
        assert(fresh.drop_last() =~= path_of(a.nodes(), parent as int));
        lemma_path_injective(
            a.nodes@,
            a.edges@,
            a.header@,
            a.items@,
            a.height as nat,
            a.nodes()[idx].parent as int,
            parent as int,
        );
        assert(false);
    }
    assert forall|path: Seq<u32>| #[trigger]
        b.has_path(path) <==> (a.has_path(path) || path == fresh) by {
        if b.has_path(path) {
            let idx = b.node_at(path);
            if idx < n {
                assert(path_of(a.nodes(), idx) == path);
            }
        }
        if a.has_path(path) {
            let idx = a.node_at(path);
            assert(path_of(b.nodes(), idx) == path);
        }
        if path == fresh {
            assert(path_of(b.nodes(), n) == path);
        }
    }
    assert forall|path: Seq<u32>| #[trigger] b.count_at(path) == a.count_at(path) by {
        if b.has_path(path) {
            let idx = b.node_at(path);
            if idx < n {
                assert(path_of(a.nodes(), idx) == path);
                a.lemma_node_at(idx);
                assert(b.nodes().take(n)[idx] == b.nodes()[idx]);
            }
        }
    }
}

/// What a raised count does to the paths and counts of a tree.
proof fn lemma_count_raised(a: &FPTree, b: &FPTree, node: usize, weight: u32)
    requires
        a.well_formed(),
        b.well_formed(),
        is_node(a.nodes(), node as int),
        b.nodes() == a.nodes().update(
            node as int,
            Node { count: raised(a.nodes()[node as int].count, weight), ..a.nodes()[node as int] },
        ),
    ensures
        forall|idx: int|
            0 <= idx < a.nodes().len() ==> #[trigger] path_of(b.nodes(), idx) == path_of(
                a.nodes(),
                idx,
            ),
        forall|path: Seq<u32>| #[trigger] b.has_path(path) <==> a.has_path(path),
        forall|path: Seq<u32>| #[trigger]
            b.count_at(path) == if path == path_of(a.nodes(), node as int) {
                raised(a.count_at(path), weight)
            } else {
                a.count_at(path)
            },
{
    assert forall|idx: int| 0 <= idx < a.nodes().len() implies #[trigger] path_of(
        b.nodes(),
        idx,
    ) == path_of(a.nodes(), idx) by {
        lemma_path_frame(b.nodes(), a.nodes(), idx);
    }
    assert forall|path: Seq<u32>| #[trigger] b.has_path(path) <==> a.has_path(path) by {
        if b.has_path(path) {
            let idx = b.node_at(path);
            assert(path_of(a.nodes(), idx) == path);
        }
        if a.has_path(path) {
            let idx = a.node_at(path);
            assert(path_of(b.nodes(), idx) == path);
        }
    }
    assert forall|path: Seq<u32>| #[trigger]
        b.count_at(path) == if path == path_of(a.nodes(), node as int) {
            raised(a.count_at(path), weight)
        } else {
            a.count_at(path)
        } by {
        if b.has_path(path) {
            let idx = b.node_at(path);
            assert(path_of(a.nodes(), idx) == path);
            a.lemma_node_at(idx);
            a.lemma_node_at(node as int);
        } else {
            a.lemma_node_at(node as int);
        }
    }
}

impl FPTree {
    /// Takes in an item sequence with a weight: the tree then holds each prefix of
    /// the sequence, and the count of each prefix has gone up by the weight. The
    /// node at the end of the sequence comes back.
    pub fn insert(&mut self, transaction: &Vec<u32>, weight: u32) -> (last: usize)
        requires
            old(self).well_formed(),
        ensures
            final(self).well_formed(),
            last < final(self).nodes().len(),
            path_of(final(self).nodes(), last as int) == transaction@,
            old(self).nodes().len() <= final(self).nodes().len() <= old(self).nodes().len()
                + transaction@.len(),
            final(self).spec_height() == longer(old(self).spec_height(), transaction@.len()),
            forall|idx: int|
                0 <= idx < old(self).nodes().len() ==> #[trigger] path_of(final(self).nodes(), idx)
                    == path_of(old(self).nodes(), idx),
            forall|path: Seq<u32>| #[trigger]
                final(self).has_path(path) <==> (old(self).has_path(path) || nonempty_prefix(
                    path,
                    transaction@,
                )),
            forall|path: Seq<u32>| #[trigger]
                final(self).count_at(path) == if nonempty_prefix(path, transaction@) {
                    raised(old(self).count_at(path), weight)
                } else {
                    old(self).count_at(path)
                },
    {
        let ghost tree0 = *self;
        if transaction.len() > self.height {
            self.height = transaction.len();
        }
        proof {
            assert(self.nodes() == tree0.nodes());
            assert forall|path: Seq<u32>| #[trigger] self.has_path(path) <==> tree0.has_path(
                path,
            ) by {}
            assert forall|path: Seq<u32>| #[trigger] self.count_at(path) ==
                tree0.count_at(path) by {}
            assert(transaction@.take(0) =~= Seq::<u32>::empty());
        }
        let mut cur: usize = 0;
        let mut k: usize = 0;
        while k < transaction.len()
            invariant
                k <= transaction.len(),
                self.well_formed(),
                tree0.well_formed(),
                cur < self.nodes().len(),
                path_of(self.nodes(), cur as int) == transaction@.take(k as int),
                tree0.nodes().len() <= self.nodes().len() <= tree0.nodes().len() + k,
                self.spec_height() == longer(tree0.spec_height(), transaction@.len()),
                forall|idx: int|
                    0 <= idx < tree0.nodes().len() ==> #[trigger] path_of(self.nodes(), idx)
                        == path_of(tree0.nodes(), idx),
                forall|path: Seq<u32>| #[trigger]
                    self.has_path(path) <==> (tree0.has_path(path) || (nonempty_prefix(
                        path,
                        transaction@,
                    ) && path.len() <= k)),
                forall|path: Seq<u32>| #[trigger]
                    self.count_at(path) == if nonempty_prefix(path, transaction@) && path.len()
                        <= k {
                        raised(tree0.count_at(path), weight)
                    } else {
                        tree0.count_at(path)
                    },
            decreases transaction.len() - k,
        {
            let item: u32 = transaction[k];
            let ghost before = *self;
            let ghost step = transaction@.take(k + 1);
            proof {
                assert(step =~= transaction@.take(k as int).push(item));
                assert(nonempty_prefix(step, transaction@)) by {
                    assert(transaction@.take(step.len() as int) =~= step);
                }
            }
            let mut child: usize = self.child_of(cur, item);
            if child == 0 {
                child = self.hang(cur, item);
                proof {
                    lemma_child_added(&before, self, cur, item);
                }
            } else {
                proof {
                    assert(hangs(self.nodes@, self.edges@, child as int));
                    lemma_path_shape(self.nodes(), child as int);
                    assert(path_of(self.nodes(), child as int) =~= step);
                    self.lemma_node_at(child as int);
                }
            }
            let ghost middle = *self;
            proof {
                assert(path_of(middle.nodes(), child as int) == step);
                assert forall|path: Seq<u32>| #[trigger]
                    middle.has_path(path) <==> (before.has_path(path) || path == step) by {
                    self.lemma_node_at(child as int);
                }
                assert forall|path: Seq<u32>| #[trigger] middle.count_at(path) == before.count_at(
                    path,
                ) by {}
            }
            self.add_count(child, weight);
            proof {
                lemma_count_raised(&middle, self, child, weight);
                assert forall|idx: int| 0 <= idx < tree0.nodes().len() implies #[trigger] path_of(
                    self.nodes(),
                    idx,
                ) == path_of(tree0.nodes(), idx) by {
                    assert(path_of(self.nodes(), idx) == path_of(middle.nodes(), idx));
                    assert(path_of(middle.nodes(), idx) == path_of(before.nodes(), idx));
                    assert(path_of(before.nodes(), idx) == path_of(tree0.nodes(), idx));
                }
                assert forall|path: Seq<u32>| #[trigger]
                    self.has_path(path) <==> (tree0.has_path(path) || (nonempty_prefix(
                        path,
                        transaction@,
                    ) && path.len() <= k + 1)) by {
                    assert(middle.has_path(path) <==> (before.has_path(path) || path == step));
                    assert(before.has_path(path) <==> (tree0.has_path(path) || (nonempty_prefix(
                        path,
                        transaction@,
                    ) && path.len() <= k)));
                }
                assert forall|path: Seq<u32>| #[trigger]
                    self.count_at(path) == if nonempty_prefix(path, transaction@) && path.len()
                        <= k + 1 {
                        raised(tree0.count_at(path), weight)
                    } else {
                        tree0.count_at(path)
                    } by {
                    assert(middle.count_at(path) == before.count_at(path));
                    assert(before.count_at(path) == if nonempty_prefix(path, transaction@)
                        && path.len() <= k {
                        raised(tree0.count_at(path), weight)
                    } else {
                        tree0.count_at(path)
                    });
                }
            }
            cur = child;
            k += 1;
        }
        proof {
            assert(transaction@.take(k as int) =~= transaction@);
        }
        cur
    }
}

/// A path with a weight: what one node of an item hands to the conditional tree of
/// that item.
#[derive(Debug)]
pub struct WeightedPath {
    pub items: Vec<u32>,
    pub weight: u32,
}

impl FPTree {
    /// The items that the tree holds, in the order in which they first came.
    pub fn items(&self) -> (items: &Vec<u32>)
        ensures
            items@ == self.header_items(),
    {
        &self.items
    }

    /// The path from the root down to the parent of node `idx`.
    pub fn prefix_path(&self, idx: usize) -> (path: Vec<u32>)
        requires
            self.well_formed(),
            is_node(self.nodes(), idx as int),
        ensures
            path@ == path_of(self.nodes(), idx as int).drop_last(),
    {
        let ghost target = path_of(self.nodes(), self.nodes()[idx as int].parent as int);
        proof {
            assert(hangs(self.nodes@, self.edges@, idx as int));
            lemma_path_shape(self.nodes(), idx as int);
        }
        let mut upward: Vec<u32> = Vec::new();
        let mut cur: usize = self.nodes[idx].parent;
        proof {
            assert(path_of(self.nodes(), cur as int) + upward@.reverse() =~= target);
        }
        while cur != 0
            invariant
                self.well_formed(),
                cur < self.nodes().len(),
                path_of(self.nodes(), cur as int) + upward@.reverse() == target,
            decreases cur,
        {
            let node: Node = self.nodes[cur];
            let ghost before = upward@;
            proof {
                assert(hangs(self.nodes@, self.edges@, cur as int));
            }
            upward.push(node.item);
            proof {
                let above = path_of(self.nodes(), node.parent as int);
                assert(path_of(self.nodes(), cur as int) == above.push(node.item));
                assert(upward@.reverse() =~= seq![node.item] + before.reverse());
                assert(above + upward@.reverse() =~= above.push(node.item) + before.reverse());
            }
            cur = node.parent;
        }
        proof {
            assert(path_of(self.nodes(), 0) =~= Seq::<u32>::empty());
            assert(upward@.reverse() =~= target);
        }
        let mut path: Vec<u32> = Vec::new();
        let mut left: usize = upward.len();
        while left > 0
            invariant
                left <= upward@.len(),
                path@.len() == upward@.len() - left,
                forall|i: int| 0 <= i < path@.len() ==> path@[i] == upward@[upward@.len() - 1 - i],
            decreases left,
        {
            left -= 1;
            path.push(upward[left]);
        }
        proof {
            assert(path@ =~= upward@.reverse());
        }
        path
    }

    /// The conditional pattern base of `item`: for each node that carries the item,
    /// the path down to its parent, with the count of the node.
    pub fn conditional_base(&self, item: u32) -> (base: Vec<WeightedPath>)
        requires
            self.well_formed(),
        ensures
            forall|k: int|
                0 <= k < base@.len() ==> self.has_path((#[trigger] base@[k]).items@.push(item))
                    && base@[k].weight == self.count_at(base@[k].items@.push(item)),
            forall|prefix: Seq<u32>| #[trigger]
                self.has_path(prefix.push(item)) ==> listed(base@, prefix),
            forall|a: int, b: int|
                0 <= a < b < base@.len() ==> (#[trigger] base@[a]).items@ != (
                #[trigger] base@[b]).items@,
    {
        let mut base: Vec<WeightedPath> = Vec::new();
        let ghost mut from: Seq<int> = Seq::empty();
        let head = self.header.get(&item);
        let mut idx: usize = if head.is_some() {
            *head.unwrap()
        } else {
            0
        };
        let ghost mut bound: int = self.nodes@.len() as int;
        proof {
            assert(heads(self.nodes@, self.header@, item));
            lemma_last_with_item(self.nodes@, item, bound);
        }
        while idx != 0
            invariant
                self.well_formed(),
                0 <= bound <= self.nodes@.len(),
                idx == last_with_item(self.nodes@, item, bound),
                idx < self.nodes@.len(),
                forall|k: int|
                    0 <= k < base@.len() ==> self.has_path((#[trigger] base@[k]).items@.push(item))
                        && base@[k].weight == self.count_at(base@[k].items@.push(item)),
                from.len() == base@.len(),
                forall|k: int|
                    0 <= k < base@.len() ==> bound <= (#[trigger] from[k]) < self.nodes@.len()
                        && base@[k].items@.push(item) == path_of(self.nodes@, from[k]),
                forall|a: int, b: int|
                    0 <= a < b < base@.len() ==> (#[trigger] base@[a]).items@ != (
                    #[trigger] base@[b]).items@,
                forall|j: int|
                    1 <= j && bound <= j < self.nodes@.len() && (#[trigger] self.nodes@[j]).item
                        == item ==> listed(base@, path_of(self.nodes@, j).drop_last()),
            decreases idx,
        {
            let ghost before = base@;
            proof {
                lemma_last_with_item(self.nodes@, item, bound);
                assert(hangs(self.nodes@, self.edges@, idx as int));
                lemma_path_shape(self.nodes@, idx as int);
                self.lemma_node_at(idx as int);
            }
            let node: Node = self.nodes[idx];
            let items: Vec<u32> = self.prefix_path(idx);
            proof {
                assert(items@.push(item) =~= path_of(self.nodes@, idx as int));
            }
            let ghost from0 = from;
            base.push(WeightedPath { items, weight: node.count });
            proof {
                from = from0.push(idx as int);
                assert forall|a: int, b: int| 0 <= a < b < base@.len() implies (
                #[trigger] base@[a]).items@ != (#[trigger] base@[b]).items@ by {
                    assert(base@[a] == before[a]);
                    if b < before.len() {
                        assert(base@[b] == before[b]);
                    } else {
                        assert(from0[a] >= bound);
                        self.lemma_paths_differ(from0[a], idx as int);
                        assert(before[a].items@.push(item) == path_of(self.nodes@, from0[a]));
                        if before[a].items@ == base@[b].items@ {
                            assert(before[a].items@.push(item) == base@[b].items@.push(item));
                        }
                    }
                }
                assert forall|k: int| 0 <= k < base@.len() implies idx <= (#[trigger] from[k])
                    < self.nodes@.len() && base@[k].items@.push(item) == path_of(
                    self.nodes@,
                    from[k],
                ) by {
                    if k < before.len() {
                        assert(from[k] == from0[k]);
                        assert(base@[k] == before[k]);
                    }
                }
                lemma_last_with_item(self.nodes@, item, idx as int);
                assert forall|j: int|
                    1 <= j && idx <= j < self.nodes@.len() && (#[trigger] self.nodes@[j]).item
                        == item implies listed(base@, path_of(self.nodes@, j).drop_last()) by {
                    if j == idx {
                        assert(base@[before.len() as int].items@ == path_of(
                            self.nodes@,
                            j,
                        ).drop_last());
                    } else {
                        assert(j >= bound);
                        assert(listed(before, path_of(self.nodes@, j).drop_last()));
                        let k = choose|k: int|
                            0 <= k < before.len() && (#[trigger] before[k]).items@ == path_of(
                                self.nodes@,
                                j,
                            ).drop_last();
                        assert(base@[k] == before[k]);
                    }
                }
                bound = idx as int;
            }
            idx = node.next_sibling;
        }
        proof {
            lemma_last_with_item(self.nodes@, item, bound);
            assert forall|prefix: Seq<u32>| #[trigger]
                self.has_path(prefix.push(item)) implies listed(base@, prefix) by {
                let path = prefix.push(item);
                let j = self.node_at(path);
                assert(hangs(self.nodes@, self.edges@, j));
                lemma_path_shape(self.nodes@, j);
                assert(self.nodes@[j].item == item);
                assert(path.drop_last() =~= prefix);
            }
        }
        base
    }
}

/// Whether a conditional pattern base lists `prefix`.
pub open spec fn listed(base: Seq<WeightedPath>, prefix: Seq<u32>) -> bool {
    exists|k: int| 0 <= k < base.len() && (#[trigger] base[k]).items@ == prefix
}

/// The two orders in which the items of a transaction can go by their frequency.
#[derive(Clone, Copy, Debug, PartialEq, Eq, Structural)]
pub enum SortOrder {
    /// Rare items first.
    Increasing,
    /// Frequent items first.
    Decreasing,
}

/// Whether item `a` comes before item `b`: by its count, in the order asked for,
/// and among items of one count by its id, the smaller first.
pub open spec fn comes_before(counts: Seq<u32>, order: SortOrder, a: u32, b: u32) -> bool {
    let count_a = count_in(counts, a);
    let count_b = count_in(counts, b);
    match order {
        SortOrder::Increasing => count_a < count_b || (count_a == count_b && a < b),
        SortOrder::Decreasing => count_a > count_b || (count_a == count_b && a < b),
    }
}

/// Whether the items of a sequence stand in the order of their frequency; an item
/// that stands twice stands side by side with itself.
pub open spec fn frequency_ordered(counts: Seq<u32>, order: SortOrder, items: Seq<u32>) -> bool {
    forall|i: int, j: int|
        0 <= i < j < items.len() ==> items[i] == items[j] || comes_before(
            counts,
            order,
            items[i],
            items[j],
        )
}

/// Whether a sequence holds no item twice and its items stand in the order of
/// their frequency.
pub open spec fn in_frequency_order(counts: Seq<u32>, order: SortOrder, items: Seq<u32>) -> bool {
    items.no_duplicates() && frequency_ordered(counts, order, items)
}

/// The items of a set in the order of their frequency.
pub open spec fn frequency_sorted(counts: Seq<u32>, order: SortOrder, items: Set<u32>) -> Seq<u32> {
    choose|s: Seq<u32>| in_frequency_order(counts, order, s) && s.to_set() == items
}

/// Two sequences in the order of their frequency that hold the same items are the
/// same sequence.
pub proof fn lemma_frequency_order_unique(
    counts: Seq<u32>,
    order: SortOrder,
    a: Seq<u32>,
    b: Seq<u32>,
)
    requires
        in_frequency_order(counts, order, a),
        in_frequency_order(counts, order, b),
        a.to_set() == b.to_set(),
    ensures
        a == b,
    decreases a.len(),
{
    if a.len() == 0 {
        if b.len() > 0 {
            assert(b.contains(b[0]));
            assert(b.to_set().contains(b[0]));
            assert(a.to_set().contains(b[0]));
        }
        assert(a =~= b);
    } else {
        let la = a.last();
        assert(a.contains(la));
        assert(a.to_set().contains(la));
        assert(b.contains(la));
        assert(b.len() > 0);
        let lb = b.last();
        assert(b.contains(lb));
        assert(b.to_set().contains(lb));
        assert(a.contains(lb));
        let ia = choose|i: int| 0 <= i < a.len() && a[i] == lb;
        let ib = choose|i: int| 0 <= i < b.len() && b[i] == la;
        if la != lb {
            assert(ia < a.len() - 1);
            assert(ib < b.len() - 1);
            assert(comes_before(counts, order, a[ia], a[a.len() - 1]));
            assert(comes_before(counts, order, b[ib], b[b.len() - 1]));
            assert(false);
        }
        let a0 = a.drop_last();
        let b0 = b.drop_last();
        assert forall|x: u32| a0.to_set().contains(x) <==> b0.to_set().contains(x) by {
            if a0.contains(x) {
                let i = choose|i: int| 0 <= i < a0.len() && a0[i] == x;
                assert(a[i] == x);
                assert(a.contains(x));
                assert(b.to_set().contains(x));
                let j = choose|j: int| 0 <= j < b.len() && b[j] == x;
                assert(j < b.len() - 1);
                assert(b0[j] == x);
            }
            if b0.contains(x) {
                let i = choose|i: int| 0 <= i < b0.len() && b0[i] == x;
                assert(b[i] == x);
                assert(b.contains(x));
                assert(a.to_set().contains(x));
                let j = choose|j: int| 0 <= j < a.len() && a[j] == x;
                assert(j < a.len() - 1);
                assert(a0[j] == x);
            }
        }
        assert(a0.to_set() =~= b0.to_set());
        lemma_frequency_order_unique(counts, order, a0, b0);
        assert(a =~= a0.push(la));
        assert(b =~= b0.push(lb));
    }
}

/// A sequence in the order of its items' frequency is the sorted sequence of its
/// items.
pub proof fn lemma_frequency_sorted(counts: Seq<u32>, order: SortOrder, items: Seq<u32>)
    requires
        in_frequency_order(counts, order, items),
    ensures
        frequency_sorted(counts, order, items.to_set()) == items,
{
    let chosen = frequency_sorted(counts, order, items.to_set());
    lemma_frequency_order_unique(counts, order, chosen, items);
}

/// The sort key of an item: its count, turned round for the decreasing order, and
/// behind it the id.
pub open spec fn frequency_key(counts: Seq<u32>, order: SortOrder, item: u32) -> u64 {
    match order {
        SortOrder::Increasing => pack(count_in(counts, item), item),
        SortOrder::Decreasing => pack((u32::MAX - count_in(counts, item)) as u32, item),
    }
}

/// Puts the items of a transaction in the order of their frequency, as the tree
/// wants them: the same items, each as often as before, the order by count and then
/// by id. Where no item stands twice, that is the one sorted sequence of the items.
/// The order comes from `Itertools::sorted`.
pub fn sort_transaction(transaction: &mut Vec<u32>, item_count: &ItemCount, order: SortOrder)
    ensures
        final(transaction)@.len() == old(transaction)@.len(),
        final(transaction)@.to_set() == old(transaction)@.to_set(),
        final(transaction)@.to_multiset() == old(transaction)@.to_multiset(),
        frequency_ordered(item_count@, order, final(transaction)@),
        old(transaction)@.no_duplicates() ==> final(transaction)@ == frequency_sorted(
            item_count@,
            order,
            old(transaction)@.to_set(),
        ),
{
    let ghost counts = item_count@;
    let ghost items = transaction@;
    let mut keys: Vec<u64> = Vec::new();
    let mut k: usize = 0;
    while k < transaction.len()
        invariant
            k <= transaction.len(),
            transaction@ == items,
            counts == item_count@,
            keys@.len() == k,
            forall|j: int|
                0 <= j < k ==> #[trigger] keys@[j] == frequency_key(counts, order, items[j]),
        decreases transaction.len() - k,
    {
        let item: u32 = transaction[k];
        let count: u32 = item_count.get(item);
        let key: u64 = match order {
            SortOrder::Increasing => pack_key(count, item),
            SortOrder::Decreasing => pack_key(u32::MAX - count, item),
        };
        keys.push(key);
        k += 1;
    }
    let sorted = sorted_keys(&keys);
    proof {
        broadcast use vstd::seq_lib::group_to_multiset_ensures;

        assert(sorted@.to_multiset().len() == sorted@.len());
        assert(keys@.to_multiset().len() == keys@.len());
        assert forall|p: int| 0 <= p < sorted@.len() implies items.contains(
            low_of(#[trigger] sorted@[p]),
        ) && sorted@[p] == frequency_key(counts, order, low_of(sorted@[p])) by {
            assert(sorted@.contains(sorted@[p]));
            assert(sorted@.to_multiset().count(sorted@[p]) > 0);
            assert(keys@.contains(sorted@[p]));
            let q = choose|q: int| 0 <= q < keys@.len() && keys@[q] == sorted@[p];
            assert(keys@[q] == frequency_key(counts, order, items[q]));
        }
        assert forall|q: int| 0 <= q < items.len() implies sorted@.contains(
            #[trigger] frequency_key(counts, order, items[q]),
        ) by {
            assert(keys@[q] == frequency_key(counts, order, items[q]));
            assert(keys@.contains(keys@[q]));
            assert(keys@.to_multiset().count(keys@[q]) > 0);
        }
        if items.no_duplicates() {
            assert(keys@.no_duplicates()) by {
                assert forall|a: int, b: int|
                    0 <= a < keys@.len() && 0 <= b < keys@.len() && a != b implies keys@[a]
                    != keys@[b] by {
                    assert(low_of(keys@[a]) == items[a]);
                    assert(low_of(keys@[b]) == items[b]);
                }
            }
            keys@.lemma_multiset_has_no_duplicates();
            sorted@.lemma_multiset_has_no_duplicates_conv();
        }
    }
    let mut out: Vec<u32> = Vec::new();
    let mut j: usize = 0;
    while j < sorted.len()
        invariant
            j <= sorted.len(),
            out@.len() == j,
            forall|p: int| 0 <= p < j ==> #[trigger] out@[p] == low_of(sorted@[p]),
        decreases sorted.len() - j,
    {
        out.push(key_low(sorted[j]));
        j += 1;
    }
    proof {
        assert forall|x: u32| out@.to_set().contains(x) <==> items.to_set().contains(x) by {
            if out@.contains(x) {
                let p = choose|p: int| 0 <= p < out@.len() && out@[p] == x;
                assert(items.contains(low_of(sorted@[p])));
            }
            if items.contains(x) {
                let q = choose|q: int| 0 <= q < items.len() && items[q] == x;
                assert(sorted@.contains(frequency_key(counts, order, items[q])));
                let p = choose|p: int|
                    0 <= p < sorted@.len() && sorted@[p] == frequency_key(counts, order, items[q]);
                assert(out@[p] == low_of(sorted@[p]));
            }
        }
        assert(out@.to_set() =~= items.to_set());
        assert(out@ =~= low_parts(sorted@));
        assert(items =~= low_parts(keys@)) by {
            assert forall|q: int| 0 <= q < items.len() implies items[q] == low_of(keys@[q]) by {
                assert(keys@[q] == frequency_key(counts, order, items[q]));
            }
        }
        lemma_low_parts(sorted@, keys@);
        assert forall|a: int, b: int| 0 <= a < b < out@.len() implies out@[a] == out@[b]
            || comes_before(counts, order, out@[a], out@[b]) by {
            assert(sorted@[a] <= sorted@[b]);
            assert(sorted@[a] == frequency_key(counts, order, low_of(sorted@[a])));
            assert(sorted@[b] == frequency_key(counts, order, low_of(sorted@[b])));
            assert(out@[a] == low_of(sorted@[a]));
            assert(out@[b] == low_of(sorted@[b]));
        }
        if items.no_duplicates() {
            assert forall|a: int, b: int|
                0 <= a < out@.len() && 0 <= b < out@.len() && a != b implies out@[a]
                != out@[b] by {
                assert(sorted@[a] != sorted@[b]);
                assert(sorted@[a] == frequency_key(counts, order, low_of(sorted@[a])));
                assert(sorted@[b] == frequency_key(counts, order, low_of(sorted@[b])));
            }
            lemma_frequency_sorted(counts, order, out@);
        }
    }
    *transaction = out;
}

impl FPTree {
    /// The node at the end of a path, if the tree has one; the root stands at the end
    /// of the empty path.
    pub fn find(&self, path: &Vec<u32>) -> (found: Option<usize>)
        requires
            self.well_formed(),
        ensures
            match found {
                Some(node) => node < self.nodes().len() && path_of(self.nodes(), node as int)
                    == path@,
                None => forall|idx: int|
                    0 <= idx < self.nodes().len() ==> #[trigger] path_of(self.nodes(), idx)
                        != path@,
            },
    {
        let mut cur: usize = 0;
        let mut k: usize = 0;
        proof {
            assert(path@.take(0) =~= Seq::<u32>::empty());
        }
        while k < path.len()
            invariant
                k <= path.len(),
                self.well_formed(),
                cur < self.nodes().len(),
                path_of(self.nodes(), cur as int) == path@.take(k as int),
            decreases path.len() - k,
        {
            let item: u32 = path[k];
            let child: usize = self.child_of(cur, item);
            proof {
                assert(path@.take(k + 1) =~= path@.take(k as int).push(item));
            }
            if child == 0 {
                proof {
                    assert forall|idx: int| 0 <= idx < self.nodes().len() implies
                        #[trigger] path_of(
                        self.nodes(),
                        idx,
                    ) != path@ by {
                        if path_of(self.nodes(), idx) == path@ {
                            assert(idx >= 1);
                            self.lemma_node_at(idx);
                            self.lemma_prefix_closed(path@, k + 1);
                            let step = self.node_at(path@.take(k + 1));
                            assert(hangs(self.nodes@, self.edges@, step));
                            lemma_path_shape(self.nodes@, step);
                            assert(path@.take(k + 1).drop_last() =~= path@.take(k as int));
                            self.lemma_paths_differ_or_same(self.nodes@[step].parent as int,
                                cur as int);
                            assert(false);
                        }
                    }
                }
                return None;
            }
            proof {
                assert(hangs(self.nodes@, self.edges@, child as int));
                lemma_path_shape(self.nodes@, child as int);
                assert(path_of(self.nodes(), child as int) =~= path@.take(k + 1));
            }
            cur = child;
            k += 1;
        }
        proof {
            assert(path@.take(k as int) =~= path@);
        }
        Some(cur)
    }

    /// Two nodes with one path are one node.
    pub proof fn lemma_paths_differ_or_same(&self, a: int, b: int)
        requires
            self.well_formed(),
            0 <= a < self.nodes().len(),
            0 <= b < self.nodes().len(),
            path_of(self.nodes(), a) == path_of(self.nodes(), b),
        ensures
            a == b,
    {
        if a != b {
            self.lemma_paths_differ(a, b);
        }
    }
}

/// The sum of the counts of the nodes `1..bound` that carry `item`.
pub open spec fn total_with_item(nodes: Seq<Node>, item: u32, bound: int) -> int
    decreases bound,
{
    if bound <= 1 {
        0
    } else {
        total_with_item(nodes, item, bound - 1) + if nodes[bound - 1].item == item {
            nodes[bound - 1].count as int
        } else {
            0
        }
    }
}

/// The nodes behind the last one with an item add nothing to the sum of its counts.
proof fn lemma_total_with_item(nodes: Seq<Node>, item: u32, bound: int)
    requires
        bound <= nodes.len(),
    ensures
        0 <= total_with_item(nodes, item, bound),
        bound >= 1 ==> total_with_item(nodes, item, bound) <= (bound - 1) * 0xffff_ffff,
        last_with_item(nodes, item, bound) == 0 ==> total_with_item(nodes, item, bound) == 0,
        last_with_item(nodes, item, bound) != 0 ==> total_with_item(nodes, item, bound)
            == total_with_item(nodes, item, last_with_item(nodes, item, bound))
            + nodes[last_with_item(nodes, item, bound)].count,
    decreases bound,
{
    if bound > 1 {
        lemma_total_with_item(nodes, item, bound - 1);
    }
}

impl FPTree {
    /// The sum of the counts of the nodes that carry `item`, found along the chain
    /// of the item.
    pub fn item_total(&self, item: u32) -> (sum: u128)
        requires
            self.well_formed(),
        ensures
            sum == total_with_item(self.nodes(), item, self.nodes().len() as int),
    {
        let head = self.header.get(&item);
        let mut idx: usize = if head.is_some() {
            *head.unwrap()
        } else {
            0
        };
        let ghost mut bound: int = self.nodes@.len() as int;
        let count: usize = self.nodes.len();
        let mut sum: u128 = 0;
        proof {
            assert(heads(self.nodes@, self.header@, item));
            lemma_last_with_item(self.nodes@, item, bound);
            lemma_total_with_item(self.nodes@, item, bound);
        }
        while idx != 0
            invariant
                self.well_formed(),
                count == self.nodes@.len(),
                1 <= bound <= self.nodes@.len(),
                idx == last_with_item(self.nodes@, item, bound),
                idx < bound,
                sum + total_with_item(self.nodes@, item, bound) == total_with_item(
                    self.nodes@,
                    item,
                    self.nodes@.len() as int,
                ),
                0 <= total_with_item(self.nodes@, item, bound),
                total_with_item(self.nodes@, item, self.nodes@.len() as int) <= (self.nodes@.len()
                    - 1) * 0xffff_ffff,
            decreases idx,
        {
            proof {
                lemma_total_with_item(self.nodes@, item, bound);
                lemma_last_with_item(self.nodes@, item, bound);
                assert(hangs(self.nodes@, self.edges@, idx as int));
                lemma_last_with_item(self.nodes@, item, idx as int);
                lemma_total_with_item(self.nodes@, item, idx as int);
                assert((count - 1) * 0xffff_ffff <= 0xffff_ffff_ffff_ffff * 0xffff_ffff);
            }
            let node: Node = self.nodes[idx];
            sum = sum + node.count as u128;
            proof {
                bound = idx as int;
            }
            idx = node.next_sibling;
        }
        proof {
            lemma_total_with_item(self.nodes@, item, bound);
        }
        sum
    }
}

/// Whether `short` is a prefix, not the empty one, of one of the first `upto` paths
/// of a conditional pattern base.
pub open spec fn drawn(base: Seq<WeightedPath>, upto: int, short: Seq<u32>) -> bool {
    exists|k: int| 0 <= k < upto && nonempty_prefix(short, (#[trigger] base[k]).items@)
}

/// The weight that the first `upto` paths of a conditional pattern base send
/// through `path`: the weights of those that `path` is a prefix of, added up, but
/// not beyond what 32 bits hold.
pub open spec fn weight_through(base: Seq<WeightedPath>, upto: int, path: Seq<u32>) -> u32
    decreases upto,
{
    if upto <= 0 {
        0
    } else if nonempty_prefix(path, base[upto - 1].items@) {
        raised(weight_through(base, upto - 1, path), base[upto - 1].weight)
    } else {
        weight_through(base, upto - 1, path)
    }
}

/// The length of the longest of the first `upto` paths of a conditional pattern
/// base.
pub open spec fn longest(base: Seq<WeightedPath>, upto: int) -> nat
    decreases upto,
{
    if upto <= 0 {
        0
    } else {
        longer(longest(base, upto - 1), base[upto - 1].items@.len())
    }
}

/// The longest path is as long as one of the paths, and none is longer.
pub proof fn lemma_longest(base: Seq<WeightedPath>, upto: int)
    requires
        0 <= upto <= base.len(),
    ensures
        forall|k: int| 0 <= k < upto ==> (#[trigger] base[k]).items@.len() <= longest(base, upto),
        upto > 0 ==> exists|k: int|
            0 <= k < upto && (#[trigger] base[k]).items@.len() == longest(base, upto),
        upto == 0 ==> longest(base, upto) == 0,
    decreases upto,
{
    if upto > 0 {
        lemma_longest(base, upto - 1);
        if base[upto - 1].items@.len() >= longest(base, upto - 1) {
            assert(base[upto - 1].items@.len() == longest(base, upto));
        } else {
            let k = choose|k: int|
                0 <= k < upto - 1 && (#[trigger] base[k]).items@.len() == longest(base, upto - 1);
            assert(base[k].items@.len() == longest(base, upto));
        }
    }
}

impl FPTree {
    /// The tree of a conditional pattern base: each path inserted with its weight.
    pub fn from_paths(base: &Vec<WeightedPath>) -> (tree: FPTree)
        ensures
            tree.well_formed(),
            tree.spec_height() == longest(base@, base@.len() as int),
            forall|path: Seq<u32>| #[trigger]
                tree.has_path(path) <==> drawn(base@, base@.len() as int, path),
            forall|path: Seq<u32>| #[trigger]
                tree.count_at(path) == weight_through(base@, base@.len() as int, path),
    {
        let mut tree = FPTree::new();
        let mut b: usize = 0;
        proof {
            assert forall|path: Seq<u32>| #[trigger] tree.count_at(path) == weight_through(
                base@,
                0,
                path,
            ) by {}
        }
        while b < base.len()
            invariant
                b <= base.len(),
                tree.well_formed(),
                tree.spec_height() == longest(base@, b as int),
                forall|path: Seq<u32>| #[trigger] tree.has_path(path) <==>
                    drawn(base@, b as int, path),
                forall|path: Seq<u32>| #[trigger]
                    tree.count_at(path) == weight_through(base@, b as int, path),
            decreases base.len() - b,
        {
            let ghost before = tree;
            tree.insert(&base[b].items, base[b].weight);
            proof {
                assert forall|path: Seq<u32>| #[trigger]
                    tree.has_path(path) <==> drawn(base@, b + 1, path) by {
                    assert(before.has_path(path) <==> drawn(base@, b as int, path));
                    if drawn(base@, b + 1, path) {
                        let k = choose|k: int|
                            0 <= k < b + 1 && nonempty_prefix(path, (#[trigger] base@[k]).items@);
                        if k < b {
                            assert(drawn(base@, b as int, path));
                        }
                    }
                    if drawn(base@, b as int, path) {
                        let k = choose|k: int|
                            0 <= k < b && nonempty_prefix(path, (#[trigger] base@[k]).items@);
                        assert(0 <= k < b + 1);
                    }
                    if nonempty_prefix(path, base@[b as int].items@) {
                        assert(drawn(base@, b + 1, path));
                    }
                }
                assert forall|path: Seq<u32>| #[trigger]
                    tree.count_at(path) == weight_through(base@, b + 1, path) by {
                    assert(before.count_at(path) == weight_through(base@, b as int, path));
                }
            }
            b += 1;
        }
        tree
    }
}

} // verus!
