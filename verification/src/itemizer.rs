//! The itemizer: item names on one side, dense item ids on the other.
//!
//! The names are found again through a prefix tree over their characters, so that
//! a lookup takes time by the length of the name, not by the number of names.

use crate::text::chars_of;
use crate::fptree::{path_of, FPTree};
use vstd::prelude::*;
use vstd::string::StringExecFns;

verus! {

/// Gives each item name an id, in the order in which the names are first seen:
/// the first name gets 1, the next new name 2, and so on. 0 names no item.
pub struct Itemizer {
    names: Vec<String>,
    trie: FPTree,
    ids: Vec<u32>,
}

impl View for Itemizer {
    type V = Seq<Seq<char>>;

    /// The names that have an id, in the order of their ids: the name of id `k` is
    /// at index `k - 1`.
    closed spec fn view(&self) -> Seq<Seq<char>> {
        Seq::new(self.names@.len(), |k: int| self.names@[k]@)
    }
}

/// The id that `names` gives to `name`, or 0 where it gives none.
pub open spec fn id_among(names: Seq<Seq<char>>, name: Seq<char>) -> nat {
    if names.contains(name) {
        (names.index_of(name) + 1) as nat
    } else {
        0
    }
}

/// Whether `id` is the id that `names` gives to `name`.
pub open spec fn named(names: Seq<Seq<char>>, id: u32, name: Seq<char>) -> bool {
    1 <= id <= names.len() && names[id - 1] == name
}

/// The names of an itemizer after it has seen one more name.
pub open spec fn taking(names: Seq<Seq<char>>, name: Seq<char>) -> Seq<Seq<char>> {
    if names.contains(name) {
        names
    } else {
        names.push(name)
    }
}

/// The names of an itemizer after it has seen a row of names, from left to right.
pub open spec fn fed(names: Seq<Seq<char>>, seen: Seq<Seq<char>>) -> Seq<Seq<char>>
    decreases seen.len(),
{
    if seen.len() == 0 {
        names
    } else {
        taking(fed(names, seen.drop_last()), seen.last())
    }
}

/// What a row of names says.
pub open spec fn texts_of(items: Seq<&str>) -> Seq<Seq<char>> {
    Seq::new(items.len(), |k: int| items[k]@)
}

/// The characters of a name as numbers.
pub open spec fn codes(name: Seq<char>) -> Seq<u32> {
    Seq::new(name.len(), |k: int| name[k] as u32)
}

/// Two names with the same numbers are one name.
pub proof fn lemma_codes_injective(a: Seq<char>, b: Seq<char>)
    requires
        codes(a) == codes(b),
    ensures
        a == b,
{
    assert(a.len() == codes(a).len());
    assert(b.len() == codes(b).len());
    assert forall|k: int| 0 <= k < a.len() implies a[k] == b[k] by {
        assert(codes(a)[k] == a[k] as u32);
        assert(codes(b)[k] == b[k] as u32);
        vstd::utf8::char_u32_cast(a[k], a[k] as u32);
        vstd::utf8::char_u32_cast(b[k], b[k] as u32);
    }
    assert(a =~= b);
}

/// The characters of a name as numbers.
pub fn to_codes(name: &str) -> (numbers: Vec<u32>)
    ensures
        numbers@ == codes(name@),
{
    let chars = chars_of(name);
    let len: usize = chars.len();
    let mut numbers: Vec<u32> = Vec::new();
    let mut k: usize = 0;
    while k < len
        invariant
            k <= len,
            chars@ == name@,
            len == name@.len(),
            numbers@.len() == k,
            forall|j: int| 0 <= j < k ==> numbers@[j] == name@[j] as u32,
        decreases len - k,
    {
        let c: char = chars[k];
        numbers.push(c as u32);
        k += 1;
    }
    proof {
        assert(numbers@ =~= codes(name@));
    }
    numbers
}

/// Whether the node of the tree that carries an id stands at the end of the name of
/// that id.
pub open spec fn labelled(
    nodes: Seq<crate::fptree::Node>,
    ids: Seq<u32>,
    names: Seq<Seq<char>>,
    n: int,
) -> bool {
    ids[n] != 0 ==> 1 <= ids[n] <= names.len() && codes(names[ids[n] - 1]) == path_of(nodes, n)
}

/// Whether a node of the tree stands at the end of name `k` and carries its id.
pub open spec fn indexed(
    nodes: Seq<crate::fptree::Node>,
    ids: Seq<u32>,
    names: Seq<Seq<char>>,
    k: int,
) -> bool {
    exists|n: int|
        0 <= n < nodes.len() && #[trigger] path_of(nodes, n) == codes(names[k]) && ids[n] == k + 1
}

impl Itemizer {
    /// No name has two ids, the ids fit 32 bits, and the tree finds each name.
    pub closed spec fn well_formed(&self) -> bool {
        &&& self@.no_duplicates()
        &&& self@.len() <= u32::MAX
        &&& self.trie.well_formed()
        &&& self.ids@.len() == self.trie.nodes().len()
        &&& forall|n: int|
            0 <= n < self.ids@.len() ==> #[trigger] labelled(
                self.trie.nodes(),
                self.ids@,
                self@,
                n,
            )
        &&& forall|k: int|
            0 <= k < self@.len() ==> #[trigger] indexed(self.trie.nodes(), self.ids@, self@, k)
    }

    /// No name has two ids, and the ids fit 32 bits.
    pub proof fn lemma_names(&self)
        requires
            self.well_formed(),
        ensures
            self@.no_duplicates(),
            self@.len() <= u32::MAX,
    {
    }

    /// Whether `id` has been given to a name.
    pub open spec fn assigned(&self, id: u32) -> bool {
        1 <= id <= self@.len()
    }

    /// An itemizer that has seen no name.
    pub fn new() -> (itemizer: Itemizer)
        ensures
            itemizer.well_formed(),
            itemizer@ == Seq::<Seq<char>>::empty(),
    {
        let mut ids: Vec<u32> = Vec::new();
        ids.push(0);
        let itemizer = Itemizer { names: Vec::new(), trie: FPTree::new(), ids };
        assert(itemizer@ =~= Seq::<Seq<char>>::empty());
        itemizer
    }

    /// The id of `item`, or 0 where it has none yet.
    pub fn lookup(&self, item: &str) -> (id: u32)
        requires
            self.well_formed(),
        ensures
            id == id_among(self@, item@),
    {
        let numbers = to_codes(item);
        let found = self.trie.find(&numbers);
        let id: u32 = match found {
            Some(node) => self.ids[node],
            None => 0,
        };
        proof {
            let nodes = self.trie.nodes();
            if id != 0 {
                let node = found->Some_0 as int;
                assert(labelled(nodes, self.ids@, self@, node));
                lemma_codes_injective(self@[id - 1], item@);
                assert(self@.contains(item@));
                let first = self@.index_of(item@);
                assert(self@[first] == item@);
            } else {
                if self@.contains(item@) {
                    let k = choose|k: int| 0 <= k < self@.len() && self@[k] == item@;
                    assert(indexed(nodes, self.ids@, self@, k));
                    let n = choose|n: int|
                        0 <= n < nodes.len() && #[trigger] path_of(nodes, n) == codes(self@[k])
                            && self.ids@[n] == k + 1;
                    if found is Some {
                        self.trie.lemma_paths_differ_or_same(n, found->Some_0 as int);
                    } else {
                        assert(path_of(nodes, n) != numbers@);
                    }
                    assert(false);
                }
            }
        }
        id
    }

    /// The id of `item`: the one it has, or else the next unused one, which it then
    /// keeps.
    pub fn id_of(&mut self, item: &str) -> (id: u32)
        requires
            old(self).well_formed(),
            old(self)@.len() < u32::MAX,
        ensures
            final(self).well_formed(),
            named(final(self)@, id, item@),
            old(self)@.contains(item@) ==> final(self)@ == old(self)@,
            !old(self)@.contains(item@) ==> final(self)@ == old(self)@.push(item@),
            old(self)@.is_prefix_of(final(self)@),
            id == id_among(final(self)@, item@),
    {
        let known = self.lookup(item);
        if known != 0 {
            proof {
                let first = self@.index_of(item@);
                assert(self@[first] == item@);
            }
            return known;
        }
        let ghost before = self@;
        let ghost trie0 = self.trie;
        let ghost ids0 = self.ids@;
        let numbers = to_codes(item);
        let node: usize = self.trie.insert(&numbers, 1);
        let ghost trie1 = self.trie;
        while self.ids.len() < self.trie.node_count()
            invariant
                self.trie == trie1,
                self@ == before,
                ids0.len() <= self.ids@.len() <= self.trie.nodes().len(),
                self.ids@.take(ids0.len() as int) == ids0,
                forall|n: int| ids0.len() <= n < self.ids@.len() ==> (#[trigger] self.ids@[n]) == 0,
            decreases self.trie.nodes().len() - self.ids@.len(),
        {
            let ghost grown = self.ids@;
            self.ids.push(0);
            proof {
                assert(self.ids@.take(ids0.len() as int) =~= grown.take(ids0.len() as int));
            }
        }
        let ghost ids1 = self.ids@;
        let id: u32 = (self.names.len() + 1) as u32;
        self.ids.set(node, id);
        self.names.push(String::from_str(item));
        proof {
            let nodes = self.trie.nodes();
            assert(self@ =~= before.push(item@));
            assert forall|i: int, j: int|
                0 <= i < self@.len() && 0 <= j < self@.len() && i != j implies self@[i]
                != self@[j] by {
                if i < before.len() {
                    assert(before.contains(before[i]));
                }
                if j < before.len() {
                    assert(before.contains(before[j]));
                }
            }
            assert(self@[before.len() as int] == item@);
            assert(self@.contains(item@));
            let first = self@.index_of(item@);
            assert(self@[first] == item@);
            assert forall|n: int| 0 <= n < self.ids@.len() implies #[trigger] labelled(
                nodes,
                self.ids@,
                self@,
                n,
            ) by {
                if n != node {
                    if n < ids0.len() {
                        assert(ids1.take(ids0.len() as int)[n] == ids1[n]);
                        assert(labelled(trie0.nodes(), ids0, before, n));
                        assert(path_of(nodes, n) == path_of(trie0.nodes(), n));
                        if ids0[n] != 0 {
                            assert(self@[ids0[n] - 1] == before[ids0[n] - 1]);
                        }
                    } else {
                        assert(ids1[n] == 0);
                    }
                }
            }
            assert forall|k: int| 0 <= k < self@.len() implies #[trigger] indexed(
                nodes,
                self.ids@,
                self@,
                k,
            ) by {
                if k < before.len() {
                    assert(indexed(trie0.nodes(), ids0, before, k));
                    let n = choose|n: int|
                        0 <= n < trie0.nodes().len() && #[trigger] path_of(trie0.nodes(), n)
                            == codes(before[k]) && ids0[n] == k + 1;
                    assert(path_of(nodes, n) == path_of(trie0.nodes(), n));
                    assert(ids1.take(ids0.len() as int)[n] == ids1[n]);
                    if n == node {
                        lemma_codes_injective(before[k], item@);
                        assert(before.contains(before[k]));
                        assert(false);
                    }
                    assert(self@[k] == before[k]);
                } else {
                    assert(path_of(nodes, node as int) == codes(self@[k]));
                }
            }
        }
        id
    }

    /// The name of an id that has been given out.
    pub fn str_of(&self, id: u32) -> (name: String)
        requires
            self.assigned(id),
        ensures
            name@ == self@[id - 1],
    {
        self.names[(id - 1) as usize].clone()
    }

    /// The largest id given out so far, or 0 where none has been.
    pub fn max_item_id(&self) -> (id: u32)
        requires
            self.well_formed(),
        ensures
            id == self@.len(),
    {
        self.names.len() as u32
    }

    /// The ids of a row of names, each name treated as by `id_of`, from left to right.
    pub fn to_id_vec(&mut self, items: &[&str]) -> (ids: Vec<u32>)
        requires
            old(self).well_formed(),
            old(self)@.len() + items@.len() <= u32::MAX,
        ensures
            final(self).well_formed(),
            final(self)@ == fed(old(self)@, texts_of(items@)),
            ids@.len() == items@.len(),
            old(self)@.is_prefix_of(final(self)@),
            final(self)@.len() <= old(self)@.len() + items@.len(),
            forall|k: int|
                0 <= k < items@.len() ==> #[trigger] named(final(self)@, ids@[k], items@[k]@),
    {
        let mut ids: Vec<u32> = Vec::new();
        let mut k: usize = 0;
        proof {
            assert(texts_of(items@).take(0) =~= Seq::<Seq<char>>::empty());
        }
        while k < items.len()
            invariant
                k <= items.len(),
                self.well_formed(),
                self@ == fed(old(self)@, texts_of(items@).take(k as int)),
                ids@.len() == k,
                old(self)@.is_prefix_of(self@),
                self@.len() <= old(self)@.len() + k,
                old(self)@.len() + items@.len() <= u32::MAX,
                forall|j: int| 0 <= j < k ==> #[trigger] named(self@, ids@[j], items@[j]@),
            decreases items.len() - k,
        {
            let ghost before = self@;
            let id = self.id_of(items[k]);
            ids.push(id);
            proof {
                assert(before.is_prefix_of(self@));
                assert(texts_of(items@).take(k + 1).drop_last() =~= texts_of(items@).take(
                    k as int,
                ));
                assert(texts_of(items@).take(k + 1).last() == items@[k as int]@);
                assert forall|j: int| 0 <= j < k + 1 implies #[trigger] named(
                    self@,
                    ids@[j],
                    items@[j]@,
                ) by {
                    if j < k {
                        assert(named(before, ids@[j], items@[j]@));
                    }
                }
            }
            k += 1;
        }
        proof {
            assert(texts_of(items@).take(k as int) =~= texts_of(items@));
        }
        ids
    }
}

} // verus!
