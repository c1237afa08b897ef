//! Itemsets: strictly ascending vectors of item ids, and the operations on them.

use itertools::Itertools;
use vstd::prelude::*;

verus! {

/// An itemset is kept as the strictly ascending sequence of its items.
pub open spec fn strictly_ascending(s: Seq<u32>) -> bool {
    forall|i: int, j: int| 0 <= i < j < s.len() ==> s[i] < s[j]
}

/// A sequence of sort keys in ascending order; equal keys may stand side by side.
pub open spec fn ascending_keys(s: Seq<u64>) -> bool {
    forall|i: int, j: int| 0 <= i <= j < s.len() ==> s[i] <= s[j]
}

/// One step of a prefix: what `s.take(k + 1)` holds is what `s.take(k)` holds, and `s[k]`.
pub proof fn lemma_take_step<A>(s: Seq<A>, k: int)
    requires
        0 <= k < s.len(),
    ensures
        s.take(k + 1) == s.take(k).push(s[k]),
        forall|x: A| s.take(k + 1).contains(x) <==> (s.take(k).contains(x) || x == s[k]),
{
    assert(s.take(k + 1) =~= s.take(k).push(s[k]));
    lemma_push_contains(s.take(k), s[k]);
}

/// What `s.push(v)` holds is what `s` holds, and `v`.
pub proof fn lemma_push_contains<A>(s: Seq<A>, v: A)
    ensures
        forall|x: A| s.push(v).contains(x) <==> (s.contains(x) || x == v),
{
    let t = s.push(v);
    assert forall|x: A| t.contains(x) <==> (s.contains(x) || x == v) by {
        if t.contains(x) {
            let i = choose|i: int| 0 <= i < t.len() && t[i] == x;
            if i < s.len() {
                assert(s[i] == x);
            }
        }
        if s.contains(x) {
            let i = choose|i: int| 0 <= i < s.len() && s[i] == x;
            assert(t[i] == x);
        }
        if x == v {
            assert(t[s.len() as int] == x);
        }
    }
}

/// Two strictly ascending sequences that hold the same items are the same sequence.
pub proof fn lemma_ascending_unique(a: Seq<u32>, b: Seq<u32>)
    requires
        strictly_ascending(a),
        strictly_ascending(b),
        a.to_set() == b.to_set(),
    ensures
        a == b,
    decreases a.len(),
{
    if a.len() == 0 {
        if b.len() > 0 {
            assert(b.contains(b[0]));
            assert(b.to_set().contains(b[0]));
            assert(a.to_set().contains(b[0]));
        }
        assert(a =~= b);
    } else {
        let la = a.last();
        assert(a.contains(la));
        assert(a.to_set().contains(la));
        assert(b.contains(la));
        assert(b.len() > 0);
        let lb = b.last();
        assert(b.contains(lb));
        assert(b.to_set().contains(lb));
        assert(a.contains(lb));
        let ia = choose|i: int| 0 <= i < a.len() && a[i] == lb;
        let ib = choose|i: int| 0 <= i < b.len() && b[i] == la;
        assert(lb <= la);
        assert(la <= lb);
        let a0 = a.drop_last();
        let b0 = b.drop_last();
        assert forall|x: u32| a0.to_set().contains(x) <==> b0.to_set().contains(x) by {
            if a0.contains(x) {
                let i = choose|i: int| 0 <= i < a0.len() && a0[i] == x;
                assert(a[i] == x);
                assert(a.contains(x));
                assert(b.to_set().contains(x));
                let j = choose|j: int| 0 <= j < b.len() && b[j] == x;
                assert(x < la);
                assert(j < b.len() - 1);
                assert(b0[j] == x);
            }
            if b0.contains(x) {
                let i = choose|i: int| 0 <= i < b0.len() && b0[i] == x;
                assert(b[i] == x);
                assert(b.contains(x));
                assert(a.to_set().contains(x));
                let j = choose|j: int| 0 <= j < a.len() && a[j] == x;
                assert(x < lb);
                assert(j < a.len() - 1);
                assert(a0[j] == x);
            }
        }
        assert(a0.to_set() =~= b0.to_set());
        lemma_ascending_unique(a0, b0);
        assert(a =~= a0.push(la));
        assert(b =~= b0.push(lb));
    }
}

/// The union of two itemsets, by one pass over both.
pub fn union(a: &Vec<u32>, b: &Vec<u32>) -> (c: Vec<u32>)
    requires
        strictly_ascending(a@),
        strictly_ascending(b@),
    ensures
        strictly_ascending(c@),
        c@.to_set() == a@.to_set().union(b@.to_set()),
{
    let mut c: Vec<u32> = Vec::new();
    let mut ap: usize = 0;
    let mut bp: usize = 0;
    while ap < a.len() || bp < b.len()
        invariant
            ap <= a.len(),
            bp <= b.len(),
            strictly_ascending(a@),
            strictly_ascending(b@),
            strictly_ascending(c@),
            forall|k: int| 0 <= k < c.len() && ap < a.len() ==> c[k] < a[ap as int],
            forall|k: int| 0 <= k < c.len() && bp < b.len() ==> c[k] < b[bp as int],
            forall|x: u32|
                c@.contains(x) <==> (a@.take(ap as int).contains(x) || b@.take(bp as int).contains(
                    x,
                )),
        decreases (a.len() - ap) + (b.len() - bp),
    {
        let ghost c0 = c@;
        let ghost ap0 = ap as int;
        let ghost bp0 = bp as int;
        let take_a: bool = bp >= b.len() || (ap < a.len() && a[ap] <= b[bp]);
        let take_b: bool = ap >= a.len() || (bp < b.len() && b[bp] <= a[ap]);
        let v: u32 = if take_a { a[ap] } else { b[bp] };
        c.push(v);
        if take_a {
            ap += 1;
        }
        if take_b {
            bp += 1;
        }
        proof {
            lemma_push_contains(c0, v);
            if take_a {
                lemma_take_step(a@, ap0);
            }
            if take_b {
                lemma_take_step(b@, bp0);
            }
            assert forall|x: u32|
                c@.contains(x) <==> (a@.take(ap as int).contains(x) || b@.take(bp as int).contains(
                    x,
                )) by {
                assert(c@ == c0.push(v));
                assert(c0.contains(x) <==> (a@.take(ap0).contains(x) || b@.take(bp0).contains(x)));
            }
        }
    }
    proof {
        assert(a@.take(ap as int) =~= a@);
        assert(b@.take(bp as int) =~= b@);
        assert(c@.to_set() =~= a@.to_set().union(b@.to_set()));
    }
    c
}

/// The test that every item but `item` passes.
pub open spec fn differs_from(item: u32) -> spec_fn(u32) -> bool {
    |x: u32| x != item
}

/// The items of `items` but `item`, in their order.
pub open spec fn without(items: Seq<u32>, item: u32) -> Seq<u32> {
    items.filter(differs_from(item))
}

/// Takes `item` out of `items`: what is left, in its order, and `item` alone.
pub fn split_out_item(items: &Vec<u32>, item: u32) -> (parts: (Vec<u32>, Vec<u32>))
    ensures
        parts.0@ == without(items@, item),
        parts.1@ == seq![item],
{
    let mut antecedent: Vec<u32> = Vec::new();
    let mut k: usize = 0;
    while k < items.len()
        invariant
            k <= items.len(),
            antecedent@ == without(items@.take(k as int), item),
        decreases items.len() - k,
    {
        proof {
            lemma_take_step(items@, k as int);
            items@.take(k as int).lemma_filter_push(items[k as int], differs_from(item));
        }
        if items[k] != item {
            antecedent.push(items[k]);
        }
        k += 1;
    }
    proof {
        assert(items@.take(k as int) =~= items@);
    }
    let mut consequent: Vec<u32> = Vec::new();
    consequent.push(item);
    assert(consequent@ =~= seq![item]);
    (antecedent, consequent)
}

/// What is left of an itemset without one of its items is an itemset, and holds the rest.
pub proof fn lemma_split_out(items: Seq<u32>, item: u32)
    requires
        strictly_ascending(items),
    ensures
        strictly_ascending(without(items, item)),
        forall|x: u32| without(items, item).contains(x) <==> (items.contains(x) && x != item),
        without(items, item).to_set() == items.to_set().remove(item),
    decreases items.len(),
{
    let pred = differs_from(item);
    let rest = without(items, item);
    if items.len() == 0 {
        reveal(Seq::filter);
        assert(rest =~= Seq::<u32>::empty());
    } else {
        let head = items.drop_last();
        let last = items.last();
        assert(items =~= head.push(last));
        lemma_split_out(head, item);
        head.lemma_filter_push(last, pred);
        lemma_push_contains(head, last);
        let head_rest = without(head, item);
        lemma_push_contains(head_rest, last);
        assert forall|i: int| 0 <= i < head_rest.len() implies head_rest[i] < last by {
            assert(head_rest.contains(head_rest[i]));
            assert(head.contains(head_rest[i]));
            let j = choose|j: int| 0 <= j < head.len() && head[j] == head_rest[i];
            assert(items[j] == head_rest[i]);
        }
        assert(pred(last) == (last != item));
        assert(rest == if last != item {
            head_rest.push(last)
        } else {
            head_rest
        });
        assert forall|x: u32| rest.contains(x) <==> (items.contains(x) && x != item) by {
            assert(head_rest.contains(x) <==> (head.contains(x) && x != item));
            assert(items.contains(x) <==> (head.contains(x) || x == last));
            assert(head_rest.push(last).contains(x) <==> (head_rest.contains(x) || x == last));
        }
    }
    assert forall|x: u32| rest.to_set().contains(x) <==> items.to_set().remove(item).contains(
        x,
    ) by {
        assert(rest.contains(x) <==> (items.contains(x) && x != item));
    }
    assert(rest.to_set() =~= items.to_set().remove(item));
}

/// What two itemsets have in common, by one pass over both.
pub fn intersect(a: &Vec<u32>, b: &Vec<u32>) -> (c: Vec<u32>)
    requires
        strictly_ascending(a@),
        strictly_ascending(b@),
    ensures
        strictly_ascending(c@),
        forall|x: u32| c@.contains(x) <==> (a@.contains(x) && b@.contains(x)),
{
    let mut c: Vec<u32> = Vec::new();
    let mut ap: usize = 0;
    let mut bp: usize = 0;
    while ap < a.len() && bp < b.len()
        invariant
            ap <= a.len(),
            bp <= b.len(),
            strictly_ascending(a@),
            strictly_ascending(b@),
            strictly_ascending(c@),
            forall|k: int| 0 <= k < c.len() && ap < a.len() ==> c[k] < a[ap as int],
            forall|k: int| 0 <= k < c.len() && bp < b.len() ==> c[k] < b[bp as int],
            forall|k: int| 0 <= k < c.len() ==> a@.contains(c[k]) && b@.contains(c[k]),
            forall|i: int, j: int|
                0 <= i < ap && 0 <= j < b.len() && a[i] == b[j] ==> c@.contains(a[i]),
            forall|i: int, j: int|
                0 <= i < a.len() && 0 <= j < bp && a[i] == b[j] ==> c@.contains(a[i]),
        decreases (a.len() - ap) + (b.len() - bp),
    {
        let ghost c0 = c@;
        let x: u32 = a[ap];
        let y: u32 = b[bp];
        if x < y {
            ap += 1;
        } else if y < x {
            bp += 1;
        } else {
            c.push(x);
            proof {
                lemma_push_contains(c0, x);
                assert(a@.contains(x));
                assert(b@.contains(y));
                assert forall|k: int| 0 <= k < c.len() implies a@.contains(c[k]) && b@.contains(
                    c[k],
                ) by {
                    if k < c0.len() {
                        assert(c[k] == c0[k]);
                    }
                }
                assert forall|i: int, j: int|
                    0 <= i < ap + 1 && 0 <= j < b.len() && a[i] == b[j] implies c@.contains(
                    a[i],
                ) by {
                    if i < ap {
                        assert(c0.contains(a[i]));
                    }
                }
                assert forall|i: int, j: int|
                    0 <= i < a.len() && 0 <= j < bp + 1 && a[i] == b[j] implies c@.contains(
                    a[i],
                ) by {
                    if j < bp {
                        assert(c0.contains(a[i]));
                    }
                }
            }
            ap += 1;
            bp += 1;
        }
    }
    proof {
        assert forall|x: u32| c@.contains(x) <==> (a@.contains(x) && b@.contains(x)) by {
            if c@.contains(x) {
                let k = choose|k: int| 0 <= k < c.len() && c[k] == x;
                assert(a@.contains(c[k]) && b@.contains(c[k]));
            }
            if a@.contains(x) && b@.contains(x) {
                let i = choose|i: int| 0 <= i < a.len() && a[i] == x;
                let j = choose|j: int| 0 <= j < b.len() && b[j] == x;
                assert(a[i] == b[j]);
            }
        }
    }
    c
}

/// A copy of a vector of ids.
pub fn copy_of(v: &Vec<u32>) -> (c: Vec<u32>)
    ensures
        c@ == v@,
{
    let mut c: Vec<u32> = Vec::new();
    let mut k: usize = 0;
    while k < v.len()
        invariant
            k <= v.len(),
            c@ == v@.take(k as int),
        decreases v.len() - k,
    {
        c.push(v[k]);
        proof {
            lemma_take_step(v@, k as int);
        }
        k += 1;
    }
    proof {
        assert(v@.take(k as int) =~= v@);
    }
    c
}

/// In a strictly ascending sequence each item is at least its index.
pub proof fn lemma_ascending_floor(s: Seq<u32>, k: int)
    requires
        strictly_ascending(s),
        0 <= k < s.len(),
    ensures
        s[k] >= k,
    decreases k,
{
    if k > 0 {
        lemma_ascending_floor(s, k - 1);
    }
}

/// A set of numbers that a strictly ascending sequence lists has as many members as
/// the sequence has items.
pub proof fn lemma_ascending_count(s: Seq<u32>, listed: Set<int>)
    requires
        strictly_ascending(s),
        forall|t: int| listed.contains(t) <==> (0 <= t <= u32::MAX && s.contains(t as u32)),
    ensures
        listed.finite(),
        listed.len() == s.len(),
    decreases s.len(),
{
    if s.len() == 0 {
        assert(listed =~= Set::<int>::empty());
    } else {
        let last = s.last();
        let head = s.drop_last();
        let rest = listed.remove(last as int);
        assert(s.contains(last));
        assert forall|t: int| rest.contains(t) <==> (0 <= t <= u32::MAX && head.contains(
            t as u32,
        )) by {
            if rest.contains(t) {
                let i = choose|i: int| 0 <= i < s.len() && s[i] == t as u32;
                assert(i < s.len() - 1);
                assert(head[i] == t as u32);
            }
            if 0 <= t <= u32::MAX && head.contains(t as u32) {
                let i = choose|i: int| 0 <= i < head.len() && head[i] == t as u32;
                assert(s[i] == t as u32);
                assert(s.contains(t as u32));
            }
        }
        lemma_ascending_count(head, rest);
        assert(listed =~= rest.insert(last as int));
    }
}

/// A sort key of two parts: keys order by `high` first, by `low` among equal `high`.
pub open spec fn pack(high: u32, low: u32) -> u64 {
    (high as u64 * 0x1_0000_0000 + low as u64) as u64
}

/// The low part of a sort key.
pub open spec fn low_of(key: u64) -> u32 {
    (key % 0x1_0000_0000) as u32
}

/// The high part of a sort key.
pub open spec fn high_of(key: u64) -> u32 {
    (key / 0x1_0000_0000) as u32
}

/// The sort key of `high` and `low`.
pub fn pack_key(high: u32, low: u32) -> (key: u64)
    ensures
        key == pack(high, low),
        high_of(key) == high,
        low_of(key) == low,
{
    (high as u64) * 0x1_0000_0000 + (low as u64)
}

/// The low part of a sort key.
pub fn key_low(key: u64) -> (low: u32)
    ensures
        low == low_of(key),
{
    (key % 0x1_0000_0000) as u32
}

/// The high part of a sort key.
pub fn key_high(key: u64) -> (high: u32)
    ensures
        high == high_of(key),
{
    (key / 0x1_0000_0000) as u32
}

/// The low parts of a row of sort keys.
pub open spec fn low_parts(keys: Seq<u64>) -> Seq<u32> {
    Seq::new(keys.len(), |k: int| low_of(keys[k]))
}

/// Two rows of sort keys that hold the same keys, each as often, hold the same low
/// parts, each as often.
pub proof fn lemma_low_parts(a: Seq<u64>, b: Seq<u64>)
    requires
        a.to_multiset() == b.to_multiset(),
    ensures
        low_parts(a).to_multiset() == low_parts(b).to_multiset(),
    decreases a.len(),
{
    broadcast use vstd::seq_lib::group_to_multiset_ensures;
    broadcast use vstd::multiset::group_multiset_axioms;

    assert(a.to_multiset().len() == a.len());
    assert(b.to_multiset().len() == b.len());
    if a.len() == 0 {
        assert(low_parts(a) =~= low_parts(b));
    } else {
        let x = a.last();
        let head = a.drop_last();
        assert(a =~= head.push(x));
        assert(a.to_multiset().count(x) > 0);
        assert(b.contains(x));
        let i = choose|i: int| 0 <= i < b.len() && b[i] == x;
        let rest = b.remove(i);
        vstd::seq_lib::to_multiset_build(head, x);
        vstd::seq_lib::to_multiset_remove(b, i);
        assert(head.to_multiset() =~= a.to_multiset().remove(x));
        assert(head.to_multiset() == rest.to_multiset());
        lemma_low_parts(head, rest);
        assert(low_parts(a) =~= low_parts(head).push(low_of(x)));
        assert(low_parts(b) =~= low_parts(rest).insert(i, low_of(x)));
        vstd::seq_lib::to_multiset_build(low_parts(head), low_of(x));
        vstd::seq_lib::to_multiset_insert(low_parts(rest), i, low_of(x));
    }
}

/// Calls `Itertools::sorted`: the keys come back in ascending order, each as often as
/// it stood in `keys`.
#[verifier::external_body]
pub(crate) fn sorted_keys(keys: &Vec<u64>) -> (sorted: Vec<u64>)
    ensures
        ascending_keys(sorted@),
        sorted@.to_multiset() == keys@.to_multiset(),
{
    keys.iter().cloned().sorted().collect()
}

/// An itemset with the number of transactions that hold it.
#[derive(Debug)]
pub struct ItemSet {
    pub items: Vec<u32>,
    pub count: u32,
}

impl ItemSet {
    /// An itemset with its count.
    pub fn new(items: Vec<u32>, count: u32) -> (itemset: ItemSet)
        ensures
            itemset.items@ == items@,
            itemset.count == count,
    {
        ItemSet { items, count }
    }
}

/// What a list of itemsets says: the items and the count of each entry.
pub open spec fn entries(list: Seq<ItemSet>) -> Seq<(Seq<u32>, u32)> {
    Seq::new(list.len(), |k: int| (list[k].items@, list[k].count))
}

/// The count that a list gives for the items `items`: that of the last entry with
/// those items.
pub open spec fn counted_as(list: Seq<(Seq<u32>, u32)>, items: Seq<u32>) -> Option<u32>
    decreases list.len(),
{
    if list.len() == 0 {
        None
    } else if list.last().0 == items {
        Some(list.last().1)
    } else {
        counted_as(list.drop_last(), items)
    }
}

/// A count that a list gives is the count of one of its entries.
pub proof fn lemma_counted_as(list: Seq<(Seq<u32>, u32)>, items: Seq<u32>)
    ensures
        counted_as(list, items) is Some ==> exists|k: int|
            0 <= k < list.len() && #[trigger] list[k] == (items, counted_as(list, items)->Some_0),
        counted_as(list, items) is None ==> forall|k: int|
            0 <= k < list.len() ==> (#[trigger] list[k]).0 != items,
    decreases list.len(),
{
    if list.len() > 0 {
        if list.last().0 == items {
            assert(list[list.len() - 1] == (items, counted_as(list, items)->Some_0));
        } else {
            let head = list.drop_last();
            lemma_counted_as(head, items);
            if counted_as(list, items) is Some {
                let k = choose|k: int|
                    0 <= k < head.len() && #[trigger] head[k] == (
                        items,
                        counted_as(head, items)->Some_0,
                    );
                assert(list[k] == head[k]);
            } else {
                assert forall|k: int| 0 <= k < list.len() implies (#[trigger] list[k]).0
                    != items by {
                    if k < head.len() {
                        assert(head[k] == list[k]);
                    }
                }
            }
        }
    }
}

/// An itemset with one more item, which it may hold already.
pub fn with_item(items: &Vec<u32>, item: u32) -> (larger: Vec<u32>)
    requires
        strictly_ascending(items@),
    ensures
        strictly_ascending(larger@),
        larger@.to_set() == items@.to_set().insert(item),
{
    let mut single: Vec<u32> = Vec::new();
    single.push(item);
    let larger = union(items, &single);
    proof {
        assert(single@ =~= seq![item]);
        assert(single@.to_set() =~= Set::<u32>::empty().insert(item)) by {
            assert forall|x: u32| single@.to_set().contains(x) <==> x == item by {
                if single@.contains(x) {
                    let i = choose|i: int| 0 <= i < single@.len() && single@[i] == x;
                }
                if x == item {
                    assert(single@[0] == x);
                }
            }
        }
        assert(larger@.to_set() =~= items@.to_set().insert(item));
    }
    larger
}

/// Whether two vectors hold the same items in the same order.
pub fn same_items(a: &Vec<u32>, b: &Vec<u32>) -> (same: bool)
    ensures
        same == (a@ == b@),
{
    if a.len() != b.len() {
        return false;
    }
    let mut k: usize = 0;
    while k < a.len()
        invariant
            k <= a.len(),
            a@.len() == b@.len(),
            forall|j: int| 0 <= j < k ==> a@[j] == b@[j],
        decreases a.len() - k,
    {
        if a[k] != b[k] {
            return false;
        }
        k += 1;
    }
    proof {
        assert(a@ =~= b@);
    }
    true
}

/// The itemset of a set of items: its items in strictly ascending order.
pub open spec fn ascending(items: Set<u32>) -> Seq<u32> {
    choose|s: Seq<u32>| strictly_ascending(s) && s.to_set() == items
}

/// A strictly ascending sequence is the itemset of its items.
pub proof fn lemma_ascending_of(s: Seq<u32>)
    requires
        strictly_ascending(s),
    ensures
        ascending(s.to_set()) == s,
{
    let chosen = ascending(s.to_set());
    lemma_ascending_unique(chosen, s);
}

/// The items of a vector as an itemset: in ascending order, each once. The order
/// comes from `Itertools::sorted`.
pub fn canonical(items: &Vec<u32>) -> (itemset: Vec<u32>)
    ensures
        strictly_ascending(itemset@),
        itemset@.to_set() == items@.to_set(),
        itemset@ == ascending(items@.to_set()),
{
    let mut keys: Vec<u64> = Vec::new();
    let mut k: usize = 0;
    while k < items.len()
        invariant
            k <= items.len(),
            keys@.len() == k,
            forall|j: int| 0 <= j < k ==> #[trigger] keys@[j] == items@[j] as u64,
        decreases items.len() - k,
    {
        keys.push(items[k] as u64);
        k += 1;
    }
    let order = sorted_keys(&keys);
    let mut itemset: Vec<u32> = Vec::new();
    let mut j: usize = 0;
    proof {
        broadcast use vstd::seq_lib::group_to_multiset_ensures;

        assert forall|p: int| 0 <= p < order@.len() implies items@.contains(
            #[trigger] order@[p] as u32,
        ) && order@[p] <= u32::MAX by {
            assert(order@.contains(order@[p]));
            assert(order@.to_multiset().count(order@[p]) > 0);
            assert(keys@.contains(order@[p]));
            let q = choose|q: int| 0 <= q < keys@.len() && keys@[q] == order@[p];
            assert(keys@[q] == items@[q] as u64);
        }
        assert forall|q: int| 0 <= q < items@.len() implies order@.contains(
            #[trigger] items@[q] as u64,
        ) by {
            assert(keys@[q] == items@[q] as u64);
            assert(keys@.contains(keys@[q]));
            assert(keys@.to_multiset().count(keys@[q]) > 0);
        }
    }
    while j < order.len()
        invariant
            j <= order.len(),
            ascending_keys(order@),
            strictly_ascending(itemset@),
            forall|p: int| 0 <= p < order@.len() ==> (#[trigger] order@[p]) <= u32::MAX,
            forall|i: int| 0 <= i < itemset@.len() && j < order@.len() ==>
                itemset@[i] <= order@[j as int],
            j > 0 ==> itemset@.len() > 0 && itemset@.last() == order@[j - 1],
            forall|x: u32| itemset@.contains(x) <==> order@.take(j as int).contains(x as u64),
        decreases order.len() - j,
    {
        let item: u32 = order[j] as u32;
        let ghost before = itemset@;
        proof {
            lemma_take_step(order@, j as int);
            if j > 0 {
                assert(order@[j - 1] <= order@[j as int]);
            }
        }
        if itemset.len() == 0 || itemset[itemset.len() - 1] != item {
            itemset.push(item);
            proof {
                lemma_push_contains(before, item);
                assert forall|a: int, b: int| 0 <= a < b < itemset@.len() implies itemset@[a]
                    < itemset@[b] by {
                    if b == before.len() {
                        assert(before[a] <= order@[j as int]);
                        if before.len() > 0 {
                            assert(before[a] <= before[before.len() - 1]) by {
                                if a < before.len() - 1 {
                                    assert(before[a] < before[before.len() - 1]);
                                }
                            }
                        }
                    }
                }
            }
        } else {
            proof {
                assert(before.contains(before[before.len() - 1]));
            }
        }
        proof {
            assert forall|i: int|
                0 <= i < itemset@.len() && j + 1 < order@.len() implies itemset@[i] <= order@[j
                + 1] by {
                assert(order@[j as int] <= order@[j + 1]);
                if i < before.len() {
                    assert(before[i] <= order@[j as int]);
                }
            }
            assert forall|x: u32|
                itemset@.contains(x) <==> order@.take(j + 1).contains(x as u64) by {
                assert(before.contains(x) <==> order@.take(j as int).contains(x as u64));
            }
        }
        j += 1;
    }
    proof {
        assert(order@.take(j as int) =~= order@);
        assert forall|x: u32| itemset@.to_set().contains(x) <==> items@.to_set().contains(x) by {
            if itemset@.contains(x) {
                assert(order@.contains(x as u64));
                let p = choose|p: int| 0 <= p < order@.len() && order@[p] == x as u64;
                assert(items@.contains(order@[p] as u32));
            }
            if items@.contains(x) {
                let q = choose|q: int| 0 <= q < items@.len() && items@[q] == x;
                assert(order@.contains(items@[q] as u64));
            }
        }
        assert(itemset@.to_set() =~= items@.to_set());
        lemma_ascending_of(itemset@);
    }
    itemset
}

} // verus!
