//! How the sides of a rule are written out: the names of the items, in numeric
//! order where every name is a number, in the order of their characters else.

use crate::text::{chars_of, is_number, number_less, number_of};
use crate::itemizer::{id_among, Itemizer};
use vstd::prelude::*;
use vstd::set_lib::{lemma_int_range, set_int_range};
use vstd::string::StringExecFns;

verus! {

/// Whether `a` comes before `b` in the order of their characters.
pub open spec fn lex_less(a: Seq<char>, b: Seq<char>) -> bool
    decreases a.len(),
{
    if b.len() == 0 {
        false
    } else if a.len() == 0 {
        true
    } else if a[0] != b[0] {
        (a[0] as u32) < (b[0] as u32)
    } else {
        lex_less(a.skip(1), b.skip(1))
    }
}

/// Whether one name comes before another in the order of their characters.
pub fn name_less(a: &str, b: &str) -> (less: bool)
    ensures
        less == lex_less(a@, b@),
{
    let a_chars = chars_of(a);
    let b_chars = chars_of(b);
    let a_len: usize = a_chars.len();
    let b_len: usize = b_chars.len();
    let mut k: usize = 0;
    proof {
        assert(a@.skip(0) =~= a@);
        assert(b@.skip(0) =~= b@);
    }
    while k < a_len && k < b_len
        invariant
            k <= a_len,
            k <= b_len,
            a_chars@ == a@,
            b_chars@ == b@,
            a_len == a@.len(),
            b_len == b@.len(),
            lex_less(a@, b@) == lex_less(a@.skip(k as int), b@.skip(k as int)),
        decreases a_len - k,
    {
        let x: char = a_chars[k];
        let y: char = b_chars[k];
        proof {
            assert(a@.skip(k as int)[0] == x);
            assert(b@.skip(k as int)[0] == y);
            assert(a@.skip(k as int).skip(1) =~= a@.skip(k + 1));
            assert(b@.skip(k as int).skip(1) =~= b@.skip(k + 1));
        }
        if x != y {
            return (x as u32) < (y as u32);
        }
        k += 1;
    }
    k < b_len
}

/// The two orders of names.
#[derive(Clone, Copy, Debug, PartialEq, Eq, Structural)]
pub enum NameOrder {
    /// By the numbers that the names stand for.
    Numeric,
    /// By the characters of the names.
    Lexical,
}

/// Whether every name is a number.
pub open spec fn all_numbers(names: Seq<Seq<char>>) -> bool {
    forall|k: int| 0 <= k < names.len() ==> number_of(#[trigger] names[k]) is Some
}

/// The order that a row of names goes by: numeric where every name is a number.
pub open spec fn order_of(names: Seq<Seq<char>>) -> NameOrder {
    if all_numbers(names) {
        NameOrder::Numeric
    } else {
        NameOrder::Lexical
    }
}

/// Whether name `i` goes before name `j`: by the order, and where that does not
/// tell them apart, by their places.
pub open spec fn goes_before(names: Seq<Seq<char>>, order: NameOrder, i: int, j: int) -> bool {
    match order {
        NameOrder::Numeric => {
            let a = number_of(names[i])->Some_0;
            let b = number_of(names[j])->Some_0;
            a < b || (a == b && i < j)
        },
        NameOrder::Lexical => lex_less(names[i], names[j]) || (!lex_less(names[j], names[i]) && i
            < j),
    }
}

/// The number of names among the first `upto` that go before name `i`.
pub open spec fn rank(names: Seq<Seq<char>>, order: NameOrder, i: int, upto: int) -> nat
    decreases upto,
{
    if upto <= 0 {
        0
    } else {
        rank(names, order, i, upto - 1) + if goes_before(names, order, upto - 1, i) {
            1nat
        } else {
            0nat
        }
    }
}

/// The names in their order, as far as it is laid out after the ranks below `r`
/// are done and, of rank `r`, the names before place `i`: each name stands at the
/// place that the number of names before it gives.
pub open spec fn laid_out(names: Seq<Seq<char>>, order: NameOrder, r: int, i: int) -> Seq<Seq<char>>
    decreases r, i,
{
    if r < 0 || i < 0 {
        Seq::empty()
    } else if i == 0 {
        if r == 0 {
            Seq::empty()
        } else {
            laid_out(names, order, r - 1, names.len() as int)
        }
    } else if rank(names, order, i - 1, names.len() as int) == r {
        laid_out(names, order, r, i - 1).push(names[i - 1])
    } else {
        laid_out(names, order, r, i - 1)
    }
}

/// The names in their order: in numeric order where every name is a number, in the
/// order of their characters else; names that the order does not tell apart keep
/// their places.
pub open spec fn arranged(names: Seq<Seq<char>>) -> Seq<Seq<char>> {
    laid_out(names, order_of(names), names.len() as int, 0)
}

/// Names in a row, with `gap` between each two.
pub open spec fn joined(names: Seq<Seq<char>>, gap: Seq<char>) -> Seq<char>
    decreases names.len(),
{
    if names.len() == 0 {
        Seq::empty()
    } else if names.len() == 1 {
        names[0]
    } else {
        joined(names.drop_last(), gap) + gap + names.last()
    }
}

/// What a row of names says.
pub open spec fn texts(names: Seq<String>) -> Seq<Seq<char>> {
    Seq::new(names.len(), |k: int| names[k]@)
}

/// Puts names in order: in numeric order where every name is a number, in the
/// order of their characters else.
pub fn ensure_sorted(names: &mut Vec<String>)
    ensures
        texts(final(names)@) == arranged(texts(old(names)@)),
{
    let ghost given = texts(names@);
    let n: usize = names.len();
    let mut numeric: bool = true;
    let mut k: usize = 0;
    while k < n
        invariant
            k <= n,
            n == names@.len(),
            given == texts(names@),
            numeric == (forall|j: int| 0 <= j < k ==> number_of(#[trigger] given[j]) is Some),
        decreases n - k,
    {
        let number: bool = is_number(names[k].as_str());
        proof {
            assert(given[k as int] == names@[k as int]@);
        }
        if !number {
            numeric = false;
        }
        k += 1;
    }
    let order: NameOrder = if numeric {
        NameOrder::Numeric
    } else {
        NameOrder::Lexical
    };
    proof {
        assert(order == order_of(given));
    }
    let mut ranks: Vec<usize> = Vec::new();
    let mut i: usize = 0;
    while i < n
        invariant
            i <= n,
            n == names@.len(),
            given == texts(names@),
            order == order_of(given),
            ranks@.len() == i,
            forall|j: int| 0 <= j < i ==> #[trigger] ranks@[j] == rank(given, order, j, n as int),
        decreases n - i,
    {
        let mut count: usize = 0;
        let mut j: usize = 0;
        while j < n
            invariant
                j <= n,
                i < n,
                n == names@.len(),
                given == texts(names@),
                order == order_of(given),
                count == rank(given, order, i as int, j as int),
                count <= j,
            decreases n - j,
        {
            proof {
                assert(given[i as int] == names@[i as int]@);
                assert(given[j as int] == names@[j as int]@);
                if order == NameOrder::Numeric {
                    assert(number_of(given[i as int]) is Some);
                    assert(number_of(given[j as int]) is Some);
                }
            }
            let before: bool = match order {
                NameOrder::Numeric => number_less(names[j].as_str(), names[i].as_str()) || (
                !number_less(names[i].as_str(), names[j].as_str()) && j < i),
                NameOrder::Lexical => name_less(names[j].as_str(), names[i].as_str()) || (
                !name_less(names[i].as_str(), names[j].as_str()) && j < i),
            };
            if before {
                count += 1;
            }
            j += 1;
        }
        ranks.push(count);
        i += 1;
    }
    let mut out: Vec<String> = Vec::new();
    let mut r: usize = 0;
    while r < n
        invariant
            r <= n,
            n == names@.len(),
            given == texts(names@),
            ranks@.len() == n,
            forall|j: int| 0 <= j < n ==> #[trigger] ranks@[j] == rank(given, order, j, n as int),
            texts(out@) == laid_out(given, order, r as int, 0),
        decreases n - r,
    {
        let mut p: usize = 0;
        while p < n
            invariant
                p <= n,
                r < n,
                n == names@.len(),
                given == texts(names@),
                ranks@.len() == n,
                forall|j: int|
                    0 <= j < n ==> #[trigger] ranks@[j] == rank(given, order, j, n as int),
                texts(out@) == laid_out(given, order, r as int, p as int),
            decreases n - p,
        {
            let ghost before = out@;
            if ranks[p] == r {
                out.push(names[p].clone());
                proof {
                    assert(given[p as int] == names@[p as int]@);
                    assert(texts(out@) =~= texts(before).push(given[p as int]));
                }
            }
            p += 1;
        }
        r += 1;
    }
    *names = out;
}

/// The names of a row of items, in the order of the items.
pub open spec fn names_of(items: Seq<u32>, names: Seq<Seq<char>>) -> Seq<Seq<char>> {
    Seq::new(items.len(), |k: int| names[items[k] - 1])
}

/// One side of a rule as it is written: the names of its items, in their order,
/// with a blank between each two.
pub open spec fn side_text(items: Seq<u32>, names: Seq<Seq<char>>) -> Seq<char> {
    joined(arranged(names_of(items, names)), seq![' '])
}

/// Whether each of the items has a name.
pub open spec fn all_assigned(items: Seq<u32>, itemizer: &Itemizer) -> bool {
    forall|k: int| 0 <= k < items.len() ==> itemizer.assigned(#[trigger] items[k])
}

/// Writes one side of a rule.
pub fn render_side(items: &Vec<u32>, itemizer: &Itemizer) -> (text: String)
    requires
        all_assigned(items@, itemizer),
    ensures
        text@ == side_text(items@, itemizer@),
{
    let mut names: Vec<String> = Vec::new();
    let mut k: usize = 0;
    while k < items.len()
        invariant
            k <= items.len(),
            all_assigned(items@, itemizer),
            names@.len() == k,
            forall|j: int| 0 <= j < k ==> (#[trigger] names@[j])@ == itemizer@[items@[j] - 1],
        decreases items.len() - k,
    {
        names.push(itemizer.str_of(items[k]));
        k += 1;
    }
    proof {
        assert(texts(names@) =~= names_of(items@, itemizer@));
    }
    ensure_sorted(&mut names);
    let mut text: String = String::new();
    let mut j: usize = 0;
    proof {
        reveal_strlit(" ");
        assert(texts(names@).take(0) =~= Seq::<Seq<char>>::empty());
    }
    while j < names.len()
        invariant
            j <= names.len(),
            " "@ == seq![' '],
            text@ == joined(texts(names@).take(j as int), seq![' ']),
        decreases names.len() - j,
    {
        proof {
            assert(texts(names@).take(j + 1).drop_last() =~= texts(names@).take(j as int));
            assert(texts(names@).take(j + 1).last() == names@[j as int]@);
            if j == 0 {
                assert(texts(names@).take(1)[0] == names@[0]@);
                assert(Seq::<char>::empty() + names@[0]@ =~= names@[0]@);
            }
        }
        if j > 0 {
            text.append(" ");
        }
        text.append(names[j].as_str());
        j += 1;
    }
    proof {
        assert(texts(names@).take(j as int) =~= texts(names@));
    }
    text
}

/// The places of the names in the order in which they are laid out, as far as that
/// is done after the ranks below `r` and, of rank `r`, the names before place `i`.
pub open spec fn places(names: Seq<Seq<char>>, order: NameOrder, r: int, i: int) -> Seq<int>
    decreases r, i,
{
    if r < 0 || i < 0 {
        Seq::empty()
    } else if i == 0 {
        if r == 0 {
            Seq::empty()
        } else {
            places(names, order, r - 1, names.len() as int)
        }
    } else if rank(names, order, i - 1, names.len() as int) == r {
        places(names, order, r, i - 1).push(i - 1)
    } else {
        places(names, order, r, i - 1)
    }
}

/// The places of the names in their order.
pub open spec fn arranged_places(names: Seq<Seq<char>>) -> Seq<int> {
    places(names, order_of(names), names.len() as int, 0)
}

/// The names that stand at a row of places.
pub open spec fn names_at(names: Seq<Seq<char>>, at: Seq<int>) -> Seq<Seq<char>> {
    Seq::new(at.len(), |p: int| names[at[p]])
}

/// No name comes before itself in the order of the characters.
pub proof fn lemma_lex_irreflexive(a: Seq<char>)
    ensures
        !lex_less(a, a),
    decreases a.len(),
{
    if a.len() > 0 {
        lemma_lex_irreflexive(a.skip(1));
    }
}

/// Of two different names one comes before the other in the order of the
/// characters, and not the other before it.
pub proof fn lemma_lex_total(a: Seq<char>, b: Seq<char>)
    ensures
        a == b || lex_less(a, b) || lex_less(b, a),
        !(lex_less(a, b) && lex_less(b, a)),
    decreases a.len(),
{
    if a.len() > 0 && b.len() > 0 {
        if a[0] == b[0] {
            lemma_lex_total(a.skip(1), b.skip(1));
            if a.skip(1) == b.skip(1) {
                assert(a =~= seq![a[0]] + a.skip(1));
                assert(b =~= seq![b[0]] + b.skip(1));
            }
        } else {
            vstd::utf8::char_u32_cast(a[0], a[0] as u32);
            vstd::utf8::char_u32_cast(b[0], b[0] as u32);
        }
    } else if a.len() == 0 && b.len() == 0 {
        assert(a =~= b);
    }
}

/// What comes before a name that comes before a third comes before the third.
pub proof fn lemma_lex_transitive(a: Seq<char>, b: Seq<char>, c: Seq<char>)
    requires
        lex_less(a, b),
        lex_less(b, c),
    ensures
        lex_less(a, c),
    decreases a.len(),
{
    if a.len() > 0 {
        if a[0] == b[0] && b[0] == c[0] {
            lemma_lex_transitive(a.skip(1), b.skip(1), c.skip(1));
        }
    }
}

/// Going before is an order of the places: no place goes before itself, of two
/// places one goes before the other, and what goes before a place that goes
/// before a third goes before the third.
pub proof fn lemma_goes_before(names: Seq<Seq<char>>, order: NameOrder, i: int, j: int, k: int)
    ensures
        !goes_before(names, order, i, i),
        i != j ==> (goes_before(names, order, i, j) <==> !goes_before(names, order, j, i)),
        goes_before(names, order, i, j) && goes_before(names, order, j, k) ==> goes_before(
            names,
            order,
            i,
            k,
        ),
{
    if order == NameOrder::Lexical {
        lemma_lex_irreflexive(names[i]);
        lemma_lex_total(names[i], names[j]);
        lemma_lex_total(names[j], names[k]);
        lemma_lex_total(names[i], names[k]);
        if lex_less(names[i], names[j]) && lex_less(names[j], names[k]) {
            lemma_lex_transitive(names[i], names[j], names[k]);
        }
        if lex_less(names[k], names[i]) && lex_less(names[i], names[j]) {
            lemma_lex_transitive(names[k], names[i], names[j]);
        }
        if lex_less(names[j], names[k]) && lex_less(names[k], names[i]) {
            lemma_lex_transitive(names[j], names[k], names[i]);
        }
    }
}

/// A place that goes before another has fewer places before it.
pub proof fn lemma_rank_grows(names: Seq<Seq<char>>, order: NameOrder, a: int, b: int, upto: int)
    requires
        goes_before(names, order, a, b),
        0 <= upto,
    ensures
        rank(names, order, a, upto) + if 0 <= a < upto {
            1nat
        } else {
            0nat
        } <= rank(names, order, b, upto),
        rank(names, order, a, upto) <= upto,
    decreases upto,
{
    if upto > 0 {
        lemma_rank_grows(names, order, a, b, upto - 1);
        lemma_goes_before(names, order, upto - 1, a, b);
        lemma_goes_before(names, order, a, a, b);
    }
}

/// A place has fewer places before it than there are places.
pub proof fn lemma_rank_bound(names: Seq<Seq<char>>, order: NameOrder, a: int, upto: int)
    requires
        0 <= upto,
    ensures
        rank(names, order, a, upto) <= upto,
        0 <= a < upto ==> rank(names, order, a, upto) < upto,
    decreases upto,
{
    if upto > 0 {
        lemma_rank_bound(names, order, a, upto - 1);
        lemma_goes_before(names, order, a, a, a);
    }
}

/// Whether place `k` is laid out once the ranks below `r` are done and, of rank
/// `r`, the places before `i`.
pub open spec fn due(names: Seq<Seq<char>>, order: NameOrder, r: int, i: int, k: int) -> bool {
    let at = rank(names, order, k, names.len() as int);
    0 <= k < names.len() && (at < r || (at == r && k < i))
}

/// Whether place `a` is laid out before place `b`: it has fewer places before it,
/// or as many and is the earlier place.
pub open spec fn laid_before(names: Seq<Seq<char>>, order: NameOrder, a: int, b: int) -> bool {
    let rank_a = rank(names, order, a, names.len() as int);
    let rank_b = rank(names, order, b, names.len() as int);
    rank_a < rank_b || (rank_a == rank_b && a < b)
}

/// What is laid out are the places that are due, each once, by rank and place.
pub proof fn lemma_places(names: Seq<Seq<char>>, order: NameOrder, r: int, i: int)
    requires
        0 <= r,
        0 <= i <= names.len(),
    ensures
        forall|p: int|
            0 <= p < places(names, order, r, i).len() ==> due(
                names,
                order,
                r,
                i,
                #[trigger] places(names, order, r, i)[p],
            ),
        forall|p: int, q: int|
            0 <= p < q < places(names, order, r, i).len() ==> laid_before(
                names,
                order,
                #[trigger] places(names, order, r, i)[p],
                #[trigger] places(names, order, r, i)[q],
            ),
        forall|k: int| #[trigger]
            due(names, order, r, i, k) ==> places(names, order, r, i).contains(k),
        names_at(names, places(names, order, r, i)) == laid_out(names, order, r, i),
    decreases r, i,
{
    let n = names.len() as int;
    let now = places(names, order, r, i);
    if i == 0 {
        if r == 0 {
            assert(names_at(names, now) =~= laid_out(names, order, r, i));
        } else {
            lemma_places(names, order, r - 1, n);
            let before = places(names, order, r - 1, n);
            assert forall|k: int| #[trigger] due(names, order, r, i, k) implies now.contains(
                k,
            ) by {
                assert(due(names, order, r - 1, n, k));
            }
            assert forall|p: int| 0 <= p < now.len() implies due(
                names,
                order,
                r,
                i,
                #[trigger] now[p],
            ) by {
                assert(due(names, order, r - 1, n, before[p]));
            }
        }
    } else {
        lemma_places(names, order, r, i - 1);
        let before = places(names, order, r, i - 1);
        if rank(names, order, i - 1, n) == r {
            assert(now == before.push(i - 1));
            assert forall|p: int| 0 <= p < now.len() implies due(
                names,
                order,
                r,
                i,
                #[trigger] now[p],
            ) by {
                if p < before.len() {
                    assert(due(names, order, r, i - 1, before[p]));
                }
            }
            assert forall|p: int, q: int| 0 <= p < q < now.len() implies laid_before(
                names,
                order,
                #[trigger] now[p],
                #[trigger] now[q],
            ) by {
                assert(due(names, order, r, i - 1, before[p]));
                if q < before.len() {
                    assert(laid_before(names, order, before[p], before[q]));
                }
            }
            assert forall|k: int| #[trigger] due(names, order, r, i, k) implies now.contains(
                k,
            ) by {
                if k == i - 1 {
                    assert(now[before.len() as int] == k);
                } else {
                    assert(due(names, order, r, i - 1, k));
                    let p = choose|p: int| 0 <= p < before.len() && before[p] == k;
                    assert(now[p] == k);
                }
            }
            assert(names_at(names, now) =~= names_at(names, before).push(names[i - 1]));
        } else {
            assert forall|p: int| 0 <= p < now.len() implies due(
                names,
                order,
                r,
                i,
                #[trigger] now[p],
            ) by {
                assert(due(names, order, r, i - 1, before[p]));
            }
            assert forall|k: int| #[trigger] due(names, order, r, i, k) implies now.contains(
                k,
            ) by {
                assert(due(names, order, r, i - 1, k));
            }
        }
    }
}

/// The names come out sorted: what is laid out is each place of the names once,
/// and no name that is laid out behind another goes before it in the order.
pub proof fn lemma_arranged_sorted(names: Seq<Seq<char>>)
    ensures
        arranged(names) == names_at(names, arranged_places(names)),
        forall|p: int|
            0 <= p < arranged_places(names).len() ==> 0 <= (#[trigger] arranged_places(names)[p])
                < names.len(),
        forall|k: int| 0 <= k < names.len() ==> #[trigger] arranged_places(names).contains(k),
        forall|p: int, q: int|
            0 <= p < q < arranged_places(names).len() ==> (#[trigger] arranged_places(names)[p])
                != (#[trigger] arranged_places(names)[q]) && !goes_before(
                names,
                order_of(names),
                arranged_places(names)[q],
                arranged_places(names)[p],
            ),
{
    let n = names.len() as int;
    let order = order_of(names);
    let at = arranged_places(names);
    lemma_places(names, order, n, 0);
    assert forall|p: int| 0 <= p < at.len() implies 0 <= (#[trigger] at[p]) < names.len() by {
        assert(due(names, order, n, 0, at[p]));
    }
    assert forall|k: int| 0 <= k < names.len() implies #[trigger] at.contains(k) by {
        lemma_rank_bound(names, order, k, n);
        assert(due(names, order, n, 0, k));
    }
    assert forall|p: int, q: int| 0 <= p < q < at.len() implies (#[trigger] at[p]) != (
    #[trigger] at[q]) && !goes_before(names, order, at[q], at[p]) by {
        assert(laid_before(names, order, at[p], at[q]));
        assert(due(names, order, n, 0, at[q]));
        if goes_before(names, order, at[q], at[p]) {
            lemma_rank_grows(names, order, at[q], at[p], n);
        }
    }
}

/// As many names come out as went in.
pub proof fn lemma_arranged_length(names: Seq<Seq<char>>)
    ensures
        arranged(names).len() == names.len(),
        arranged_places(names).len() == names.len(),
{
    let n = names.len() as int;
    let at = arranged_places(names);
    lemma_arranged_sorted(names);
    assert(at.no_duplicates());
    at.unique_seq_to_set();
    assert(at.to_set() =~= set_int_range(0, n)) by {
        assert forall|k: int| set_int_range(0, n).contains(k) implies at.to_set().contains(k) by {
            assert(at.contains(k));
        }
    }
    lemma_int_range(0, n);
}

/// Whether the names stand in their order already: no name goes before one that
/// stands before it.
pub open spec fn in_order(names: Seq<Seq<char>>) -> bool {
    forall|i: int, j: int|
        0 <= i < j < names.len() ==> !#[trigger] goes_before(names, order_of(names), j, i)
}

/// Where the names stand in their order, each has before it the names that stand
/// before it, and no others.
proof fn lemma_rank_in_order(names: Seq<Seq<char>>, i: int, upto: int)
    requires
        in_order(names),
        0 <= i < names.len(),
        0 <= upto <= names.len(),
    ensures
        rank(names, order_of(names), i, upto) == if upto <= i {
            upto
        } else {
            i
        },
    decreases upto,
{
    if upto > 0 {
        let j = upto - 1;
        lemma_rank_in_order(names, i, j);
        lemma_goes_before(names, order_of(names), j, i, i);
        if j < i {
            assert(!goes_before(names, order_of(names), i, j));
        } else if j > i {
            assert(!goes_before(names, order_of(names), j, i));
        }
    }
}

/// Where the names stand in their order, they are laid out as they stand.
proof fn lemma_laid_out_in_order(names: Seq<Seq<char>>, r: int, i: int)
    requires
        in_order(names),
        0 <= r <= names.len(),
        0 <= i <= names.len(),
        r == names.len() ==> i == 0,
    ensures
        laid_out(names, order_of(names), r, i) == if i > r {
            names.take(r + 1)
        } else {
            names.take(r)
        },
    decreases r, i,
{
    let n = names.len() as int;
    if i == 0 {
        if r == 0 {
            assert(names.take(0) =~= Seq::<Seq<char>>::empty());
        } else {
            lemma_laid_out_in_order(names, r - 1, n);
        }
    } else {
        lemma_laid_out_in_order(names, r, i - 1);
        lemma_rank_in_order(names, i - 1, n);
        if i - 1 == r {
            assert(names.take(r).push(names[r]) =~= names.take(r + 1));
        }
    }
}

/// Names that stand in their order are left as they are.
pub proof fn lemma_arranged_in_order(names: Seq<Seq<char>>)
    requires
        in_order(names),
    ensures
        arranged(names) == names,
{
    lemma_laid_out_in_order(names, names.len() as int, 0);
    assert(names.take(names.len() as int) =~= names);
}

/// The names in their order stand in their order: to put them in order once more
/// changes nothing.
pub proof fn lemma_arranged_twice(names: Seq<Seq<char>>)
    ensures
        order_of(arranged(names)) == order_of(names),
        in_order(arranged(names)),
        arranged(arranged(names)) == arranged(names),
{
    let sorted = arranged(names);
    let at = arranged_places(names);
    lemma_arranged_sorted(names);
    assert(sorted.len() == at.len());
    assert(all_numbers(sorted) == all_numbers(names)) by {
        if all_numbers(names) {
            assert forall|p: int| 0 <= p < sorted.len() implies number_of(
                #[trigger] sorted[p],
            ) is Some by {
                assert(0 <= at[p] < names.len());
                assert(number_of(names[at[p]]) is Some);
            }
        }
        if all_numbers(sorted) {
            assert forall|k: int| 0 <= k < names.len() implies number_of(
                #[trigger] names[k],
            ) is Some by {
                assert(at.contains(k));
                let p = choose|p: int| 0 <= p < at.len() && at[p] == k;
                assert(number_of(sorted[p]) is Some);
            }
        }
    }
    assert forall|p: int, q: int| 0 <= p < q < sorted.len() implies !#[trigger] goes_before(
        sorted,
        order_of(sorted),
        q,
        p,
    ) by {
        assert(!goes_before(names, order_of(names), at[q], at[p]));
    }
    lemma_arranged_in_order(sorted);
}

/// The names in their order ascend: where every name is a number, no number is
/// below one that stands before it; else no name comes, by its characters, before
/// one that stands before it.
pub proof fn lemma_arranged_ascends(names: Seq<Seq<char>>, p: int, q: int)
    requires
        0 <= p < q < names.len(),
    ensures
        arranged(names).len() == names.len(),
        all_numbers(names) ==> number_of(arranged(names)[p]) is Some && number_of(
            arranged(names)[q],
        ) is Some && number_of(arranged(names)[p])->Some_0 <= number_of(
            arranged(names)[q],
        )->Some_0,
        !all_numbers(names) ==> !lex_less(arranged(names)[q], arranged(names)[p]),
{
    let sorted = arranged(names);
    lemma_arranged_length(names);
    lemma_arranged_twice(names);
    assert(!goes_before(sorted, order_of(sorted), q, p));
    if all_numbers(names) {
        assert(all_numbers(sorted));
        assert(number_of(sorted[p]) is Some);
        assert(number_of(sorted[q]) is Some);
    }
}

/// The place of the first blank at `from` or behind it, or the length of the text.
pub open spec fn blank_at(text: Seq<char>, from: int) -> int
    decreases text.len() - from,
{
    if from >= text.len() {
        text.len() as int
    } else if text[from] == ' ' {
        from
    } else {
        blank_at(text, from + 1)
    }
}

/// The words of a text: what stands between its blanks.
pub open spec fn words(text: Seq<char>) -> Seq<Seq<char>>
    decreases text.len(),
{
    let blank = blank_at(text, 0);
    if 0 <= blank < text.len() {
        seq![text.take(blank)] + words(text.skip(blank + 1))
    } else {
        seq![text]
    }
}

/// Whether a name holds no blank.
pub open spec fn one_word(name: Seq<char>) -> bool {
    forall|k: int| 0 <= k < name.len() ==> name[k] != ' '
}

/// The first blank of a text stands where the text has a blank and none before it.
proof fn lemma_blank_at(text: Seq<char>, from: int, blank: int)
    requires
        0 <= from <= blank <= text.len(),
        forall|k: int| from <= k < blank ==> text[k] != ' ',
        blank < text.len() ==> text[blank] == ' ',
    ensures
        blank_at(text, from) == blank,
    decreases blank - from,
{
    if from < blank {
        lemma_blank_at(text, from + 1, blank);
    }
}

/// The first blank of a text is a blank, and nothing before it is.
proof fn lemma_blank_at_is_first(text: Seq<char>, from: int)
    requires
        0 <= from <= text.len(),
    ensures
        from <= blank_at(text, from) <= text.len(),
        blank_at(text, from) < text.len() ==> text[blank_at(text, from)] == ' ',
        forall|k: int| from <= k < blank_at(text, from) ==> text[k] != ' ',
    decreases text.len() - from,
{
    if from < text.len() && text[from] != ' ' {
        lemma_blank_at_is_first(text, from + 1);
    }
}

/// A text with a blank and one word behind it has the words of the text, and that
/// word.
proof fn lemma_words_append(text: Seq<char>, word: Seq<char>)
    requires
        one_word(word),
    ensures
        words(text + seq![' '] + word) == words(text).push(word),
    decreases text.len(),
{
    let whole = text + seq![' '] + word;
    let blank = blank_at(text, 0);
    lemma_blank_at_is_first(text, 0);
    lemma_blank_at(word, 0, word.len() as int);
    if blank < text.len() {
        assert forall|k: int| 0 <= k < blank implies whole[k] != ' ' by {
            assert(whole[k] == text[k]);
        }
        assert(whole[blank] == text[blank]);
        lemma_blank_at(whole, 0, blank);
        assert(whole.take(blank) =~= text.take(blank));
        assert(whole.skip(blank + 1) =~= text.skip(blank + 1) + seq![' '] + word);
        lemma_words_append(text.skip(blank + 1), word);
        assert(words(whole) =~= words(text).push(word));
    } else {
        assert forall|k: int| 0 <= k < text.len() implies whole[k] != ' ' by {
            assert(whole[k] == text[k]);
        }
        assert(whole[text.len() as int] == ' ');
        lemma_blank_at(whole, 0, text.len() as int);
        assert(whole.take(text.len() as int) =~= text);
        assert(whole.skip(text.len() as int + 1) =~= word);
        assert(words(word) =~= seq![word]);
        assert(words(text) =~= seq![text]);
        assert(words(whole) =~= seq![text] + seq![word]);
        assert(words(whole) =~= words(text).push(word));
    }
}

/// The words of names written in a row, with a blank between each two, are the
/// names, as long as no name holds a blank.
pub proof fn lemma_words_of_joined(names: Seq<Seq<char>>)
    requires
        names.len() >= 1,
        forall|k: int| 0 <= k < names.len() ==> one_word(#[trigger] names[k]),
    ensures
        words(joined(names, seq![' '])) == names,
    decreases names.len(),
{
    if names.len() == 1 {
        lemma_blank_at(names[0], 0, names[0].len() as int);
        assert(words(names[0]) =~= names);
    } else {
        let head = names.drop_last();
        assert forall|k: int| 0 <= k < head.len() implies one_word(#[trigger] head[k]) by {
            assert(head[k] == names[k]);
        }
        lemma_words_of_joined(head);
        lemma_words_append(joined(head, seq![' ']), names.last());
        assert(head.push(names.last()) =~= names);
    }
}

/// Whether one of the words is the name of `id`.
pub open spec fn names_item(found: Seq<Seq<char>>, names: Seq<Seq<char>>, id: u32) -> bool {
    exists|p: int| 0 <= p < found.len() && id_among(names, #[trigger] found[p]) == id
}

/// A side that is written reads back: as long as no name of its items holds a
/// blank, the words of what is written, looked up among the names, are the items
/// of the side.
pub proof fn lemma_side_reads_back(items: Seq<u32>, itemizer: &Itemizer)
    requires
        itemizer.well_formed(),
        items.len() >= 1,
        all_assigned(items, itemizer),
        forall|k: int| 0 <= k < items.len() ==> one_word(#[trigger] itemizer@[items[k] - 1]),
    ensures
        forall|id: u32|
            items.contains(id) <==> names_item(
                words(side_text(items, itemizer@)),
                itemizer@,
                id,
            ),
{
    let all = itemizer@;
    let names = names_of(items, all);
    let at = arranged_places(names);
    let found = words(side_text(items, all));
    itemizer.lemma_names();
    lemma_arranged_sorted(names);
    assert forall|p: int| 0 <= p < arranged(names).len() implies one_word(
        #[trigger] arranged(names)[p],
    ) by {
        assert(arranged(names)[p] == names[at[p]]);
        assert(names[at[p]] == all[items[at[p]] - 1]);
    }
    assert(arranged(names).len() >= 1) by {
        assert(at.contains(0));
    }
    lemma_words_of_joined(arranged(names));
    assert(found == arranged(names));
    assert forall|p: int| 0 <= p < found.len() implies id_among(all, #[trigger] found[p])
        == items[at[p]] by {
        let id = items[at[p]];
        assert(itemizer.assigned(id));
        assert(found[p] == all[id - 1]);
        assert(all.contains(found[p]));
        let first = all.index_of(found[p]);
        assert(all[first] == found[p]);
    }
    assert forall|id: u32| items.contains(id) <==> names_item(found, all, id) by {
        if items.contains(id) {
            let k = choose|k: int| 0 <= k < items.len() && items[k] == id;
            assert(at.contains(k));
            let p = choose|p: int| 0 <= p < at.len() && at[p] == k;
            assert(id_among(all, found[p]) == items[at[p]]);
        }
        if names_item(found, all, id) {
            let p = choose|p: int| 0 <= p < found.len() && id_among(all, #[trigger] found[p]) == id;
            assert(id_among(all, found[p]) == items[at[p]]);
            assert(items[at[p]] == id);
        }
    }
}

} // verus!
