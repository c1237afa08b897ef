//! Reading a transaction from one line of a dataset: items between commas, blanks
//! around an item dropped, an item that stands twice counted once.

use crate::text::chars_of;
use crate::itemizer::{fed, named, Itemizer};
use crate::itemset::{canonical, strictly_ascending};
use vstd::prelude::*;
use vstd::string::StrSliceExecFns;

verus! {

/// Whether a character is white space.
pub open spec fn is_blank(c: char) -> bool {
    let n = c as u32;
    ||| 0x9 <= n <= 0xd
    ||| n == 0x20
    ||| n == 0x85
    ||| n == 0xa0
    ||| n == 0x1680
    ||| 0x2000 <= n <= 0x200a
    ||| n == 0x2028
    ||| n == 0x2029
    ||| n == 0x202f
    ||| n == 0x205f
    ||| n == 0x3000
}

/// Whether a character is white space.
pub fn blank(c: char) -> (b: bool)
    ensures
        b == is_blank(c),
{
    let n: u32 = c as u32;
    (0x9 <= n && n <= 0xd) || n == 0x20 || n == 0x85 || n == 0xa0 || n == 0x1680 || (0x2000 <= n
        && n <= 0x200a) || n == 0x2028 || n == 0x2029 || n == 0x202f || n == 0x205f || n == 0x3000
}

/// The place of the first comma at `from` or behind it, or the length of the line.
pub open spec fn comma_at(line: Seq<char>, from: int) -> int
    decreases line.len() - from,
{
    if from >= line.len() {
        line.len() as int
    } else if line[from] == ',' {
        from
    } else {
        comma_at(line, from + 1)
    }
}

/// The place in `from..to` where the blanks in front end.
pub open spec fn content_start(line: Seq<char>, from: int, to: int) -> int
    decreases to - from,
{
    if from < to && is_blank(line[from]) {
        content_start(line, from + 1, to)
    } else {
        from
    }
}

/// The place in `from..to` where the blanks at the end begin.
pub open spec fn content_end(line: Seq<char>, from: int, to: int) -> int
    decreases to - from,
{
    if from < to && is_blank(line[to - 1]) {
        content_end(line, from, to - 1)
    } else {
        to
    }
}

/// The item in `from..to`: what stands there, without the blanks around it.
pub open spec fn token(line: Seq<char>, from: int, to: int) -> Seq<char> {
    let start = content_start(line, from, to);
    line.subrange(start, content_end(line, start, to))
}

/// The items of a line from `from` on: what stands between the commas.
pub open spec fn tokens_from(line: Seq<char>, from: int) -> Seq<Seq<char>>
    decreases line.len() - from,
{
    if from > line.len() || from < 0 {
        Seq::empty()
    } else {
        let comma = comma_at(line, from);
        if comma >= line.len() {
            seq![token(line, from, line.len() as int)]
        } else {
            proof {
                lemma_comma_at(line, from);
            }
            seq![token(line, from, comma)] + tokens_from(line, comma + 1)
        }
    }
}

/// The items of a line.
pub open spec fn tokens_of(line: Seq<char>) -> Seq<Seq<char>> {
    tokens_from(line, 0)
}

/// Whether a line holds no transaction: it holds nothing but blanks.
pub open spec fn blank_line(line: Seq<char>) -> bool {
    tokens_of(line).len() == 1 && tokens_of(line)[0].len() == 0
}

/// Whether `id` is the id of one of the first `upto` items.
pub open spec fn id_of_token(
    names: Seq<Seq<char>>,
    tokens: Seq<Seq<char>>,
    upto: int,
    id: u32,
) -> bool {
    exists|k: int| 0 <= k < upto && named(names, id, #[trigger] tokens[k])
}

/// The place of the first comma at `from` or behind it is a comma, or the end.
pub proof fn lemma_comma_at(line: Seq<char>, from: int)
    requires
        0 <= from <= line.len(),
    ensures
        from <= comma_at(line, from) <= line.len(),
        comma_at(line, from) < line.len() ==> line[comma_at(line, from)] == ',',
        forall|i: int| from <= i < comma_at(line, from) ==> line[i] != ',',
    decreases line.len() - from,
{
    if from < line.len() && line[from] != ',' {
        lemma_comma_at(line, from + 1);
    }
}

/// The transaction of one line.
///
/// The items of the line stand between its commas; blanks around an item do not
/// belong to it. Each item gets its id from the itemizer, which takes in the names
/// it has not seen. The ids come back in ascending order, each once. A line of
/// nothing but blanks holds no transaction.
pub fn parse_line(line: &str, itemizer: &mut Itemizer) -> (transaction: Option<Vec<u32>>)
    requires
        old(itemizer).well_formed(),
        old(itemizer)@.len() + line@.len() < u32::MAX,
    ensures
        final(itemizer).well_formed(),
        blank_line(line@) ==> transaction is None && final(itemizer)@ == old(itemizer)@,
        !blank_line(line@) ==> transaction is Some && final(itemizer)@ == fed(
            old(itemizer)@,
            tokens_of(line@),
        ) && strictly_ascending(transaction->Some_0@) && forall|id: u32|
            transaction->Some_0@.contains(id) <==> id_of_token(
                final(itemizer)@,
                tokens_of(line@),
                tokens_of(line@).len() as int,
                id,
            ),
{
    let ghost text = line@;
    let ghost names0 = itemizer@;
    let chars = chars_of(line);
    let n: usize = chars.len();
    let mut ids: Vec<u32> = Vec::new();
    let ghost mut done: Seq<Seq<char>> = Seq::empty();
    let mut from: usize = 0;
    let mut finished: bool = false;
    proof {
        assert(done + tokens_from(text, 0) =~= tokens_of(text));
    }
    while !finished
        invariant
            from <= n,
            chars@ == text,
            text == line@,
            n == text.len(),
            itemizer.well_formed(),
            names0 == old(itemizer)@,
            names0.len() + text.len() < u32::MAX,
            itemizer@ == fed(names0, done),
            itemizer@.len() <= names0.len() + done.len(),
            !finished ==> done.len() <= from,
            done.len() >= 1 ==> !blank_line(text),
            from > 0 ==> done.len() >= 1,
            ids@.len() == done.len(),
            !finished ==> done + tokens_from(text, from as int) == tokens_of(text),
            finished ==> done == tokens_of(text),
            forall|k: int| 0 <= k < done.len() ==> named(itemizer@, #[trigger] ids@[k], done[k]),
        decreases n - from + if finished { 0int } else { 1int },
    {
        let mut to: usize = from;
        while to < n && chars[to] != ','
            invariant
                from <= to <= n,
                chars@ == text,
                n == text.len(),
                comma_at(text, from as int) == comma_at(text, to as int),
            decreases n - to,
        {
            to += 1;
        }
        proof {
            lemma_comma_at(text, to as int);
        }
        let mut start: usize = from;
        while start < to && blank(chars[start])
            invariant
                from <= start <= to <= n,
                chars@ == text,
                n == text.len(),
                content_start(text, from as int, to as int) == content_start(
                    text,
                    start as int,
                    to as int,
                ),
            decreases to - start,
        {
            start += 1;
        }
        let mut end: usize = to;
        while start < end && blank(chars[end - 1])
            invariant
                start <= end <= to <= n,
                chars@ == text,
                n == text.len(),
                content_end(text, start as int, to as int) == content_end(
                    text,
                    start as int,
                    end as int,
                ),
            decreases end - start,
        {
            end -= 1;
        }
        proof {
            lemma_tokens_nonempty(text, from as int);
            if to < n {
                lemma_tokens_nonempty(text, to + 1);
            }
            if from == 0 {
                if to < n {
                    assert(tokens_of(text).len() >= 2);
                } else {
                    assert(tokens_of(text) =~= seq![token(text, 0, n as int)]);
                }
            }
        }
        if from == 0 && to == n && start == end {
            proof {
                assert(token(text, 0, n as int) =~= Seq::<char>::empty());
                assert(done.len() == 0);
            }
            return None;
        }
        let name = line.substring_char(start, end);
        proof {
            assert(name@ == token(text, from as int, to as int));
            if from == 0 {
                if to < n {
                    assert(tokens_of(text).len() >= 2);
                } else {
                    assert(tokens_of(text)[0] == name@);
                    assert(name@.len() == end - start);
                }
                assert(!blank_line(text));
            }
        }
        let ghost names_before = itemizer@;
        let ghost ids_before = ids@;
        let id: u32 = itemizer.id_of(name);
        ids.push(id);
        proof {
            let next = done.push(name@);
            assert(next.drop_last() =~= done);
            assert(itemizer@ == fed(names0, next));
            assert forall|k: int| 0 <= k < next.len() implies named(
                itemizer@,
                #[trigger] ids@[k],
                next[k],
            ) by {
                if k < done.len() {
                    assert(named(names_before, ids_before[k], done[k]));
                    assert(names_before.is_prefix_of(itemizer@));
                }
            }
            if to < n {
                assert(done + tokens_from(text, from as int) =~= next + tokens_from(text, to + 1));
            } else {
                assert(done + tokens_from(text, from as int) =~= next);
            }
            done = next;
        }
        if to < n {
            from = to + 1;
        } else {
            finished = true;
        }
    }
    let transaction = canonical(&ids);
    proof {
        assert forall|id: u32|
            transaction@.contains(id) <==> id_of_token(
                itemizer@,
                tokens_of(text),
                tokens_of(text).len() as int,
                id,
            ) by {
            if transaction@.contains(id) {
                assert(transaction@.to_set().contains(id));
                assert(ids@.contains(id));
                let k = choose|k: int| 0 <= k < ids@.len() && ids@[k] == id;
                assert(named(itemizer@, ids@[k], done[k]));
            }
            if id_of_token(itemizer@, tokens_of(text), tokens_of(text).len() as int, id) {
                let k = choose|k: int|
                    0 <= k < tokens_of(text).len()
                        && named(itemizer@, id, #[trigger] tokens_of(text)[k]);
                assert(named(itemizer@, ids@[k], done[k]));
                itemizer.lemma_names();
                assert(ids@[k] == id);
                assert(ids@.contains(id));
                assert(transaction@.to_set().contains(id));
            }
        }
    }
    Some(transaction)
}

/// A line has an item from any place on.
proof fn lemma_tokens_nonempty(line: Seq<char>, from: int)
    requires
        0 <= from <= line.len(),
    ensures
        tokens_from(line, from).len() >= 1,
{
}

} // verus!
