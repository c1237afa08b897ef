//! Text: its characters, and the numbers written in it in decimal digits.

use vstd::prelude::*;

verus! {

/// The characters of a text, one by one.
pub fn chars_of(text: &str) -> (chars: Vec<char>)
    ensures
        chars@ == text@,
{
    broadcast use vstd::string::axiom_spec_iter;

    let mut chars: Vec<char> = Vec::new();
    for c in it: text.chars()
        invariant
            it.seq() == text@,
            chars@ == it.seq().take(it.index()),
    {
        chars.push(c);
        proof {
            assert(it.seq().take(it.index() + 1) =~= it.seq().take(it.index()).push(c));
        }
    }
    proof {
        assert(text@.take(text@.len() as int) =~= text@);
    }
    chars
}

/// The value of a digit, where `c` is one.
pub open spec fn digit_of(c: char) -> Option<nat> {
    if '0' <= c <= '9' {
        Some((c as nat - '0' as nat) as nat)
    } else {
        None
    }
}

/// The value of a row of decimal digits; the empty row counts as zero.
pub open spec fn digits_value(digits: Seq<char>) -> Option<nat>
    decreases digits.len(),
{
    if digits.len() == 0 {
        Some(0)
    } else {
        match (digits_value(digits.drop_last()), digit_of(digits.last())) {
            (Some(value), Some(digit)) => Some(value * 10 + digit),
            _ => None,
        }
    }
}

/// The digits of a name: the name, without a plus sign in front.
pub open spec fn digits_in(name: Seq<char>) -> Seq<char> {
    if name.len() > 0 && name[0] == '+' {
        name.skip(1)
    } else {
        name
    }
}

/// The number that a name stands for: it is a row of one or more decimal digits,
/// with or without a plus sign in front. However long the row is, it has its value.
pub open spec fn number_of(name: Seq<char>) -> Option<nat> {
    let digits = digits_in(name);
    if digits.len() == 0 {
        None
    } else {
        digits_value(digits)
    }
}

/// One digit more never lowers the value.
pub proof fn lemma_digits_grow(digits: Seq<char>, upto: int)
    requires
        0 <= upto <= digits.len(),
        digits_value(digits) is Some,
    ensures
        digits_value(digits.take(upto)) is Some,
        digits_value(digits.take(upto))->Some_0 <= digits_value(digits)->Some_0,
    decreases digits.len() - upto,
{
    if upto < digits.len() {
        lemma_digits_grow(digits, upto + 1);
        assert(digits.take(upto + 1).drop_last() =~= digits.take(upto));
    } else {
        assert(digits.take(upto) =~= digits);
    }
}

/// A row with a character that is no digit has no value.
pub proof fn lemma_digits_fail(digits: Seq<char>, upto: int)
    requires
        0 <= upto <= digits.len(),
        digits_value(digits.take(upto)) is None,
    ensures
        digits_value(digits) is None,
    decreases digits.len() - upto,
{
    if upto < digits.len() {
        assert(digits.take(upto + 1).drop_last() =~= digits.take(upto));
        lemma_digits_fail(digits, upto + 1);
    } else {
        assert(digits.take(upto) =~= digits);
    }
}

/// A row of digits with one digit more is worth ten times the row, and the digit.
pub proof fn lemma_digits_step(digits: Seq<char>, upto: int)
    requires
        0 <= upto < digits.len(),
        digits_value(digits) is Some,
    ensures
        digits_value(digits.take(upto)) is Some,
        digit_of(digits[upto]) is Some,
        digits_value(digits.take(upto + 1)) == Some(
            digits_value(digits.take(upto))->Some_0 * 10 + digit_of(digits[upto])->Some_0,
        ),
{
    lemma_digits_grow(digits, upto);
    lemma_digits_grow(digits, upto + 1);
    assert(digits.take(upto + 1).drop_last() =~= digits.take(upto));
    assert(digits.take(upto + 1).last() == digits[upto]);
}

/// Whether a name is a number.
pub fn is_number(name: &str) -> (number: bool)
    ensures
        number == (number_of(name@) is Some),
{
    let chars = chars_of(name);
    let len: usize = chars.len();
    let start: usize = if len > 0 && chars[0] == '+' {
        1
    } else {
        0
    };
    if start == len {
        return false;
    }
    let ghost digits = digits_in(name@);
    let mut k: usize = start;
    proof {
        assert(digits.take(0) =~= Seq::<char>::empty());
    }
    while k < len
        invariant
            start <= k <= len,
            chars@ == name@,
            len == name@.len(),
            digits == digits_in(name@),
            digits.len() == len - start,
            forall|i: int| 0 <= i < digits.len() ==> digits[i] == name@[i + start],
            digits_value(digits.take(k - start)) is Some,
        decreases len - k,
    {
        let c: char = chars[k];
        proof {
            assert(digits.take(k - start + 1).drop_last() =~= digits.take(k - start));
            assert(digits.take(k - start + 1).last() == c);
        }
        if c < '0' || c > '9' {
            proof {
                lemma_digits_fail(digits, k - start + 1);
            }
            return false;
        }
        k += 1;
    }
    proof {
        assert(digits.take(k - start) =~= digits);
    }
    true
}

/// The value of the first `upto` digits of a row, none of them where `upto` is
/// below zero.
pub open spec fn value_upto(digits: Seq<char>, upto: int) -> nat {
    if upto <= 0 {
        0
    } else {
        digits_value(digits.take(upto))->Some_0
    }
}

/// Whether the number that one name stands for is below that of another. The
/// digits are compared place by place from the highest, the shorter row taken
/// with zeros in front; a value is never computed, so no row is too long.
pub fn number_less(a: &str, b: &str) -> (less: bool)
    requires
        number_of(a@) is Some,
        number_of(b@) is Some,
    ensures
        less == (number_of(a@)->Some_0 < number_of(b@)->Some_0),
{
    let a_chars = chars_of(a);
    let b_chars = chars_of(b);
    let a_start: usize = if a_chars[0] == '+' {
        1
    } else {
        0
    };
    let b_start: usize = if b_chars[0] == '+' {
        1
    } else {
        0
    };
    let a_len: usize = a_chars.len() - a_start;
    let b_len: usize = b_chars.len() - b_start;
    let places: usize = if a_len < b_len {
        b_len
    } else {
        a_len
    };
    let a_gap: usize = places - a_len;
    let b_gap: usize = places - b_len;
    let ghost a_digits = digits_in(a@);
    let ghost b_digits = digits_in(b@);
    let mut below: bool = false;
    let mut above: bool = false;
    let mut p: usize = 0;
    while p < places
        invariant
            p <= places,
            a_chars@ == a@,
            b_chars@ == b@,
            a_digits == digits_in(a@),
            b_digits == digits_in(b@),
            a_digits.len() == a_len,
            b_digits.len() == b_len,
            a_start + a_len == a@.len(),
            b_start + b_len == b@.len(),
            forall|i: int| 0 <= i < a_len ==> a_digits[i] == a@[i + a_start],
            forall|i: int| 0 <= i < b_len ==> b_digits[i] == b@[i + b_start],
            digits_value(a_digits) is Some,
            digits_value(b_digits) is Some,
            a_gap + a_len == places,
            b_gap + b_len == places,
            below == (value_upto(a_digits, p - a_gap) < value_upto(b_digits, p - b_gap)),
            above == (value_upto(a_digits, p - a_gap) > value_upto(b_digits, p - b_gap)),
        decreases places - p,
    {
        let mut x: u32 = 0;
        let mut y: u32 = 0;
        let ghost a_value = value_upto(a_digits, p - a_gap);
        let ghost b_value = value_upto(b_digits, p - b_gap);
        proof {
            assert(a_digits.take(0) =~= Seq::<char>::empty());
            assert(b_digits.take(0) =~= Seq::<char>::empty());
        }
        if p >= a_gap {
            let c: char = a_chars[a_start + (p - a_gap)];
            proof {
                lemma_digits_step(a_digits, p - a_gap);
                assert(a_digits[p - a_gap] == c);
            }
            x = c as u32 - '0' as u32;
        }
        if p >= b_gap {
            let c: char = b_chars[b_start + (p - b_gap)];
            proof {
                lemma_digits_step(b_digits, p - b_gap);
                assert(b_digits[p - b_gap] == c);
            }
            y = c as u32 - '0' as u32;
        }
        proof {
            assert(x <= 9 && y <= 9);
            assert(value_upto(a_digits, p + 1 - a_gap) == a_value * 10 + x);
            assert(value_upto(b_digits, p + 1 - b_gap) == b_value * 10 + y);
        }
        let was_below: bool = below;
        below = below || (!above && x < y);
        above = above || (!was_below && x > y);
        p += 1;
    }
    proof {
        assert(a_digits.take(a_len as int) =~= a_digits);
        assert(b_digits.take(b_len as int) =~= b_digits);
    }
    below
}

} // verus!
