//! Run parameters: the rarity method and the rule thresholds, and their validation.

use crate::text::{chars_of, digits_in, digits_value, lemma_digits_fail, lemma_digits_grow};
use vstd::prelude::*;
use vstd::string::StringExecFns;

verus! {

/// How the rare items are told apart from the common ones.
#[derive(Clone, Copy, Debug, PartialEq, Eq, Structural)]
pub enum MaxSupportMode {
    Pareto,
    Gaussian,
}

/// A non-negative rational number, `numerator / denominator`.
///
/// Thresholds and rule measures are kept exact: two of them are compared by
/// cross-multiplication, never by division.
#[derive(Clone, Copy, Debug)]
pub struct Fraction {
    pub numerator: u64,
    pub denominator: u64,
}

/// The product of two 64-bit numbers, which always fits 128 bits.
pub fn wide_product(a: u64, b: u64) -> (p: u128)
    ensures
        p == a as int * b as int,
{
    proof {
        assert(0 <= a as int * b as int <= 0xffff_ffff_ffff_ffff * 0xffff_ffff_ffff_ffff)
            by (nonlinear_arith)
            requires
                0 <= a as int <= 0xffff_ffff_ffff_ffff,
                0 <= b as int <= 0xffff_ffff_ffff_ffff,
        ;
    }
    (a as u128) * (b as u128)
}

impl Fraction {
    /// A fraction stands for a number only with a denominator above zero.
    pub open spec fn valid(&self) -> bool {
        self.denominator > 0
    }

    /// `self >= other`, as numbers.
    pub open spec fn reaches(&self, other: &Fraction) -> bool {
        self.numerator as int * other.denominator as int >= other.numerator as int
            * self.denominator as int
    }

    /// `numerator / denominator`, where that is a number.
    pub fn new(numerator: u64, denominator: u64) -> (f: Option<Fraction>)
        ensures
            denominator == 0 ==> f is None,
            denominator > 0 ==> f == Some(Fraction { numerator, denominator }),
    {
        if denominator == 0 {
            None
        } else {
            Some(Fraction { numerator, denominator })
        }
    }

    /// The number one.
    pub fn one() -> (f: Fraction)
        ensures
            f == (Fraction { numerator: 1, denominator: 1 }),
    {
        Fraction { numerator: 1, denominator: 1 }
    }

    /// Whether `self >= other`.
    pub fn at_least(&self, other: &Fraction) -> (b: bool)
        ensures
            b == self.reaches(other),
    {
        wide_product(self.numerator, other.denominator) >= wide_product(
            other.numerator,
            self.denominator,
        )
    }
}

/// Why a set of parameters is refused.
#[derive(Clone, Copy, Debug, PartialEq, Eq, Structural)]
pub enum UsageError {
    /// The rarity method is neither `gaussian` nor `pareto`.
    UnknownMode,
    /// The confidence threshold is not a number in `[0, 1]`.
    ConfidenceOutOfRange,
    /// The lift threshold is not a number of at least one.
    LiftBelowOne,
}

/// The parameters of one run.
#[derive(Debug)]
pub struct Arguments {
    pub input_file_path: String,
    pub output_rules_path: String,
    pub max_support_mode: MaxSupportMode,
    pub min_confidence: Fraction,
    pub min_lift: Fraction,
    pub disable_family_wise_rule_filtering: bool,
    pub log_rare_items: bool,
}

/// The rarity method that a name stands for.
pub open spec fn mode_named(name: Seq<char>) -> Option<MaxSupportMode> {
    if name == "gaussian"@ {
        Some(MaxSupportMode::Gaussian)
    } else if name == "pareto"@ {
        Some(MaxSupportMode::Pareto)
    } else {
        None
    }
}

/// Reads the name of a rarity method.
pub fn parse_max_support_mode(name: &str) -> (mode: Option<MaxSupportMode>)
    ensures
        mode == mode_named(name@),
{
    let given = String::from_str(name);
    let gaussian = String::from_str("gaussian");
    let pareto = String::from_str("pareto");
    if given == gaussian {
        Some(MaxSupportMode::Gaussian)
    } else if given == pareto {
        Some(MaxSupportMode::Pareto)
    } else {
        None
    }
}

/// The lift threshold in force: the one given, or one.
pub open spec fn lift_in_force(min_lift: Option<Fraction>) -> Fraction {
    match min_lift {
        Some(f) => f,
        None => Fraction { numerator: 1, denominator: 1 },
    }
}

/// What `check_arguments` answers: the first fault in the order mode, confidence, lift,
/// and the parameters where there is none.
pub open spec fn checked(
    input_file_path: Seq<char>,
    output_rules_path: Seq<char>,
    mode_name: Seq<char>,
    min_confidence: Fraction,
    min_lift: Option<Fraction>,
    disable_family_wise_rule_filtering: bool,
    log_rare_items: bool,
    outcome: Result<Arguments, UsageError>,
) -> bool {
    let lift = lift_in_force(min_lift);
    if mode_named(mode_name) is None {
        outcome == Err::<Arguments, UsageError>(UsageError::UnknownMode)
    } else if !min_confidence.valid() || min_confidence.numerator > min_confidence.denominator {
        outcome == Err::<Arguments, UsageError>(UsageError::ConfidenceOutOfRange)
    } else if !lift.valid() || lift.numerator < lift.denominator {
        outcome == Err::<Arguments, UsageError>(UsageError::LiftBelowOne)
    } else {
        &&& outcome is Ok
        &&& outcome->Ok_0.input_file_path@ == input_file_path
        &&& outcome->Ok_0.output_rules_path@ == output_rules_path
        &&& Some(outcome->Ok_0.max_support_mode) == mode_named(mode_name)
        &&& outcome->Ok_0.min_confidence == min_confidence
        &&& outcome->Ok_0.min_lift == lift
        &&& outcome->Ok_0.disable_family_wise_rule_filtering == disable_family_wise_rule_filtering
        &&& outcome->Ok_0.log_rare_items == log_rare_items
    }
}

/// Validates the parameters of a run: the method is `gaussian` or `pareto`, the
/// confidence threshold lies in `[0, 1]`, the lift threshold is at least one (and is one
/// where none is given).
pub fn check_arguments(
    input_file_path: &str,
    output_rules_path: &str,
    mode_name: &str,
    min_confidence: Fraction,
    min_lift: Option<Fraction>,
    disable_family_wise_rule_filtering: bool,
    log_rare_items: bool,
) -> (outcome: Result<Arguments, UsageError>)
    ensures
        checked(
            input_file_path@,
            output_rules_path@,
            mode_name@,
            min_confidence,
            min_lift,
            disable_family_wise_rule_filtering,
            log_rare_items,
            outcome,
        ),
{
    let max_support_mode = match parse_max_support_mode(mode_name) {
        Some(mode) => mode,
        None => {
            return Err(UsageError::UnknownMode);
        },
    };
    if min_confidence.denominator == 0 || min_confidence.numerator > min_confidence.denominator {
        return Err(UsageError::ConfidenceOutOfRange);
    }
    let lift = match min_lift {
        Some(f) => f,
        None => Fraction::one(),
    };
    if lift.denominator == 0 || lift.numerator < lift.denominator {
        return Err(UsageError::LiftBelowOne);
    }
    Ok(
        Arguments {
            input_file_path: String::from_str(input_file_path),
            output_rules_path: String::from_str(output_rules_path),
            max_support_mode,
            min_confidence,
            min_lift: lift,
            disable_family_wise_rule_filtering,
            log_rare_items,
        },
    )
}

/// Ten to the power of `exponent`.
pub open spec fn power_of_ten(exponent: nat) -> nat
    decreases exponent,
{
    if exponent == 0 {
        1
    } else {
        10 * power_of_ten((exponent - 1) as nat)
    }
}

/// The place of the decimal point in a row of characters, or its length.
pub open spec fn point_at(text: Seq<char>, from: int) -> int
    decreases text.len() - from,
{
    if from >= text.len() {
        text.len() as int
    } else if text[from] == '.' {
        from
    } else {
        point_at(text, from + 1)
    }
}

/// The place of the letter that opens the exponent, or the length of the row.
pub open spec fn mark_at(text: Seq<char>, from: int) -> int
    decreases text.len() - from,
{
    if from >= text.len() {
        text.len() as int
    } else if text[from] == 'e' || text[from] == 'E' {
        from
    } else {
        mark_at(text, from + 1)
    }
}

/// The digits of a decimal number: those before the point, and those behind it.
pub open spec fn decimal_digits(text: Seq<char>) -> (Seq<char>, Seq<char>) {
    let point = point_at(text, 0);
    if point < text.len() {
        (text.take(point), text.skip(point + 1))
    } else {
        (text, Seq::empty())
    }
}

/// The digits of a decimal number as one whole number, and the number of digits
/// behind the point: digits with or without a point among them, one digit at
/// least. Of `12.50` they are 1250 and 2.
pub open spec fn mantissa_of(text: Seq<char>) -> Option<(nat, nat)> {
    let (whole, part) = decimal_digits(text);
    let digits = whole + part;
    if digits.len() == 0 {
        None
    } else {
        match digits_value(digits) {
            Some(value) => Some((value, part.len())),
            None => None,
        }
    }
}

/// The whole number that an exponent stands for: one or more digits, with or
/// without a sign in front.
pub open spec fn exponent_of(text: Seq<char>) -> Option<int> {
    let negative = text.len() > 0 && text[0] == '-';
    let digits = if negative {
        text.skip(1)
    } else {
        digits_in(text)
    };
    if digits.len() == 0 {
        None
    } else {
        match digits_value(digits) {
            Some(value) => Some(
                if negative {
                    -(value as int)
                } else {
                    value as int
                },
            ),
            None => None,
        }
    }
}

/// The fraction that is `value` times ten to the power of `shift`, exactly: with
/// the denominator 1 where the power is not negative, with the numerator `value`
/// where it is. Where the numerator or the denominator would not fit 64 bits
/// there is no such fraction, but for zero, which is `0 / 1` then.
pub open spec fn shifted(value: nat, shift: int) -> Option<Fraction> {
    if value == 0 && (shift > 19 || shift < -19) {
        Some(Fraction { numerator: 0, denominator: 1 })
    } else if 0 <= shift <= 19 && value * power_of_ten(shift as nat) <= u64::MAX {
        Some(Fraction { numerator: (value * power_of_ten(shift as nat)) as u64, denominator: 1 })
    } else if -19 <= shift < 0 && value <= u64::MAX {
        Some(Fraction { numerator: value as u64, denominator: power_of_ten((-shift) as nat) as u64 })
    } else {
        None
    }
}

/// The number that a decimal notation stands for, exactly: digits, with or without
/// a plus sign in front, with or without a point among them, and with or without
/// an exponent behind them, which is the letter `e` or `E` and a whole number.
/// The number `12.50` is `1250 / 100`, `1e-2` is `1 / 100`, and `2.5e3` is
/// `2500 / 1`. A notation is refused only where it is none, or where the
/// numerator or the denominator of its number does not fit 64 bits.
pub open spec fn decimal_of(text: Seq<char>) -> Option<Fraction> {
    let body = digits_in(text);
    let mark = mark_at(body, 0);
    let exponent = if mark < body.len() {
        exponent_of(body.skip(mark + 1))
    } else {
        Some(0int)
    };
    match (mantissa_of(body.take(mark)), exponent) {
        (Some((value, places)), Some(exponent)) => shifted(value, exponent - places),
        _ => None,
    }
}

/// The powers of ten grow, and the nineteenth still fits 64 bits.
pub proof fn lemma_power_of_ten(a: nat, b: nat)
    requires
        a <= b,
    ensures
        1 <= power_of_ten(a) <= power_of_ten(b),
        b <= 19 ==> power_of_ten(b) <= 10_000_000_000_000_000_000,
    decreases b,
{
    if b > 0 {
        if a < b {
            lemma_power_of_ten(a, (b - 1) as nat);
        } else {
            lemma_power_of_ten((a - 1) as nat, (b - 1) as nat);
        }
    }
    if b <= 19 {
        assert(power_of_ten(19) == 10_000_000_000_000_000_000) by {
            reveal_with_fuel(power_of_ten, 20);
        }
        if b < 19 {
            lemma_power_of_ten_step(b, 19);
        }
    }
}

/// The powers of ten grow.
proof fn lemma_power_of_ten_step(a: nat, b: nat)
    requires
        a <= b,
    ensures
        power_of_ten(a) <= power_of_ten(b),
    decreases b,
{
    if a < b {
        lemma_power_of_ten_step(a, (b - 1) as nat);
    }
}

/// Ten to the power of `exponent`, as far as 64 bits hold it.
pub fn ten_to(exponent: u64) -> (power: u64)
    requires
        exponent <= 19,
    ensures
        power == power_of_ten(exponent as nat),
{
    let mut power: u64 = 1;
    let mut k: u64 = 0;
    while k < exponent
        invariant
            k <= exponent <= 19,
            power == power_of_ten(k as nat),
        decreases exponent - k,
    {
        proof {
            lemma_power_of_ten((k + 1) as nat, 19);
            assert(power_of_ten((k + 1) as nat) == 10 * power_of_ten(k as nat)) by {
                reveal_with_fuel(power_of_ten, 2);
            }
        }
        power = power * 10;
        k += 1;
    }
    power
}

/// Reads the digits of a decimal number, with or without a point among them, from
/// the characters `from..to`.
fn read_mantissa(chars: &Vec<char>, from: usize, to: usize) -> (mantissa: Option<(u64, usize)>)
    requires
        from <= to <= chars@.len(),
    ensures
        match mantissa_of(chars@.subrange(from as int, to as int)) {
            Some((value, places)) => if value <= u64::MAX {
                mantissa == Some((value as u64, places as usize)) && places <= to - from
            } else {
                mantissa is None
            },
            None => mantissa is None,
        },
{
    let ghost body = chars@.subrange(from as int, to as int);
    let ghost point = point_at(body, 0);
    let ghost whole = decimal_digits(body).0;
    let ghost part = decimal_digits(body).1;
    let ghost digits = whole + part;
    let mut value: u64 = 0;
    let mut places: usize = 0;
    let mut count: usize = 0;
    let mut after_point: bool = false;
    let mut k: usize = from;
    proof {
        assert(digits.take(0) =~= Seq::<char>::empty());
    }
    while k < to
        invariant
            from <= k <= to <= chars@.len(),
            body == chars@.subrange(from as int, to as int),
            point == point_at(body, 0),
            whole == decimal_digits(body).0,
            part == decimal_digits(body).1,
            digits == whole + part,
            !after_point ==> point_at(body, 0) == point_at(body, k - from) && count == k - from
                && places == 0,
            after_point ==> point < k - from && count == k - from - 1 && places == k - from - 1
                - point,
            count <= digits.len(),
            forall|i: int|
                0 <= i < count ==> #[trigger] digits[i] == body[if i < point {
                    i
                } else {
                    i + 1
                }],
            digits_value(digits.take(count as int)) == Some(value as nat),
            places <= count,
        decreases to - k,
    {
        let c: char = chars[k];
        proof {
            assert(body[k - from] == c);
        }
        if c == '.' && !after_point {
            proof {
                assert(point == k - from);
                assert(whole =~= body.take(point));
                assert(part =~= body.skip(point + 1));
            }
            after_point = true;
        } else {
            proof {
                if !after_point {
                    lemma_point_at(body, k - from);
                    if point < body.len() {
                        assert(whole =~= body.take(point));
                    } else {
                        assert(whole =~= body);
                    }
                } else {
                    assert(whole =~= body.take(point));
                    assert(part =~= body.skip(point + 1));
                }
                assert(count < digits.len());
                assert(digits[count as int] == c);
                assert(digits.take(count + 1).drop_last() =~= digits.take(count as int));
                assert(digits.take(count + 1).last() == c);
            }
            if c < '0' || c > '9' {
                proof {
                    lemma_digits_fail(digits, count + 1);
                }
                return None;
            }
            let digit: u64 = (c as u32 - '0' as u32) as u64;
            if value > (u64::MAX - digit) / 10 {
                proof {
                    if digits_value(digits) is Some {
                        lemma_digits_grow(digits, count + 1);
                    }
                }
                return None;
            }
            value = value * 10 + digit;
            count += 1;
            if after_point {
                places += 1;
            }
        }
        k += 1;
    }
    proof {
        if !after_point {
            lemma_point_at(body, to - from);
            assert(point == body.len());
            assert(whole =~= body);
            assert(part =~= Seq::<char>::empty());
        } else {
            assert(whole =~= body.take(point));
            assert(part =~= body.skip(point + 1));
        }
        assert(digits.len() == count);
        assert(digits.take(count as int) =~= digits);
    }
    if count == 0 {
        return None;
    }
    Some((value, places))
}

/// The largest exponent that is told apart from the larger ones: it is beyond
/// the length of any text, so that beyond it no number but zero has a fraction.
pub const FAR: i128 = 0x40_0000_0000_0000_0000;

/// An exponent, or `FAR` in its place where it lies beyond.
pub open spec fn within_far(exponent: int) -> int {
    if exponent > FAR {
        FAR as int
    } else if exponent < -FAR {
        -FAR as int
    } else {
        exponent
    }
}

/// Reads an exponent from the characters `from..to`; what lies beyond `FAR` is
/// read as `FAR`.
fn read_exponent(chars: &Vec<char>, from: usize, to: usize) -> (exponent: Option<i128>)
    requires
        from <= to <= chars@.len(),
    ensures
        match exponent_of(chars@.subrange(from as int, to as int)) {
            Some(value) => exponent == Some(within_far(value) as i128),
            None => exponent is None,
        },
{
    let ghost text = chars@.subrange(from as int, to as int);
    let negative: bool = from < to && chars[from] == '-';
    let start: usize = if from < to && (chars[from] == '-' || chars[from] == '+') {
        from + 1
    } else {
        from
    };
    let ghost digits = if negative {
        text.skip(1)
    } else {
        digits_in(text)
    };
    proof {
        if from < to {
            assert(text[0] == chars@[from as int]);
        }
        assert(digits =~= chars@.subrange(start as int, to as int));
        assert(digits.take(0) =~= Seq::<char>::empty());
    }
    if start == to {
        return None;
    }
    let mut value: i128 = 0;
    let ghost mut seen: nat = 0;
    let mut k: usize = start;
    while k < to
        invariant
            from <= start <= k <= to <= chars@.len(),
            start < to,
            text == chars@.subrange(from as int, to as int),
            negative == (text.len() > 0 && text[0] == '-'),
            digits == if negative {
                text.skip(1)
            } else {
                digits_in(text)
            },
            digits == chars@.subrange(start as int, to as int),
            digits_value(digits.take(k - start)) == Some(seen),
            value == if seen > FAR {
                FAR as int
            } else {
                seen as int
            },
        decreases to - k,
    {
        let c: char = chars[k];
        proof {
            assert(digits.take(k - start + 1).drop_last() =~= digits.take(k - start));
            assert(digits.take(k - start + 1).last() == c);
        }
        if c < '0' || c > '9' {
            proof {
                lemma_digits_fail(digits, k - start + 1);
            }
            return None;
        }
        let digit: i128 = (c as u32 - '0' as u32) as i128;
        value = value * 10 + digit;
        if value > FAR {
            value = FAR;
        }
        proof {
            seen = seen * 10 + digit as nat;
        }
        k += 1;
    }
    proof {
        assert(digits.take(k - start) =~= digits);
    }
    if negative {
        Some(-value)
    } else {
        Some(value)
    }
}

/// `value` times ten to the power of `exponent - places`, as a fraction.
pub fn shift_by(value: u64, places: usize, exponent: i128) -> (fraction: Option<Fraction>)
    requires
        -FAR <= exponent <= FAR,
    ensures
        fraction == shifted(value as nat, exponent - places),
        fraction is Some ==> fraction->Some_0.valid(),
{
    let shift: i128 = exponent - places as i128;
    if shift > 19 || shift < -19 {
        if value == 0 {
            Some(Fraction { numerator: 0, denominator: 1 })
        } else {
            None
        }
    } else if shift >= 0 {
        let scale: u64 = ten_to(shift as u64);
        let product: u128 = wide_product(value, scale);
        if product > u64::MAX as u128 {
            None
        } else {
            Some(Fraction { numerator: product as u64, denominator: 1 })
        }
    } else {
        let scale: u64 = ten_to((-shift) as u64);
        proof {
            lemma_power_of_ten((-shift) as nat, 19);
        }
        Some(Fraction { numerator: value, denominator: scale })
    }
}

/// Reads a threshold in decimal notation, exactly.
pub fn parse_fraction(text: &str) -> (fraction: Option<Fraction>)
    ensures
        fraction == decimal_of(text@),
        fraction is Some ==> fraction->Some_0.valid(),
{
    let chars = chars_of(text);
    let len: usize = chars.len();
    let start: usize = if len > 0 && chars[0] == '+' {
        1
    } else {
        0
    };
    let ghost body = digits_in(text@);
    proof {
        assert(body =~= chars@.subrange(start as int, len as int));
    }
    let mut mark: usize = start;
    while mark < len && chars[mark] != 'e' && chars[mark] != 'E'
        invariant
            start <= mark <= len,
            len == chars@.len(),
            body == chars@.subrange(start as int, len as int),
            mark_at(body, 0) == mark_at(body, mark - start),
        decreases len - mark,
    {
        proof {
            assert(body[mark - start] == chars@[mark as int]);
            lemma_mark_at(body, mark - start);
        }
        mark += 1;
    }
    proof {
        if mark < len {
            assert(body[mark - start] == chars@[mark as int]);
        }
        lemma_mark_at(body, mark - start);
        assert(mark_at(body, 0) == mark - start);
        assert(body.take(mark - start) =~= chars@.subrange(start as int, mark as int));
        if mark < len {
            assert(body.skip(mark - start + 1) =~= chars@.subrange(mark + 1, len as int));
        }
    }
    let mantissa = read_mantissa(&chars, start, mark);
    let exponent: Option<i128> = if mark < len {
        read_exponent(&chars, mark + 1, len)
    } else {
        Some(0)
    };
    let ghost read = mantissa_of(body.take(mark - start));
    let ghost power = if mark < len {
        exponent_of(body.skip(mark - start + 1))
    } else {
        Some(0int)
    };
    match (mantissa, exponent) {
        (Some((value, places)), Some(exponent)) => {
            proof {
                assert(read == Some((value as nat, places as nat)));
                assert(power is Some && exponent == within_far(power->Some_0));
                assert(shifted(value as nat, exponent - places) == shifted(
                    value as nat,
                    power->Some_0 - places,
                ));
            }
            shift_by(value, places, exponent)
        },
        _ => {
            proof {
                if read is Some && power is Some {
                    let shift = power->Some_0 - read->Some_0.1;
                    assert(read->Some_0.0 > u64::MAX);
                    if 0 <= shift <= 19 {
                        lemma_power_of_ten(shift as nat, 19);
                        assert(read->Some_0.0 * power_of_ten(shift as nat) >= read->Some_0.0)
                            by (nonlinear_arith)
                            requires
                                power_of_ten(shift as nat) >= 1,
                        ;
                    }
                }
            }
            None
        },
    }
}

/// Where no point stands before a place, the first point stands at that place or
/// behind it.
proof fn lemma_point_at(text: Seq<char>, from: int)
    requires
        0 <= from <= text.len(),
    ensures
        from <= point_at(text, from) <= text.len(),
        point_at(text, from) < text.len() ==> text[point_at(text, from)] == '.',
        from < text.len() && text[from] != '.' ==> point_at(text, from) == point_at(text, from + 1),
        from < text.len() && text[from] == '.' ==> point_at(text, from) == from,
    decreases text.len() - from,
{
    if from < text.len() && text[from] != '.' {
        lemma_point_at(text, from + 1);
    }
}

/// Where no letter of the exponent stands before a place, the first stands at that
/// place or behind it.
proof fn lemma_mark_at(text: Seq<char>, from: int)
    requires
        0 <= from <= text.len(),
    ensures
        from <= mark_at(text, from) <= text.len(),
        from < text.len() && text[from] != 'e' && text[from] != 'E' ==> mark_at(text, from)
            == mark_at(text, from + 1),
        from < text.len() && (text[from] == 'e' || text[from] == 'E') ==> mark_at(text, from)
            == from,
        from == text.len() ==> mark_at(text, from) == from,
    decreases text.len() - from,
{
    if from < text.len() && text[from] != 'e' && text[from] != 'E' {
        lemma_mark_at(text, from + 1);
    }
}

} // verus!
