use riptree::config::{
    check_arguments, parse_fraction, parse_max_support_mode, Fraction, MaxSupportMode, UsageError,
};
use riptree::itemizer::Itemizer;
use riptree::reader::parse_line;
use riptree::text::{is_number, number_less};
use riptree::render::{ensure_sorted, name_less, render_side};

fn strings(names: &[&str]) -> Vec<String> {
    names.iter().map(|name| name.to_string()).collect()
}

#[test]
fn numbers_are_rows_of_digits() {
    assert!(is_number("0"));
    assert!(is_number("42"));
    assert!(is_number("+42"));
    assert!(is_number("007"));
    assert!(is_number("4294967295"));
    assert!(is_number("4294967296"));
    assert!(is_number("99999999999999999999999"));
    assert!(!is_number(""));
    assert!(!is_number("+"));
    assert!(!is_number("++1"));
    assert!(!is_number("-1"));
    assert!(!is_number("1 "));
    assert!(!is_number("1a"));
    assert!(!is_number("1.5"));
    assert!(!is_number("٣"));
}

#[test]
fn numbers_compare_by_value_whatever_their_length() {
    assert!(number_less("9", "10"));
    assert!(!number_less("10", "9"));
    assert!(!number_less("7", "7"));
    assert!(!number_less("007", "7"));
    assert!(!number_less("7", "+007"));
    assert!(number_less("0", "1"));
    assert!(!number_less("000", "0"));
    assert!(number_less("099", "100"));
    assert!(number_less("123456", "123457"));
    assert!(!number_less("123457", "123456"));
    assert!(number_less("4294967295", "4294967296"));
    assert!(number_less("9999999999", "10000000000"));
    assert!(!number_less("10000000000", "9999999999"));
    assert!(number_less(
        "99999999999999999999999999999999999998",
        "+99999999999999999999999999999999999999"
    ));
    assert!(!number_less(
        "100000000000000000000000000000000000000",
        "99999999999999999999999999999999999999"
    ));
}

#[test]
fn names_compare_by_their_characters() {
    assert!(name_less("a", "b"));
    assert!(!name_less("b", "a"));
    assert!(!name_less("a", "a"));
    assert!(name_less("", "a"));
    assert!(!name_less("a", ""));
    assert!(name_less("ab", "abc"));
    assert!(name_less("10", "9"));
    assert!(name_less("Z", "a"));
    assert!(name_less("z", "é"));
}

#[test]
fn names_sort_by_number_where_all_are_numbers() {
    let mut names = strings(&["10", "9", "2", "33"]);
    ensure_sorted(&mut names);
    assert_eq!(names, strings(&["2", "9", "10", "33"]));
    let mut names = strings(&["10", "9", "x", "2"]);
    ensure_sorted(&mut names);
    assert_eq!(names, strings(&["10", "2", "9", "x"]));
    let mut names = strings(&["10000000000", "9999999999"]);
    ensure_sorted(&mut names);
    assert_eq!(names, strings(&["9999999999", "10000000000"]));
    let mut names = strings(&["18446744073709551616", "4294967296", "18446744073709551615", "5"]);
    ensure_sorted(&mut names);
    assert_eq!(
        names,
        strings(&["5", "4294967296", "18446744073709551615", "18446744073709551616"])
    );
    // Names of one number keep their places.
    let mut names = strings(&["07", "3", "7", "+7"]);
    ensure_sorted(&mut names);
    assert_eq!(names, strings(&["3", "07", "7", "+7"]));
    let mut names = strings(&["pear", "apple", "fig", "apple"]);
    ensure_sorted(&mut names);
    assert_eq!(names, strings(&["apple", "apple", "fig", "pear"]));
    let mut none: Vec<String> = Vec::new();
    ensure_sorted(&mut none);
    assert!(none.is_empty());
}

#[test]
fn names_in_order_are_left_as_they_are() {
    for given in [
        strings(&["10", "9", "2", "33", "+9", "009"]),
        strings(&["10000000000", "9999999999", "0"]),
        strings(&["pear", "10", "apple", "9"]),
        strings(&["b", "a", "b", "", "a"]),
    ] {
        let mut once = given.clone();
        ensure_sorted(&mut once);
        let mut twice = once.clone();
        ensure_sorted(&mut twice);
        assert_eq!(once, twice);
        let mut before = given.clone();
        before.sort();
        let mut after = once.clone();
        after.sort();
        assert_eq!(before, after);
    }
    let mut names = strings(&["9", "+9", "009", "10"]);
    ensure_sorted(&mut names);
    assert_eq!(names, strings(&["9", "+9", "009", "10"]));
}

#[test]
fn a_side_is_written_with_blanks() {
    let mut itemizer = Itemizer::new();
    let ids = itemizer.to_id_vec(&["pear", "10", "apple", "9"]);
    assert_eq!(render_side(&ids, &itemizer), "10 9 apple pear");
    assert_eq!(render_side(&vec![ids[1], ids[3]], &itemizer), "9 10");
    assert_eq!(render_side(&vec![ids[0]], &itemizer), "pear");
    assert_eq!(render_side(&Vec::new(), &itemizer), "");
}

#[test]
fn written_sides_read_back_to_the_items() {
    let mut itemizer = Itemizer::new();
    let ids = itemizer.to_id_vec(&["milk", "bread", "eggs", "12", "7"]);
    let sides: Vec<Vec<u32>> =
        vec![vec![ids[0], ids[1], ids[2]], vec![ids[3], ids[4]], vec![ids[2], ids[3]]];
    for side in sides.iter() {
        let text = render_side(side, &itemizer);
        let mut back: Vec<u32> = text.split(' ').map(|name| itemizer.lookup(name)).collect();
        back.sort();
        let mut expected = side.clone();
        expected.sort();
        assert_eq!(back, expected);
    }
}

#[test]
fn a_line_is_read_as_a_transaction() {
    let mut itemizer = Itemizer::new();
    assert_eq!(parse_line("a,b,c\n", &mut itemizer), Some(vec![1, 2, 3]));
    assert_eq!(parse_line(" c , a ", &mut itemizer), Some(vec![1, 3]));
    assert_eq!(parse_line("d,b,d,b\r\n", &mut itemizer), Some(vec![2, 4]));
    assert_eq!(parse_line("a,a,b", &mut itemizer), Some(vec![1, 2]));
    assert_eq!(parse_line("two words,a", &mut itemizer), Some(vec![1, 5]));
    assert_eq!(itemizer.str_of(5), "two words");
    assert_eq!(itemizer.max_item_id(), 5);
}

#[test]
fn a_line_of_blanks_holds_no_transaction() {
    let mut itemizer = Itemizer::new();
    assert_eq!(parse_line("", &mut itemizer), None);
    assert_eq!(parse_line("\n", &mut itemizer), None);
    assert_eq!(parse_line("  \t \r\n", &mut itemizer), None);
    assert_eq!(itemizer.max_item_id(), 0);
    // Between two commas stands an item, if an empty one.
    assert_eq!(parse_line("a,,b", &mut itemizer), Some(vec![1, 2, 3]));
    assert_eq!(itemizer.str_of(2), "");
    assert_eq!(parse_line(",", &mut itemizer), Some(vec![2]));
}

#[test]
fn rarity_methods_have_two_names() {
    assert_eq!(parse_max_support_mode("gaussian"), Some(MaxSupportMode::Gaussian));
    assert_eq!(parse_max_support_mode("pareto"), Some(MaxSupportMode::Pareto));
    assert_eq!(parse_max_support_mode("Pareto"), None);
    assert_eq!(parse_max_support_mode(""), None);
}

#[test]
fn fractions_compare_by_cross_products() {
    let third = Fraction { numerator: 1, denominator: 3 };
    let two_sixths = Fraction { numerator: 2, denominator: 6 };
    let half = Fraction { numerator: 1, denominator: 2 };
    assert!(third.at_least(&two_sixths));
    assert!(two_sixths.at_least(&third));
    assert!(half.at_least(&third));
    assert!(!third.at_least(&half));
    let large = Fraction { numerator: u64::MAX, denominator: u64::MAX - 1 };
    let one = Fraction::one();
    assert!(large.at_least(&one));
    assert!(!one.at_least(&large));
    assert!(Fraction::new(1, 0).is_none());
    assert_eq!(Fraction::new(3, 4).unwrap().numerator, 3);
}

#[test]
fn arguments_are_checked() {
    let half = Fraction { numerator: 1, denominator: 2 };
    let two = Fraction { numerator: 2, denominator: 1 };
    let arguments = check_arguments("in.csv", "out.csv", "pareto", half, None, false,
        true).unwrap();
    assert_eq!(arguments.input_file_path, "in.csv");
    assert_eq!(arguments.output_rules_path, "out.csv");
    assert_eq!(arguments.max_support_mode, MaxSupportMode::Pareto);
    assert_eq!((arguments.min_confidence.numerator, arguments.min_confidence.denominator), (1, 2));
    assert_eq!((arguments.min_lift.numerator, arguments.min_lift.denominator), (1, 1));
    assert!(!arguments.disable_family_wise_rule_filtering);
    assert!(arguments.log_rare_items);
    let arguments =
        check_arguments("in.csv", "out.csv", "gaussian", half, Some(two), true, false).unwrap();
    assert_eq!(arguments.max_support_mode, MaxSupportMode::Gaussian);
    assert_eq!((arguments.min_lift.numerator, arguments.min_lift.denominator), (2, 1));
    assert!(arguments.disable_family_wise_rule_filtering);

    let refused = |mode: &str, confidence: Fraction, lift: Option<Fraction>| {
        check_arguments("in.csv", "out.csv", mode, confidence, lift, false, false).unwrap_err()
    };
    assert_eq!(refused("zipf", half, None), UsageError::UnknownMode);
    assert_eq!(refused("zipf", two, Some(half)), UsageError::UnknownMode);
    assert_eq!(refused("pareto", two, None), UsageError::ConfidenceOutOfRange);
    assert_eq!(
        refused("pareto", Fraction { numerator: 0, denominator: 0 }, None),
        UsageError::ConfidenceOutOfRange
    );
    assert_eq!(refused("pareto", two, Some(half)), UsageError::ConfidenceOutOfRange);
    assert_eq!(refused("pareto", half, Some(half)), UsageError::LiftBelowOne);
    assert_eq!(
        refused("pareto", half, Some(Fraction { numerator: 1, denominator: 0 })),
        UsageError::LiftBelowOne
    );
    // The bounds themselves are allowed.
    let one = Fraction::one();
    let zero = Fraction { numerator: 0, denominator: 5 };
    assert!(check_arguments("i", "o", "pareto", one, Some(one), false, false).is_ok());
    assert!(check_arguments("i", "o", "pareto", zero, Some(one), false, false).is_ok());
}

#[test]
fn thresholds_are_read_exactly() {
    let pair = |text: &str| parse_fraction(text).map(|f| (f.numerator, f.denominator));
    assert_eq!(pair("0.05"), Some((5, 100)));
    assert_eq!(pair("1"), Some((1, 1)));
    assert_eq!(pair("1.0"), Some((10, 10)));
    assert_eq!(pair("+12.50"), Some((1250, 100)));
    assert_eq!(pair(".5"), Some((5, 10)));
    assert_eq!(pair("5."), Some((5, 1)));
    assert_eq!(pair("000"), Some((0, 1)));
    assert_eq!(pair("0.000000000000000001"), Some((1, 1_000_000_000_000_000_000)));
    assert_eq!(pair("1234567890123456789"), Some((1234567890123456789, 1)));
    assert_eq!(pair("12345678901234567890"), Some((12345678901234567890, 1)));
    assert_eq!(pair("18446744073709551615"), Some((u64::MAX, 1)));
    assert_eq!(pair("18446744073709551616"), None);
    assert_eq!(pair("000000000000000000000000000000.5"), Some((5, 10)));
    assert_eq!(pair("0.50000000000000000000"), None);
    assert_eq!(pair("0.0000000000000000000"), Some((0, 10_000_000_000_000_000_000)));
    assert_eq!(pair("0.00000000000000000000"), Some((0, 1)));
    assert_eq!(pair(""), None);
    assert_eq!(pair("+"), None);
    assert_eq!(pair("."), None);
    assert_eq!(pair("-0.5"), None);
    assert_eq!(pair("1.2.3"), None);
    assert_eq!(pair("0,5"), None);
    assert_eq!(pair(" 0.5"), None);
    assert_eq!(pair("NaN"), None);
}

#[test]
fn thresholds_with_an_exponent_are_read_exactly() {
    let pair = |text: &str| parse_fraction(text).map(|f| (f.numerator, f.denominator));
    assert_eq!(pair("1e-2"), Some((1, 100)));
    assert_eq!(pair("1e-3"), Some((1, 1000)));
    assert_eq!(pair("1E-3"), Some((1, 1000)));
    assert_eq!(pair("5e-1"), Some((5, 10)));
    assert_eq!(pair("2.5e-1"), Some((25, 100)));
    assert_eq!(pair("2.5e3"), Some((2500, 1)));
    assert_eq!(pair("2.5e+3"), Some((2500, 1)));
    assert_eq!(pair("+2.5E1"), Some((25, 1)));
    assert_eq!(pair("12.50e1"), Some((1250, 10)));
    assert_eq!(pair("1e0"), Some((1, 1)));
    assert_eq!(pair("1e-0"), Some((1, 1)));
    assert_eq!(pair("1e000000000000000000000000000002"), Some((100, 1)));
    assert_eq!(pair(".5e1"), Some((5, 1)));
    assert_eq!(pair("5.e-1"), Some((5, 10)));
    assert_eq!(pair("1e19"), Some((10_000_000_000_000_000_000, 1)));
    assert_eq!(pair("18446744073709551615e0"), Some((u64::MAX, 1)));
    assert_eq!(pair("18446744073709551615e-19"), Some((u64::MAX, 10_000_000_000_000_000_000)));
    assert_eq!(pair("18446744073709551616e-19"), None);
    assert_eq!(pair("0.000000000000000000000000000001e30"), Some((1, 1)));
    assert_eq!(pair("0.000000000000000000000000000001e49"), Some((10_000_000_000_000_000_000, 1)));
    assert_eq!(pair("0.000000000000000000000000000001e50"), None);
    assert_eq!(pair("5000000000000000000000000000000e-50"), None);
    assert_eq!(pair("1844674407370955161e1"), Some((18_446_744_073_709_551_610, 1)));
    assert_eq!(pair("1844674407370955162e1"), None);
    assert_eq!(pair("1e-19"), Some((1, 10_000_000_000_000_000_000)));
    assert_eq!(pair("0.1e-18"), Some((1, 10_000_000_000_000_000_000)));
    assert_eq!(pair("1e20"), None);
    assert_eq!(pair("1e-20"), None);
    assert_eq!(pair("1e400"), None);
    assert_eq!(pair("1e-400"), None);
    assert_eq!(pair("1e99999999999999999999999999"), None);
    assert_eq!(pair("0e400"), Some((0, 1)));
    assert_eq!(pair("0.0e-400"), Some((0, 1)));
    assert_eq!(pair("0e5"), Some((0, 1)));
    assert_eq!(pair("0e-5"), Some((0, 100_000)));
    assert_eq!(pair("e5"), None);
    assert_eq!(pair("1e"), None);
    assert_eq!(pair("1e+"), None);
    assert_eq!(pair("1e-"), None);
    assert_eq!(pair("1e5e5"), None);
    assert_eq!(pair("1e1.5"), None);
    assert_eq!(pair("1e--5"), None);
    assert_eq!(pair("1e 5"), None);
    assert_eq!(pair(".e5"), None);
}

#[test]
fn a_threshold_with_an_exponent_is_checked_like_any_other() {
    let confidence = parse_fraction("5e-1").unwrap();
    let lift = parse_fraction("1.5e0");
    let arguments = check_arguments("in", "out", "pareto", confidence, lift, false, false);
    assert!(arguments.is_ok());
    let too_much = parse_fraction("11e-1").unwrap();
    let refused = check_arguments("in", "out", "pareto", too_much, None, false, false);
    assert!(matches!(refused, Err(UsageError::ConfidenceOutOfRange)));
}
