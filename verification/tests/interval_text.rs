use frame_harness::interval_text::parse_interval;

#[test]
fn whole_milliseconds_become_microseconds() {
    assert_eq!(parse_interval("250"), Some(250_000));
    assert_eq!(parse_interval("1"), Some(1_000));
    assert_eq!(parse_interval("500"), Some(500_000));
    assert_eq!(parse_interval("007"), Some(7_000));
    assert_eq!(parse_interval("00000000000000000000000000001"), Some(1_000));
}

#[test]
fn fractions_count_down_to_the_microsecond() {
    assert_eq!(parse_interval("12.5"), Some(12_500));
    assert_eq!(parse_interval("0.001"), Some(1));
    assert_eq!(parse_interval("1.234"), Some(1_234));
    assert_eq!(parse_interval("1.05"), Some(1_050));
}

#[test]
fn digits_behind_the_third_are_cut_off() {
    assert_eq!(parse_interval("1.2349"), Some(1_234));
    assert_eq!(parse_interval("0.0019"), Some(1));
    assert_eq!(parse_interval("3.000000"), Some(3_000));
    assert_eq!(parse_interval("0.9999999999999999999999999999"), Some(999));
}

#[test]
fn a_point_may_stand_first_or_last() {
    assert_eq!(parse_interval(".5"), Some(500));
    assert_eq!(parse_interval("5."), Some(5_000));
    assert_eq!(parse_interval(".5e1"), Some(5_000));
    assert_eq!(parse_interval("5.e0"), Some(5_000));
}

#[test]
fn a_plus_sign_may_lead() {
    assert_eq!(parse_interval("+3"), Some(3_000));
    assert_eq!(parse_interval("+.25"), Some(250));
    assert_eq!(parse_interval("+1e1"), Some(10_000));
}

#[test]
fn an_exponent_moves_the_point() {
    assert_eq!(parse_interval("1e3"), Some(1_000_000));
    assert_eq!(parse_interval("1E3"), Some(1_000_000));
    assert_eq!(parse_interval("1e+2"), Some(100_000));
    assert_eq!(parse_interval("2.5e2"), Some(250_000));
    assert_eq!(parse_interval("25e-1"), Some(2_500));
    assert_eq!(parse_interval("1.234567e3"), Some(1_234_567));
    assert_eq!(parse_interval("123456e-5"), Some(1_234));
    assert_eq!(parse_interval("1e0"), Some(1_000));
    assert_eq!(parse_interval("1e-0"), Some(1_000));
    assert_eq!(parse_interval("1e+0"), Some(1_000));
    assert_eq!(parse_interval("1e0003"), Some(1_000_000));
    assert_eq!(parse_interval("1e-3"), Some(1));
    assert_eq!(parse_interval("0.00000000000000000000000000001e30"), Some(10_000));
    assert_eq!(parse_interval("10000000000000000000000000000000e-30"), Some(10_000));
}

#[test]
fn zero_is_no_interval() {
    assert_eq!(parse_interval("0"), None);
    assert_eq!(parse_interval("0.0"), None);
    assert_eq!(parse_interval("000"), None);
    assert_eq!(parse_interval("+0"), None);
    assert_eq!(parse_interval(".0"), None);
    assert_eq!(parse_interval("0."), None);
    assert_eq!(parse_interval("0e5"), None);
    assert_eq!(parse_interval("0.000e-3"), None);
    assert_eq!(parse_interval("0e99999999999999999999999999999999999999999"), None);
}

#[test]
fn less_than_a_microsecond_is_an_interval_of_none() {
    assert_eq!(parse_interval("0.0009"), Some(0));
    assert_eq!(parse_interval("0.0004"), Some(0));
    assert_eq!(parse_interval("1e-4"), Some(0));
    assert_eq!(parse_interval("9e-400"), Some(0));
    assert_eq!(parse_interval("1e-99999999999999999999999999999999999999999"), Some(0));
    assert_eq!(parse_interval("0.00000000000000000000000000000000000000000001"), Some(0));
}

#[test]
fn a_minus_sign_is_refused() {
    assert_eq!(parse_interval("-5"), None);
    assert_eq!(parse_interval("-0"), None);
    assert_eq!(parse_interval("-0.5"), None);
    assert_eq!(parse_interval("-1e3"), None);
    assert_eq!(parse_interval("-inf"), None);
    assert_eq!(parse_interval("-"), None);
    assert_eq!(parse_interval("-abc"), None);
}

#[test]
fn infinity_is_the_largest_interval() {
    assert_eq!(parse_interval("inf"), Some(u64::MAX));
    assert_eq!(parse_interval("INF"), Some(u64::MAX));
    assert_eq!(parse_interval("infinity"), Some(u64::MAX));
    assert_eq!(parse_interval("Infinity"), Some(u64::MAX));
    assert_eq!(parse_interval("+inf"), Some(u64::MAX));
    assert_eq!(parse_interval("+iNfInItY"), Some(u64::MAX));
}

#[test]
fn words_are_refused() {
    assert_eq!(parse_interval("abc"), None);
    assert_eq!(parse_interval("nan"), None);
    assert_eq!(parse_interval("NaN"), None);
    assert_eq!(parse_interval("12ms"), None);
    assert_eq!(parse_interval("in"), None);
    assert_eq!(parse_interval("inx"), None);
    assert_eq!(parse_interval("infinit"), None);
    assert_eq!(parse_interval("infinitx"), None);
    assert_eq!(parse_interval("infinityy"), None);
    assert_eq!(parse_interval("inf1"), None);
    assert_eq!(parse_interval("1inf"), None);
    assert_eq!(parse_interval("\u{0131}nf"), None);
    assert_eq!(parse_interval("\u{212a}"), None);
}

#[test]
fn text_without_a_digit_is_refused() {
    assert_eq!(parse_interval(""), None);
    assert_eq!(parse_interval("."), None);
    assert_eq!(parse_interval("+"), None);
    assert_eq!(parse_interval("+."), None);
    assert_eq!(parse_interval("e5"), None);
    assert_eq!(parse_interval(".e5"), None);
    assert_eq!(parse_interval("e"), None);
}

#[test]
fn an_exponent_without_a_digit_is_refused() {
    assert_eq!(parse_interval("1e"), None);
    assert_eq!(parse_interval("1e+"), None);
    assert_eq!(parse_interval("1e-"), None);
    assert_eq!(parse_interval("1e+-2"), None);
    assert_eq!(parse_interval("1e2e3"), None);
    assert_eq!(parse_interval("1e2.5"), None);
    assert_eq!(parse_interval("1e 2"), None);
}

#[test]
fn blanks_and_other_marks_are_refused() {
    assert_eq!(parse_interval(" 5"), None);
    assert_eq!(parse_interval("5 "), None);
    assert_eq!(parse_interval("1,5"), None);
    assert_eq!(parse_interval("1_000"), None);
    assert_eq!(parse_interval("0x10"), None);
    assert_eq!(parse_interval("5\n"), None);
}

#[test]
fn a_second_point_or_sign_is_refused() {
    assert_eq!(parse_interval("1.2.3"), None);
    assert_eq!(parse_interval("1..2"), None);
    assert_eq!(parse_interval("++1"), None);
    assert_eq!(parse_interval("+-1"), None);
    assert_eq!(parse_interval("1+"), None);
    assert_eq!(parse_interval("1-"), None);
}

#[test]
fn digits_of_other_scripts_are_refused() {
    assert_eq!(parse_interval("\u{0662}\u{0665}\u{0660}"), None);
    assert_eq!(parse_interval("2\u{00bd}"), None);
    assert_eq!(parse_interval("\u{ff11}"), None);
}

#[test]
fn the_largest_interval_is_exact() {
    assert_eq!(parse_interval("18446744073709551.615"), Some(u64::MAX));
    assert_eq!(parse_interval("18446744073709551.614"), Some(u64::MAX - 1));
    assert_eq!(parse_interval("18446744073709551"), Some(18_446_744_073_709_551_000));
    assert_eq!(parse_interval("1e16"), Some(10_000_000_000_000_000_000));
    assert_eq!(parse_interval("1.8446744073709551614e16"), Some(u64::MAX - 1));
}

#[test]
fn numbers_beyond_the_range_are_held_to_the_largest() {
    assert_eq!(parse_interval("18446744073709551.616"), Some(u64::MAX));
    assert_eq!(parse_interval("18446744073709552"), Some(u64::MAX));
    assert_eq!(parse_interval("99999999999999999999999999999999"), Some(u64::MAX));
    assert_eq!(parse_interval("184467440737095516150"), Some(u64::MAX));
    assert_eq!(parse_interval("1e17"), Some(u64::MAX));
    assert_eq!(parse_interval("1e400"), Some(u64::MAX));
    assert_eq!(parse_interval("0.001e21"), Some(u64::MAX));
    assert_eq!(parse_interval("1e99999999999999999999999999999999999999999"), Some(u64::MAX));
    assert_eq!(
        parse_interval("0.0000000000000000000000000000001e340282366920938463463374607431768211456"),
        Some(u64::MAX)
    );
}

#[test]
fn the_exponent_and_the_digits_balance() {
    assert_eq!(parse_interval("0.0000000000000000000000000000001e31"), Some(1_000));
    assert_eq!(parse_interval("0.0000000000000000000000000000001e28"), Some(1));
    assert_eq!(parse_interval("0.0000000000000000000000000000001e27"), Some(0));
    assert_eq!(parse_interval("1000000000000000000000000000000e-30"), Some(1_000));
    assert_eq!(parse_interval("1000000000000000000000000000000e-33"), Some(1));
    assert_eq!(parse_interval("1000000000000000000000000000000e-34"), Some(0));
}
