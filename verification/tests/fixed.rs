use solver::fixed::{append_decimal, append_rounded, Fixed, SCALE};
use solver::numeral::{digit_of, is_digit_char, Reading};

fn parse(text: &str) -> Option<i64> {
    let chars: Vec<char> = text.chars().collect();
    Fixed::parse(&chars).map(|v| v.micros)
}

fn read(text: &str) -> Option<Reading> {
    let chars: Vec<char> = text.chars().collect();
    Reading::parse(&chars)
}

fn reading(text: &str) -> (i64, bool) {
    match read(text) {
        Some(Reading::Finite { value, beyond }) => (value.micros, beyond),
        other => panic!("{text:?} read as {other:?}"),
    }
}

fn label(text: &str) -> String {
    let mut out = String::new();
    read(text).expect("a numeral").append_text(&mut out);
    out
}

fn shown(micros: i64) -> String {
    let mut out = String::from("=");
    Fixed::from_micros(micros).append_two_decimals(&mut out);
    out
}

#[test]
fn whole_numbers_are_scaled() {
    assert_eq!(SCALE, 1_000_000);
    assert_eq!(Fixed::from_int(150).micros, 150_000_000);
    assert_eq!(Fixed::from_int(-2).micros, -2_000_000);
    assert_eq!(Fixed::from_int(i32::MAX).micros, 2_147_483_647_000_000);
    assert_eq!(Fixed::from_int(i32::MIN).micros, -2_147_483_648_000_000);
    assert_eq!(Fixed::zero().micros, 0);
    assert_eq!(Fixed::one().micros, 1_000_000);
    assert_eq!(Fixed::half().micros, 500_000);
    assert_eq!(Fixed::from_micros(-7), Fixed { micros: -7 });
}

#[test]
fn ordering_helpers_compare_values() {
    let a = Fixed::from_micros(3);
    let b = Fixed::from_micros(-9);
    assert_eq!(a.max(b), a);
    assert_eq!(b.max(a), a);
    assert_eq!(a.min(b), b);
    assert_eq!(b.min(a), b);
    assert_eq!(a.clamp(Fixed::from_micros(5), Fixed::from_micros(8)).micros, 5);
    assert_eq!(a.clamp(Fixed::from_micros(0), Fixed::from_micros(2)).micros, 2);
    assert_eq!(a.clamp(Fixed::from_micros(0), Fixed::from_micros(8)).micros, 3);
    assert_eq!(Fixed::limited(-1, a, Fixed::from_micros(8)).micros, 3);
    assert_eq!(Fixed::limited(i128::MAX, a, Fixed::from_micros(8)).micros, 8);
    assert_eq!(Fixed::limited(6, a, Fixed::from_micros(8)).micros, 6);
}

#[test]
fn products_are_cut_to_millionths() {
    let third = Fixed::from_micros(333_333);
    assert_eq!(third.scaled_product(Fixed::from_int(3)), 999_999);
    assert_eq!(Fixed::half().scaled_product(Fixed::from_int(10)), 5_000_000);
    assert_eq!(Fixed::from_micros(1).scaled_product(Fixed::from_micros(999_999)), 0);
    let most = Fixed::from_micros(i64::MAX);
    assert_eq!(most.scaled_product(most), (i64::MAX as i128) * (i64::MAX as i128) / 1_000_000);
}

#[test]
fn numerals_are_read() {
    assert_eq!(parse("0.5"), Some(500_000));
    assert_eq!(parse("12"), Some(12_000_000));
    assert_eq!(parse("-0.5"), Some(-500_000));
    assert_eq!(parse("+.75"), Some(750_000));
    assert_eq!(parse("3."), Some(3_000_000));
    assert_eq!(parse("007.250"), Some(7_250_000));
    assert_eq!(parse("0"), Some(0));
    assert_eq!(parse("-0"), Some(0));
    assert_eq!(parse("0.000001"), Some(1));
}

#[test]
fn numerals_are_cut_after_six_places() {
    assert_eq!(parse("0.1234567"), Some(123_456));
    assert_eq!(parse("0.9999999999"), Some(999_999));
    assert_eq!(parse("0.0000000"), Some(0));
    assert_eq!(parse("1.0000009"), Some(1_000_000));
    assert_eq!(parse("-1.0000019"), Some(-1_000_001));
}

#[test]
fn numerals_out_of_range_go_to_the_nearest_end() {
    assert_eq!(parse("9223372036854.775807"), Some(i64::MAX));
    assert_eq!(parse("9223372036854.775806"), Some(i64::MAX - 1));
    assert_eq!(parse("9223372036854.775808"), Some(i64::MAX));
    assert_eq!(parse("-9223372036854.775808"), Some(i64::MIN));
    assert_eq!(parse("-9223372036854.775807"), Some(i64::MIN + 1));
    assert_eq!(parse("-9223372036854.775809"), Some(i64::MIN));
    assert_eq!(parse("10000000000000"), Some(i64::MAX));
    assert_eq!(parse("99999999999999999999999999999999999999999999"), Some(i64::MAX));
    assert_eq!(parse("-99999999999999999999999999999999999999999999.5"), Some(i64::MIN));
    assert_eq!(parse("00000000000000000000000000000000000000000001"), Some(1_000_000));
}

#[test]
fn numerals_may_carry_an_exponent() {
    assert_eq!(parse("1e3"), Some(1_000_000_000));
    assert_eq!(parse("1E3"), Some(1_000_000_000));
    assert_eq!(parse("1e+2"), Some(100_000_000));
    assert_eq!(parse("2.5E-1"), Some(250_000));
    assert_eq!(parse("-2.5e-1"), Some(-250_000));
    assert_eq!(parse("5.e1"), Some(50_000_000));
    assert_eq!(parse(".5e1"), Some(5_000_000));
    assert_eq!(parse("0.000001e6"), Some(1_000_000));
    assert_eq!(parse("123456789e-3"), Some(123_456_789_000));
    assert_eq!(parse("12345e-8"), Some(123));
    assert_eq!(parse("1e-6"), Some(1));
    assert_eq!(parse("10e-7"), Some(1));
    assert_eq!(parse("19e-7"), Some(1));
    assert_eq!(parse("1e0"), Some(1_000_000));
    assert_eq!(parse("1e-0"), Some(1_000_000));
    assert_eq!(parse("1e0012"), Some(1_000_000_000_000_000_000));
}

#[test]
fn exponents_out_of_range_go_to_the_nearest_end_or_to_nothing() {
    assert_eq!(parse("1e13"), Some(i64::MAX));
    assert_eq!(parse("9.223372036854775807e12"), Some(i64::MAX));
    assert_eq!(parse("9.223372036854775806e12"), Some(i64::MAX - 1));
    assert_eq!(parse("1.5e300"), Some(i64::MAX));
    assert_eq!(parse("-1e30"), Some(i64::MIN));
    assert_eq!(parse("0e999999999999999999999999999999"), Some(0));
    assert_eq!(parse("0.0e999999999999999999999999999999"), Some(0));
    assert_eq!(parse("1e999999999999999999999999999999"), Some(i64::MAX));
    assert_eq!(parse("-0.001e999999999999999999999999999999"), Some(i64::MIN));
    assert_eq!(parse("0e-999999999999999999999999999999"), Some(0));
    assert_eq!(parse("000.000e-5"), Some(0));
    assert_eq!(parse("100000000000000000000000000000000e-30"), Some(100_000_000));
    assert_eq!(parse("0.00000000000000000000000000000001e30"), Some(10_000));
}

#[test]
fn only_zero_is_read_as_zero() {
    assert_eq!(parse(".0000001"), Some(1));
    assert_eq!(parse("0.0000009"), Some(1));
    assert_eq!(parse("-0.0000009"), Some(-1));
    assert_eq!(parse("1e-7"), Some(1));
    assert_eq!(parse("9e-7"), Some(1));
    assert_eq!(parse("-1e-7"), Some(-1));
    assert_eq!(parse("1e-999999999999999999999999999999"), Some(1));
    assert_eq!(parse("-1e-999999999999999999999999999999"), Some(-1));
    assert_eq!(parse("99999999999999999999999999e-999999999999999999999999999999"), Some(1));
    assert_eq!(parse("0.00000000000000000000000000000000000000000000000001"), Some(1));
    for zero in ["0", "-0", "+0", "0.0", ".0", "0.", "000", "0e5", "0e-5", "-0.0000000000e3"] {
        assert_eq!(parse(zero), Some(0), "text {zero:?}");
    }
}

#[test]
fn readings_remember_what_lies_beyond_the_millionths() {
    assert_eq!(reading("12.345"), (12_345_000, false));
    assert_eq!(reading("12.3450000000"), (12_345_000, false));
    assert_eq!(reading("12.3450001"), (12_345_000, true));
    assert_eq!(reading("12.3449999"), (12_344_999, true));
    assert_eq!(reading("-12.3450001"), (-12_345_000, true));
    assert_eq!(reading("123450001e-7"), (12_345_000, true));
    assert_eq!(reading("123450000e-7"), (12_345_000, false));
    assert_eq!(reading("1e-7"), (1, true));
    assert_eq!(reading("0e-7"), (0, false));
    assert_eq!(reading("1e3"), (1_000_000_000, false));
    assert_eq!(reading("0.1234567"), (123_456, true));
    assert_eq!(reading("1.0000000000000000000000000000000000001"), (1_000_000, true));
    assert_eq!(reading("1e-999999999999999999999999999999"), (1, true));
}

#[test]
fn halfway_labels_are_settled_by_later_digits() {
    // Exactly halfway goes to the even hundredth.
    assert_eq!(label("12.345"), "12.34");
    assert_eq!(label("12.355"), "12.36");
    assert_eq!(label("12.3450000"), "12.34");
    // Anything above halfway goes up, anything below goes down.
    assert_eq!(label("12.3450001"), "12.35");
    assert_eq!(label("12.34500000000000000000000001"), "12.35");
    assert_eq!(label("12.3449999"), "12.34");
    assert_eq!(label("12.3549999"), "12.35");
    assert_eq!(label("12.3550001"), "12.36");
    assert_eq!(label("0.0050001"), "0.01");
    assert_eq!(label("0.005"), "0.00");
    assert_eq!(label("5.0000001e-3"), "0.01");
    assert_eq!(label("-12.3450001"), "-12.35");
    assert_eq!(label("1e-7"), "0.00");
    let mut out = String::from("x");
    append_rounded(&mut out, Fixed::from_micros(125_000), true);
    append_rounded(&mut out, Fixed::from_micros(125_000), false);
    assert_eq!(out, "x0.130.12");
}

#[test]
fn unbounded_numbers_are_read_by_their_words() {
    for text in ["inf", "+inf", "INF", "Inf", "iNf", "infinity", "+Infinity", "INFINITY", "InFiNiTy"] {
        assert_eq!(read(text), Some(Reading::Unbounded { negative: false }), "text {text:?}");
        assert_eq!(label(text), "inf");
    }
    for text in ["-inf", "-INF", "-infinity", "-Infinity"] {
        assert_eq!(read(text), Some(Reading::Unbounded { negative: true }), "text {text:?}");
        assert_eq!(label(text), "-inf");
    }
    assert_eq!(Reading::Unbounded { negative: false }.value().micros, i64::MAX);
    assert_eq!(Reading::Unbounded { negative: true }.value().micros, i64::MIN);
    assert!(!Reading::Unbounded { negative: false }.beyond());
    // Only a decimal numeral has a value to keep.
    assert_eq!(parse("inf"), None);
    assert_eq!(parse("-infinity"), None);
}

#[test]
fn not_a_number_is_read_by_its_word() {
    for text in ["nan", "NaN", "NAN", "+nan", "-nan", "-NaN"] {
        assert_eq!(read(text), Some(Reading::NotANumber), "text {text:?}");
        assert_eq!(label(text), "NaN");
    }
    assert_eq!(Reading::NotANumber.value().micros, 0);
    assert!(!Reading::NotANumber.beyond());
    assert_eq!(parse("nan"), None);
}

#[test]
fn near_words_are_read_as_nothing() {
    for text in [
        "in", "infi", "infinit", "infinityy", "inf ", " inf", "i", "n", "na", "nann", "++inf",
        "+-inf", "inf.", "inf0", "1inf", "infe5", "ınf", "ＩＮＦ", "nan1", "none", "",
    ] {
        assert_eq!(read(text), None, "text {text:?}");
    }
}

#[test]
fn readings_stand_for_counts_of_millionths() {
    let finite = read("-2.5").expect("a numeral");
    assert_eq!(finite, Reading::Finite { value: Fixed::from_micros(-2_500_000), beyond: false });
    assert_eq!(finite.value().micros, -2_500_000);
    assert!(!finite.beyond());
    let cut = read("0.1234567").expect("a numeral");
    assert_eq!(cut.value().micros, 123_456);
    assert!(cut.beyond());
}

#[test]
fn other_texts_are_no_numerals() {
    for text in [
        "", ".", "+", "-", "+.", "1.2.3", "1,5", " 1", "1 ", "--1", "+-1", "abc", "0x10", "1.5bb",
        "٣", "e5", ".e5", "1e", "1e+", "1e-", "1e1.5", "1e5e5", "1e 5", "1f5", "1_000",
    ] {
        assert_eq!(parse(text), None, "text {text:?}");
        assert_eq!(read(text), None, "text {text:?}");
    }
}

#[test]
fn digits_are_told_apart() {
    for (value, c) in ('0'..='9').enumerate() {
        assert!(is_digit_char(c));
        assert_eq!(digit_of(c) as usize, value);
    }
    for c in ['/', ':', 'a', ' ', '.', '-', '٣'] {
        assert!(!is_digit_char(c));
    }
}

#[test]
fn decimal_digits_are_appended() {
    let mut out = String::from("n=");
    append_decimal(&mut out, 0);
    out.push(',');
    append_decimal(&mut out, 7);
    out.push(',');
    append_decimal(&mut out, 1_020);
    out.push(',');
    append_decimal(&mut out, u64::MAX);
    assert_eq!(out, "n=0,7,1020,18446744073709551615");
}

#[test]
fn values_are_shown_with_two_places() {
    assert_eq!(shown(500_000), "=0.50");
    assert_eq!(shown(12_000_000), "=12.00");
    assert_eq!(shown(330_000), "=0.33");
    assert_eq!(shown(0), "=0.00");
    assert_eq!(shown(1_234_567_890_000), "=1234567.89");
    assert_eq!(shown(-3_250_000), "=-3.25");
    assert_eq!(shown(-1), "=-0.00");
    assert_eq!(shown(i64::MAX), "=9223372036854.78");
    assert_eq!(shown(i64::MIN), "=-9223372036854.78");
}

#[test]
fn halfway_values_go_to_the_even_hundredth() {
    assert_eq!(shown(125_000), "=0.12");
    assert_eq!(shown(135_000), "=0.14");
    assert_eq!(shown(5_000), "=0.00");
    assert_eq!(shown(15_000), "=0.02");
    assert_eq!(shown(125_001), "=0.13");
    assert_eq!(shown(134_999), "=0.13");
    assert_eq!(shown(995_000), "=1.00");
    assert_eq!(shown(994_999), "=0.99");
    assert_eq!(shown(99_995_000), "=100.00");
}
