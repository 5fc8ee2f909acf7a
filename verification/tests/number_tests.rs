use exprc::grammar::factor::{parse_int, Factor};
use exprc::number::{digits_to_i64, push_decimal, push_signed_decimal};

fn written(n: i64) -> String {
    let mut out = String::new();
    push_signed_decimal(&mut out, n);
    out
}

#[test]
fn digits_are_read_in_base_ten() {
    assert_eq!(digits_to_i64("0"), Some(0));
    assert_eq!(digits_to_i64("42"), Some(42));
    assert_eq!(digits_to_i64("0042"), Some(42));
    assert_eq!(digits_to_i64(""), Some(0));
    assert_eq!(digits_to_i64("9223372036854775807"), Some(i64::MAX));
}

#[test]
fn digits_beyond_the_largest_integer() {
    assert_eq!(digits_to_i64("9223372036854775808"), None);
    assert_eq!(digits_to_i64("18446744073709551616"), None);
    assert_eq!(digits_to_i64("100000000000000000000"), None);
}

#[test]
fn decimal_digits_are_appended() {
    let mut out = "n=".to_string();
    push_decimal(&mut out, 0);
    assert_eq!(out, "n=0");
    push_decimal(&mut out, 907);
    assert_eq!(out, "n=0907");
    let mut out = String::new();
    push_decimal(&mut out, u64::MAX);
    assert_eq!(out, "18446744073709551615");
}

#[test]
fn signed_decimal_notation() {
    assert_eq!(written(0), "0");
    assert_eq!(written(5), "5");
    assert_eq!(written(-5), "-5");
    assert_eq!(written(1000), "1000");
    assert_eq!(written(i64::MAX), "9223372036854775807");
    assert_eq!(written(i64::MIN), "-9223372036854775808");
}

#[test]
fn written_integers_read_back() {
    for n in [0, 1, -1, 9, 10, -10, 12345, -98765, i64::MAX, -i64::MAX] {
        let text = written(n);
        assert_eq!(parse_int(&text), Ok(("", Factor::Integer(n))));
    }
}
