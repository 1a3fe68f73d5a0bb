use trip_index::amount::format_amount;
use trip_index::amount::format_count;
use trip_index::amount::parse_amount;
use trip_index::amount::parse_count;

#[test]
fn parse_amount_plain() {
    assert_eq!(parse_amount("10.5"), 1050);
    assert_eq!(parse_amount("10.50"), 1050);
    assert_eq!(parse_amount("10"), 1000);
    assert_eq!(parse_amount("0"), 0);
    assert_eq!(parse_amount("0.07"), 7);
    assert_eq!(parse_amount("123.45"), 12345);
}

#[test]
fn parse_amount_sign_and_edges() {
    assert_eq!(parse_amount("-3.25"), -325);
    assert_eq!(parse_amount("-0.01"), -1);
    assert_eq!(parse_amount("10."), 1000);
    assert_eq!(parse_amount(".5"), 50);
    assert_eq!(parse_amount("-.5"), -50);
}

#[test]
fn parse_amount_truncates_extra_digits() {
    assert_eq!(parse_amount("10.505"), 1050);
    assert_eq!(parse_amount("2.999"), 299);
}

#[test]
fn parse_amount_rejects_malformed() {
    assert_eq!(parse_amount(""), 0);
    assert_eq!(parse_amount("abc"), 0);
    assert_eq!(parse_amount("1e3"), 0);
    assert_eq!(parse_amount("1.2.3"), 0);
    assert_eq!(parse_amount("-"), 0);
    assert_eq!(parse_amount("."), 0);
    assert_eq!(parse_amount("+5"), 0);
    assert_eq!(parse_amount("5 "), 0);
}

#[test]
fn parse_amount_rejects_out_of_range() {
    assert_eq!(parse_amount("99999999999999999999"), 0);
}

#[test]
fn parse_count_plain() {
    assert_eq!(parse_count("3"), 3);
    assert_eq!(parse_count("0"), 0);
    assert_eq!(parse_count("144"), 144);
    assert_eq!(parse_count(""), 0);
    assert_eq!(parse_count("-1"), 0);
    assert_eq!(parse_count("2.0"), 0);
    assert_eq!(parse_count("99999999999999999999"), 0);
}

#[test]
fn format_amount_canonical() {
    assert_eq!(format_amount(1050), "10.50");
    assert_eq!(format_amount(-325), "-3.25");
    assert_eq!(format_amount(0), "0.00");
    assert_eq!(format_amount(7), "0.07");
    assert_eq!(format_amount(12345), "123.45");
}

#[test]
fn format_count_digits() {
    assert_eq!(format_count(0), "0");
    assert_eq!(format_count(123), "123");
    assert_eq!(format_count(1000000), "1000000");
}

#[test]
fn format_then_parse_returns_the_amount() {
    for v in [0i64, 1, -1, 99, 100, -12345, 987654321, -987654321] {
        assert_eq!(parse_amount(&format_amount(v)), v);
    }
}
