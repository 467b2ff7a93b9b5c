use ledger_replay::amount::{decimal_text, Amount};

fn units(text: &str) -> Option<i64> {
    Amount::parse(text.as_bytes()).map(|amount| amount.units)
}

fn text(units: i128) -> String {
    String::from_utf8(decimal_text(units)).unwrap()
}

#[test]
fn parse_reads_whole_numbers() {
    assert_eq!(units("0"), Some(0));
    assert_eq!(units("1"), Some(10_000));
    assert_eq!(units("100"), Some(1_000_000));
    assert_eq!(units("007"), Some(70_000));
}

#[test]
fn parse_reads_up_to_four_decimals_exactly() {
    assert_eq!(units("1.5"), Some(15_000));
    assert_eq!(units("1.25"), Some(12_500));
    assert_eq!(units("1.125"), Some(11_250));
    assert_eq!(units("1.2345"), Some(12_345));
    assert_eq!(units("0.0001"), Some(1));
    assert_eq!(units("100.0"), Some(1_000_000));
}

#[test]
fn parse_rounds_a_fifth_decimal_away() {
    assert_eq!(units("10.00001"), Some(100_000));
    assert_eq!(units("10.00001"), units("10.0"));
    assert_eq!(units("1.23454"), Some(12_345));
    assert_eq!(units("1.23456"), Some(12_346));
}

#[test]
fn parse_rounds_a_half_away_from_zero() {
    assert_eq!(units("0.00005"), Some(1));
    assert_eq!(units("-0.00005"), Some(-1));
    assert_eq!(units("1.23455"), Some(12_346));
    assert_eq!(units("-1.23455"), Some(-12_346));
    assert_eq!(units("0.00015"), Some(2));
    assert_eq!(units("0.00025"), Some(3));
}

#[test]
fn parse_looks_at_the_fifth_decimal_only() {
    assert_eq!(units("0.000049999999999999999999999999"), Some(0));
    assert_eq!(units("0.000050000000000000000000000000"), Some(1));
    assert_eq!(units("2.99995"), Some(30_000));
    assert_eq!(units("9.99999999"), Some(100_000));
}

#[test]
fn parse_takes_a_sign() {
    assert_eq!(units("-5"), Some(-50_000));
    assert_eq!(units("+5"), Some(50_000));
    assert_eq!(units("-0"), Some(0));
    assert_eq!(units("-0.5"), Some(-5_000));
}

#[test]
fn parse_takes_a_point_at_either_end() {
    assert_eq!(units("1."), Some(10_000));
    assert_eq!(units(".5"), Some(5_000));
    assert_eq!(units("-.5"), Some(-5_000));
}

#[test]
fn parse_refuses_what_is_no_decimal_number() {
    assert_eq!(units(""), None);
    assert_eq!(units("-"), None);
    assert_eq!(units("+"), None);
    assert_eq!(units("."), None);
    assert_eq!(units("-."), None);
    assert_eq!(units("abc"), None);
    assert_eq!(units("1e5"), None);
    assert_eq!(units("1.2.3"), None);
    assert_eq!(units("--1"), None);
    assert_eq!(units("1-"), None);
    assert_eq!(units(" 1"), None);
    assert_eq!(units("1 "), None);
    assert_eq!(units("1,5"), None);
    assert_eq!(units("1.5x"), None);
    assert_eq!(units("inf"), None);
    assert_eq!(units("NaN"), None);
}

#[test]
fn parse_reaches_the_largest_and_smallest_amount() {
    assert_eq!(units("922337203685477.5807"), Some(i64::MAX));
    assert_eq!(units("-922337203685477.5808"), Some(i64::MIN));
    assert_eq!(units("922337203685477.58074"), Some(i64::MAX));
    assert_eq!(units("-922337203685477.58084"), Some(i64::MIN));
}

#[test]
fn parse_refuses_what_is_too_large() {
    assert_eq!(units("922337203685477.5808"), None);
    assert_eq!(units("922337203685477.58075"), None);
    assert_eq!(units("-922337203685477.5809"), None);
    assert_eq!(units("-922337203685477.58085"), None);
    assert_eq!(units("922337203685478"), None);
    assert_eq!(units("-922337203685478"), None);
    assert_eq!(units("99999999999999999999999999999999999999999999"), None);
    assert_eq!(units("-99999999999999999999999999999999999999999999.5"), None);
}

#[test]
fn parse_skips_leading_zeros_of_any_number() {
    assert_eq!(
        units("0000000000000000000000000000000000000000000001.5"),
        Some(15_000)
    );
}

#[test]
fn decimal_text_writes_one_to_four_decimals() {
    assert_eq!(text(0), "0.0");
    assert_eq!(text(1), "0.0001");
    assert_eq!(text(10), "0.001");
    assert_eq!(text(100), "0.01");
    assert_eq!(text(1_000), "0.1");
    assert_eq!(text(10_000), "1.0");
    assert_eq!(text(1_000_000), "100.0");
    assert_eq!(text(500_000), "50.0");
    assert_eq!(text(12_345), "1.2345");
    assert_eq!(text(15_000), "1.5");
    assert_eq!(text(10_100), "1.01");
    assert_eq!(text(10_010), "1.001");
    assert_eq!(text(10_001), "1.0001");
    assert_eq!(text(109_900), "10.99");
}

#[test]
fn decimal_text_writes_a_sign_below_zero() {
    assert_eq!(text(-1), "-0.0001");
    assert_eq!(text(-15_000), "-1.5");
    assert_eq!(text(-1_000_000), "-100.0");
}

#[test]
fn decimal_text_writes_the_widest_balances() {
    assert_eq!(
        text(i128::MAX),
        "17014118346046923173168730371588410.5727"
    );
    assert_eq!(
        text(i128::MIN),
        "-17014118346046923173168730371588410.5728"
    );
}

#[test]
fn what_is_written_is_read_back() {
    for value in [
        0i64,
        1,
        -1,
        9,
        10,
        99,
        100,
        999,
        1_000,
        9_999,
        10_000,
        10_001,
        12_345,
        -12_345,
        1_000_000,
        123_456_789,
        i64::MAX,
        i64::MIN,
    ] {
        let written = decimal_text(value as i128);
        assert_eq!(Amount::parse(&written), Some(Amount { units: value }));
    }
}

#[test]
fn an_amount_with_too_many_decimals_is_stored_and_reported_rounded() {
    let stored = Amount::parse(b"10.00001").unwrap();
    assert_eq!(stored, Amount { units: 100_000 });
    assert_eq!(text(stored.units as i128), "10.0");
}
