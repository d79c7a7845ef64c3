use gautrain::date::calendar_day;
use gautrain::model::GautrainRecord;
use gautrain::num::parse_cents;
use gautrain::num::parse_i32;
use gautrain::present::date_string;
use gautrain::present::money_string;

#[test]
fn parse_i32_accepts_plain_integers() {
    assert_eq!(parse_i32("42"), Some(42));
    assert_eq!(parse_i32("-7"), Some(-7));
    assert_eq!(parse_i32("+5"), Some(5));
    assert_eq!(parse_i32("0"), Some(0));
    assert_eq!(parse_i32("007"), Some(7));
    assert_eq!(parse_i32("2147483647"), Some(i32::MAX));
    assert_eq!(parse_i32("-2147483648"), Some(i32::MIN));
}

#[test]
fn parse_i32_rejects_everything_else() {
    assert_eq!(parse_i32(""), None);
    assert_eq!(parse_i32("-"), None);
    assert_eq!(parse_i32("abc"), None);
    assert_eq!(parse_i32("12x"), None);
    assert_eq!(parse_i32("1.5"), None);
    assert_eq!(parse_i32("2147483648"), None);
    assert_eq!(parse_i32("-2147483649"), None);
    assert_eq!(parse_i32(" 3"), None);
}

#[test]
fn parse_cents_is_exact() {
    assert_eq!(parse_cents("100.00"), Some(10000));
    assert_eq!(parse_cents("-15.00"), Some(-1500));
    assert_eq!(parse_cents("-5.00"), Some(-500));
    assert_eq!(parse_cents("85.00"), Some(8500));
    assert_eq!(parse_cents("0.5"), Some(50));
    assert_eq!(parse_cents("3.14"), Some(314));
    assert_eq!(parse_cents("7"), Some(700));
    assert_eq!(parse_cents("+2.50"), Some(250));
    assert_eq!(parse_cents("0"), Some(0));
    assert_eq!(parse_cents("-0.01"), Some(-1));
}

#[test]
fn parse_cents_rejects_malformed_amounts() {
    assert_eq!(parse_cents(""), None);
    assert_eq!(parse_cents("abc"), None);
    assert_eq!(parse_cents("."), None);
    assert_eq!(parse_cents("1."), None);
    assert_eq!(parse_cents(".5"), None);
    assert_eq!(parse_cents("1.234"), None);
    assert_eq!(parse_cents("1,5"), None);
    assert_eq!(parse_cents("10000000000000"), None);
}

#[test]
fn money_string_has_two_decimals_and_sign() {
    assert_eq!(money_string(0), "0.00");
    assert_eq!(money_string(5), "0.05");
    assert_eq!(money_string(-2000), "-20.00");
    assert_eq!(money_string(12345), "123.45");
    assert_eq!(money_string(10000), "100.00");
    assert_eq!(money_string(-1), "-0.01");
}

#[test]
fn date_string_is_iso() {
    assert_eq!(date_string(0), "1970-01-01");
    assert_eq!(date_string(19727), "2024-01-05");
    assert_eq!(date_string(19728), "2024-01-06");
    assert_eq!(date_string(-1), "1969-12-31");
    assert_eq!(date_string(59), "1970-03-01");
    // 2024 is a leap year
    assert_eq!(date_string(19782), "2024-02-29");
    assert_eq!(date_string(19783), "2024-03-01");
    // 1900 was not
    assert_eq!(date_string(-25509), "1900-02-28");
    assert_eq!(date_string(-25508), "1900-03-01");
    // 2000 was
    assert_eq!(date_string(11016), "2000-02-29");
}

#[test]
fn calendar_day_floors_at_midnight() {
    assert_eq!(calendar_day(0), 0);
    assert_eq!(calendar_day(86399), 0);
    assert_eq!(calendar_day(86400), 1);
    assert_eq!(calendar_day(-1), -1);
    assert_eq!(calendar_day(-86400), -1);
    assert_eq!(calendar_day(-86401), -2);
    assert_eq!(calendar_day(1_704_441_600), 19727);
}

fn rec(ts: i64, value_cents: i64) -> GautrainRecord {
    GautrainRecord {
        transaction_date: ts,
        site: "S".to_owned(),
        transaction_type: "T".to_owned(),
        remaining_trips: 1,
        transaction_value: value_cents,
        payg_balance: 0,
    }
}

#[test]
fn topup_needs_strictly_positive_value() {
    assert!(rec(0, 1).is_topup());
    assert!(!rec(0, 0).is_topup());
    assert!(!rec(0, -1).is_topup());
}

#[test]
fn same_date_ignores_time_of_day() {
    let morning = rec(1_704_441_600, 0);
    let evening = rec(1_704_477_600, 0);
    let next_day = rec(1_704_531_600, 0);
    assert!(morning.is_same_date(&evening));
    assert!(!evening.is_same_date(&next_day));
}
