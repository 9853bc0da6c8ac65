use co2::period::{parse_year_month, YearMonth, YearMonthEnd};

// ── YearMonth parsing ─────────────────────────────────────────────────────

#[test]
fn yyyy_parses_as_january() {
    let ym: YearMonth = "2024".parse().unwrap();
    assert_eq!(ym, YearMonth { year: 2024, month: 1 });
}

#[test]
fn yyyy_mm_parses_explicit_month() {
    let ym: YearMonth = "2024-06".parse().unwrap();
    assert_eq!(ym, YearMonth { year: 2024, month: 6 });
}

#[test]
fn rejects_month_out_of_range() {
    assert!("2024-00".parse::<YearMonth>().is_err());
    assert!("2024-13".parse::<YearMonth>().is_err());
    assert!("2024-99".parse::<YearMonth>().is_err());
}

#[test]
fn rejects_malformed_input() {
    assert!("".parse::<YearMonth>().is_err());
    assert!("20".parse::<YearMonth>().is_err());
    assert!("2024-1".parse::<YearMonth>().is_err());
    assert!("2024-001".parse::<YearMonth>().is_err());
    assert!("2024/01".parse::<YearMonth>().is_err());
    assert!("abcd".parse::<YearMonth>().is_err());
    assert!("abcd-ef".parse::<YearMonth>().is_err());
}

// ── YearMonthEnd parsing ──────────────────────────────────────────────────

#[test]
fn end_yyyy_parses_as_december() {
    let yme: YearMonthEnd = "2024".parse().unwrap();
    assert_eq!(yme.0, YearMonth { year: 2024, month: 12 });
}

#[test]
fn end_yyyy_mm_parses_explicit_month() {
    let yme: YearMonthEnd = "2024-03".parse().unwrap();
    assert_eq!(yme.0, YearMonth { year: 2024, month: 3 });
}

#[test]
fn end_rejects_invalid_month() {
    assert!("2024-13".parse::<YearMonthEnd>().is_err());
}

// ── Display ───────────────────────────────────────────────────────────────

#[test]
fn display_zero_pads_month() {
    assert_eq!(YearMonth { year: 2024, month: 3 }.to_string(), "2024-03");
    assert_eq!(YearMonth { year: 2024, month: 12 }.to_string(), "2024-12");
}

// ── Ordering ──────────────────────────────────────────────────────────────

#[test]
fn ordering_is_chronological() {
    let jan_2024 = YearMonth { year: 2024, month: 1 };
    let dec_2024 = YearMonth { year: 2024, month: 12 };
    let jan_2025 = YearMonth { year: 2025, month: 1 };
    assert!(jan_2024 < dec_2024);
    assert!(dec_2024 < jan_2025);
    assert!(jan_2024 < jan_2025);
}

// ── start_timestamp / end_timestamp ───────────────────────────────────────

#[test]
fn start_timestamp_is_first_second_of_month_utc() {
    // 2024-01-01 00:00:00 UTC
    assert_eq!(YearMonth { year: 2024, month: 1 }.start_timestamp(), 1_704_067_200);
}

#[test]
fn end_timestamp_is_first_second_of_next_month_utc() {
    // First second of 2024-07-01 UTC
    assert_eq!(YearMonth { year: 2024, month: 6 }.end_timestamp(), 1_719_792_000);
}

#[test]
fn end_timestamp_rolls_year_over_in_december() {
    // First second of 2025-01-01 UTC
    assert_eq!(YearMonth { year: 2024, month: 12 }.end_timestamp(), 1_735_689_600);
}

#[test]
fn end_timestamp_strictly_after_start_timestamp() {
    for month in 1..=12 {
        let ym = YearMonth { year: 2024, month };
        assert!(ym.end_timestamp() > ym.start_timestamp(), "month {month}");
    }
}

// ── further cases ─────────────────────────────────────────────────────────

#[test]
fn error_messages_name_the_problem() {
    assert_eq!(parse_year_month("abcd", 1).unwrap_err(), "invalid year: abcd");
    assert_eq!(parse_year_month("abcd-01", 1).unwrap_err(), "invalid year in: abcd-01");
    assert_eq!(parse_year_month("2024-ab", 1).unwrap_err(), "invalid month in: 2024-ab");
    assert_eq!(
        parse_year_month("2024-13", 1).unwrap_err(),
        "month must be 01\u{2013}12, got: 2024-13"
    );
    assert_eq!(
        parse_year_month("2024/01", 1).unwrap_err(),
        "expected YYYY or YYYY-MM, got: 2024/01"
    );
}

#[test]
fn only_ascii_digits_are_accepted() {
    // YYYY and MM are digits only: no sign, no space
    assert_eq!(parse_year_month("-999", 1).unwrap_err(), "invalid year: -999");
    assert_eq!(parse_year_month("+202", 12).unwrap_err(), "invalid year: +202");
    assert_eq!(parse_year_month(" 202", 1).unwrap_err(), "invalid year:  202");
    assert_eq!(parse_year_month("+202-05", 1).unwrap_err(), "invalid year in: +202-05");
    assert_eq!(parse_year_month("2024-+5", 1).unwrap_err(), "invalid month in: 2024-+5");
    assert_eq!(parse_year_month("2024--5", 1).unwrap_err(), "invalid month in: 2024--5");
    assert!(parse_year_month("+", 1).is_err());
    assert!(parse_year_month("2024-0+", 1).is_err());
    // leading zeros are digits like any other
    assert_eq!(parse_year_month("0042", 1), Ok(YearMonth { year: 42, month: 1 }));
    assert_eq!(parse_year_month("0000-09", 1), Ok(YearMonth { year: 0, month: 9 }));
}

#[test]
fn byte_length_decides_the_form() {
    // "é" is two bytes, so this is seven bytes but not YYYY-MM
    assert_eq!(
        parse_year_month("20é-01", 1).unwrap_err(),
        "invalid year in: 20é-01"
    );
    assert!(parse_year_month("2é24", 1).is_err());
}

#[test]
fn text_parses_back() {
    for (year, month) in [(1000, 1), (2024, 7), (9999, 12)] {
        let ym = YearMonth { year, month };
        assert_eq!(parse_year_month(&ym.to_string(), 3), Ok(ym));
    }
}

#[test]
fn display_of_other_years() {
    assert_eq!(YearMonth { year: -5, month: 7 }.to_string(), "-5-07");
    assert_eq!(YearMonth { year: 7, month: 123 }.to_string(), "7-123");
}

#[test]
fn month_zero_ends_at_january() {
    let ym = YearMonth { year: 2024, month: 0 };
    assert_eq!(ym.end_timestamp(), YearMonth { year: 2024, month: 1 }.start_timestamp());
}

#[test]
fn timestamps_before_the_epoch() {
    assert_eq!(YearMonth { year: 1969, month: 12 }.start_timestamp(), -2_678_400);
    assert_eq!(YearMonth { year: 1970, month: 1 }.start_timestamp(), 0);
    // 2000 is a leap year, 1900 is not
    assert_eq!(
        YearMonth { year: 2000, month: 2 }.end_timestamp() - YearMonth { year: 2000, month: 2 }.start_timestamp(),
        29 * 86400
    );
    assert_eq!(
        YearMonth { year: 1900, month: 2 }.end_timestamp() - YearMonth { year: 1900, month: 2 }.start_timestamp(),
        28 * 86400
    );
}
