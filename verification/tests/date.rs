use jama::date::Date;

#[test]
fn round_trips_known_dates() {
    for (y, m, d) in [
        (1970, 1, 1),
        (2024, 2, 29),
        (2000, 1, 1),
        (1999, 12, 31),
        (2026, 9, 21),
    ] {
        let date = Date::from_ymd(y, m, d).unwrap();
        assert_eq!(
            date.year_month_day(),
            (y, m, d),
            "roundtrip failed for {y}-{m}-{d}"
        );
    }
}

#[test]
fn rejects_invalid_dates() {
    assert!(Date::from_ymd(2023, 2, 29).is_err());
    assert!(Date::from_ymd(2024, 13, 1).is_err());
    assert!(Date::from_ymd(2024, 4, 31).is_err());
}

#[test]
fn parses_iso() {
    let date = Date::parse("2026-09-01").unwrap();
    assert_eq!(date.to_string(), "2026-09-01");
}

#[test]
fn parses_custom_format() {
    let date = Date::parse_with_format("21/09/2026", "%d/%m/%Y").unwrap();
    assert_eq!(date.to_string(), "2026-09-21");
}

#[test]
fn ordering_is_chronological() {
    let a = Date::from_ymd(2026, 1, 1).unwrap();
    let b = Date::from_ymd(2026, 1, 2).unwrap();
    assert!(a < b);
}

#[test]
fn epoch_is_day_zero_and_days_round_trip() {
    let epoch = Date::from_ymd(1970, 1, 1).unwrap();
    assert_eq!(epoch.days_since_epoch(), 0);
    let d = Date::from_days_since_epoch(19723);
    assert_eq!(d.to_string(), "2024-01-01");
    assert_eq!(Date::from_ymd(2024, 1, 1).unwrap().days_since_epoch(), 19723);
    assert_eq!(Date::from_days_since_epoch(-1).to_string(), "1969-12-31");
}

#[test]
fn add_days_crosses_month_and_leap_day() {
    let d = Date::from_ymd(2024, 2, 28).unwrap();
    assert_eq!(d.add_days(1).to_string(), "2024-02-29");
    assert_eq!(d.add_days(2).to_string(), "2024-03-01");
    assert_eq!(d.add_days(-59).to_string(), "2023-12-31");
}

#[test]
fn month_starts() {
    let d = Date::from_ymd(2026, 12, 15).unwrap();
    assert_eq!(d.month_start().to_string(), "2026-12-01");
    assert_eq!(d.next_month_start().to_string(), "2027-01-01");
    let e = Date::from_ymd(2026, 1, 31).unwrap();
    assert_eq!(e.next_month_start().to_string(), "2026-02-01");
}

#[test]
fn leap_years_and_month_lengths() {
    assert!(jama::date::is_leap_year(2000));
    assert!(!jama::date::is_leap_year(1900));
    assert!(jama::date::is_leap_year(2024));
    assert_eq!(jama::date::days_in_month(2024, 2), 29);
    assert_eq!(jama::date::days_in_month(2023, 2), 28);
    assert_eq!(jama::date::days_in_month(2023, 4), 30);
}

#[test]
fn parse_rejects_bad_text_and_accepts_keywords() {
    assert!(Date::parse("2026-13-01").is_err());
    assert!(Date::parse("not-a-date").is_err());
    assert!(Date::parse("2026-02-30").is_err());
    assert!(Date::parse("  2026-02-03  ").is_ok());
    let today = Date::parse("today").unwrap();
    let yesterday = Date::parse("yesterday").unwrap();
    assert!(yesterday.days_since_epoch() + 1 == today.days_since_epoch() || yesterday < today);
    assert_eq!(Date::parse_iso("2026-02-03").unwrap().day(), 3);
}

#[test]
fn custom_formats_report_mismatches() {
    assert_eq!(
        Date::parse_with_format("2026/09/21", "%Y/%m/%d").unwrap().to_string(),
        "2026-09-21"
    );
    assert!(Date::parse_with_format("21-09-2026", "%d/%m/%Y").is_err());
    assert!(Date::parse_with_format("31/02/2026", "%d/%m/%Y").is_err());
}

#[test]
fn unix_seconds_round_down_to_days() {
    assert_eq!(Date::from_unix_seconds(0).to_string(), "1970-01-01");
    assert_eq!(Date::from_unix_seconds(86_399).to_string(), "1970-01-01");
    assert_eq!(Date::from_unix_seconds(86_400).to_string(), "1970-01-02");
    assert_eq!(Date::from_unix_seconds(-1).to_string(), "1969-12-31");
    assert_eq!(Date::from_unix_seconds(-86_400).to_string(), "1969-12-31");
    assert_eq!(Date::from_unix_seconds(-86_401).to_string(), "1969-12-30");
    assert_eq!(Date::from_unix_seconds(1_700_000_000).to_string(), "2023-11-14");
    assert!(Date::today().year() >= 1970);
}

#[test]
fn keywords_read_relative_to_the_given_day() {
    let day = Date::from_ymd(2026, 3, 1).unwrap();
    assert_eq!(Date::parse_at(" today ", day).unwrap(), day);
    assert_eq!(Date::parse_at("yesterday", day).unwrap().to_string(), "2026-02-28");
    assert_eq!(Date::parse_at("2024-02-29", day).unwrap().to_string(), "2024-02-29");
    assert!(Date::parse_at("tomorrow", day).is_err());
}
