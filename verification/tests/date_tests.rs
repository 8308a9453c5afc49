use rusk::dates::{date_from_input, format_date_dmy, normalize_date_string, parse_date, Date};

fn date(year: u16, month: u8, day: u8) -> Date {
    Date { year, month, day }
}

#[test]
fn test_normalize_replaces_slashes() {
    assert_eq!(normalize_date_string("01/01/2025"), "01-01-2025");
    assert_eq!(normalize_date_string("15/06/2025"), "15-06-2025");
}

#[test]
fn test_normalize_expands_short_year() {
    assert_eq!(normalize_date_string("15-01-25"), "15-01-2025");
    assert_eq!(normalize_date_string("15/01/25"), "15-01-2025");
    assert_eq!(normalize_date_string("01-01-0"), "01-01-2000");
    assert_eq!(normalize_date_string("01-01-99"), "01-01-2099");
    // a trimmed short year still counts
    assert_eq!(normalize_date_string("15-01-25 "), "15-01-2025");
}

#[test]
fn test_normalize_leaves_full_year_alone() {
    assert_eq!(normalize_date_string("15-01-2025"), "15-01-2025");
    assert_eq!(normalize_date_string("01-01-0001"), "01-01-0001");
    assert_eq!(normalize_date_string("no-dashes-here"), "no-dashes-here");
    assert_eq!(normalize_date_string("plain"), "plain");
}

#[test]
fn test_parse_date_valid() {
    assert_eq!(parse_date("01-01-2025"), Some(date(2025, 1, 1)));
    assert_eq!(parse_date("31-12-2025"), Some(date(2025, 12, 31)));
    assert_eq!(parse_date("29-02-2024"), Some(date(2024, 2, 29)));
    assert_eq!(parse_date("15-06-2025"), Some(date(2025, 6, 15)));
    // one-digit day and month are tolerated
    assert_eq!(parse_date("1-1-2025"), Some(date(2025, 1, 1)));
}

#[test]
fn test_parse_date_invalid() {
    assert_eq!(parse_date("01-13-2025"), None);
    assert_eq!(parse_date("32-01-2025"), None);
    assert_eq!(parse_date("30-02-2025"), None);
    assert_eq!(parse_date("29-02-2025"), None);
    assert_eq!(parse_date("invalid-date"), None);
    assert_eq!(parse_date("2025-01-01"), None);
    assert_eq!(parse_date(""), None);
    assert_eq!(parse_date("01-01"), None);
    assert_eq!(parse_date("01-01-25"), None);
}

#[test]
fn test_date_from_input_round_trip() {
    // every accepted input form lands on the same day
    let inputs = ["15-01-2025", "15/01/2025", "15-01-25", "15/01/25"];
    for input in inputs {
        assert_eq!(date_from_input(input), Some(date(2025, 1, 15)));
    }
    assert_eq!(date_from_input("01-13-2025"), None);
    assert_eq!(date_from_input("2025-01-15"), None);
}

#[test]
fn test_normalize_is_stable_on_accepted_inputs() {
    // normalizing twice changes nothing once the input is accepted
    let inputs = ["15-01-2025", "15/01/2025", "15-01-25", "29/02/24", "1-1-5"];
    for input in inputs {
        let once = normalize_date_string(input);
        assert!(parse_date(&once).is_some());
        let twice = normalize_date_string(&once);
        assert_eq!(once, twice);
        assert_eq!(parse_date(&once), parse_date(&twice));
    }
}

#[test]
fn test_format_date_dmy_pads() {
    assert_eq!(format_date_dmy(&date(2025, 6, 15)), "15-06-2025");
    assert_eq!(format_date_dmy(&date(1, 1, 1)), "01-01-0001");
    assert_eq!(format_date_dmy(&date(9999, 12, 31)), "31-12-9999");
}

#[test]
fn test_date_new_checks_calendar() {
    assert!(Date::new(2025, 2, 28).is_some());
    assert!(Date::new(2025, 2, 29).is_none());
    assert!(Date::new(2024, 2, 29).is_some());
    assert!(Date::new(2100, 2, 29).is_none());
    assert!(Date::new(2000, 2, 29).is_some());
    assert!(Date::new(2025, 0, 1).is_none());
    assert!(Date::new(2025, 1, 0).is_none());
    assert!(Date::new(2025, 4, 31).is_none());
    assert!(Date::new(2025, 4, 30).is_some());
}
