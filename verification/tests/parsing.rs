use task_reminder::comm::{parse_at, parse_duration};

#[test]
fn fmn_test_duration() {
    let test_cases = vec![
        ("0h0m10s", 10),
        ("1h0m0s", 3600),
        ("0h1m0s", 60),
        ("0h0m0s", 0),
        ("1d", 3600 * 24),
        ("1h", 3600),
        ("1d1s", 3600 * 24 + 1),
    ];
    for (duration, expected_seconds) in test_cases {
        assert_eq!(parse_duration(duration).unwrap(), expected_seconds);
    }
}

#[test]
fn fmn_test_duration_err() {
    let test_cases = vec!["1f", "abc", "@341", "1d2@3"];
    for duration in test_cases {
        assert!(parse_duration(duration).is_err());
    }
}

#[test]
fn client_test_duration() {
    let test_cases = vec![
        ("0h0m10s", 10),
        ("1h0m0s", 3600),
        ("0h1m0s", 60),
        ("0h0m0s", 0),
        ("1d", 3600 * 24),
        ("1h", 3600),
        ("1d1s", 3600 * 24 + 1),
    ];
    for (duration, expected_seconds) in test_cases {
        assert_eq!(parse_duration(duration).unwrap(), expected_seconds);
    }
}

#[test]
fn client_test_duration_err() {
    let test_cases = vec!["1f", "abc", "@341", "1d2@3"];
    for duration in test_cases {
        assert!(parse_duration(duration).is_err());
    }
}

#[test]
fn test_parse_at() {
    // no support for seconds
    let test_cases = vec![("13:24", 13, 24), ("23:01", 23, 1), ("01:59", 1, 59)];
    for (next_fire, hour, minute) in test_cases {
        let (parsed_hour, parsed_minute) = parse_at(next_fire).unwrap();
        assert_eq!(hour, parsed_hour);
        assert_eq!(minute, parsed_minute);
    }
}

#[test]
fn test_parse_at_err() {
    let test_cases = vec!["123:24", "11:94", "098", ""];
    for next_fire in test_cases {
        assert!(parse_at(next_fire).is_err());
    }
}

#[test]
fn duration_component_order_is_fixed() {
    assert!(parse_duration("1s1d").is_err());
    assert!(parse_duration("3m2h").is_err());
    assert_eq!(parse_duration("2h3m").unwrap(), 2 * 3600 + 3 * 60);
}

#[test]
fn duration_empty_is_zero() {
    assert_eq!(parse_duration("").unwrap(), 0);
}

#[test]
fn duration_overflow_is_rejected() {
    // the component itself is too large for the machine
    assert!(parse_duration("99999999999999999999999d").is_err());
    // each component fits, their sum does not
    assert!(parse_duration("300000000000000000d23h").is_err());
    // leading zeros are fine
    assert_eq!(parse_duration("007s").unwrap(), 7);
}

#[test]
fn parse_at_without_minute() {
    assert_eq!(parse_at("7").unwrap(), (7, 0));
    assert_eq!(parse_at("12:").unwrap(), (12, 0));
    // the minute must follow the colon immediately
    assert_eq!(parse_at("9:x30").unwrap(), (9, 0));
}

#[test]
fn parse_at_skips_leading_text() {
    assert_eq!(parse_at("at 18:30 today").unwrap(), (18, 30));
}

#[test]
fn error_messages_name_the_failure() {
    let e = parse_duration("abc").unwrap_err();
    let msg = e.message();
    assert!(msg.starts_with("invalid input: "));
}
