use palimpsest::time::{civil_from_unix, date_str, floor_div, is_date, parse_date, quarter_str};

#[test]
fn known_dates() {
    assert_eq!(date_str(0), "1970-01-01");
    assert_eq!(date_str(951_782_400), "2000-02-29");
    assert_eq!(date_str(1_785_542_400), "2026-08-01");
    assert_eq!(quarter_str(1_785_542_400), "2026-Q3");
}

#[test]
fn days_before_the_epoch() {
    assert_eq!(date_str(-1), "1969-12-31");
    assert_eq!(civil_from_unix(-86_400), (1969, 12, 31));
    assert_eq!(civil_from_unix(86_399), (1970, 1, 1));
    assert_eq!(civil_from_unix(86_400), (1970, 1, 2));
    assert_eq!(quarter_str(-1), "1969-Q4");
}

#[test]
fn century_years() {
    // 1900 has no leap day, 2000 has one.
    assert_eq!(date_str(-2_203_891_200), "1900-03-01");
    assert_eq!(date_str(-2_203_891_200 - 86_400), "1900-02-28");
    assert_eq!(date_str(951_782_400 + 86_400), "2000-03-01");
}

#[test]
fn quarters() {
    for (m, q) in [("01", 1), ("03", 1), ("04", 2), ("06", 2), ("07", 3), ("09", 3), ("10", 4), ("12", 4)] {
        let t = parse_date(&format!("2024-{m}-15")).unwrap();
        assert_eq!(quarter_str(t), format!("2024-Q{q}"));
    }
}

#[test]
fn date_shapes() {
    assert!(is_date("2024-01-31"));
    assert!(is_date("abcd-ef-gh"));
    assert!(!is_date("2024-1-31"));
    assert!(!is_date("2024/01/31"));
    assert!(!is_date("main"));
    assert!(!is_date("0123456789abcdef"));
}

#[test]
fn parsing_inverts_writing() {
    for t in [0i64, 951_782_400, 1_785_542_400, 1_704_067_200, 4_102_444_800] {
        assert_eq!(parse_date(&date_str(t)), Some(t));
    }
    assert_eq!(parse_date("1970-01-02"), Some(86_400));
    assert_eq!(parse_date("abcd-ef-gh"), None);
    assert_eq!(parse_date("2024-01"), None);
    // Far beyond any calendar, and still in range.
    assert_eq!(parse_date("1970-01-100000000000001"), Some(8_640_000_000_000_000_000));
}

#[test]
fn division_rounds_down() {
    assert_eq!(floor_div(7, 2), 3);
    assert_eq!(floor_div(-7, 2), -4);
    assert_eq!(floor_div(-8, 2), -4);
}
