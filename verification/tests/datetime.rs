use tcal::datetime::{date_line, friendly_to_ical, parse_friendly_date};

fn parts(date: &str, time: Option<&str>, utc: bool) -> Option<(String, Option<String>, bool)> {
    Some((date.to_owned(), time.map(str::to_owned), utc))
}

#[test]
fn a_friendly_date_alone_is_all_day() {
    assert_eq!(parse_friendly_date("2026-06-13"), parts("20260613", None, false));
}

#[test]
fn a_friendly_time_without_seconds_reads_zero_seconds() {
    assert_eq!(parse_friendly_date("2026-06-13 14:00"), parts("20260613", Some("140000"), false));
}

#[test]
fn short_parts_are_padded_and_surrounding_space_ignored() {
    assert_eq!(
        parse_friendly_date("  2026-6-3 9:05:07 UTC "),
        parts("20260603", Some("090507"), true)
    );
    assert_eq!(
        parse_friendly_date("2026-06-13 14:00 utc"),
        parts("20260613", Some("140000"), true)
    );
}

#[test]
fn a_part_out_of_its_integer_type_is_not_friendly() {
    assert_eq!(parse_friendly_date("2026-256-01"), None);
    assert_eq!(parse_friendly_date("70000-01-01"), None);
    assert_eq!(parse_friendly_date("2026-06-13 14:300"), None);
}

#[test]
fn ranges_are_not_checked_beyond_the_integer_type() {
    assert_eq!(parse_friendly_date("2026-13-40"), parts("20261340", None, false));
}

#[test]
fn malformed_friendly_values_are_refused() {
    assert_eq!(parse_friendly_date(""), None);
    assert_eq!(parse_friendly_date("2026-06"), None);
    assert_eq!(parse_friendly_date("2026-06-13-01"), None);
    assert_eq!(parse_friendly_date("2026-06-13 14"), None);
    assert_eq!(parse_friendly_date("2026-06-13 14:00:00:00"), None);
    assert_eq!(parse_friendly_date("2026-06-13 14:00 extra"), None);
    assert_eq!(parse_friendly_date("20260613T140000Z"), None);
}

#[test]
fn a_date_line_for_an_all_day_value() {
    assert_eq!(date_line("DTSTART", "2026-06-13", Some("Europe/Paris")), "DTSTART;VALUE=DATE:20260613");
}

#[test]
fn a_date_line_carries_its_zone() {
    assert_eq!(
        date_line("DTSTART", "2026-06-13 14:00", Some("America/New_York")),
        "DTSTART;TZID=America/New_York:20260613T140000"
    );
    assert_eq!(date_line("DTEND", "2026-06-13 14:00", None), "DTEND:20260613T140000");
}

#[test]
fn a_utc_date_line_drops_the_zone() {
    assert_eq!(
        date_line("DTSTART", "2026-06-13 14:00 UTC", Some("America/New_York")),
        "DTSTART:20260613T140000Z"
    );
}

#[test]
fn an_unfriendly_value_is_passed_verbatim() {
    assert_eq!(date_line("DTSTART", "garbage", Some("Z1")), "DTSTART;TZID=Z1:garbage");
    assert_eq!(date_line("DTSTART", "20260613T140000", None), "DTSTART:20260613T140000");
}

#[test]
fn friendly_values_become_until_digits() {
    assert_eq!(friendly_to_ical("2026-06-13"), "20260613");
    assert_eq!(friendly_to_ical("2026-06-13 14:00"), "20260613T140000");
    assert_eq!(friendly_to_ical("2026-06-13 14:00:05 UTC"), "20260613T140005Z");
    assert_eq!(friendly_to_ical("nope"), "nope");
}

fn native(raw: &str) -> Option<String> {
    let chars: Vec<char> = raw.chars().collect();
    tcal::datetime::toml_date(&chars).map(|d| tcal::datetime::until_to_ical(&d).into_iter().collect())
}

#[test]
fn a_native_date_writes_back_the_digits_it_was_read_from() {
    assert_eq!(native("20261231T235900Z"), Some("20261231T235900Z".to_owned()));
    assert_eq!(native(" 20261231T235900 "), Some("20261231T235900".to_owned()));
    assert_eq!(native("20261231"), Some("20261231".to_owned()));
}

#[test]
fn values_outside_the_digit_form_are_not_read_natively() {
    assert_eq!(native("20261231Z"), None);
    assert_eq!(native("20261231T2359001"), None);
    assert_eq!(native("20261231T2359"), None);
    assert_eq!(native("2026-12-31"), None);
    assert_eq!(native(""), None);
}
