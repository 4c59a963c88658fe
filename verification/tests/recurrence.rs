use tcal::recurrence::{recur_lines, recur_rule};
use tcal::toml::Toml;

fn chars(s: &str) -> Vec<char> {
    s.chars().collect()
}

fn text(s: &str) -> Toml {
    Toml::Text(s.to_owned())
}

fn rule(table: Vec<(&str, Toml)>) -> Option<String> {
    let table: Vec<(String, Toml)> = table.into_iter().map(|(k, v)| (k.to_owned(), v)).collect();
    recur_rule(&table).map(|v| v.into_iter().collect())
}

#[test]
fn a_rule_is_assembled_in_the_written_order() {
    let out = rule(vec![
        ("week-start", text("su")),
        ("by-month-day", Toml::Array(vec![Toml::Integer(1), text(" -1 ")])),
        ("by-day", Toml::Array(vec![text("mo"), text(""), text("we")])),
        ("interval", Toml::Integer(2)),
        ("frequency", text("weekly")),
    ]);
    assert_eq!(out.as_deref(), Some("FREQ=WEEKLY;INTERVAL=2;BYDAY=MO,WE;BYMONTHDAY=1,-1;WKST=SU"));
}

#[test]
fn until_is_written_in_digits() {
    let out = rule(vec![
        ("frequency", text("daily")),
        ("until", text("2026-06-13 14:00 UTC")),
        ("count", text("")),
    ]);
    assert_eq!(out.as_deref(), Some("FREQ=DAILY;UNTIL=20260613T140000Z"));
}

#[test]
fn a_raw_rule_short_circuits() {
    let out = rule(vec![("frequency", text("weekly")), ("rule", text("FREQ=DAILY;BYHOUR=9"))]);
    assert_eq!(out.as_deref(), Some("FREQ=DAILY;BYHOUR=9"));
}

#[test]
fn a_rule_without_a_frequency_is_none() {
    assert_eq!(rule(vec![("interval", Toml::Integer(2))]), None);
    assert_eq!(rule(vec![("frequency", text(""))]), None);
}

#[test]
fn an_unmodelled_part_is_shown_raw() {
    let value = chars("FREQ=WEEKLY;BYDAY=MO,WE;BYHOUR=9");
    let lines = recur_lines(Some(&value), &chars("rrule"));
    assert_eq!(lines.len(), 1);
    assert_eq!(lines[0].lhs, "rrule.rule = \"FREQ=WEEKLY;BYDAY=MO,WE;BYHOUR=9\"");
    assert_eq!(lines[0].hint.as_deref(), Some("raw RRULE; has parts tcal does not model"));
}

#[test]
fn a_modelled_rule_is_shown_in_parts() {
    let value = chars("FREQ=MONTHLY;BYMONTHDAY=1,15;COUNT=3;WKST=MO");
    let lines = recur_lines(Some(&value), &chars("rrule"));
    let lhs: Vec<&str> = lines.iter().map(|l| l.lhs.as_str()).collect();
    assert_eq!(
        lhs,
        vec![
            "rrule.frequency = \"monthly\"",
            "rrule.interval = \"\"",
            "rrule.count = 3",
            "rrule.until = \"\"",
            "rrule.by-day = []",
            "rrule.by-month = []",
            "rrule.by-month-day = [1, 15]",
            "rrule.by-position = []",
            "rrule.week-start = \"mo\"",
        ]
    );
}

#[test]
fn no_rule_shows_empty_parts() {
    let lines = recur_lines(None, &chars("rrule"));
    assert_eq!(lines.len(), 9);
    assert_eq!(lines[0].lhs, "rrule.frequency = \"\"");
    assert_eq!(lines[8].lhs, "rrule.week-start = \"\"");
}
