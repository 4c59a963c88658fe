use tcal::duration::{duration_lines, duration_value, parse_duration};
use tcal::line::{comment_column, emit_lines, int_line, Line};
use tcal::toml::{toml_number, Toml};

fn chars(s: &str) -> Vec<char> {
    s.chars().collect()
}

fn duration(s: &str) -> Option<(i64, i64, i64, i64, i64)> {
    parse_duration(&chars(s))
}

fn value(table: Vec<(&str, Toml)>, negative: bool) -> Option<String> {
    let table: Vec<(String, Toml)> = table.into_iter().map(|(k, v)| (k.to_owned(), v)).collect();
    duration_value(&table, negative).map(|v| v.into_iter().collect())
}

#[test]
fn a_duration_reads_as_unsigned_parts() {
    assert_eq!(duration("P1DT2H30M"), Some((0, 1, 2, 30, 0)));
    assert_eq!(duration("PT15M"), Some((0, 0, 0, 15, 0)));
    assert_eq!(duration("-P2W"), Some((2, 0, 0, 0, 0)));
    assert_eq!(duration(" +P1DT5S "), Some((0, 1, 0, 0, 5)));
}

#[test]
fn what_is_not_a_duration_has_no_parts() {
    for text in ["", "P", "PT", "P0D", "P1H", "P1DT", "P1D2", "PT1D", "20260101T120000Z", "1D"] {
        assert_eq!(duration(text), None, "{text}");
    }
}

#[test]
fn a_lone_week_stays_weekly_and_weeks_fold_into_days() {
    assert_eq!(value(vec![("week", Toml::Integer(2))], false).as_deref(), Some("P2W"));
    assert_eq!(
        value(vec![("week", Toml::Integer(1)), ("day", Toml::Integer(2))], false).as_deref(),
        Some("P9D")
    );
    assert_eq!(
        value(vec![("week", Toml::Integer(1)), ("sec", Toml::Integer(4))], true).as_deref(),
        Some("-P7DT4S")
    );
}

#[test]
fn a_negative_duration_is_signed() {
    assert_eq!(
        value(vec![("hour", Toml::Integer(1)), ("min", Toml::Integer(30))], true).as_deref(),
        Some("-PT1H30M")
    );
    assert_eq!(value(vec![("day", Toml::Text(" 3 ".to_owned()))], false).as_deref(), Some("P3D"));
}

#[test]
fn a_raw_duration_short_circuits_and_no_part_is_none() {
    assert_eq!(
        value(vec![("raw", Toml::Text("20260101T120000Z".to_owned())), ("min", Toml::Integer(5))], true)
            .as_deref(),
        Some("20260101T120000Z")
    );
    assert_eq!(value(vec![], false), None);
    assert_eq!(value(vec![("week", Toml::Integer(0)), ("min", Toml::Text(String::new()))], false), None);
}

#[test]
fn a_duration_projects_its_parts() {
    let text = chars("-PT15M");
    let lines = duration_lines(Some(&text), &chars("trigger"), Some(chars("sign implied")));
    let lhs: Vec<&str> = lines.iter().map(|l| l.lhs.as_str()).collect();
    assert_eq!(
        lhs,
        vec!["trigger.week = \"\"", "trigger.day = \"\"", "trigger.hour = \"\"", "trigger.min = 15", "trigger.sec = \"\""]
    );
    assert_eq!(lines[0].hint.as_deref(), Some("sign implied"));
    assert_eq!(lines[3].hint, None);
}

#[test]
fn a_value_that_is_no_duration_projects_raw() {
    let text = chars("20260101T120000Z");
    let lines = duration_lines(Some(&text), &chars("trigger"), None);
    assert_eq!(lines.len(), 1);
    assert_eq!(lines[0].lhs, "trigger.raw = \"20260101T120000Z\"");
    assert_eq!(lines[0].hint.as_deref(), Some("raw duration; tcal could not break it into parts"));
}

#[test]
fn an_integer_line_is_bare_or_empty() {
    let line = int_line("rrule.count", Some(-3), Some("total"));
    assert_eq!(line.lhs, "rrule.count = -3");
    assert_eq!(line.hint.as_deref(), Some("total"));
    let line = int_line("rrule.count", None, None);
    assert_eq!(line.lhs, "rrule.count = \"\"");
    assert_eq!(line.hint, None);
}

fn line(lhs: &str, hint: Option<&str>) -> Line {
    Line { lhs: lhs.to_owned(), hint: hint.map(str::to_owned) }
}

#[test]
fn comments_align_past_the_widest_hinted_line() {
    let lines = vec![line("a = 1", Some("h")), line("a_much_longer_key = 2", None), line("", None)];
    assert_eq!(comment_column(&lines), 8);
    let lines = vec![line("abcdefgh", Some("x")), line("é = 1", Some("y"))];
    assert_eq!(comment_column(&lines), 16);
    assert_eq!(comment_column(&[]), 8);
}

#[test]
fn hinted_lines_are_padded_with_tabs() {
    let lines = vec![line("abcdefgh", Some("x")), line("é = 1", Some("y")), line("", None), line("b = 2", None)];
    let mut out = String::from(">");
    emit_lines(&mut out, &lines, 16);
    assert_eq!(out, ">abcdefgh\t# x\né = 1\t\t# y\n\nb = 2\n");
}

#[test]
fn an_integer_text_is_written_bare() {
    assert_eq!(toml_number(""), "\"\"");
    assert_eq!(toml_number("42"), "42");
    assert_eq!(toml_number("-7"), "-7");
    assert_eq!(toml_number("+5"), "+5");
    assert_eq!(toml_number("4x"), "\"4x\"");
    assert_eq!(toml_number("99999999999999999999"), "\"99999999999999999999\"");
}

fn summary_field() -> tcal::model::Field {
    tcal::model::Field {
        key: "summary",
        name: "SUMMARY",
        hint: None,
        kind: tcal::model::Kind::Scalar { escape: true },
    }
}

fn lines_from(table: Vec<(String, Toml)>, originals: &[&str]) -> Vec<String> {
    let originals: Vec<Vec<char>> = originals.iter().map(|o| chars(o)).collect();
    summary_field().content_lines(&table, &originals).into_iter().map(|l| l.into_iter().collect()).collect()
}

#[test]
fn an_absent_or_blank_field_writes_no_line() {
    assert!(lines_from(Vec::new(), &["SUMMARY:Old"]).is_empty());
    assert!(lines_from(vec![("summary".to_owned(), Toml::Text(String::new()))], &["SUMMARY:Old"]).is_empty());
}

#[test]
fn a_parameter_the_document_omits_stays_on_the_line() {
    let table = || vec![("summary".to_owned(), Toml::Text("New, text".to_owned()))];
    assert_eq!(lines_from(table(), &["SUMMARY;LANGUAGE=en:Old"]), vec!["SUMMARY;LANGUAGE=en:New\\, text".to_owned()]);
    assert_eq!(lines_from(table(), &[]), vec!["SUMMARY:New\\, text".to_owned()]);
}

#[test]
fn a_text_field_holding_the_lines_own_value_keeps_the_line() {
    let table = vec![("summary".to_owned(), Toml::Text("Old, text".to_owned()))];
    assert_eq!(
        lines_from(table, &["SUMMARY;LANGUAGE=en;X-A=\"a:b\":Old\\, text"]),
        vec!["SUMMARY;LANGUAGE=en;X-A=\"a:b\":Old\\, text".to_owned()]
    );
}

#[test]
fn a_date_field_holding_the_lines_own_instant_keeps_the_line() {
    let field = tcal::model::Field { key: "date-start", name: "DTSTART", hint: None, kind: tcal::model::Kind::Date };
    for line in ["DTSTART;X-A=1:20261231T235900Z", "DTSTART:20261231T235900"] {
        let value: Vec<char> = line.split(':').nth(1).unwrap().chars().collect();
        let dtm = tcal::datetime::toml_date(&value).unwrap();
        let table = vec![("date-start".to_owned(), Toml::Datetime(dtm))];
        let got: Vec<String> = field
            .content_lines(&table, &vec![chars(line)])
            .into_iter()
            .map(|l| l.into_iter().collect())
            .collect();
        assert_eq!(got, vec![line.to_owned()]);
    }
}
