use tcal::error::TcalError;
use tcal::merge::choice::{key_of, Choice};
use tcal::merge::document::Document;
use tcal::merge::{undecided, TcalMerged};

fn strings(lines: &[&str]) -> Vec<String> {
    lines.iter().map(|l| (*l).to_owned()).collect()
}

fn choice(at: Vec<(&'static str, usize)>, key: Option<&'static str>, base: &[&str], local: &[&str], remote: &[&str]) -> Choice {
    Choice {
        at,
        key,
        kept: "the summary collision was kept as the local side".to_owned(),
        base: strings(base),
        local: strings(local),
        remote: strings(remote),
    }
}

const CONTESTS_ONE: &str = "# 1 conflict below is yours to decide, written as the same key once\n\
    # per side. Keep one line of each and delete the others, or replace\n\
    # them with a value of your own: TOML forbids duplicate keys, so\n\
    # this document cannot be applied until every one is decided.\n";

#[test]
fn a_key_is_read_up_to_its_equals_sign() {
    assert_eq!(key_of("  summary = \"a = b\""), "summary");
    assert_eq!(key_of("[[event]]"), "[[event]]");
    assert_eq!(key_of(" trigger.min =1"), "trigger.min");
}

#[test]
fn a_field_choice_contests_its_key_and_its_parts() {
    let c = choice(vec![("event", 0)], Some("date-start"), &[], &[], &[]);
    assert!(c.contests("date-start = 2026-01-01"));
    assert!(c.contests("date-start-tz = \"Europe/Paris\""));
    assert!(c.contests("date-start.hour = 1"));
    assert!(!c.contests("date-startx = 1"));
    assert!(!c.contests("date-end = 1"));
    assert!(!c.contests("no equals sign"));
}

#[test]
fn a_block_choice_contests_every_key() {
    let c = choice(vec![("event", 0), ("attendee", 1)], None, &[], &[], &[]);
    assert!(c.contests("value = \"ada@example.com\""));
    assert!(!c.contests(" = orphan"));
    assert!(!c.contests("[[event.attendee]]"));
}

#[test]
fn the_keys_the_sides_spell_differently_are_contested() {
    let c = choice(
        vec![],
        None,
        &[],
        &["summary = \"A\"", "location = \"L\""],
        &["location = \"L\"", "summary = \"B\"", "extra = 1"],
    );
    assert_eq!(c.contested(), vec!["summary".to_owned(), "extra".to_owned()]);
}

#[test]
fn one_contested_key_keeps_one_line() {
    let c = choice(
        vec![],
        Some("summary"),
        &["summary = \"S\""],
        &["summary = \"A\""],
        &["summary = \"B\""],
    );
    let mut out = String::from("before\n");
    c.render(&mut out);
    assert_eq!(
        out,
        "before\n# conflict, keep one line\n# summary = \"S\" # base\nsummary = \"A\" # local\nsummary = \"B\" # remote\n"
    );
}

#[test]
fn several_contested_keys_keep_one_side_and_agreed_keys_are_written_once() {
    let c = choice(
        vec![],
        None,
        &["value = \"a\""],
        &["value = \"a\"", "status = \"accepted\"", "role = \"chair\""],
        &["value = \"a\"", "status = \"declined\"", "role = \"\""],
    );
    let mut out = String::new();
    c.render(&mut out);
    assert_eq!(
        out,
        "# conflict, keep one side\nvalue = \"a\"\nstatus = \"accepted\" # local\nstatus = \"declined\" # remote\nrole = \"chair\" # local\nrole = \"\" # remote\n"
    );
}

#[test]
fn a_document_without_choices_or_notes_is_unchanged() {
    let toml = "# projected\n[[event]]\nsummary = \"A\"\n";
    let doc = Document { toml, notes: Vec::new(), choices: Vec::new() };
    assert_eq!(doc.decorate(), toml);
}

#[test]
fn a_choice_replaces_the_line_it_contests() {
    let toml = "# projected\n[[event]]\nsummary = \"A\"\nlocation = \"L\"\n";
    let doc = Document {
        toml,
        notes: Vec::new(),
        choices: vec![choice(
            vec![("event", 0)],
            Some("summary"),
            &["summary = \"S\""],
            &["summary = \"A\""],
            &["summary = \"B\""],
        )],
    };
    let expected = format!(
        "# projected\n#\n{CONTESTS_ONE}#\n[[event]]\n# conflict, keep one line\n# summary = \"S\" # base\nsummary = \"A\" # local\nsummary = \"B\" # remote\nlocation = \"L\"\n"
    );
    assert_eq!(doc.decorate(), expected);
}

#[test]
fn a_choice_with_no_line_is_said_in_the_header() {
    let toml = "[[event]]\nsummary = \"A\"\n";
    let doc = Document {
        toml,
        notes: vec!["a rule against an instance was kept".to_owned()],
        choices: vec![choice(vec![("event", 1)], Some("summary"), &[], &["summary = \"A\""], &["summary = \"B\""])],
    };
    let expected = "#\n# The merge settled these on its own:\n#\n# - a rule against an instance was kept\n\
        # - the summary collision was kept as the local side\n#\n[[event]]\nsummary = \"A\"\n";
    assert_eq!(doc.decorate(), expected);
}

#[test]
fn a_choice_addresses_the_block_it_names() {
    let toml = "[[event]]\nsummary = \"A\"\n[[event]]\nsummary = \"C\"\n";
    let doc = Document {
        toml,
        notes: Vec::new(),
        choices: vec![choice(vec![("event", 1)], Some("summary"), &[], &["summary = \"C\""], &["summary = \"D\""])],
    };
    let expected = format!(
        "#\n{CONTESTS_ONE}#\n[[event]]\nsummary = \"A\"\n[[event]]\n# conflict, keep one line\nsummary = \"C\" # local\nsummary = \"D\" # remote\n"
    );
    assert_eq!(doc.decorate(), expected);
}

#[test]
fn a_long_note_wraps_under_its_bullet() {
    let doc = Document {
        toml: "",
        notes: vec!["a kept note that is long enough to wrap past the sixty six column limit of the header".to_owned()],
        choices: Vec::new(),
    };
    assert_eq!(
        doc.decorate(),
        "#\n# The merge settled these on its own:\n#\n# - a kept note that is long enough to wrap past the sixty six\n#   column limit of the header\n#\n"
    );
}

#[test]
fn a_duplicate_key_names_the_line_it_stands_on() {
    let edited = "a = 1\nb = 2\ntrigger.min = 3\n";
    assert_eq!(undecided(edited, "duplicate key `min`", Some(20)), Some("trigger.min".to_owned()));
    assert_eq!(undecided(edited, "duplicate key `b`", Some(6)), Some("b".to_owned()));
}

#[test]
fn a_quoted_key_is_named_without_its_quotes() {
    let edited = "é = 1\n\"x y\" = 2\n";
    assert_eq!(undecided(edited, "duplicate key `x y`", Some(7)), Some("x y".to_owned()));
}

#[test]
fn other_refusals_name_no_key() {
    let edited = "é = 1\nb = 2\n";
    assert_eq!(undecided(edited, "expected `=`", Some(0)), None);
    assert_eq!(undecided(edited, "duplicate key `b`", None), None);
    assert_eq!(undecided(edited, "duplicate key `b`", Some(1)), None);
    assert_eq!(undecided(edited, "duplicate key `b`", Some(100)), None);
}

const MERGED: &str = "BEGIN:VCALENDAR\r\nVERSION:2.0\r\nBEGIN:VEVENT\r\nUID:e1@example\r\n\
    SUMMARY:Standup\r\nEND:VEVENT\r\nEND:VCALENDAR\r\n";

fn merged() -> TcalMerged {
    TcalMerged { ical: MERGED.to_owned(), toml: String::new() }
}

#[test]
fn a_decided_document_folds_back() {
    let out = merged().apply("[[event]]\nsummary = \"Team standup\"\n").unwrap();
    assert!(out.contains("SUMMARY:Team standup\r\n"), "{out}");
    assert!(out.contains("UID:e1@example\r\n"), "{out}");
}

#[test]
fn an_undecided_collision_is_named() {
    let edited = "[[event]]\nsummary = \"Daily standup\" # local\nsummary = \"Team standup\" # remote\n";
    match merged().apply(edited) {
        Err(TcalError::Undecided(key)) => assert_eq!(key, "summary"),
        other => panic!("unexpected {:?}", other.map_err(|e| matches!(e, TcalError::ParseToml(_)))),
    }
}

#[test]
fn a_document_that_does_not_parse_is_a_parse_error() {
    match merged().apply("[[event]]\nsummary = \n") {
        Err(TcalError::ParseToml(_)) => {}
        other => panic!("unexpected {:?}", other.is_ok()),
    }
}

#[test]
fn a_choice_contesting_two_lines_is_written_once_and_counted_once() {
    let toml = "[[event]]\nsummary = \"A\"\nsummary = \"A2\"\n";
    let doc = Document {
        toml,
        notes: Vec::new(),
        choices: vec![choice(
            vec![("event", 0)],
            Some("summary"),
            &[],
            &["summary = \"A\""],
            &["summary = \"B\""],
        )],
    };
    let out = doc.decorate();
    assert_eq!(out.matches("# conflict, keep one line").count(), 1, "{out}");
    assert!(out.contains("# 1 conflict below is yours"), "{out}");
    assert!(!out.contains("A2"), "{out}");
}

#[test]
fn every_header_comment_line_keeps_to_the_column() {
    let doc = Document {
        toml: "",
        notes: vec![
            "one two three four five six seven eight nine ten eleven twelve thirteen fourteen fifteen".to_owned(),
            "ü ü ü ü ü ü ü ü ü ü ü ü ü ü ü ü ü ü ü ü ü ü ü ü ü ü ü ü ü ü ü ü ü ü".to_owned(),
        ],
        choices: vec![choice(vec![("event", 0)], Some("summary"), &[], &["summary = \"A\""], &["summary = \"B\""])],
    };
    let out = doc.decorate();
    for line in out.lines() {
        assert!(line.len() <= 68, "{line:?}");
        assert!(line.starts_with('#'), "{line:?}");
    }
    assert!(out.contains("#   "), "{out}");
}
