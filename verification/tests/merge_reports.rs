use tcal::ical::TcalCalendar;
use tcal::merge::sides::{ComponentPath, MergeAction, MergeReason, PathStep, PropPath, Sides};
use tcal::merge::{Conflict, TcalMerged};

/// One organised, attended event, the ancestor every case edits.
const BASE: &str = "BEGIN:VCALENDAR\r\n\
    VERSION:2.0\r\n\
    PRODID:-//Test//EN\r\n\
    BEGIN:VEVENT\r\n\
    UID:e1@example\r\n\
    DTSTAMP:20260101T000000Z\r\n\
    DTSTART:20260105T090000Z\r\n\
    SUMMARY:Standup\r\n\
    ORGANIZER:mailto:chair@example.com\r\n\
    ATTENDEE;PARTSTAT=NEEDS-ACTION:mailto:ada@example.com\r\n\
    BEGIN:VALARM\r\n\
    ACTION:DISPLAY\r\n\
    TRIGGER:-PT15M\r\n\
    END:VALARM\r\n\
    END:VEVENT\r\n\
    END:VCALENDAR\r\n";

/// The base with one line replaced.
fn edited(base: &str, from: &str, to: &str) -> String {
    assert!(base.contains(from), "the base does not hold {from:?}");
    base.replace(from, to)
}

fn cal(text: &str) -> TcalCalendar {
    TcalCalendar::parse(text).unwrap()
}

fn path(steps: &[(&str, &str)]) -> ComponentPath {
    ComponentPath(steps.iter().map(|(name, key)| PathStep { name: (*name).to_owned(), key: (*key).to_owned() }).collect())
}

fn changed(steps: &[(&str, &str)], name: &str) -> MergeAction {
    MergeAction::ValueChanged {
        at: PropPath { component: path(steps), name: name.to_owned(), index: 0, identity: None },
    }
}

/// What a three-way merge reports for one collision on a property, the
/// local side's bytes being the merged calendar's.
fn merge(base: &str, local: &str, remote: &str, steps: &[(&str, &str)], name: &str) -> TcalMerged {
    let sides = Sides { merged: cal(local), base: cal(base), local: cal(local), remote: cal(remote) };
    let conflicts = vec![Conflict {
        reason: MergeReason::Divergent(changed(steps, name)),
        right: changed(steps, name),
    }];
    TcalMerged::settle(sides, &conflicts, &Vec::new(), &Vec::new())
}

#[test]
fn an_unprojectable_collision_keeps_the_local_value() {
    let base = edited(BASE, "SUMMARY:Standup", "SUMMARY:Standup\r\nX-FOO:one");
    let local = edited(&base, "X-FOO:one", "X-FOO:two");
    let remote = edited(&base, "X-FOO:one", "X-FOO:three");

    let merged = merge(&base, &local, &remote, &[("VEVENT", "e1@example")], "X-FOO");

    assert!(merged.ical.contains("X-FOO:two"));
    assert!(!merged.ical.contains("X-FOO:three"));
    assert!(merged.toml.contains("and the local value was"), "no comment");
    assert!(!merged.toml.contains("# conflict"), "offered as a choice");
    assert!(merged.apply(&merged.toml).is_ok());
}

#[test]
fn merge_a_contested_alarm_stays_one_alarm() {
    let local = edited(BASE, "TRIGGER:-PT15M", "TRIGGER:-PT30M");
    let remote = edited(BASE, "TRIGGER:-PT15M", "TRIGGER:-PT45M");

    let merged = merge(BASE, &local, &remote, &[("VEVENT", "e1@example"), ("VALARM", "0")], "TRIGGER");

    assert_eq!(merged.toml.matches("[[event.alarm]]").count(), 1);
    assert_eq!(merged.toml.matches("action = \"DISPLAY\"").count(), 1);
    assert!(merged.toml.contains("trigger.min = 30 # local"));
    assert!(merged.toml.contains("trigger.min = 45 # remote"));

    let decided: String = merged
        .toml
        .lines()
        .filter(|line| !line.ends_with("# remote"))
        .map(|line| format!("{line}\n"))
        .collect();
    let out = merged.apply(&decided).unwrap();

    assert!(out.contains("TRIGGER:-PT30M"));
}

#[test]
fn a_refusal_that_is_no_collision_stays_a_parse_error() {
    let merged = merge(BASE, BASE, BASE, &[("VEVENT", "e1@example")], "SUMMARY");
    assert!(matches!(merged.apply("[[event]\n"), Err(tcal::error::TcalError::ParseToml(_))));
}

#[test]
fn an_unreadable_merged_calendar_is_reported_before_the_document() {
    let merged = tcal::merge::TcalMerged { ical: "not an iCalendar at all".to_owned(), toml: String::new() };
    assert!(matches!(merged.apply("[[event]\n"), Err(tcal::error::TcalError::ParseICalendar(_))));
}

#[test]
fn an_unreadable_side_is_named() {
    const BASE: &str = "BEGIN:VCALENDAR\r\nVERSION:2.0\r\nEND:VCALENDAR\r\n";
    match tcal::merge::read_sides(BASE, BASE, "not an iCalendar at all") {
        Err(tcal::error::TcalError::ReadCalendar { side, .. }) => assert_eq!(side, "remote"),
        _ => panic!("the unreadable side was read"),
    }
    match tcal::merge::read_sides("junk", BASE, "junk") {
        Err(tcal::error::TcalError::ReadCalendar { side, .. }) => assert_eq!(side, "base"),
        _ => panic!("the unreadable side was read"),
    }
    assert!(tcal::merge::read_sides(BASE, BASE, BASE).is_ok());
}

#[test]
fn errors_say_what_went_wrong() {
    assert_eq!(tcal::error::TcalError::ParseICalendar("bad".to_owned()).message(), "Cannot parse iCalendar: bad");
    assert_eq!(
        tcal::error::TcalError::ReadCalendar { side: "local", message: "bad".to_owned() }.message(),
        "Cannot read the local calendar: bad"
    );
    assert_eq!(
        tcal::error::TcalError::Undecided("summary".to_owned()).message(),
        "Property summary is left undecided: keep one of its lines and delete the others"
    );
    assert_eq!(
        tcal::error::TcalError::UnknownComponent("no\"pe".to_owned()).message(),
        "Unknown component \"no\\\"pe\"; expected event, todo, journal, free-busy or timezone"
    );
    let refused = tcal::template::apply("", "x = ").unwrap_err();
    assert_eq!(refused.message(), "Cannot parse TOML buffer");
}
