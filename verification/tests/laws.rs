use tcal::edit::{parse, Node};
use tcal::patch::{escape, unescape};
use tcal::template::{apply, apply_with, project_with};
use tcal::ical::TcalCalendar;

const EVENT: &str = "BEGIN:VCALENDAR\r\n\
    VERSION:2.0\r\n\
    BEGIN:VEVENT\r\n\
    UID:abc@example\r\n\
    SUMMARY:Lunch\r\n\
    ATTENDEE:mailto:a@example.com\r\n\
    ATTENDEE:mailto:b@example.com\r\n\
    BEGIN:VALARM\r\n\
    ACTION:DISPLAY\r\n\
    TRIGGER:-PT15M\r\n\
    END:VALARM\r\n\
    END:VEVENT\r\n\
    BEGIN:VTODO\r\n\
    UID:t1@example\r\n\
    SUMMARY:Buy milk\r\n\
    END:VTODO\r\n\
    END:VCALENDAR\r\n";

fn text(v: &[char]) -> String {
    v.iter().collect()
}

#[test]
fn reading_back_what_was_set_gives_the_lines_set() {
    let cases: [&[&str]; 4] = [
        &[],
        &["ATTENDEE:mailto:c@example.com"],
        &["ATTENDEE:mailto:a@example.com", "ATTENDEE;CN=B:mailto:b@example.com", "ATTENDEE:mailto:d@example.com"],
        &["ATTENDEE:mailto:b@example.com", "ATTENDEE:mailto:a@example.com"],
    ];
    for lines in cases {
        let owned: Vec<String> = lines.iter().map(|l| (*l).to_owned()).collect();
        let mut cal = parse(EVENT);
        let event = cal.component_mut("vevent").unwrap();
        event.set_all("attendee", &owned);
        assert_eq!(event.get_all("ATTENDEE"), owned);
    }
}

#[test]
fn setting_the_lines_already_there_changes_nothing() {
    let mut cal = parse(EVENT);
    let event = cal.component_mut("VEVENT").unwrap();
    let lines = event.get_all("ATTENDEE");
    event.set_all("ATTENDEE", &lines);
    assert_eq!(cal.to_string(), EVENT);
}

#[test]
fn the_reader_unfolds_lines_and_nests_components() {
    let src = "begin:vevent\r\nSUMMARY;LANGUAGE=en:a\r\n b\r\njunk\r\nBEGIN:VALARM\r\nEND:VALARM\r\nEND:VEVENT\r\nEND:VTODO\r\n";
    let cal = parse(src);
    assert_eq!(cal.to_string(), src);
    assert_eq!(cal.items.len(), 2);
    match &cal.items[0] {
        Node::Component(event) => {
            assert_eq!(text(&event.name), "VEVENT");
            assert_eq!(text(&event.begin_raw), "begin:vevent\r\n");
            assert_eq!(text(&event.end_raw), "END:VEVENT\r\n");
            assert_eq!(event.items.len(), 3);
            match &event.items[0] {
                Node::Property(p) => {
                    assert_eq!(text(&p.name), "SUMMARY");
                    assert_eq!(text(&p.logical), "SUMMARY;LANGUAGE=en:ab");
                    assert_eq!(text(&p.raw), "SUMMARY;LANGUAGE=en:a\r\n b\r\n");
                }
                _ => panic!("the summary is a property"),
            }
            assert!(matches!(&event.items[1], Node::Raw(r) if text(r) == "junk\r\n"));
            assert!(matches!(&event.items[2], Node::Component(a) if text(&a.name) == "VALARM"));
        }
        _ => panic!("the event is a component"),
    }
    assert!(matches!(&cal.items[1], Node::Raw(r) if text(r) == "END:VTODO\r\n"));
}

#[test]
fn an_unclosed_component_runs_to_the_end() {
    let src = "BEGIN:VEVENT\r\nSUMMARY:x";
    let cal = parse(src);
    assert_eq!(cal.to_string(), src);
    match &cal.items[0] {
        Node::Component(event) => {
            assert_eq!(text(&event.end_raw), "");
            assert_eq!(event.items.len(), 1);
        }
        _ => panic!("the event is a component"),
    }
}

#[test]
fn a_calendar_reads_back_as_written() {
    for src in [EVENT, "", "\r\n", "junk before\nBEGIN:VEVENT\nX:1\n\n", "BEGIN:VEVENT\nX:1\n\n"] {
        let cal = TcalCalendar::parse(src).unwrap();
        assert_eq!(cal.to_string(), src);
    }
}

#[test]
fn unescaping_an_escaped_value_gives_it_back() {
    for value in ["", "plain", "a,b;c\\d", "line\nbreak", "\\n literal", "é, ü; ß"] {
        assert_eq!(unescape(&escape(value)), value);
    }
}

#[test]
fn a_fold_back_of_some_types_keeps_every_other_type() {
    let document = project_with(&TcalCalendar::parse(EVENT).unwrap(), &["event".to_owned(), "journal".to_owned()]).unwrap();
    let edited = document.replace("Lunch", "Team lunch");
    let out = apply_with(EVENT, &edited, &["event".to_owned(), "journal".to_owned()]).unwrap();
    assert!(out.contains("SUMMARY:Team lunch\r\n"), "{out}");
    assert!(out.contains("BEGIN:VTODO\r\nUID:t1@example\r\nSUMMARY:Buy milk\r\nEND:VTODO\r\n"), "{out}");
}

#[test]
fn a_flat_fold_back_keeps_every_other_type() {
    let document = project_with(&TcalCalendar::parse(EVENT).unwrap(), &["todo".to_owned()]).unwrap();
    assert!(!document.contains("[[todo]]"), "{document}");
    let edited = document.replace("Buy milk", "Buy bread");
    let out = apply_with(EVENT, &edited, &["todo".to_owned()]).unwrap();
    assert!(out.contains("SUMMARY:Buy bread\r\n"), "{out}");
    assert!(out.contains("SUMMARY:Lunch\r\nATTENDEE:mailto:a@example.com\r\nATTENDEE:mailto:b@example.com\r\n"), "{out}");
}

#[test]
fn an_unknown_type_is_named() {
    match apply_with(EVENT, "", &["event".to_owned(), "meeting".to_owned()]) {
        Err(tcal::error::TcalError::UnknownComponent(key)) => assert_eq!(key, "meeting"),
        other => panic!("unexpected {:?}", other.is_ok()),
    }
    match project_with(&TcalCalendar::parse(EVENT).unwrap(), &["Meeting".to_owned()]) {
        Err(tcal::error::TcalError::UnknownComponent(key)) => assert_eq!(key, "Meeting"),
        other => panic!("unexpected {:?}", other.is_ok()),
    }
}

#[test]
fn a_document_that_is_not_toml_is_refused() {
    assert!(matches!(apply(EVENT, "[[event]\n"), Err(tcal::error::TcalError::ParseToml(_))));
}
