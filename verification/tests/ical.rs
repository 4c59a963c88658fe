use tcal::edit::{parse, Node};
use tcal::ical::{TcalCalendar, TcalComponent, TcalContainer, TcalProp};

const SRC: &str = "BEGIN:VCALENDAR\r\n\
    VERSION:2.0\r\n\
    BEGIN:VEVENT\r\n\
    SUMMARY;LANGUAGE=en:Team\\, sync\r\n\
    CATEGORIES:work,meeting\\,s\r\n\
    ATTENDEE;CN=\"Doe, Jane\";PARTSTAT=ACCEPTED:mailto:jane@example.com\r\n\
    BEGIN:VALARM\r\n\
    ACTION:DISPLAY\r\n\
    END:VALARM\r\n\
    BEGIN:VALARM\r\n\
    ACTION:AUDIO\r\n\
    END:VALARM\r\n\
    END:VEVENT\r\n\
    END:VCALENDAR\r\n";

fn text(v: &[char]) -> String {
    v.iter().collect()
}

#[test]
fn a_component_reads_its_type_props_and_children() {
    let mut cal = parse(SRC);
    let event = cal.component_mut("VEVENT").unwrap();
    assert!(event.named("vevent"));
    assert!(!event.named("VTODO"));
    assert_eq!(event.props("summary").len(), 1);
    assert_eq!(event.props("X-NONE").len(), 0);
    assert_eq!(event.nested().len(), 2);
    assert_eq!(event.children("valarm").len(), 2);
    assert_eq!(event.children("VTODO").len(), 0);
    assert_eq!(event.lines("categories"), vec!["CATEGORIES:work,meeting\\,s".to_owned()]);
}

#[test]
fn a_property_reads_its_value_items_and_parameters() {
    let mut cal = parse(SRC);
    let event = cal.component_mut("VEVENT").unwrap();
    let summary = event.props("SUMMARY")[0];
    assert_eq!(summary.logical(), "SUMMARY;LANGUAGE=en:Team\\, sync");
    assert_eq!(summary.raw(), "Team\\, sync");
    assert_eq!(summary.text(), "Team, sync");
    assert_eq!(summary.param_value("language").as_deref(), Some("en"));
    assert_eq!(summary.param_value("ALTREP"), None);
    let categories = event.props("CATEGORIES")[0];
    assert_eq!(categories.items(), vec!["work".to_owned(), "meeting,s".to_owned()]);
    let attendee = event.props("ATTENDEE")[0];
    assert_eq!(attendee.param_value("CN").as_deref(), Some("Doe, Jane"));
    assert_eq!(attendee.raw(), "mailto:jane@example.com");
}

#[test]
fn setting_lines_through_the_component_rewrites_only_them() {
    let mut cal = parse(SRC);
    let event = cal.component_mut("VEVENT").unwrap();
    event.set_lines("SUMMARY", &["SUMMARY;LANGUAGE=en:Lunch".to_owned()]);
    assert_eq!(cal.to_string(), SRC.replace("Team\\, sync", "Lunch"));
}

#[test]
fn a_component_sets_its_child_count() {
    let mut cal = parse(SRC);
    let event = cal.component_mut("VEVENT").unwrap();
    event.set_child_count("valarm", 1);
    assert_eq!(event.children("VALARM").len(), 1);
    assert_eq!(
        cal.to_string(),
        SRC.replace("BEGIN:VALARM\r\nACTION:AUDIO\r\nEND:VALARM\r\n", "")
    );
    let event = cal.component_mut("VEVENT").unwrap();
    event.set_child_count("VTODO", 1);
    assert!(cal.to_string().contains("END:VALARM\r\nBEGIN:VTODO\r\nEND:VTODO\r\nEND:VEVENT\r\n"));
}

#[test]
fn a_bare_stream_sets_its_child_count() {
    let src = "BEGIN:VEVENT\nSUMMARY:a\nEND:VEVENT\nBEGIN:VEVENT\nSUMMARY:b\nEND:VEVENT\n";
    let mut cal = TcalCalendar::parse(src).unwrap();
    cal.set_child_count("vevent", 1);
    assert_eq!(cal.to_string(), "BEGIN:VEVENT\nSUMMARY:a\nEND:VEVENT\n");
    cal.set_child_count("VTODO", 2);
    assert_eq!(cal.to_string(), "BEGIN:VEVENT\nSUMMARY:a\nEND:VEVENT\nBEGIN:VTODO\nEND:VTODO\nBEGIN:VTODO\nEND:VTODO\n");
    match &cal.0[1] {
        Node::Component(c) => assert_eq!(text(&c.name), "VTODO"),
        _ => panic!("a to-do was added"),
    }
}

#[test]
fn an_empty_stream_takes_crlf() {
    let mut cal = TcalCalendar::default();
    cal.set_child_count("VEVENT", 1);
    assert_eq!(cal.to_string(), "BEGIN:VEVENT\r\nEND:VEVENT\r\n");
}

#[test]
fn a_text_with_no_component_is_no_icalendar() {
    match TcalCalendar::parse("not an iCalendar at all") {
        Err(tcal::error::TcalError::ParseICalendar(message)) => assert_eq!(message, "no iCalendar component found"),
        _ => panic!("read"),
    }
    assert!(TcalCalendar::parse("").is_ok());
    assert!(TcalCalendar::parse(" \r\n\t\n").is_ok());
    assert!(TcalCalendar::parse("BEGIN:VEVENT\r\nUID:x\r\nEND:VEVENT\r\n").is_ok());
    assert!(matches!(
        tcal::template::apply("not an iCalendar at all", ""),
        Err(tcal::error::TcalError::ParseICalendar(_))
    ));
}

#[test]
fn names_match_ignoring_ascii_case_only_on_the_value_as_written() {
    let src = "BEGIN:vevent\r\nsummary:a\r\nEND:vevent\r\nBEGIN: VTODO\r\nEND: VTODO\r\nBEGIN:vjournalé\r\nEND:vjournalé\r\n";
    let cal = TcalCalendar::parse(src).unwrap();
    let top: Vec<&tcal::edit::Component> = cal
        .0
        .iter()
        .filter_map(|n| match n {
            Node::Component(c) => Some(c),
            _ => None,
        })
        .collect();
    assert_eq!(top.len(), 3);
    assert!(top[0].named("VEVENT"));
    assert_eq!(top[0].lines("SUMMARY"), vec!["summary:a".to_owned()]);
    assert!(!top[1].named("VTODO"));
    assert!(top[1].named(" vtodo"));
    assert!(top[2].named("VJOURNALé"));
    assert!(!top[2].named("VJOURNALÉ"));
}

#[test]
fn lines_set_through_the_component_are_written_unfolded() {
    let mut cal = parse(SRC);
    let event = cal.component_mut("VEVENT").unwrap();
    let long = format!("DESCRIPTION:{}", "x".repeat(100));
    event.set_lines("DESCRIPTION", &[long.clone()]);
    assert!(cal.to_string().contains(&format!("{long}\r\n")));
}
