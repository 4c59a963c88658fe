use tcal::cli::{ApplyCommand, ComponentFlags, Editor, SourceArg};
use tcal::error::TcalError;

fn flags(event: bool, todo: bool, journal: bool, free_busy: bool, timezone: bool) -> ComponentFlags {
    ComponentFlags { event, todo, journal, free_busy, timezone }
}

#[test]
fn no_flag_selects_no_filter() {
    assert!(flags(false, false, false, false, false).selected().is_empty());
}

#[test]
fn flags_select_their_keys_in_a_stable_order() {
    assert_eq!(flags(true, false, false, false, false).selected(), vec!["event".to_owned()]);
    assert_eq!(
        flags(false, true, false, true, true).selected(),
        vec!["todo".to_owned(), "free-busy".to_owned(), "timezone".to_owned()]
    );
    assert_eq!(
        flags(true, true, true, true, true).selected(),
        vec!["event", "todo", "journal", "free-busy", "timezone"]
    );
}

#[test]
fn literal_icalendar_is_told_from_a_path() {
    assert!(SourceArg::is_literal("BEGIN:VCALENDAR\r\nEND:VCALENDAR\r\n"));
    assert!(SourceArg::is_literal(" \n\tBEGIN:VEVENT\r\n"));
    assert!(!SourceArg::is_literal("calendar.ics"));
    assert!(!SourceArg::is_literal("begin:vcalendar"));
    assert!(!SourceArg::is_literal(""));
    assert!(!SourceArg::is_literal("BEGIN:VTODO"));
}

#[test]
fn a_blank_source_is_seeded_with_one_event() {
    assert_eq!(
        SourceArg::seeded("u1@example", "20260101T000000Z"),
        "BEGIN:VCALENDAR\r\nVERSION:2.0\r\nPRODID:-//Pimalaya//tcal//EN\r\nBEGIN:VEVENT\r\n\
         UID:u1@example\r\nDTSTAMP:20260101T000000Z\r\nEND:VEVENT\r\nEND:VCALENDAR\r\n"
    );
}

fn apply_command(template: &str, source: Option<&str>) -> ApplyCommand {
    ApplyCommand {
        template: template.to_owned(),
        source: SourceArg { source: source.map(str::to_owned) },
        components: flags(false, false, false, false, false),
        output: None,
    }
}

#[test]
fn only_one_input_can_come_from_stdin() {
    assert!(apply_command("-", Some("-")).reads_stdin_twice());
    assert!(!apply_command("-", Some("cal.ics")).reads_stdin_twice());
    assert!(!apply_command("-", None).reads_stdin_twice());
    assert!(!apply_command("doc.toml", Some("-")).reads_stdin_twice());
}

const CALENDAR: &str = "BEGIN:VCALENDAR\r\nVERSION:2.0\r\nEND:VCALENDAR\r\n";

fn toml_error() -> TcalError {
    tcal::template::apply(CALENDAR, "x = ").unwrap_err()
}

#[test]
fn an_undecided_collision_offers_a_re_edit() {
    let err = TcalError::Undecided("summary".to_owned());
    assert_eq!(
        Editor::reedit_prompt(&err, false).as_deref(),
        Some("Property summary is left undecided.\n\nKeep one of its lines and delete the others. Re-edit to decide it?")
    );
}

#[test]
fn a_parse_error_offers_a_re_edit() {
    let prompt = Editor::reedit_prompt(&toml_error(), false).unwrap();
    assert!(prompt.starts_with("Cannot parse TOML buffer:\n\n"), "{prompt}");
    assert!(prompt.ends_with("\nRe-edit to fix it?"), "{prompt}");
    assert!(prompt.len() > "Cannot parse TOML buffer:\n\n\nRe-edit to fix it?".len());
}

#[test]
fn a_parse_error_shows_the_parsers_own_words() {
    let err = "x = ".parse::<toml_edit::DocumentMut>().unwrap_err();
    let prompt = Editor::reedit_prompt(&toml_error(), false).unwrap();
    assert_eq!(prompt, format!("Cannot parse TOML buffer:\n\n{err}\nRe-edit to fix it?"));
    match toml_error() {
        TcalError::ParseToml(refusal) => {
            assert_eq!(refusal.message, err.message());
            assert_eq!(refusal.start, err.span().map(|s| s.start));
            assert_eq!(refusal.error, err);
        }
        _ => panic!("not a parse error"),
    }
}

#[test]
fn json_output_never_asks() {
    assert_eq!(Editor::reedit_prompt(&toml_error(), true), None);
    assert_eq!(Editor::reedit_prompt(&TcalError::Undecided("x".to_owned()), true), None);
}

#[test]
fn other_failures_are_given_up_on() {
    assert_eq!(Editor::reedit_prompt(&TcalError::ParseICalendar("bad".to_owned()), false), None);
    assert_eq!(Editor::reedit_prompt(&TcalError::UnknownComponent("x".to_owned()), false), None);
}
