use tcal::patch::{ensure_mailto, escape, split, strip_mailto, unescape, Content};

#[test]
fn a_quoted_parameter_holds_its_own_colon() {
    let line = Content("ORGANIZER;SENT-BY=\"mailto:s@x\":mailto:chair@example.com");

    assert_eq!(line.head(), "ORGANIZER;SENT-BY=\"mailto:s@x\"");
    assert_eq!(line.value(), "mailto:chair@example.com");
}

#[test]
fn an_unshown_parameter_is_kept_where_it_stood() {
    let original =
        Content("ATTENDEE;RSVP=TRUE;PARTSTAT=NEEDS-ACTION;CUTYPE=INDIVIDUAL:mailto:a@x");

    assert_eq!(
        original.rewritten(
            "ATTENDEE;PARTSTAT=ACCEPTED:mailto:a@x",
            &["CN", "ROLE", "PARTSTAT"],
        ),
        "ATTENDEE;RSVP=TRUE;PARTSTAT=ACCEPTED;CUTYPE=INDIVIDUAL:mailto:a@x",
    );

    assert_eq!(
        Content("SUMMARY;LANGUAGE=en:a").rewritten("SUMMARY:b", &[]),
        "SUMMARY;LANGUAGE=en:b",
    );
}

#[test]
fn a_shown_parameter_is_the_documents_to_drop() {
    assert_eq!(
        Content("ATTENDEE;RSVP=TRUE;PARTSTAT=NEEDS-ACTION:mailto:a@x")
            .rewritten("ATTENDEE:mailto:a@x", &["CN", "ROLE", "PARTSTAT"],),
        "ATTENDEE;RSVP=TRUE:mailto:a@x",
    );
    assert_eq!(
        Content("DTSTART;TZID=Europe/Paris:20260105T090000")
            .rewritten("DTSTART;VALUE=DATE:20260105", &["TZID", "VALUE"],),
        "DTSTART;VALUE=DATE:20260105",
    );
}

#[test]
fn an_escaped_comma_stays_inside_its_item() {
    assert_eq!(Content("X:a,b").texts(), ["a".to_string(), "b".to_string()]);
    assert_eq!(Content("X:a\\,b").texts(), ["a,b".to_string()]);
    assert_eq!(Content("X:").texts(), ["".to_string()]);
}

#[test]
fn escape_then_unescape_gives_back_the_value() {
    for value in ["plain", "a,b;c\\d\ne", "", "\\", "trailing\\"] {
        assert_eq!(unescape(&escape(value)), value);
    }
    assert_eq!(escape("a,b;c\\d\ne"), "a\\,b\\;c\\\\d\\ne");
    assert_eq!(unescape("x\\Ny\\"), "x\ny\\");
}

#[test]
fn mailto_is_stripped_and_restored() {
    assert_eq!(strip_mailto("MAILTO:jane@example.com"), "jane@example.com");
    assert_eq!(strip_mailto("jane@example.com"), "jane@example.com");
    assert_eq!(ensure_mailto("jane@example.com"), "mailto:jane@example.com");
    assert_eq!(ensure_mailto("tel:+33"), "tel:+33");
}

#[test]
fn split_keeps_a_quoted_separator() {
    assert_eq!(split("A;B=\"x;y\";C", ';'), vec!["A", "B=\"x;y\"", "C"]);
    assert_eq!(split("", ';'), vec![""]);
}

#[test]
fn a_line_without_colon_is_all_head() {
    let line = Content("NOCOLON");
    assert_eq!(line.head(), "NOCOLON");
    assert_eq!(line.value(), "");
    assert_eq!(line.text(), "");
}

#[test]
fn split_pieces_join_back_to_the_text() {
    let text = "ATTENDEE;CN=\"Doe; Jane\";ROLE=CHAIR;;X=1";
    let pieces = split(text, ';');
    assert_eq!(pieces.len(), 5);
    assert_eq!(pieces.join(";"), text);
    assert_eq!(split("", ';'), vec![String::new()]);
}
