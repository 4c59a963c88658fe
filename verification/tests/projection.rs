use tcal::template::TcalTemplate;

/// Read a calendar the way the command line does, with no component filter.
fn template(src: &str) -> TcalTemplate {
    TcalTemplate::parse(src).unwrap()
}

/// Fold an untouched projection of a calendar back onto its own source.
fn round_trip(src: &str) -> String {
    let template = template(src);
    let document = template.project();
    template.apply(&document).unwrap()
}

/// Project a calendar with no component filter.
fn project(src: &str) -> String {
    template(src).project()
}

/// Wrap event properties into an iCalendar file.
fn calendar(lines: &[String]) -> String {
    let mut out = String::from(
        "BEGIN:VCALENDAR\r\nVERSION:2.0\r\nPRODID:-//Test//EN\r\n\
         BEGIN:VEVENT\r\nUID:e1@example\r\nDTSTAMP:20260101T000000Z\r\n\
         DTSTART:20260105T090000Z\r\n",
    );
    for line in lines {
        out.push_str(line);
        out.push_str("\r\n");
    }
    out.push_str("END:VEVENT\r\nEND:VCALENDAR\r\n");
    out
}

#[test]
fn a_modelled_property_keeps_its_unshown_parameters() {
    for line in [
        "DESCRIPTION;ALTREP=\"cid:part1\":a description",
        "ORGANIZER;CN=Chair;SENT-BY=\"mailto:sec@example.com\":mailto:chair@example.com",
        "ATTENDEE;RSVP=TRUE;CUTYPE=INDIVIDUAL;PARTSTAT=ACCEPTED:mailto:ada@example.com",
        "SUMMARY;LANGUAGE=en:a summary",
    ] {
        let src = calendar(&[line.to_owned()]);
        assert_eq!(round_trip(&src), src);
    }
}

#[test]
fn an_escape_in_a_list_item_keeps_the_space_behind_it() {
    for escaped in ["\\,", "\\;", "\\\\"] {
        let src = calendar(&[format!("CATEGORIES:a{escaped}  b")]);

        assert_eq!(round_trip(&src), src);
    }
}

#[test]
fn a_calendar_beside_the_one_being_read_survives() {
    let second = "BEGIN:VCALENDAR\r\nVERSION:2.0\r\nPRODID:-//Other//EN\r\n\
        BEGIN:VEVENT\r\nUID:e2@example\r\nDTSTAMP:20260101T000000Z\r\n\
        SUMMARY:Untouched\r\nEND:VEVENT\r\nEND:VCALENDAR\r\n";
    let src = format!("{}{second}", calendar(&["SUMMARY:Lunch".to_owned()]));

    assert_eq!(round_trip(&src), src);

    let edited = project(&src).replace("Lunch", "Team lunch");
    let out = template(&src).apply(&edited).unwrap();

    assert!(out.contains("SUMMARY:Team lunch"), "{out}");
    assert!(out.ends_with(second), "{out}");
}
