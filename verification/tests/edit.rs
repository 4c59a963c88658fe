use tcal::edit::{parse, Calendar};

const SAMPLE: &str = "BEGIN:VCALENDAR\r\n\
    VERSION:2.0\r\n\
    BEGIN:VEVENT\r\n\
    UID:abc@example\r\n\
    SUMMARY:Lunch\r\n\
    DTSTART;TZID=Europe/Paris:20260613T140000\r\n\
    X-FOO:bar\r\n\
    BEGIN:VALARM\r\n\
    ACTION:DISPLAY\r\n\
    TRIGGER:-PT15M\r\n\
    END:VALARM\r\n\
    END:VEVENT\r\n\
    END:VCALENDAR\r\n";

fn applied(src: &str, name: &str, lines: &[&str]) -> String {
    let owned: Vec<String> = lines.iter().map(|line| line.to_string()).collect();
    let mut cal = parse(src);
    cal.component_mut("VEVENT").unwrap().set_all(name, &owned);
    cal.to_string()
}

#[test]
fn round_trips_verbatim() {
    let folded = "BEGIN:VEVENT\r\nSUMMARY:a very long summary that has\r\n  been folded\r\nEND:VEVENT\r\n";
    let lf = "BEGIN:VCALENDAR\nBEGIN:VEVENT\nSUMMARY:x\nEND:VEVENT\nEND:VCALENDAR\n";
    let bare = "BEGIN:VEVENT\r\nSUMMARY:x\r\nEND:VEVENT\r\n";
    let two = "BEGIN:VEVENT\r\nSUMMARY:a\r\nEND:VEVENT\r\nBEGIN:VEVENT\r\nSUMMARY:b\r\nEND:VEVENT\r\n";
    let blanks = "BEGIN:VEVENT\r\n\r\nSUMMARY:x\r\n\r\nEND:VEVENT\r\n";

    for src in [SAMPLE, folded, lf, bare, two, blanks] {
        assert_eq!(parse(src).to_string(), src);
    }
}

#[test]
fn set_all_same_value_is_byte_identical() {
    assert_eq!(applied(SAMPLE, "SUMMARY", &["SUMMARY:Lunch"]), SAMPLE);
}

#[test]
fn set_all_changes_only_one_line() {
    let out = applied(SAMPLE, "SUMMARY", &["SUMMARY:Team lunch"]);
    assert_eq!(out, SAMPLE.replace("SUMMARY:Lunch", "SUMMARY:Team lunch"));
}

#[test]
fn set_all_long_value_folds() {
    let long = format!("DESCRIPTION:{}", "x".repeat(100));
    let out = applied(SAMPLE, "DESCRIPTION", &[&long]);

    assert!(out.contains("\r\n "));
    for line in out.split("\r\n") {
        assert!(line.len() <= 75, "line too wide: {line:?}");
    }
    assert!(out.contains("SUMMARY:Lunch"));
}

#[test]
fn set_all_empty_removes() {
    let out = applied(SAMPLE, "SUMMARY", &[]);
    assert!(!out.contains("SUMMARY:Lunch"));
    assert_eq!(out, SAMPLE.replace("SUMMARY:Lunch\r\n", ""));
}

#[test]
fn set_all_inserts_before_subcomponents() {
    let out = applied(SAMPLE, "LOCATION", &["LOCATION:Room 1"]);
    let location = out.find("LOCATION:Room 1").unwrap();
    let alarm = out.find("BEGIN:VALARM").unwrap();
    assert!(location < alarm);
    assert!(out.contains("LOCATION:Room 1\r\n"));
}

#[test]
fn set_all_resizes_a_group() {
    let one = applied(SAMPLE, "ATTENDEE", &["ATTENDEE:mailto:a@x"]);
    let three = applied(
        &one,
        "ATTENDEE",
        &[
            "ATTENDEE:mailto:a@x",
            "ATTENDEE:mailto:b@x",
            "ATTENDEE:mailto:c@x",
        ],
    );
    assert_eq!(three.matches("ATTENDEE:").count(), 3);

    let back = applied(&three, "ATTENDEE", &["ATTENDEE:mailto:a@x"]);
    assert_eq!(back.matches("ATTENDEE:").count(), 1);
}

#[test]
fn mutation_leaves_siblings_and_alarms_untouched() {
    let two = "BEGIN:VCALENDAR\r\n\
        BEGIN:VEVENT\r\n\
        SUMMARY:first\r\n\
        BEGIN:VALARM\r\n\
        TRIGGER:-PT15M\r\n\
        END:VALARM\r\n\
        END:VEVENT\r\n\
        BEGIN:VEVENT\r\n\
        SUMMARY:second\r\n\
        END:VEVENT\r\n\
        END:VCALENDAR\r\n";

    let out = applied(two, "SUMMARY", &["SUMMARY:edited"]);

    assert!(out.contains("SUMMARY:edited"));
    assert!(out.contains("SUMMARY:second"));
    assert!(out.contains("BEGIN:VALARM\r\nTRIGGER:-PT15M\r\nEND:VALARM"));
}

#[test]
fn get_all_reads_direct_properties() {
    let mut cal: Calendar = parse(SAMPLE);
    let event = cal.component_mut("VEVENT").unwrap();
    assert_eq!(event.get_all("SUMMARY"), vec!["SUMMARY:Lunch"]);
    assert!(event.get_all("TRIGGER").is_empty());
}

#[test]
fn component_mut_is_case_insensitive_and_none_when_absent() {
    let mut cal = parse(SAMPLE);
    assert!(cal.component_mut("vevent").is_some());
    assert!(cal.component_mut("VTODO").is_none());
    let alarm = cal.component_mut("VALARM").unwrap();
    assert_eq!(alarm.get_all("action"), vec!["ACTION:DISPLAY"]);
}

#[test]
fn remove_drops_every_matching_property() {
    let mut cal = parse(SAMPLE);
    cal.component_mut("VEVENT").unwrap().remove("x-foo");
    assert_eq!(cal.to_string(), SAMPLE.replace("X-FOO:bar\r\n", ""));
}

#[test]
fn a_lone_end_and_junk_survive() {
    for src in ["END:VEVENT\r\njunk\r\n", "no newline at all", "", "BEGIN:VEVENT\r\nSUMMARY:x"] {
        assert_eq!(parse(src).to_string(), src);
    }
}

#[test]
fn set_all_folds_by_octets_not_characters() {
    let long = format!("DESCRIPTION:{}", "é".repeat(100));
    let out = applied(SAMPLE, "DESCRIPTION", &[&long]);
    let mut unfolded = String::new();
    for (i, line) in out.split("\r\n").enumerate() {
        assert!(line.len() <= 75, "line too wide: {line:?}");
        if line.starts_with(' ') && i > 0 {
            unfolded.push_str(&line[1..]);
        } else {
            unfolded.push('\n');
            unfolded.push_str(line);
        }
    }
    assert!(unfolded.contains(&long), "{unfolded}");
}
