use tcal::ical::TcalCalendar;
use tcal::template::{apply, apply_with, project, project_one, project_with};

const SAMPLE: &str = "BEGIN:VCALENDAR\r\n\
    VERSION:2.0\r\n\
    PRODID:-//Test//EN\r\n\
    BEGIN:VEVENT\r\n\
    UID:abc@example\r\n\
    DTSTAMP:20260101T000000Z\r\n\
    DTSTART;TZID=America/New_York:20260613T140000\r\n\
    DTEND;TZID=America/New_York:20260613T150000\r\n\
    SUMMARY:Team sync\r\n\
    LOCATION:Room 1\r\n\
    STATUS:CONFIRMED\r\n\
    CATEGORIES:work,meeting\r\n\
    ATTENDEE;CN=Jane Doe;ROLE=REQ-PARTICIPANT;PARTSTAT=ACCEPTED:mailto:jane@example.com\r\n\
    X-CUSTOM:keep me verbatim\r\n\
    BEGIN:VALARM\r\n\
    ACTION:DISPLAY\r\n\
    TRIGGER:-PT15M\r\n\
    END:VALARM\r\n\
    END:VEVENT\r\n\
    END:VCALENDAR\r\n";

#[test]
fn mod_project_prefills_known_fields() {
    let ical = TcalCalendar::parse(SAMPLE).unwrap();
    let toml = project(&ical);

    // The default root is the VCALENDAR: components are [[blocks]].
    assert!(toml.contains("[[event]]"));
    assert!(toml.contains("summary = \"Team sync\""));
    assert!(toml.contains("date-start = 2026-06-13T14:00:00"));
    assert!(toml.contains("date-start-tz = \"America/New_York\""));
    assert!(toml.contains("location = \"Room 1\""));
    assert!(toml.contains("[[event.attendee]]"));
    assert!(toml.contains("value = \"jane@example.com\""));
    assert!(toml.contains("display-name = \"Jane Doe\""));
    assert!(toml.contains("[[event.alarm]]"));
    assert!(toml.contains("action = \"DISPLAY\""));
    // The alarm trigger is structured, its sign implied (fires before).
    assert!(toml.contains("trigger.min = 15"));
    // Every other component type still appears as an empty example,
    // even though the calendar holds only an event.
    assert!(toml.contains("[[todo]]"));
    assert!(toml.contains("[[journal]]"));
    assert!(toml.contains("[[free-busy]]"));
    assert!(toml.contains("[[timezone]]"));
    // Unmodeled data never appears in the scaffold.
    assert!(!toml.contains("keep me verbatim"));
    assert!(!toml.contains("DTSTAMP"));
}

#[test]
fn mod_blank_project_shows_every_component_type() {
    // A blank calendar is a starting menu of every modeled component.
    let toml = project(&TcalCalendar::default());

    for block in [
        "[[event]]",
        "[[event.alarm]]",
        "[[todo]]",
        "[[journal]]",
        "[[free-busy]]",
        "[[timezone]]",
        "[[timezone.standard]]",
    ] {
        assert!(toml.contains(block), "missing {block}");
    }
}

#[test]
fn mod_project_one_flattens_a_component() {
    // A single chosen type, flat at the root, no wrapper.
    let ical = TcalCalendar::parse(SAMPLE).unwrap();
    let toml = project_one(&ical, "event").unwrap();

    assert!(!toml.contains("[[event]]"));
    assert!(toml.contains("summary = \"Team sync\""));
    assert!(toml.contains("[[attendee]]"));
    assert!(toml.contains("[[alarm]]"));

    // An unknown component type is an error.
    assert!(project_one(&ical, "nope").is_err());
}

#[test]
fn mod_project_one_round_trips_flat() {
    // A flat buffer (no component key) folds back onto the event.
    let ical = TcalCalendar::parse(SAMPLE).unwrap();
    let toml = project_one(&ical, "event").unwrap();

    assert_eq!(apply(SAMPLE, &toml).unwrap(), SAMPLE);
}

#[test]
fn mod_richer_calendar_projects_blocks() {
    // Several events project as several [[blocks]], children nested.
    let src = "BEGIN:VCALENDAR\r\n\
        BEGIN:VEVENT\r\nSUMMARY:a\r\nEND:VEVENT\r\n\
        BEGIN:VEVENT\r\nSUMMARY:b\r\nEND:VEVENT\r\n\
        END:VCALENDAR\r\n";
    let ical = TcalCalendar::parse(src).unwrap();
    let toml = project(&ical);

    assert_eq!(toml.lines().filter(|line| *line == "[[event]]").count(), 2);
    assert!(toml.contains("[[event.alarm]]"));
}

#[test]
fn mod_blank_project_layout() {
    let toml = project(&TcalCalendar::default());

    // Within the event block: summary leads, start before end,
    // the description bare key before the nested attendee block.
    assert!(!toml.contains("uid"));
    assert!(toml.find("summary =").unwrap() < toml.find("date-start =").unwrap());
    assert!(toml.find("date-start =").unwrap() < toml.find("date-end =").unwrap());
    assert!(toml.find("description =").unwrap() < toml.find("[[event.attendee]]").unwrap());

    // Empty, uncommented fields; description as a plain empty string.
    assert!(toml.contains("summary = \"\""));
    assert!(toml.contains("description = \"\""));
    assert!(!toml.contains("#summary"));

    // No "required" flag (omitting a field drops it); hints carry no
    // "e.g." prefix, list enum variants lowercase, and show formats
    // (dates as a concrete example).
    assert!(!toml.contains("# required"));
    assert!(toml.contains("# 2026-06-13T14:30:00"));
    assert!(toml.contains("# display, email, audio"));
    assert!(toml.contains("# confirmed, tentative, cancelled"));
    assert!(!toml.contains("e.g."));

    // Recurrence is inlined as dotted `recurrence.*` keys.
    assert!(toml.contains("recurrence.frequency = \"\""));
    assert!(!toml.contains("[event.recurrence]"));
    assert!(
        toml.find("recurrence.frequency").unwrap() < toml.find("[[event.attendee]]").unwrap()
    );
}

#[test]
fn mod_hints_are_tab_aligned() {
    let toml = project(&TcalCalendar::default());

    // Every inline hint is separated from its value by a tab, so the
    // comment lands at a tab stop instead of a far, space-padded
    // column. No hinted key line carries a run of padding spaces.
    let hinted: Vec<&str> = toml
        .lines()
        .filter(|line| line.contains('=') && line.contains('#'))
        .collect();
    assert!(!hinted.is_empty());

    for line in hinted {
        assert!(line.contains("\t#"), "not tab-aligned: {line:?}");
        let before = &line[..line.find('#').unwrap()];
        assert!(!before.contains("  "), "space padded: {line:?}");
    }
}

#[test]
fn mod_apply_projection_is_a_no_op() {
    // Projecting then applying an untouched buffer reproduces the
    // source byte-for-byte: the minimal-diff guarantee at its limit.
    let ical = TcalCalendar::parse(SAMPLE).unwrap();
    let toml = project(&ical);

    assert_eq!(apply(SAMPLE, &toml).unwrap(), SAMPLE);
}

#[test]
fn mod_apply_changes_only_the_edited_line() {
    let ical = TcalCalendar::parse(SAMPLE).unwrap();
    let toml = project(&ical).replace("Team sync", "Team lunch");

    let out = apply(SAMPLE, &toml).unwrap();

    assert_eq!(
        out,
        SAMPLE.replace("SUMMARY:Team sync", "SUMMARY:Team lunch")
    );
}

#[test]
fn mod_apply_edits_an_existing_alarm() {
    // Editing the alarm's structured trigger touches only that line.
    let toml = project(&TcalCalendar::parse(SAMPLE).unwrap())
        .replace("trigger.min = 15", "trigger.min = 30");

    let out = apply(SAMPLE, &toml).unwrap();

    assert_eq!(out, SAMPLE.replace("TRIGGER:-PT15M", "TRIGGER:-PT30M"));
}

#[test]
fn mod_apply_roundtrip_preserves_unmodeled() {
    let ical = TcalCalendar::parse(SAMPLE).unwrap();
    let toml = project(&ical);

    let out = apply(SAMPLE, &toml).unwrap();

    assert!(out.contains("SUMMARY:Team sync"));
    assert!(out.contains("DTSTART;TZID=America/New_York:20260613T140000"));
    assert!(out.contains("mailto:jane@example.com"));
    // Unmodeled property and app-managed bookkeeping survive verbatim.
    assert!(out.contains("X-CUSTOM:keep me verbatim"));
    assert!(out.contains("DTSTAMP:20260101T000000Z"));
    assert!(out.contains("TRIGGER:-PT15M"));
}

#[test]
fn mod_uid_is_hidden_and_app_managed() {
    let ical = TcalCalendar::parse(SAMPLE).unwrap();

    // Hidden from the form.
    let toml = project(&ical);
    assert!(!toml.contains("uid"));

    // Preserved on round-trip, and not overridable from the buffer.
    let edited = "[[event]]\nsummary = \"Team sync\"\nuid = \"hacked\"\n";
    let out = apply(SAMPLE, edited).unwrap();
    assert!(out.contains("UID:abc@example"));
    assert!(!out.contains("hacked"));
}

#[test]
fn mod_apply_edits_modeled_field() {
    let edited = "[[event]]\nsummary = \"New title\"\n";

    let out = apply(SAMPLE, edited).unwrap();

    assert!(out.contains("SUMMARY:New title"));
    assert!(!out.contains("Team sync"));
    // The event is kept, so its unmodeled property stays.
    assert!(out.contains("X-CUSTOM:keep me verbatim"));
}

#[test]
fn mod_apply_renders_all_day_and_utc_dates() {
    // Native TOML values: a bare date is all-day, a `Z` offset is UTC,
    // and a local date-time with a zone key is a named zone.
    let all_day = apply(SAMPLE, "[[event]]\ndate-start = 2026-12-25\n").unwrap();
    assert!(all_day.contains("DTSTART;VALUE=DATE:20261225"));

    let utc = apply(SAMPLE, "[[event]]\ndate-start = 2026-06-13T14:00:00Z\n").unwrap();
    assert!(utc.contains("DTSTART:20260613T140000Z"));

    let zoned = apply(
        SAMPLE,
        "[[event]]\ndate-start = 2026-06-13T09:30:00\ndate-start-tz = \"Europe/Paris\"\n",
    )
    .unwrap();
    assert!(zoned.contains("DTSTART;TZID=Europe/Paris:20260613T093000"));

    // A floating local date-time with no zone key stays floating.
    let floating =
        apply(SAMPLE, "[[event]]\ndate-start = 2026-06-13T09:30:00\n").unwrap();
    assert!(floating.contains("DTSTART:20260613T093000\r\n"));

    // The older friendly string form is still accepted.
    let legacy =
        apply(SAMPLE, "[[event]]\ndate-start = \"2026-06-13 14:00 UTC\"\n").unwrap();
    assert!(legacy.contains("DTSTART:20260613T140000Z"));
}

#[test]
fn mod_apply_adds_an_alarm() {
    // An event with no alarm gains one from a filled nested block.
    let src = "BEGIN:VCALENDAR\r\n\
        BEGIN:VEVENT\r\n\
        SUMMARY:Solo\r\n\
        END:VEVENT\r\n\
        END:VCALENDAR\r\n";
    let edited = "[[event]]\nsummary = \"Solo\"\n\n\
        [[event.alarm]]\naction = \"DISPLAY\"\ntrigger.min = 10\n";

    let out = apply(src, edited).unwrap();

    assert!(out.contains("BEGIN:VEVENT\r\nSUMMARY:Solo\r\nBEGIN:VALARM\r\n"));
    assert!(out.contains("ACTION:DISPLAY\r\n"));
    assert!(out.contains("TRIGGER:-PT10M\r\n"));
    assert!(out.contains("END:VALARM\r\nEND:VEVENT\r\n"));
}

#[test]
fn mod_apply_removes_an_alarm() {
    // An event block with no nested alarm drops the alarm, while the
    // event and its unmodeled property stay.
    let out = apply(SAMPLE, "[[event]]\nsummary = \"Team sync\"\n").unwrap();

    assert!(!out.contains("BEGIN:VALARM"));
    assert!(out.contains("X-CUSTOM:keep me verbatim"));
}

#[test]
fn mod_apply_empty_buffer_removes_modeled_components() {
    // No blocks means no modeled components; the VCALENDAR wrapper and
    // its own properties remain.
    let out = apply(SAMPLE, "").unwrap();

    assert!(!out.contains("BEGIN:VEVENT"));
    assert!(out.contains("BEGIN:VCALENDAR"));
    assert!(out.contains("VERSION:2.0"));
    assert!(out.contains("PRODID:-//Test//EN"));
}

#[test]
fn mod_projects_and_edits_multiple_events() {
    let src = "BEGIN:VCALENDAR\r\n\
        BEGIN:VEVENT\r\n\
        SUMMARY:first\r\n\
        END:VEVENT\r\n\
        BEGIN:VEVENT\r\n\
        SUMMARY:second\r\n\
        END:VEVENT\r\n\
        END:VCALENDAR\r\n";
    let ical = TcalCalendar::parse(src).unwrap();
    let toml = project(&ical);

    // Two events project as two blocks.
    assert_eq!(toml.matches("[[event]]").count(), 2);

    // Editing the second leaves the first byte-for-byte.
    let edited = toml.replace("second", "2nd");
    let out = apply(src, &edited).unwrap();
    assert_eq!(out, src.replace("SUMMARY:second", "SUMMARY:2nd"));
}

#[test]
fn mod_apply_adds_a_todo() {
    let src = "BEGIN:VCALENDAR\r\nEND:VCALENDAR\r\n";
    let edited = "[[todo]]\nsummary = \"Submit report\"\ndate-due = 2026-06-20T17:00:00\n";

    let out = apply(src, edited).unwrap();

    assert!(out.contains("BEGIN:VTODO\r\n"));
    assert!(out.contains("SUMMARY:Submit report\r\n"));
    assert!(out.contains("DUE:20260620T170000\r\n"));
    assert!(out.contains("END:VTODO\r\n"));
}

#[test]
fn mod_apply_uppercases_enum_values() {
    // Enum properties and the attendee role/partstat parameters are
    // listed lowercase but exported in their canonical uppercase form.
    let edited = "[[event]]\nsummary = \"Team sync\"\nstatus = \"confirmed\"\n\n\
        [[event.attendee]]\nvalue = \"jane@example.com\"\n\
        role = \"req-participant\"\nstatus = \"accepted\"\n";

    let out = apply(SAMPLE, edited).unwrap();

    assert!(out.contains("STATUS:CONFIRMED"));
    assert!(out.contains("ROLE=REQ-PARTICIPANT"));
    assert!(out.contains("PARTSTAT=ACCEPTED"));
    // Free-text values are not touched.
    assert!(out.contains("SUMMARY:Team sync"));
}

const RECUR_SAMPLE: &str = "BEGIN:VCALENDAR\r\n\
    BEGIN:VEVENT\r\n\
    SUMMARY:Standup\r\n\
    RRULE:FREQ=WEEKLY;INTERVAL=2;BYDAY=MO,WE,FR\r\n\
    END:VEVENT\r\n\
    END:VCALENDAR\r\n";

#[test]
fn mod_recurrence_projects_structured_parts() {
    let toml = project(&TcalCalendar::parse(RECUR_SAMPLE).unwrap());

    assert!(toml.contains("recurrence.frequency = \"weekly\""));
    assert!(toml.contains("recurrence.interval = 2"));
    assert!(toml.contains("recurrence.by-day = [\"mo\", \"we\", \"fr\"]"));
}

#[test]
fn mod_recurrence_round_trips() {
    // A canonical rule survives project -> apply byte-for-byte.
    let toml = project(&TcalCalendar::parse(RECUR_SAMPLE).unwrap());

    assert_eq!(apply(RECUR_SAMPLE, &toml).unwrap(), RECUR_SAMPLE);
}

#[test]
fn mod_recurrence_assembles_from_parts() {
    let src = "BEGIN:VCALENDAR\r\nEND:VCALENDAR\r\n";
    let edited = "[[event]]\nsummary = \"x\"\n\n\
        [event.recurrence]\nfrequency = \"monthly\"\nby-month-day = [-1]\n";

    let out = apply(src, edited).unwrap();

    assert!(out.contains("RRULE:FREQ=MONTHLY;BYMONTHDAY=-1\r\n"));
}

#[test]
fn mod_recurrence_until_is_native() {
    // UNTIL projects as a native TOML date-time and reassembles to digits.
    let src = "BEGIN:VCALENDAR\r\nBEGIN:VEVENT\r\nSUMMARY:x\r\n\
        RRULE:FREQ=DAILY;UNTIL=20261231T235900Z\r\nEND:VEVENT\r\nEND:VCALENDAR\r\n";
    let toml = project(&TcalCalendar::parse(src).unwrap());

    assert!(toml.contains("recurrence.until = 2026-12-31T23:59:00Z"));
    assert_eq!(apply(src, &toml).unwrap(), src);
}

#[test]
fn mod_recurrence_raw_fallback_for_unmodeled_parts() {
    // A rule with a part tcal does not model (BYHOUR) is shown raw and
    // round-trips intact rather than being silently dropped.
    let src = "BEGIN:VCALENDAR\r\nBEGIN:VEVENT\r\nSUMMARY:x\r\n\
        RRULE:FREQ=DAILY;BYHOUR=9\r\nEND:VEVENT\r\nEND:VCALENDAR\r\n";
    let toml = project(&TcalCalendar::parse(src).unwrap());

    assert!(toml.contains("recurrence.rule = \"FREQ=DAILY;BYHOUR=9\""));
    assert_eq!(apply(src, &toml).unwrap(), src);
}

const DURATION_SAMPLE: &str = "BEGIN:VCALENDAR\r\n\
    BEGIN:VEVENT\r\n\
    SUMMARY:Workshop\r\n\
    DURATION:P1DT2H30M\r\n\
    END:VEVENT\r\n\
    END:VCALENDAR\r\n";

#[test]
fn mod_duration_projects_structured_parts() {
    let toml = project(&TcalCalendar::parse(DURATION_SAMPLE).unwrap());

    assert!(toml.contains("duration.day = 1"));
    assert!(toml.contains("duration.hour = 2"));
    assert!(toml.contains("duration.min = 30"));
    assert!(toml.contains("duration.week = \"\""));
}

#[test]
fn mod_duration_round_trips() {
    let toml = project(&TcalCalendar::parse(DURATION_SAMPLE).unwrap());

    assert_eq!(
        apply(DURATION_SAMPLE, &toml).unwrap(),
        DURATION_SAMPLE
    );
}

#[test]
fn mod_duration_assembles_with_implied_sign() {
    // A bare duration is positive; an alarm trigger is negative, its
    // sign assumed from context rather than typed.
    let src = "BEGIN:VCALENDAR\r\nEND:VCALENDAR\r\n";
    let edited = "[[event]]\nsummary = \"x\"\nduration.hour = 1\nduration.min = 30\n\n\
        [[event.alarm]]\naction = \"DISPLAY\"\ntrigger.min = 15\n";

    let out = apply(src, edited).unwrap();

    assert!(out.contains("DURATION:PT1H30M\r\n"));
    assert!(out.contains("TRIGGER:-PT15M\r\n"));
}

#[test]
fn mod_duration_lone_week_stays_weekly() {
    let src = "BEGIN:VCALENDAR\r\nEND:VCALENDAR\r\n";
    let out = apply(src, "[[event]]\nsummary = \"x\"\nduration.week = 2\n").unwrap();

    assert!(out.contains("DURATION:P2W\r\n"));
}

#[test]
fn mod_timezone_offsets_round_trip() {
    // calcard stores TZOFFSETFROM/TO as date-times; they must project as
    // ±HHMM and survive apply, not get dropped (regression: real
    // VTIMEZONE exports were losing their offsets).
    let src = "BEGIN:VCALENDAR\r\nBEGIN:VTIMEZONE\r\nTZID:Europe/Paris\r\n\
        BEGIN:STANDARD\r\nDTSTART:19701025T030000\r\nTZOFFSETFROM:+0200\r\n\
        TZOFFSETTO:+0100\r\nTZNAME:CET\r\nEND:STANDARD\r\nEND:VTIMEZONE\r\nEND:VCALENDAR\r\n";
    let toml = project(&TcalCalendar::parse(src).unwrap());

    assert!(toml.contains("offset-from = \"+0200\""));
    assert!(toml.contains("offset-to = \"+0100\""));
    assert_eq!(apply(src, &toml).unwrap(), src);
}

#[test]
fn mod_freebusy_periods_round_trip() {
    // FREEBUSY periods are a Period value type (no borrowed text); they
    // must project as period strings and survive apply, not vanish
    // (regression, twin of the time-zone offset bug).
    let src = "BEGIN:VCALENDAR\r\nBEGIN:VFREEBUSY\r\nUID:fb@x\r\n\
        DTSTART:19980101T000000Z\r\nDTEND:19980101T060000Z\r\n\
        FREEBUSY:19980101T010000Z/19980101T020000Z,19980101T030000Z/PT1H\r\n\
        END:VFREEBUSY\r\nEND:VCALENDAR\r\n";
    let toml = project(&TcalCalendar::parse(src).unwrap());

    assert!(toml.contains(
        "periods = [\"19980101T010000Z/19980101T020000Z\", \"19980101T030000Z/PT1H\"]"
    ));
    assert_eq!(apply(src, &toml).unwrap(), src);
}

#[test]
fn mod_attendee_display_name_leads() {
    // The display name is the first key of an attendee block, and maps
    // back to the CN parameter on apply.
    let toml = project(&TcalCalendar::parse(SAMPLE).unwrap());
    let block = toml.split("[[event.attendee]]").nth(1).unwrap();
    assert!(block.find("display-name =").unwrap() < block.find("value =").unwrap());

    let edited = "[[event]]\nsummary = \"x\"\n\n\
        [[event.attendee]]\ndisplay-name = \"Jane Doe\"\nvalue = \"jane@example.com\"\n";
    let out = apply(SAMPLE, edited).unwrap();
    assert!(out.contains("CN=Jane Doe"));
}

#[test]
fn mod_alarm_separates_trigger_and_duration() {
    // The two structured durations are their own groups: a blank line
    // sits between the last trigger part and the first duration part.
    let toml = project(&TcalCalendar::default());
    assert!(toml.contains("trigger.sec = \"\"\n\nduration.week = \"\""));
}

#[test]
fn mod_project_with_no_flags_shows_all() {
    let ical = TcalCalendar::parse(SAMPLE).unwrap();
    assert_eq!(
        project_with(&ical, &[]).unwrap(),
        project(&ical)
    );
}

#[test]
fn mod_project_with_one_flag_flattens() {
    // A single selected type flattens as the root, like project_one.
    let ical = TcalCalendar::parse(SAMPLE).unwrap();
    let toml = project_with(&ical, &["event".to_owned()]).unwrap();

    assert!(!toml.contains("[[event]]"));
    assert!(toml.contains("summary = \"Team sync\""));
}

#[test]
fn mod_project_with_many_flags_filters_blocks() {
    // Two or more keep the VCALENDAR root but show only those types.
    let ical = TcalCalendar::parse(SAMPLE).unwrap();
    let toml = project_with(&ical, &["event".to_owned(), "todo".to_owned()]).unwrap();

    assert!(toml.contains("[[event]]"));
    assert!(toml.contains("[[todo]]"));
    assert!(!toml.contains("[[journal]]"));
    assert!(!toml.contains("[[timezone]]"));
}

#[test]
fn mod_apply_with_filter_preserves_unselected_block() {
    // Editing the event source filtered to a filled todo block adds the
    // to-do and leaves the event (and its unmodeled property) verbatim.
    let edited = "[[todo]]\nsummary = \"Submit report\"\n";
    let out = apply_with(SAMPLE, edited, &["todo".to_owned()]).unwrap();

    assert!(out.contains("BEGIN:VTODO"));
    assert!(out.contains("SUMMARY:Submit report"));
    assert!(out.contains("SUMMARY:Team sync"));
    assert!(out.contains("X-CUSTOM:keep me verbatim"));
}

#[test]
fn mod_apply_with_filter_does_not_remove_unselected() {
    // An empty todo block under a todo filter must NOT drop the event:
    // only selected types are reconciled.
    let out =
        apply_with(SAMPLE, "[[todo]]\nsummary = \"\"\n", &["todo".to_owned()]).unwrap();

    assert!(out.contains("BEGIN:VEVENT"));
    assert!(out.contains("SUMMARY:Team sync"));
    assert!(!out.contains("BEGIN:VTODO"));
}

#[test]
fn mod_apply_with_flat_one_type_merges() {
    // --todo on an event source: a flat todo buffer adds a VTODO and
    // keeps the VEVENT (the headline merge behaviour).
    let ical = TcalCalendar::parse(SAMPLE).unwrap();
    let toml = project_with(&ical, &["todo".to_owned()]).unwrap();
    let filled = toml.replace("summary = \"\"", "summary = \"My task\"");

    let out = apply_with(SAMPLE, &filled, &["todo".to_owned()]).unwrap();

    assert!(out.contains("BEGIN:VTODO"));
    assert!(out.contains("SUMMARY:My task"));
    assert!(out.contains("SUMMARY:Team sync"));
}

#[test]
fn mod_fields_are_grouped() {
    // The fields cluster by shape: the bare scalar keys (summary and
    // description leading), then the dates, the duration, and the
    // recurrence, each its own group, with the attendee section last.
    let toml = project(&TcalCalendar::default());
    let at = |needle: &str| toml.find(needle).unwrap();

    // Headline scalars lead the scalar group.
    assert!(at("summary =") < at("description ="));
    assert!(at("description =") < at("categories ="));
    // All scalars precede the dates, the dates the duration, the
    // duration the recurrence, the recurrence the attendee section.
    assert!(at("transparency =") < at("date-start ="));
    assert!(at("date-start =") < at("date-end ="));
    assert!(at("date-end =") < at("duration.week ="));
    assert!(at("duration.sec =") < at("recurrence.frequency ="));
    assert!(at("recurrence.week-start =") < at("[[event.attendee]]"));
}
