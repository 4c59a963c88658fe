use tcal::error::TcalError;
use tcal::ical::TcalCalendar;
use tcal::merge::sides::{ComponentPath, MergeAction, MergeReason, PathStep, PropPath, Reading, Sides};
use tcal::merge::{Conflict, TcalMerged};

const BASE: &str = "BEGIN:VCALENDAR\r\n\
    VERSION:2.0\r\n\
    PRODID:-//Test//EN\r\n\
    BEGIN:VEVENT\r\n\
    UID:e1@example\r\n\
    DTSTAMP:20260101T000000Z\r\n\
    DTSTART:20260105T090000Z\r\n\
    SUMMARY:Standup\r\n\
    CATEGORIES:work\r\n\
    ORGANIZER:mailto:chair@example.com\r\n\
    ATTENDEE;PARTSTAT=NEEDS-ACTION:mailto:ada@example.com\r\n\
    BEGIN:VALARM\r\n\
    ACTION:DISPLAY\r\n\
    TRIGGER:-PT15M\r\n\
    END:VALARM\r\n\
    END:VEVENT\r\n\
    END:VCALENDAR\r\n";

fn cal(text: &str) -> TcalCalendar {
    TcalCalendar::parse(text).unwrap()
}

fn sides(local: &str, remote: &str) -> Sides {
    Sides { merged: cal(local), base: cal(BASE), local: cal(local), remote: cal(remote) }
}

fn step(name: &str, key: &str) -> PathStep {
    PathStep { name: name.to_owned(), key: key.to_owned() }
}

fn event() -> ComponentPath {
    ComponentPath(vec![step("VEVENT", "e1@example")])
}

fn prop(component: ComponentPath, name: &str, identity: Option<&str>) -> PropPath {
    PropPath { component, name: name.to_owned(), index: 0, identity: identity.map(str::to_owned) }
}

fn changed(component: ComponentPath, name: &str) -> MergeAction {
    MergeAction::ValueChanged { at: prop(component, name, None) }
}

fn note(reading: Reading) -> String {
    match reading {
        Reading::Note(note) => note,
        Reading::Choice(_) => panic!("a choice where a note was expected"),
    }
}

#[test]
fn a_collision_is_put_to_the_reader_and_does_not_apply() {
    let local = BASE.replace("SUMMARY:Standup", "SUMMARY:Daily standup");
    let remote = BASE.replace("SUMMARY:Standup", "SUMMARY:Team standup");
    let conflicts = vec![Conflict {
        reason: MergeReason::Divergent(changed(event(), "SUMMARY")),
        right: changed(event(), "SUMMARY"),
    }];
    let merged = TcalMerged::settle(sides(&local, &remote), &conflicts, &Vec::new(), &Vec::new());

    assert_eq!(merged.ical, local);
    assert!(merged.toml.contains("1 conflict below is yours to decide"), "{}", merged.toml);
    assert!(merged.toml.contains("# conflict, keep one line\n# summary = \"Standup\" # base\nsummary = \"Daily standup\" # local\nsummary = \"Team standup\" # remote\n"), "{}", merged.toml);

    match merged.apply(&merged.toml) {
        Err(TcalError::Undecided(key)) => assert_eq!(key, "summary"),
        other => panic!("unexpected {:?}", other.is_ok()),
    }
    let decided = merged.toml.replace("summary = \"Team standup\" # remote\n", "");
    let out = merged.apply(&decided).unwrap();
    assert!(out.contains("SUMMARY:Daily standup"));
    assert!(!out.contains("Team standup"));
}

#[test]
fn an_unprojectable_collision_keeps_the_local_value_and_says_so() {
    let base = BASE.replace("SUMMARY:Standup", "SUMMARY:Standup\r\nX-FOO:one");
    let local = base.replace("X-FOO:one", "X-FOO:two");
    let remote = base.replace("X-FOO:one", "X-FOO:three");
    let s = Sides { merged: cal(&local), base: cal(&base), local: cal(&local), remote: cal(&remote) };
    let reading = s.read(&MergeReason::Divergent(changed(event(), "X-FOO")), &changed(event(), "X-FOO"));
    assert_eq!(note(reading), "event 1 / X-FOO: changed on both sides, and the local value was kept.");
}

#[test]
fn sides_spelling_a_key_the_same_make_no_choice() {
    let local = BASE.replace("ORGANIZER:mailto:chair@example.com", "ORGANIZER;CN=Chair:mailto:chair@example.com");
    let remote = BASE.replace("ORGANIZER:mailto:chair@example.com", "ORGANIZER;CN=Boss:mailto:chair@example.com");
    let s = sides(&local, &remote);
    let reading = s.read(&MergeReason::Divergent(changed(event(), "ORGANIZER")), &changed(event(), "ORGANIZER"));
    assert_eq!(note(reading), "event 1 / organizer: changed on both sides, and the local value was kept.");
}

#[test]
fn a_contested_alarm_is_addressed_inside_its_event() {
    let local = BASE.replace("TRIGGER:-PT15M", "TRIGGER:-PT30M");
    let remote = BASE.replace("TRIGGER:-PT15M", "TRIGGER:-PT45M");
    let alarm = ComponentPath(vec![step("VEVENT", "e1@example"), step("VALARM", "0")]);
    let conflicts = vec![Conflict {
        reason: MergeReason::Divergent(changed(alarm.clone_path(), "TRIGGER")),
        right: changed(alarm, "TRIGGER"),
    }];
    let merged = TcalMerged::settle(sides(&local, &remote), &conflicts, &Vec::new(), &Vec::new());
    assert_eq!(merged.toml.matches("[[event.alarm]]").count(), 1, "{}", merged.toml);
    assert!(merged.toml.contains("# trigger.min = 15 # base\ntrigger.min = 30 # local\ntrigger.min = 45 # remote\n"), "{}", merged.toml);
}

trait ClonePath {
    fn clone_path(&self) -> ComponentPath;
}

impl ClonePath for ComponentPath {
    fn clone_path(&self) -> ComponentPath {
        ComponentPath(self.0.iter().map(|s| step(&s.name, &s.key)).collect())
    }
}

#[test]
fn a_contested_attendee_stays_one_attendee() {
    let local = BASE.replace("PARTSTAT=NEEDS-ACTION", "PARTSTAT=ACCEPTED");
    let remote = BASE.replace("PARTSTAT=NEEDS-ACTION", "PARTSTAT=DECLINED");
    let at = |name: &str| MergeAction::ParamChanged { at: prop(event(), name, Some("ada@example.com")) };
    let conflicts = vec![Conflict { reason: MergeReason::Divergent(at("ATTENDEE")), right: at("ATTENDEE") }];
    let merged = TcalMerged::settle(sides(&local, &remote), &conflicts, &Vec::new(), &Vec::new());
    assert_eq!(merged.toml.matches("[[event.attendee]]").count(), 1, "{}", merged.toml);
    assert!(merged.toml.contains("# status = \"NEEDS-ACTION\" # base\nstatus = \"ACCEPTED\" # local\nstatus = \"DECLINED\" # remote\n"), "{}", merged.toml);
}

#[test]
fn a_rule_against_an_instance_is_a_comment() {
    let s = sides(BASE, BASE);
    let series = changed(event(), "RRULE");
    let instance = changed(ComponentPath(vec![step("VEVENT", "e1@example/20260107T090000Z")]), "DTSTART");
    let said = note(s.read(&MergeReason::Recurrence(series), &instance));
    assert!(said.starts_with("event 1 / recurrence changed on local and VEVENT e1@example/20260107T090000Z / DTSTART on remote: one is a series"), "{said}");
}

#[test]
fn a_removal_against_an_update_is_a_comment() {
    let s = sides(BASE, BASE);
    let removed = MergeAction::PropRemoved { at: prop(event(), "SUMMARY", None) };
    let said = note(s.read(&MergeReason::Divergent(removed), &changed(event(), "SUMMARY")));
    assert_eq!(said, "event 1 / summary: removed on local and updated on remote, and the update was kept.");

    let gone = MergeAction::ComponentRemoved { at: event() };
    let said = note(s.read(&MergeReason::Divergent(changed(event(), "SUMMARY")), &gone));
    assert_eq!(said, "event 1 / summary: removed on remote and changed on local, and it was kept.");

    let both = MergeAction::PropRemoved { at: prop(event(), "SUMMARY", None) };
    let said = note(s.read(&MergeReason::Divergent(both), &MergeAction::PropRemoved { at: prop(event(), "SUMMARY", None) }));
    assert_eq!(said, "event 1 / summary: removed on both sides.");
}

#[test]
fn an_unknown_path_is_named_in_icalendar_terms() {
    let s = sides(BASE, BASE);
    let path = ComponentPath(vec![step("VTODO", "t9@example")]);
    let said = note(s.read(&MergeReason::Divergent(MergeAction::ComponentRemoved { at: path }), &changed(event(), "SUMMARY")));
    assert_eq!(said, "VTODO t9@example: removed on local and changed on remote, and it is gone.");
}

#[test]
fn a_list_both_sides_edited_is_said_once() {
    let s = sides(BASE, BASE);
    let added = || MergeAction::ValueItemAdded { at: prop(event(), "CATEGORIES", None) };
    let mut notes = vec!["already".to_owned()];
    s.note_unions(&mut notes, &vec![added(), added(), changed(event(), "SUMMARY")], &vec![added()]);
    assert_eq!(
        notes,
        vec!["already".to_owned(), "event 1 / categories: both sides changed its list; the items of both were kept.".to_owned()]
    );
    let mut notes = Vec::new();
    s.note_unions(&mut notes, &vec![added()], &vec![changed(event(), "CATEGORIES")]);
    assert!(notes.is_empty());
}

#[test]
fn a_bare_component_is_the_first_block() {
    let bare = "BEGIN:VEVENT\r\nUID:e1@example\r\nSUMMARY:A\r\nEND:VEVENT\r\n";
    let s = Sides { merged: cal(bare), base: cal(bare), local: cal(bare), remote: cal(bare) };
    let said = note(s.read(&MergeReason::Divergent(changed(ComponentPath(Vec::new()), "SUMMARY")), &changed(ComponentPath(Vec::new()), "SUMMARY")));
    assert_eq!(said, "event 1 / summary: changed on both sides, and the local value was kept.");
}
