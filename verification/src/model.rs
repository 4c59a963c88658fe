//! # Modelled vocabulary
//!
//! Each [`Spec`]'s [`Field`]s, and how every [`Kind`] of value projects to
//! TOML and folds back from it.

use vstd::prelude::*;

use crate::datetime::{
    date_line_chars, is_utc, spec_date_line, spec_is_utc, spec_toml_date, spec_toml_date_line,
    toml_date, toml_date_line, DATE_HINT,
};
use crate::duration::{duration_lines, duration_value, joined, spec_duration_lines, spec_duration_value};
use crate::line::{int_chars, int_text, lines_view, make_line, Line};
use crate::number::{spec_table_text, table_text};
use crate::patch::{
    ensure_mailto_chars, escape_chars, escaped, rewritten_chars, spec_ensure_mailto, spec_rewritten,
    spec_strip_mailto, spec_texts, spec_value, strip_mailto_chars, views_of,
};
use crate::recurrence::{recur_lines, recur_rule, spec_recur_lines, spec_recur_rule};
use crate::text::{chars_of, copy_chars, join_with, push_all, to_upper, trimmed, unicode_upper};
use crate::toml::{
    datetime_string, entries_writable, entry_of, lemma_entry_of_writable, quoted, spec_tables, spec_toml_number, table_get, tables, toml_array,
    toml_datetime_text, toml_number, toml_quoted, toml_text_array, Toml, TomlDatetime,
};
use crate::util::{item_text, items, line_text, param, param_text, push_param, raw, spec_param_value, text};

verus! {

/// Shape of a modelled property, driving both projection and emission.
#[derive(Clone, Copy)]
pub enum Kind {
    /// Bare key; `escape` marks the TEXT properties escaped on the wire.
    Scalar { escape: bool },
    /// Closed RFC 5545 vocabulary (`STATUS`, `CLASS`, ...), listed lowercase
    /// in the hint and uppercased to canonical form on export.
    Enum,
    /// Integer, rendered as a bare TOML number.
    Number,
    /// Multi-valued text joined on `sep` (`CATEGORIES`).
    List { sep: char },
    /// Date or date-time as a native TOML value plus an adjacent `<key>-tz`
    /// key.
    Date,
    /// Calendar address, projected without its `mailto:` scheme.
    CalAddress,
    /// UTC offset (`TZOFFSETFROM`/`TZOFFSETTO`), projected as `+HHMM`.
    Offset,
    /// Repeatable attendee with `CN` / `ROLE` / `PARTSTAT` parameters.
    Attendee,
    /// Recurrence rule as dotted `<key>.*` keys.
    Recur,
    /// Duration as dotted `<key>.{week,day,...}` keys, the sign implied by
    /// context: `negative` for an alarm trigger.
    Duration { negative: bool },
}

impl Kind {
    /// A bare or inline key, as opposed to the sectioned attendee tables.
    pub open spec fn simple(self) -> bool {
        !(self is Attendee)
    }

    /// A bare or inline key, as opposed to the sectioned attendee tables.
    pub fn is_simple(&self) -> (r: bool)
        ensures
            r == self.simple(),
    {
        match self {
            Kind::Attendee => false,
            _ => true,
        }
    }
}

/// A modelled property and how it maps to TOML.
#[derive(Clone, Copy)]
pub struct Field {
    /// TOML key.
    pub key: &'static str,
    /// Canonical iCalendar property name.
    pub name: &'static str,
    /// Inline hint shown next to the value, rendered as ` # <hint>`.
    pub hint: Option<&'static str>,
    /// Mapping shape.
    pub kind: Kind,
}

/// A modelled iCalendar component and how it maps to TOML.
pub struct Spec {
    /// TOML array-of-tables key (e.g. `event`).
    pub key: &'static str,
    /// iCalendar component name (e.g. `VEVENT`).
    pub name: &'static str,
    /// Modelled fields, in projection order.
    pub fields: Vec<Field>,
    /// Nested child component specs (e.g. a `VEVENT`'s `VALARM`s).
    pub children: Vec<Spec>,
}

/// The modelled `VEVENT` fields, grouped by shape: the bare scalars lead,
/// then the dates, the duration and the recurrence, with the sectioned
/// `attendee` last, since a TOML array-of-tables header must follow its
/// table's bare keys.
pub open spec fn event_fields() -> Seq<Field> {
    seq![
        Field { key: "summary", name: "SUMMARY", hint: None, kind: Kind::Scalar { escape: true } },
        Field { key: "description", name: "DESCRIPTION", hint: None, kind: Kind::Scalar { escape: true } },
        Field { key: "categories", name: "CATEGORIES", hint: None, kind: Kind::List { sep: ',' } },
        Field { key: "location", name: "LOCATION", hint: None, kind: Kind::Scalar { escape: true } },
        Field { key: "url", name: "URL", hint: Some("https://example.com/event"), kind: Kind::Scalar { escape: false } },
        Field { key: "organizer", name: "ORGANIZER", hint: Some("email address"), kind: Kind::CalAddress },
        Field { key: "class", name: "CLASS", hint: Some("public, private, confidential"), kind: Kind::Enum },
        Field { key: "priority", name: "PRIORITY", hint: Some("0 = undefined, 1 = highest, 9 = lowest"), kind: Kind::Number },
        Field { key: "status", name: "STATUS", hint: Some("confirmed, tentative, cancelled"), kind: Kind::Enum },
        Field { key: "transparency", name: "TRANSP", hint: Some("opaque, transparent"), kind: Kind::Enum },
        Field { key: "date-start", name: "DTSTART", hint: Some(DATE_HINT), kind: Kind::Date },
        Field { key: "date-end", name: "DTEND", hint: Some(DATE_HINT), kind: Kind::Date },
        Field { key: "duration", name: "DURATION", hint: Some("event length"), kind: Kind::Duration { negative: false } },
        Field { key: "recurrence", name: "RRULE", hint: None, kind: Kind::Recur },
        Field { key: "attendee", name: "ATTENDEE", hint: None, kind: Kind::Attendee },
    ]
}

fn make_event_fields() -> (v: Vec<Field>)
    ensures
        v@ == event_fields(),
{
    let v = vec![
        Field { key: "summary", name: "SUMMARY", hint: None, kind: Kind::Scalar { escape: true } },
        Field { key: "description", name: "DESCRIPTION", hint: None, kind: Kind::Scalar { escape: true } },
        Field { key: "categories", name: "CATEGORIES", hint: None, kind: Kind::List { sep: ',' } },
        Field { key: "location", name: "LOCATION", hint: None, kind: Kind::Scalar { escape: true } },
        Field { key: "url", name: "URL", hint: Some("https://example.com/event"), kind: Kind::Scalar { escape: false } },
        Field { key: "organizer", name: "ORGANIZER", hint: Some("email address"), kind: Kind::CalAddress },
        Field { key: "class", name: "CLASS", hint: Some("public, private, confidential"), kind: Kind::Enum },
        Field { key: "priority", name: "PRIORITY", hint: Some("0 = undefined, 1 = highest, 9 = lowest"), kind: Kind::Number },
        Field { key: "status", name: "STATUS", hint: Some("confirmed, tentative, cancelled"), kind: Kind::Enum },
        Field { key: "transparency", name: "TRANSP", hint: Some("opaque, transparent"), kind: Kind::Enum },
        Field { key: "date-start", name: "DTSTART", hint: Some(DATE_HINT), kind: Kind::Date },
        Field { key: "date-end", name: "DTEND", hint: Some(DATE_HINT), kind: Kind::Date },
        Field { key: "duration", name: "DURATION", hint: Some("event length"), kind: Kind::Duration { negative: false } },
        Field { key: "recurrence", name: "RRULE", hint: None, kind: Kind::Recur },
        Field { key: "attendee", name: "ATTENDEE", hint: None, kind: Kind::Attendee },
    ];
    proof {
        assert(v@ =~= event_fields());
    }
    v
}

/// The modelled `VALARM` vocabulary, kept to plain scalars: alarm values
/// are short codes and durations, not dates or addresses.
pub open spec fn alarm_fields() -> Seq<Field> {
    seq![
        Field { key: "summary", name: "SUMMARY", hint: Some("subject line for an email alarm"), kind: Kind::Scalar { escape: true } },
        Field { key: "description", name: "DESCRIPTION", hint: None, kind: Kind::Scalar { escape: true } },
        Field { key: "action", name: "ACTION", hint: Some("display, email, audio"), kind: Kind::Enum },
        Field { key: "repeat", name: "REPEAT", hint: Some("how many extra times to fire: 2"), kind: Kind::Number },
        Field { key: "trigger", name: "TRIGGER", hint: Some("before the event"), kind: Kind::Duration { negative: true } },
        Field { key: "duration", name: "DURATION", hint: Some("with repeat"), kind: Kind::Duration { negative: false } },
    ]
}

fn make_alarm_fields() -> (v: Vec<Field>)
    ensures
        v@ == alarm_fields(),
{
    let v = vec![
        Field { key: "summary", name: "SUMMARY", hint: Some("subject line for an email alarm"), kind: Kind::Scalar { escape: true } },
        Field { key: "description", name: "DESCRIPTION", hint: None, kind: Kind::Scalar { escape: true } },
        Field { key: "action", name: "ACTION", hint: Some("display, email, audio"), kind: Kind::Enum },
        Field { key: "repeat", name: "REPEAT", hint: Some("how many extra times to fire: 2"), kind: Kind::Number },
        Field { key: "trigger", name: "TRIGGER", hint: Some("before the event"), kind: Kind::Duration { negative: true } },
        Field { key: "duration", name: "DURATION", hint: Some("with repeat"), kind: Kind::Duration { negative: false } },
    ];
    proof {
        assert(v@ =~= alarm_fields());
    }
    v
}

/// The modelled `VTODO` fields: like an event, but with `due`, `completed`
/// and `percent` instead of `dtend` and `transparency`.
pub open spec fn todo_fields() -> Seq<Field> {
    seq![
        Field { key: "summary", name: "SUMMARY", hint: None, kind: Kind::Scalar { escape: true } },
        Field { key: "description", name: "DESCRIPTION", hint: None, kind: Kind::Scalar { escape: true } },
        Field { key: "categories", name: "CATEGORIES", hint: None, kind: Kind::List { sep: ',' } },
        Field { key: "location", name: "LOCATION", hint: None, kind: Kind::Scalar { escape: true } },
        Field { key: "url", name: "URL", hint: Some("https://example.com/task"), kind: Kind::Scalar { escape: false } },
        Field { key: "organizer", name: "ORGANIZER", hint: Some("email address"), kind: Kind::CalAddress },
        Field { key: "class", name: "CLASS", hint: Some("public, private, confidential"), kind: Kind::Enum },
        Field { key: "priority", name: "PRIORITY", hint: Some("0 = undefined, 1 = highest, 9 = lowest"), kind: Kind::Number },
        Field { key: "status", name: "STATUS", hint: Some("needs-action, in-process, completed, cancelled"), kind: Kind::Enum },
        Field { key: "percent", name: "PERCENT-COMPLETE", hint: Some("0 to 100"), kind: Kind::Number },
        Field { key: "date-start", name: "DTSTART", hint: Some(DATE_HINT), kind: Kind::Date },
        Field { key: "date-due", name: "DUE", hint: Some(DATE_HINT), kind: Kind::Date },
        Field { key: "date-completed", name: "COMPLETED", hint: Some(DATE_HINT), kind: Kind::Date },
        Field { key: "duration", name: "DURATION", hint: Some("alternative to a due date"), kind: Kind::Duration { negative: false } },
        Field { key: "recurrence", name: "RRULE", hint: None, kind: Kind::Recur },
        Field { key: "attendee", name: "ATTENDEE", hint: None, kind: Kind::Attendee },
    ]
}

fn make_todo_fields() -> (v: Vec<Field>)
    ensures
        v@ == todo_fields(),
{
    let v = vec![
        Field { key: "summary", name: "SUMMARY", hint: None, kind: Kind::Scalar { escape: true } },
        Field { key: "description", name: "DESCRIPTION", hint: None, kind: Kind::Scalar { escape: true } },
        Field { key: "categories", name: "CATEGORIES", hint: None, kind: Kind::List { sep: ',' } },
        Field { key: "location", name: "LOCATION", hint: None, kind: Kind::Scalar { escape: true } },
        Field { key: "url", name: "URL", hint: Some("https://example.com/task"), kind: Kind::Scalar { escape: false } },
        Field { key: "organizer", name: "ORGANIZER", hint: Some("email address"), kind: Kind::CalAddress },
        Field { key: "class", name: "CLASS", hint: Some("public, private, confidential"), kind: Kind::Enum },
        Field { key: "priority", name: "PRIORITY", hint: Some("0 = undefined, 1 = highest, 9 = lowest"), kind: Kind::Number },
        Field { key: "status", name: "STATUS", hint: Some("needs-action, in-process, completed, cancelled"), kind: Kind::Enum },
        Field { key: "percent", name: "PERCENT-COMPLETE", hint: Some("0 to 100"), kind: Kind::Number },
        Field { key: "date-start", name: "DTSTART", hint: Some(DATE_HINT), kind: Kind::Date },
        Field { key: "date-due", name: "DUE", hint: Some(DATE_HINT), kind: Kind::Date },
        Field { key: "date-completed", name: "COMPLETED", hint: Some(DATE_HINT), kind: Kind::Date },
        Field { key: "duration", name: "DURATION", hint: Some("alternative to a due date"), kind: Kind::Duration { negative: false } },
        Field { key: "recurrence", name: "RRULE", hint: None, kind: Kind::Recur },
        Field { key: "attendee", name: "ATTENDEE", hint: None, kind: Kind::Attendee },
    ];
    proof {
        assert(v@ =~= todo_fields());
    }
    v
}

/// The modelled `VJOURNAL` fields: a dated note, no times or alarms.
pub open spec fn journal_fields() -> Seq<Field> {
    seq![
        Field { key: "summary", name: "SUMMARY", hint: None, kind: Kind::Scalar { escape: true } },
        Field { key: "description", name: "DESCRIPTION", hint: None, kind: Kind::Scalar { escape: true } },
        Field { key: "categories", name: "CATEGORIES", hint: None, kind: Kind::List { sep: ',' } },
        Field { key: "url", name: "URL", hint: None, kind: Kind::Scalar { escape: false } },
        Field { key: "organizer", name: "ORGANIZER", hint: Some("email address"), kind: Kind::CalAddress },
        Field { key: "class", name: "CLASS", hint: Some("public, private, confidential"), kind: Kind::Enum },
        Field { key: "status", name: "STATUS", hint: Some("draft, final, cancelled"), kind: Kind::Enum },
        Field { key: "date-start", name: "DTSTART", hint: Some(DATE_HINT), kind: Kind::Date },
        Field { key: "recurrence", name: "RRULE", hint: None, kind: Kind::Recur },
        Field { key: "attendee", name: "ATTENDEE", hint: None, kind: Kind::Attendee },
    ]
}

fn make_journal_fields() -> (v: Vec<Field>)
    ensures
        v@ == journal_fields(),
{
    let v = vec![
        Field { key: "summary", name: "SUMMARY", hint: None, kind: Kind::Scalar { escape: true } },
        Field { key: "description", name: "DESCRIPTION", hint: None, kind: Kind::Scalar { escape: true } },
        Field { key: "categories", name: "CATEGORIES", hint: None, kind: Kind::List { sep: ',' } },
        Field { key: "url", name: "URL", hint: None, kind: Kind::Scalar { escape: false } },
        Field { key: "organizer", name: "ORGANIZER", hint: Some("email address"), kind: Kind::CalAddress },
        Field { key: "class", name: "CLASS", hint: Some("public, private, confidential"), kind: Kind::Enum },
        Field { key: "status", name: "STATUS", hint: Some("draft, final, cancelled"), kind: Kind::Enum },
        Field { key: "date-start", name: "DTSTART", hint: Some(DATE_HINT), kind: Kind::Date },
        Field { key: "recurrence", name: "RRULE", hint: None, kind: Kind::Recur },
        Field { key: "attendee", name: "ATTENDEE", hint: None, kind: Kind::Attendee },
    ];
    proof {
        assert(v@ =~= journal_fields());
    }
    v
}

/// The modelled `VFREEBUSY` fields: a busy-time report over a window.
pub open spec fn free_busy_fields() -> Seq<Field> {
    seq![
        Field { key: "organizer", name: "ORGANIZER", hint: Some("email address"), kind: Kind::CalAddress },
        Field { key: "periods", name: "FREEBUSY", hint: Some("20260613T140000Z/PT1H"), kind: Kind::List { sep: ',' } },
        Field { key: "url", name: "URL", hint: None, kind: Kind::Scalar { escape: false } },
        Field { key: "date-start", name: "DTSTART", hint: Some(DATE_HINT), kind: Kind::Date },
        Field { key: "date-end", name: "DTEND", hint: Some(DATE_HINT), kind: Kind::Date },
        Field { key: "attendee", name: "ATTENDEE", hint: None, kind: Kind::Attendee },
    ]
}

fn make_free_busy_fields() -> (v: Vec<Field>)
    ensures
        v@ == free_busy_fields(),
{
    let v = vec![
        Field { key: "organizer", name: "ORGANIZER", hint: Some("email address"), kind: Kind::CalAddress },
        Field { key: "periods", name: "FREEBUSY", hint: Some("20260613T140000Z/PT1H"), kind: Kind::List { sep: ',' } },
        Field { key: "url", name: "URL", hint: None, kind: Kind::Scalar { escape: false } },
        Field { key: "date-start", name: "DTSTART", hint: Some(DATE_HINT), kind: Kind::Date },
        Field { key: "date-end", name: "DTEND", hint: Some(DATE_HINT), kind: Kind::Date },
        Field { key: "attendee", name: "ATTENDEE", hint: None, kind: Kind::Attendee },
    ];
    proof {
        assert(v@ =~= free_busy_fields());
    }
    v
}

/// The modelled fields of a `STANDARD` or `DAYLIGHT` time-zone rule.
pub open spec fn zone_rule_fields() -> Seq<Field> {
    seq![
        Field { key: "name", name: "TZNAME", hint: Some("CET"), kind: Kind::Scalar { escape: false } },
        Field { key: "offset-from", name: "TZOFFSETFROM", hint: Some("+0200"), kind: Kind::Offset },
        Field { key: "offset-to", name: "TZOFFSETTO", hint: Some("+0100"), kind: Kind::Offset },
        Field { key: "date-start", name: "DTSTART", hint: Some("local start: 1996-10-27T03:00:00"), kind: Kind::Date },
        Field { key: "recurrence", name: "RRULE", hint: None, kind: Kind::Recur },
    ]
}

fn make_zone_rule_fields() -> (v: Vec<Field>)
    ensures
        v@ == zone_rule_fields(),
{
    let v = vec![
        Field { key: "name", name: "TZNAME", hint: Some("CET"), kind: Kind::Scalar { escape: false } },
        Field { key: "offset-from", name: "TZOFFSETFROM", hint: Some("+0200"), kind: Kind::Offset },
        Field { key: "offset-to", name: "TZOFFSETTO", hint: Some("+0100"), kind: Kind::Offset },
        Field { key: "date-start", name: "DTSTART", hint: Some("local start: 1996-10-27T03:00:00"), kind: Kind::Date },
        Field { key: "recurrence", name: "RRULE", hint: None, kind: Kind::Recur },
    ];
    proof {
        assert(v@ =~= zone_rule_fields());
    }
    v
}

/// The modelled `VTIMEZONE` fields; its transitions are the nested
/// `standard` and `daylight` components.
pub open spec fn timezone_fields() -> Seq<Field> {
    seq![
        Field { key: "id", name: "TZID", hint: Some("Europe/Paris"), kind: Kind::Scalar { escape: false } },
    ]
}

fn make_timezone_fields() -> (v: Vec<Field>)
    ensures
        v@ == timezone_fields(),
{
    let v = vec![
        Field { key: "id", name: "TZID", hint: Some("Europe/Paris"), kind: Kind::Scalar { escape: false } },
    ];
    proof {
        assert(v@ =~= timezone_fields());
    }
    v
}

/// A spec with that key, component name and fields.
pub open spec fn spec_is(s: Spec, key: &str, name: &str, fields: Seq<Field>) -> bool {
    s.key@ == key@ && s.name@ == name@ && s.fields@ == fields
}

/// The `VALARM` spec, nested in an event or a to-do.
pub open spec fn is_alarm(s: Spec) -> bool {
    spec_is(s, "alarm", "VALARM", alarm_fields()) && s.children@.len() == 0
}

/// The `STANDARD` spec, a time zone's rule outside daylight saving.
pub open spec fn is_standard(s: Spec) -> bool {
    spec_is(s, "standard", "STANDARD", zone_rule_fields()) && s.children@.len() == 0
}

/// The `DAYLIGHT` spec, a time zone's daylight saving rule.
pub open spec fn is_daylight(s: Spec) -> bool {
    spec_is(s, "daylight", "DAYLIGHT", zone_rule_fields()) && s.children@.len() == 0
}

/// The `VEVENT` spec, the one a flat, unsectioned document defaults to.
pub open spec fn is_event(s: Spec) -> bool {
    spec_is(s, "event", "VEVENT", event_fields()) && s.children@.len() == 1 && is_alarm(
        s.children@[0],
    )
}

/// The `VTODO` spec, a task with a due date and a completion state.
pub open spec fn is_todo(s: Spec) -> bool {
    spec_is(s, "todo", "VTODO", todo_fields()) && s.children@.len() == 1 && is_alarm(s.children@[0])
}

/// The `VJOURNAL` spec, a dated note.
pub open spec fn is_journal(s: Spec) -> bool {
    spec_is(s, "journal", "VJOURNAL", journal_fields()) && s.children@.len() == 0
}

/// The `VFREEBUSY` spec, a busy-time report over a window.
pub open spec fn is_free_busy(s: Spec) -> bool {
    spec_is(s, "free-busy", "VFREEBUSY", free_busy_fields()) && s.children@.len() == 0
}

/// The `VTIMEZONE` spec, a time zone and its transition rules.
pub open spec fn is_timezone(s: Spec) -> bool {
    spec_is(s, "timezone", "VTIMEZONE", timezone_fields()) && s.children@.len() == 2 && is_standard(
        s.children@[0],
    ) && is_daylight(s.children@[1])
}

/// The top-level component types tcal models, in projection order;
/// everything else is preserved verbatim.
pub open spec fn is_top_level(specs: Seq<Spec>) -> bool {
    &&& specs.len() == 5
    &&& is_event(specs[0])
    &&& is_todo(specs[1])
    &&& is_journal(specs[2])
    &&& is_free_busy(specs[3])
    &&& is_timezone(specs[4])
}

/// The `VALARM` spec.
pub fn alarm_spec() -> (s: Spec)
    ensures
        is_alarm(s),
{
    Spec { key: "alarm", name: "VALARM", fields: make_alarm_fields(), children: Vec::new() }
}

/// The `VEVENT` spec.
pub fn event_spec() -> (s: Spec)
    ensures
        is_event(s),
{
    Spec { key: "event", name: "VEVENT", fields: make_event_fields(), children: vec![alarm_spec()] }
}

/// The `VTODO` spec.
pub fn todo_spec() -> (s: Spec)
    ensures
        is_todo(s),
{
    Spec { key: "todo", name: "VTODO", fields: make_todo_fields(), children: vec![alarm_spec()] }
}

/// The `VJOURNAL` spec.
pub fn journal_spec() -> (s: Spec)
    ensures
        is_journal(s),
{
    Spec { key: "journal", name: "VJOURNAL", fields: make_journal_fields(), children: Vec::new() }
}

/// The `VFREEBUSY` spec.
pub fn free_busy_spec() -> (s: Spec)
    ensures
        is_free_busy(s),
{
    Spec {
        key: "free-busy",
        name: "VFREEBUSY",
        fields: make_free_busy_fields(),
        children: Vec::new(),
    }
}

/// The `VTIMEZONE` spec.
pub fn timezone_spec() -> (s: Spec)
    ensures
        is_timezone(s),
{
    let standard = Spec {
        key: "standard",
        name: "STANDARD",
        fields: make_zone_rule_fields(),
        children: Vec::new(),
    };
    let daylight = Spec {
        key: "daylight",
        name: "DAYLIGHT",
        fields: make_zone_rule_fields(),
        children: Vec::new(),
    };
    Spec {
        key: "timezone",
        name: "VTIMEZONE",
        fields: make_timezone_fields(),
        children: vec![standard, daylight],
    }
}

/// The top-level component types tcal models, in projection order.
pub fn top_level() -> (specs: Vec<Spec>)
    ensures
        is_top_level(specs@),
{
    vec![event_spec(), todo_spec(), journal_spec(), free_busy_spec(), timezone_spec()]
}

/// The top-level spec at a position of [`top_level`].
pub fn top_level_at(at: usize) -> (s: Spec)
    requires
        at < 5,
    ensures
        exists|specs: Seq<Spec>| is_top_level(specs) && s == specs[at as int],
        at == 0 ==> is_event(s),
        at == 1 ==> is_todo(s),
        at == 2 ==> is_journal(s),
        at == 3 ==> is_free_busy(s),
        at == 4 ==> is_timezone(s),
{
    let mut all = top_level();
    let ghost specs = all@;
    let s = all.remove(at);
    proof {
        assert(is_top_level(specs) && s == specs[at as int]);
    }
    s
}


/// A field's hint, as plain text.
pub open spec fn hint_view(hint: Option<&'static str>) -> Option<Seq<char>> {
    match hint {
        Some(h) => Some(h@),
        None => None,
    }
}

/// The first line a field's property occupies, where there is one.
pub open spec fn first_of(entries: Seq<Seq<char>>) -> Option<Seq<char>> {
    if entries.len() > 0 {
        Some(entries[0])
    } else {
        None
    }
}

/// The unescaped value of the first line, empty where there is none.
pub open spec fn first_text(entries: Seq<Seq<char>>) -> Seq<char> {
    match first_of(entries) {
        Some(line) => line_text(line),
        None => Seq::empty(),
    }
}

/// The items of every line, in order, each unescaped.
pub open spec fn all_items(entries: Seq<Seq<char>>) -> Seq<Seq<char>>
    decreases entries.len(),
{
    if entries.len() == 0 {
        Seq::empty()
    } else {
        all_items(entries.drop_last()) + spec_texts(entries.last())
    }
}

/// A `key = rhs` line carrying the field's hint.
pub open spec fn keyed_line(field: Field, rhs: Seq<char>) -> (Seq<char>, Option<Seq<char>>) {
    (field.key@ + " = "@ + rhs, hint_view(field.hint))
}

/// The hint of a date's adjacent zone key.
pub open spec fn zone_hint() -> Seq<char> {
    "America/New_York; empty for UTC or floating"@
}

/// A date field's lines: the value, native where it is in digit form and
/// else the string the calendar wrote; then its zone key, where the value
/// carries a zone or the field is blank.
pub open spec fn date_lines(field: Field, entry: Option<Seq<char>>) -> Seq<(Seq<char>, Option<Seq<char>>)> {
    let value = match entry {
        Some(line) => line_text(line),
        None => Seq::empty(),
    };
    let tzid = match entry {
        Some(line) => match spec_param_value(line, "TZID"@) {
            Some(zone) => if zone.len() > 0 {
                Some(zone)
            } else {
                None
            },
            None => None,
        },
        None => None,
    };
    let rhs = match spec_toml_date(value) {
        Some(dtm) => toml_datetime_text(dtm),
        None => toml_quoted(value),
    };
    let zone = match spec_toml_date(value) {
        Some(dtm) => if !spec_is_utc(dtm) {
            tzid
        } else {
            None
        },
        None => if value.len() > 0 {
            tzid
        } else {
            None
        },
    };
    let lead = keyed_line(field, rhs);
    if zone is Some || entry is None {
        seq![
            lead,
            (
                field.key@ + "-tz = "@ + toml_quoted(
                    match zone {
                        Some(z) => z,
                        None => Seq::empty(),
                    },
                ),
                Some(zone_hint()),
            ),
        ]
    } else {
        seq![lead]
    }
}

/// The lines a simple field projects to, read from the lines its property
/// occupies in the component (none for a blank form).
pub open spec fn spec_field_lines(field: Field, entries: Seq<Seq<char>>) -> Seq<
    (Seq<char>, Option<Seq<char>>),
> {
    match field.kind {
        Kind::Scalar { .. } => seq![keyed_line(field, toml_quoted(first_text(entries)))],
        Kind::Enum => seq![keyed_line(field, toml_quoted(first_text(entries)))],
        Kind::Offset => seq![keyed_line(field, toml_quoted(first_text(entries)))],
        Kind::Number => seq![keyed_line(field, spec_toml_number(first_text(entries)))],
        Kind::List { .. } => seq![keyed_line(field, toml_text_array(all_items(entries)))],
        Kind::Date => date_lines(field, first_of(entries)),
        Kind::CalAddress => seq![keyed_line(field, toml_quoted(spec_strip_mailto(first_text(entries))))],
        Kind::Recur => spec_recur_lines(
            match first_of(entries) {
                Some(line) => Some(spec_value(line)),
                None => None,
            },
            field.key@,
        ),
        Kind::Duration { .. } => spec_duration_lines(
            match first_of(entries) {
                Some(line) => Some(line_text(line)),
                None => None,
            },
            field.key@,
            hint_view(field.hint),
        ),
        Kind::Attendee => Seq::empty(),
    }
}

fn hint_chars(hint: Option<&'static str>) -> (r: Option<Vec<char>>)
    ensures
        match r {
            Some(v) => hint_view(hint) == Some(v@),
            None => hint_view(hint) is None,
        },
{
    match hint {
        Some(h) => Some(chars_of(h)),
        None => None,
    }
}

fn first_text_of(entries: &Vec<Vec<char>>) -> (out: Vec<char>)
    ensures
        out@ == first_text(views_of(entries@)),
{
    if entries.len() > 0 {
        proof {
            assert(views_of(entries@)[0] == entries@[0]@);
        }
        text(&entries[0])
    } else {
        Vec::new()
    }
}

fn all_items_of(entries: &Vec<Vec<char>>) -> (out: Vec<Vec<char>>)
    ensures
        views_of(out@) == all_items(views_of(entries@)),
{
    let ghost all = views_of(entries@);
    let mut out: Vec<Vec<char>> = Vec::new();
    let mut i: usize = 0;
    proof {
        assert(all.take(0) =~= Seq::<Seq<char>>::empty());
        assert(views_of(out@) =~= Seq::<Seq<char>>::empty());
    }
    while i < entries.len()
        invariant
            i <= entries.len(),
            all == views_of(entries@),
            views_of(out@) == all_items(all.take(i as int)),
        decreases entries.len() - i,
    {
        let its = items(&entries[i]);
        proof {
            assert(all.take(i + 1).drop_last() =~= all.take(i as int));
            assert(all.take(i + 1).last() == entries@[i as int]@);
        }
        let ghost before = views_of(out@);
        let mut j: usize = 0;
        while j < its.len()
            invariant
                j <= its.len(),
                views_of(out@) == before + views_of(its@).take(j as int),
            decreases its.len() - j,
        {
            let ghost prev = out@;
            out.push(copy_chars(&its[j]));
            proof {
                assert(views_of(out@) =~= views_of(prev).push(its@[j as int]@));
                assert(views_of(its@).take(j + 1) =~= views_of(its@).take(j as int).push(its@[j as int]@));
                assert(views_of(out@) =~= before + views_of(its@).take(j + 1));
            }
            j = j + 1;
        }
        proof {
            assert(views_of(its@).take(j as int) =~= views_of(its@));
        }
        i = i + 1;
    }
    proof {
        assert(all.take(i as int) =~= all);
    }
    out
}

fn keyed_chars(key: &str, sep: &str, rhs: &[char]) -> (out: Vec<char>)
    ensures
        out@ == key@ + sep@ + rhs@,
{
    let mut out = chars_of(key);
    push_all(&mut out, &chars_of(sep));
    push_all(&mut out, rhs);
    out
}

impl Field {
    fn date_field_lines(&self, entries: &Vec<Vec<char>>) -> (lines: Vec<Line>)
        requires
            self.kind is Date,
        ensures
            lines_view(lines@) == date_lines(*self, first_of(views_of(entries@))),
    {
        let ghost entry = first_of(views_of(entries@));
        let value = first_text_of(entries);
        let tzid: Option<Vec<char>> = if entries.len() > 0 {
            proof {
                assert(views_of(entries@)[0] == entries@[0]@);
            }
            match param(&entries[0], &chars_of("TZID")) {
                Some(zone) => if zone.len() > 0 {
                    Some(zone)
                } else {
                    None
                },
                None => None,
            }
        } else {
            None
        };
        let dtm = toml_date(&value);
        let (rhs, zone) = match &dtm {
            Some(d) => {
                let zone = if !is_utc(d) {
                    tzid
                } else {
                    None
                };
                (chars_of(datetime_string(d).as_str()), zone)
            },
            None => {
                let zone = if value.len() > 0 {
                    tzid
                } else {
                    None
                };
                (quoted(&value), zone)
            },
        };
        let lead = make_line(&keyed_chars(self.key, " = ", &rhs), hint_chars(self.hint));
        let blank = entries.len() == 0;
        match zone {
            Some(z) => {
                let tz = make_line(&keyed_chars(self.key, "-tz = ", &quoted(&z)), Some(chars_of("America/New_York; empty for UTC or floating")));
                let v = vec![lead, tz];
                proof {
                    assert(lines_view(v@) =~= date_lines(*self, entry));
                }
                v
            },
            None => {
                if blank {
                    let tz = make_line(
                        &keyed_chars(self.key, "-tz = ", &quoted(&Vec::new())),
                        Some(chars_of("America/New_York; empty for UTC or floating")),
                    );
                    let v = vec![lead, tz];
                    proof {
                        assert(lines_view(v@) =~= date_lines(*self, entry));
                    }
                    v
                } else {
                    let v = vec![lead];
                    proof {
                        assert(lines_view(v@) =~= date_lines(*self, entry));
                    }
                    v
                }
            },
        }
    }

    /// Render this field into projected lines, read from the lines its
    /// property occupies. The attendee field is rendered with its section.
    pub fn lines(&self, entries: &Vec<Vec<char>>) -> (lines: Vec<Line>)
        requires
            self.kind.simple(),
        ensures
            lines_view(lines@) == spec_field_lines(*self, views_of(entries@)),
    {
        let ghost ev = views_of(entries@);
        match self.kind {
            Kind::Scalar { .. } | Kind::Enum | Kind::Offset => {
                let value = first_text_of(entries);
                let v = vec![make_line(&keyed_chars(self.key, " = ", &quoted(&value)), hint_chars(self.hint))];
                proof {
                    assert(lines_view(v@) =~= spec_field_lines(*self, ev));
                }
                v
            },
            Kind::Number => {
                let value = first_text_of(entries);
                let rhs = chars_of(toml_number(crate::text::string_of(&value).as_str()).as_str());
                let v = vec![make_line(&keyed_chars(self.key, " = ", &rhs), hint_chars(self.hint))];
                proof {
                    assert(lines_view(v@) =~= spec_field_lines(*self, ev));
                }
                v
            },
            Kind::List { .. } => {
                let values = all_items_of(entries);
                let rhs = chars_of(toml_array(&values).as_str());
                let v = vec![make_line(&keyed_chars(self.key, " = ", &rhs), hint_chars(self.hint))];
                proof {
                    assert(lines_view(v@) =~= spec_field_lines(*self, ev));
                }
                v
            },
            Kind::Date => self.date_field_lines(entries),
            Kind::CalAddress => {
                let value = strip_mailto_chars(&first_text_of(entries));
                let v = vec![make_line(&keyed_chars(self.key, " = ", &quoted(&value)), hint_chars(self.hint))];
                proof {
                    assert(lines_view(v@) =~= spec_field_lines(*self, ev));
                }
                v
            },
            Kind::Recur => {
                let key = chars_of(self.key);
                if entries.len() > 0 {
                    proof {
                        assert(ev[0] == entries@[0]@);
                    }
                    let value = raw(&entries[0]);
                    recur_lines(Some(value.as_slice()), &key)
                } else {
                    recur_lines(None, &key)
                }
            },
            Kind::Duration { .. } => {
                let key = chars_of(self.key);
                if entries.len() > 0 {
                    proof {
                        assert(ev[0] == entries@[0]@);
                    }
                    let value = text(&entries[0]);
                    duration_lines(Some(value.as_slice()), &key, hint_chars(self.hint))
                } else {
                    duration_lines(None, &key, hint_chars(self.hint))
                }
            },
            Kind::Attendee => Vec::new(),
        }
    }
}


/// The string a TOML value holds, where it is a non-empty one.
pub open spec fn text_value(item: Toml) -> Option<Seq<char>> {
    match item {
        Toml::Text(s) => if s@.len() > 0 {
            Some(s@)
        } else {
            None
        },
        _ => None,
    }
}

/// The non-empty strings among some values, each escaped.
pub open spec fn escaped_texts(values: Seq<Toml>) -> Seq<Seq<char>>
    decreases values.len(),
{
    if values.len() == 0 {
        Seq::empty()
    } else {
        match text_value(values.last()) {
            Some(v) => escaped_texts(values.drop_last()).push(escaped(v)),
            None => escaped_texts(values.drop_last()),
        }
    }
}

/// The attendee line one table writes: its non-empty `value` as a calendar
/// address, with the parameters the table sets.
pub open spec fn attendee_line(table: Seq<(String, Toml)>, name: Seq<char>, value: Seq<char>) -> Seq<char> {
    name + param_text("CN"@, item_text(entry_of(table, "display-name"@)), false) + param_text(
        "ROLE"@,
        item_text(entry_of(table, "role"@)),
        true,
    ) + param_text("PARTSTAT"@, item_text(entry_of(table, "status"@)), true) + ":"@
        + spec_ensure_mailto(value)
}

/// The attendee lines some tables write, a table without a value skipped.
pub open spec fn attendee_lines(tables: Seq<Seq<(String, Toml)>>, name: Seq<char>) -> Seq<Seq<char>>
    decreases tables.len(),
{
    if tables.len() == 0 {
        Seq::empty()
    } else {
        match spec_table_text(tables.last(), "value"@) {
            Some(v) => attendee_lines(tables.drop_last(), name).push(attendee_line(tables.last(), name, v)),
            None => attendee_lines(tables.drop_last(), name),
        }
    }
}

/// A `NAME:value` line.
pub open spec fn prop_line(name: Seq<char>, value: Seq<char>) -> Seq<char> {
    name + ":"@ + value
}

/// The line of a value, where there is one.
pub open spec fn one_line(name: Seq<char>, value: Option<Seq<char>>) -> Seq<Seq<char>> {
    match value {
        Some(v) => seq![prop_line(name, v)],
        None => Seq::empty(),
    }
}

/// The content lines a field writes from a TOML table, before each is
/// patched onto the line it replaces: none where its key is absent or blank.
pub open spec fn spec_built(field: Field, table: Seq<(String, Toml)>) -> Seq<Seq<char>> {
    let name = field.name@;
    match entry_of(table, field.key@) {
        None => Seq::empty(),
        Some(item) => match field.kind {
            Kind::Scalar { escape } => one_line(
                name,
                match text_value(item) {
                    Some(v) => Some(
                        if escape {
                            escaped(v)
                        } else {
                            v
                        },
                    ),
                    None => None,
                },
            ),
            Kind::Enum => one_line(
                name,
                match text_value(item) {
                    Some(v) => Some(unicode_upper(v)),
                    None => None,
                },
            ),
            Kind::Number => one_line(
                name,
                match item {
                    Toml::Integer(i) => Some(int_text(i as int)),
                    _ => text_value(item),
                },
            ),
            Kind::List { sep } => match item {
                Toml::Array(values) => if escaped_texts(values@).len() > 0 {
                    seq![prop_line(name, join_with(escaped_texts(values@), seq![sep]))]
                } else {
                    Seq::empty()
                },
                _ => Seq::empty(),
            },
            Kind::Date => {
                let tz = match entry_of(table, field.key@ + "-tz"@) {
                    Some(t) => text_value(t),
                    None => None,
                };
                match item {
                    Toml::Datetime(d) => seq![spec_toml_date_line(name, d, tz)],
                    _ => match text_value(item) {
                        Some(v) => seq![spec_date_line(name, v, tz)],
                        None => Seq::empty(),
                    },
                }
            },
            Kind::CalAddress => one_line(
                name,
                match text_value(item) {
                    Some(v) => Some(spec_ensure_mailto(v)),
                    None => None,
                },
            ),
            Kind::Offset => one_line(name, text_value(item)),
            Kind::Attendee => attendee_lines(spec_tables(item), name),
            Kind::Recur => match item {
                Toml::Table(t) => one_line(name, spec_recur_rule(t@)),
                _ => Seq::empty(),
            },
            Kind::Duration { negative } => match item {
                Toml::Table(t) => one_line(name, spec_duration_value(t@, negative)),
                _ => Seq::empty(),
            },
        },
    }
}

/// The parameter names a field's projection writes: the only ones folding
/// a document back owns, every other parameter belonging to the line.
pub open spec fn field_params(field: Field) -> Seq<Seq<char>> {
    match field.kind {
        Kind::Attendee => seq!["CN"@, "ROLE"@, "PARTSTAT"@],
        Kind::Date => seq!["TZID"@, "VALUE"@],
        _ => Seq::empty(),
    }
}

/// A written line patched onto the original it replaces, as it is where
/// there is none.
pub open spec fn patched(original: Option<Seq<char>>, line: Seq<char>, shown: Seq<Seq<char>>) -> Seq<char> {
    match original {
        Some(o) => spec_rewritten(o, line, shown),
        None => line,
    }
}

/// A field's content lines from a TOML table, the one at each position
/// patched onto the original at the same position.
pub open spec fn spec_content_lines(field: Field, table: Seq<(String, Toml)>, originals: Seq<Seq<char>>) -> Seq<
    Seq<char>,
> {
    let built = spec_built(field, table);
    Seq::new(
        built.len(),
        |at: int|
            patched(
                if at < originals.len() {
                    Some(originals[at])
                } else {
                    None
                },
                built[at],
                field_params(field),
            ),
    )
}

fn line_of(name: &str, value: &[char]) -> (out: Vec<Vec<char>>)
    ensures
        views_of(out@) == seq![prop_line(name@, value@)],
{
    let v = vec![keyed_chars(name, ":", value)];
    proof {
        assert(views_of(v@) =~= seq![prop_line(name@, value@)]);
    }
    v
}

fn no_lines() -> (out: Vec<Vec<char>>)
    ensures
        views_of(out@) == Seq::<Seq<char>>::empty(),
{
    let v: Vec<Vec<char>> = Vec::new();
    proof {
        assert(views_of(v@) =~= Seq::<Seq<char>>::empty());
    }
    v
}

fn text_of(item: &Toml) -> (r: Option<Vec<char>>)
    ensures
        match r {
            Some(v) => text_value(*item) == Some(v@),
            None => text_value(*item) is None,
        },
{
    match item {
        Toml::Text(s) => {
            let v = chars_of(s.as_str());
            if v.len() > 0 {
                Some(v)
            } else {
                None
            }
        },
        _ => None,
    }
}

fn escaped_items(values: &Vec<Toml>) -> (out: Vec<Vec<char>>)
    ensures
        views_of(out@) == escaped_texts(values@),
{
    let mut out: Vec<Vec<char>> = Vec::new();
    let mut i: usize = 0;
    proof {
        assert(values@.take(0) =~= Seq::<Toml>::empty());
        assert(views_of(out@) =~= Seq::<Seq<char>>::empty());
    }
    while i < values.len()
        invariant
            i <= values.len(),
            views_of(out@) == escaped_texts(values@.take(i as int)),
        decreases values.len() - i,
    {
        proof {
            assert(values@.take(i + 1).drop_last() =~= values@.take(i as int));
            assert(values@.take(i + 1).last() == values@[i as int]);
        }
        if let Some(v) = text_of(&values[i]) {
            let ghost prev = out@;
            out.push(escape_chars(&v));
            proof {
                assert(views_of(out@) =~= views_of(prev).push(escaped(v@)));
            }
        }
        i = i + 1;
    }
    proof {
        assert(values@.take(i as int) =~= values@);
    }
    out
}

fn attendee_built(item: &Toml, name: &str) -> (out: Vec<Vec<char>>)
    ensures
        views_of(out@) == attendee_lines(spec_tables(*item), name@),
{
    let all = tables(item);
    let ghost tv = all@.map_values(|t: &Vec<(String, Toml)>| t@);
    let mut out: Vec<Vec<char>> = Vec::new();
    let mut i: usize = 0;
    proof {
        assert(tv.take(0) =~= Seq::<Seq<(String, Toml)>>::empty());
        assert(views_of(out@) =~= Seq::<Seq<char>>::empty());
    }
    while i < all.len()
        invariant
            i <= all.len(),
            tv == all@.map_values(|t: &Vec<(String, Toml)>| t@),
            tv == spec_tables(*item),
            views_of(out@) == attendee_lines(tv.take(i as int), name@),
        decreases all.len() - i,
    {
        let table = all[i];
        proof {
            assert(tv[i as int] == table@);
            assert(tv.take(i + 1).drop_last() =~= tv.take(i as int));
            assert(tv.take(i + 1).last() == table@);
        }
        if let Some(value) = table_text(table, &chars_of("value")) {
            let mut line = chars_of(name);
            push_param(&mut line, "CN", table_get(table, &chars_of("display-name")), false);
            push_param(&mut line, "ROLE", table_get(table, &chars_of("role")), true);
            push_param(&mut line, "PARTSTAT", table_get(table, &chars_of("status")), true);
            push_all(&mut line, &chars_of(":"));
            push_all(&mut line, &ensure_mailto_chars(&value));
            let ghost prev = out@;
            out.push(line);
            proof {
                assert(line@ =~= attendee_line(table@, name@, value@));
                assert(views_of(out@) =~= views_of(prev).push(attendee_line(table@, name@, value@)));
            }
        }
        i = i + 1;
    }
    proof {
        assert(tv.take(i as int) =~= tv);
    }
    out
}

impl Field {
    /// The parameter names this field's projection writes.
    pub fn params(&self) -> (names: Vec<Vec<char>>)
        ensures
            views_of(names@) == field_params(*self),
    {
        let v = match self.kind {
            Kind::Attendee => vec![chars_of("CN"), chars_of("ROLE"), chars_of("PARTSTAT")],
            Kind::Date => vec![chars_of("TZID"), chars_of("VALUE")],
            _ => Vec::new(),
        };
        proof {
            assert(views_of(v@) =~= field_params(*self));
        }
        v
    }

    fn date_built(&self, source: &Vec<(String, Toml)>, item: &Toml) -> (out: Vec<Vec<char>>)
        requires
            self.kind is Date,
            entry_of(source@, self.key@) == Some(*item),
            entries_writable(source@),
        ensures
            views_of(out@) == spec_built(*self, source@),
    {
        proof {
            lemma_entry_of_writable(source@, self.key@);
        }
        let mut tz_key = chars_of(self.key);
        push_all(&mut tz_key, &chars_of("-tz"));
        let tz = match table_get(source, &tz_key) {
            Some(t) => text_of(t),
            None => None,
        };
        let name = chars_of(self.name);
        let line = match item {
            Toml::Datetime(d) => match &tz {
                Some(z) => toml_date_line(&name, d, Some(z.as_slice())),
                None => toml_date_line(&name, d, None),
            },
            _ => match text_of(item) {
                Some(v) => match &tz {
                    Some(z) => date_line_chars(&name, &v, Some(z.as_slice())),
                    None => date_line_chars(&name, &v, None),
                },
                None => return no_lines(),
            },
        };
        let v = vec![line];
        proof {
            assert(views_of(v@) =~= spec_built(*self, source@));
        }
        v
    }

    /// The content lines this field writes from a TOML table, before each
    /// is patched onto the line it replaces.
    fn built_lines(&self, source: &Vec<(String, Toml)>) -> (out: Vec<Vec<char>>)
        requires
            entries_writable(source@),
        ensures
            views_of(out@) == spec_built(*self, source@),
    {
        let item = match table_get(source, &chars_of(self.key)) {
            Some(item) => item,
            None => return no_lines(),
        };
        proof {
            lemma_entry_of_writable(source@, self.key@);
        }
        match self.kind {
            Kind::Scalar { escape } => match text_of(item) {
                Some(v) => {
                    if escape {
                        line_of(self.name, &escape_chars(&v))
                    } else {
                        line_of(self.name, &v)
                    }
                },
                None => no_lines(),
            },
            Kind::Enum => match text_of(item) {
                Some(v) => line_of(self.name, &to_upper(&v)),
                None => no_lines(),
            },
            Kind::Number => match item {
                Toml::Integer(i) => line_of(self.name, &int_chars(*i)),
                _ => match text_of(item) {
                    Some(v) => line_of(self.name, &v),
                    None => no_lines(),
                },
            },
            Kind::List { sep } => match item {
                Toml::Array(values) => {
                    let parts = escaped_items(values);
                    if parts.len() > 0 {
                        let mut joined_parts: Vec<char> = Vec::new();
                        let mut i: usize = 0;
                        let ghost pv = views_of(parts@);
                        proof {
                            assert(pv.take(0) =~= Seq::<Seq<char>>::empty());
                        }
                        while i < parts.len()
                            invariant
                                i <= parts.len(),
                                pv == views_of(parts@),
                                joined_parts@ == join_with(pv.take(i as int), seq![sep]),
                            decreases parts.len() - i,
                        {
                            if i > 0 {
                                joined_parts.push(sep);
                            }
                            push_all(&mut joined_parts, &parts[i]);
                            proof {
                                assert(pv.take(i + 1).drop_last() =~= pv.take(i as int));
                                assert(pv.take(i + 1).last() == parts@[i as int]@);
                                if i == 0 {
                                    assert(pv.take(1) =~= seq![parts@[0]@]);
                                }
                            }
                            i = i + 1;
                        }
                        proof {
                            assert(pv.take(i as int) =~= pv);
                        }
                        line_of(self.name, &joined_parts)
                    } else {
                        no_lines()
                    }
                },
                _ => no_lines(),
            },
            Kind::Date => self.date_built(source, item),
            Kind::CalAddress => match text_of(item) {
                Some(v) => line_of(self.name, &ensure_mailto_chars(&v)),
                None => no_lines(),
            },
            Kind::Offset => match text_of(item) {
                Some(v) => line_of(self.name, &v),
                None => no_lines(),
            },
            Kind::Attendee => attendee_built(item, self.name),
            Kind::Recur => match item {
                Toml::Table(t) => match recur_rule(t) {
                    Some(rule) => line_of(self.name, &rule),
                    None => no_lines(),
                },
                _ => no_lines(),
            },
            Kind::Duration { negative } => match item {
                Toml::Table(t) => match duration_value(t, negative) {
                    Some(value) => line_of(self.name, &value),
                    None => no_lines(),
                },
                _ => no_lines(),
            },
        }
    }

    /// This field's iCalendar content lines, built from a TOML table: none
    /// when absent or blank, so setting them removes the property.
    /// `originals` are its lines in the component, each patched rather than
    /// rebuilt, so a parameter the document does not show stays.
    pub fn content_lines(&self, source: &Vec<(String, Toml)>, originals: &Vec<Vec<char>>) -> (lines: Vec<
        Vec<char>,
    >)
        requires
            entries_writable(source@),
        ensures
            views_of(lines@) == spec_content_lines(*self, source@, views_of(originals@)),
    {
        let built = self.built_lines(source);
        let shown = self.params();
        let ghost bv = views_of(built@);
        let ghost ov = views_of(originals@);
        let mut out: Vec<Vec<char>> = Vec::new();
        let mut at: usize = 0;
        while at < built.len()
            invariant
                at <= built.len(),
                bv == views_of(built@),
                bv == spec_built(*self, source@),
                ov == views_of(originals@),
                views_of(shown@) == field_params(*self),
                out@.len() == at,
                forall|j: int|
                    0 <= j < at ==> (#[trigger] out@[j])@ == patched(
                        if j < ov.len() {
                            Some(ov[j])
                        } else {
                            None
                        },
                        bv[j],
                        field_params(*self),
                    ),
            decreases built.len() - at,
        {
            proof {
                assert(bv[at as int] == built@[at as int]@);
            }
            if at < originals.len() {
                proof {
                    assert(ov[at as int] == originals@[at as int]@);
                }
                out.push(rewritten_chars(&originals[at], &built[at], &shown));
            } else {
                out.push(copy_chars(&built[at]));
            }
            at = at + 1;
        }
        proof {
            assert(views_of(out@) =~= spec_content_lines(*self, source@, ov));
        }
        out
    }
}

/// A field whose key the document leaves out, or gives an empty text,
/// writes no line, so its property is removed on folding back.
pub proof fn law_absent_or_blank_writes_nothing(field: Field, table: Seq<(String, Toml)>, originals: Seq<Seq<char>>)
    requires
        match entry_of(table, field.key@) {
            None => true,
            Some(Toml::Text(s)) => s@.len() == 0,
            Some(_) => false,
        },
    ensures
        spec_content_lines(field, table, originals) == Seq::<Seq<char>>::empty(),
{
    assert(spec_built(field, table) =~= Seq::<Seq<char>>::empty());
    assert(spec_content_lines(field, table, originals) =~= Seq::<Seq<char>>::empty());
}

/// A text field restates the one line it stands for when the table holds
/// that line's value, unescaped where the field escapes: the line it builds
/// patches onto that line as the line itself, parameters and all, so folding
/// it back changes nothing.
pub proof fn law_text_field_restates_its_line(
    field: Field,
    table: Seq<(String, Toml)>,
    line: Seq<char>,
    text: String,
    escape: bool,
)
    requires
        field.kind == (Kind::Scalar { escape }),
        crate::patch::plain_name(field.name@),
        entry_of(table, field.key@) == Some(Toml::Text(text)),
        text@.len() > 0,
        (if escape {
            escaped(text@)
        } else {
            text@
        }) == crate::patch::spec_value(line),
        crate::patch::colon_at(line) < line.len(),
        crate::patch::spec_split(crate::patch::spec_head(line), ';').len() > 0,
        crate::patch::spec_split(crate::patch::spec_head(line), ';')[0] == field.name@,
    ensures
        spec_content_lines(field, table, seq![line]) == seq![line],
{
    crate::patch::law_restated_line_is_kept(line, field.name@, Seq::empty());
    assert(spec_built(field, table) == seq![prop_line(field.name@, crate::patch::spec_value(line))]);
    assert(field_params(field) =~= Seq::<Seq<char>>::empty());
    assert(spec_content_lines(field, table, seq![line]) =~= seq![line]);
}

/// A date-time field restates the one line it stands for when the table
/// holds the native reading of that line's value: a UTC value, or a
/// floating one with no zone given, builds that very line, and patching
/// keeps every parameter the field does not own.
pub proof fn law_date_field_restates_its_line(
    field: Field,
    table: Seq<(String, Toml)>,
    line: Seq<char>,
    dtm: TomlDatetime,
)
    requires
        field.kind == Kind::Date,
        crate::patch::plain_name(field.name@),
        entry_of(table, field.key@) == Some(Toml::Datetime(dtm)),
        spec_toml_date(crate::patch::spec_value(line)) == Some(dtm),
        trimmed(crate::patch::spec_value(line)) == crate::patch::spec_value(line),
        dtm.time is Some,
        spec_is_utc(dtm) || match entry_of(table, field.key@ + "-tz"@) {
            Some(t) => text_value(t) is None,
            None => true,
        },
        crate::patch::colon_at(line) < line.len(),
        crate::patch::spec_split(crate::patch::spec_head(line), ';').len() > 0,
        crate::patch::spec_split(crate::patch::spec_head(line), ';')[0] == field.name@,
        forall|i: int|
            1 <= i < crate::patch::spec_split(crate::patch::spec_head(line), ';').len() ==> !crate::patch::is_shown(
                field_params(field),
                #[trigger] crate::patch::spec_split(crate::patch::spec_head(line), ';')[i],
            ),
    ensures
        spec_content_lines(field, table, seq![line]) == seq![line],
{
    reveal_strlit(":");
    reveal_strlit("T");
    reveal_strlit("Z");
    let name = field.name@;
    let v = crate::patch::spec_value(line);
    crate::datetime::law_toml_date_round_trip(v);
    assert(crate::datetime::spec_until_to_ical(dtm) == v);
    let date = dtm.date.unwrap();
    let time = dtm.time.unwrap();
    let tz = match entry_of(table, field.key@ + "-tz"@) {
        Some(t) => text_value(t),
        None => None,
    };
    if spec_is_utc(dtm) {
        assert(spec_toml_date_line(name, dtm, tz) =~= name + ":"@ + v);
    } else {
        assert(tz is None);
        assert(spec_toml_date_line(name, dtm, tz) =~= name + ":"@ + v);
    }
    assert(spec_built(field, table) == seq![spec_toml_date_line(name, dtm, tz)]);
    crate::patch::law_restated_line_is_kept(line, name, field_params(field));
    assert(spec_content_lines(field, table, seq![line]) =~= seq![line]);
}

/// A field's content lines keep every parameter of the line each replaces
/// that the new line does not set and the field does not show: the line at
/// each position is the new one, under the original's parameters.
pub proof fn law_content_lines_keep_unshown_parameters(
    field: Field,
    table: Seq<(String, Toml)>,
    originals: Seq<Seq<char>>,
    at: int,
    p: Seq<char>,
)
    requires
        0 <= at < spec_built(field, table).len(),
        at < originals.len(),
        crate::patch::spec_split(crate::patch::spec_head(originals[at]), ';').drop_first().contains(p),
        crate::patch::find_same(
            crate::patch::spec_split(crate::patch::spec_head(spec_built(field, table)[at]), ';').drop_first(),
            p,
        ) is None,
        !crate::patch::is_shown(field_params(field), p),
    ensures
        spec_content_lines(field, table, originals).len() == spec_built(field, table).len(),
        exists|params: Seq<Seq<char>>|
            #[trigger] params.contains(p) && spec_content_lines(field, table, originals)[at]
                == crate::patch::spec_split(crate::patch::spec_head(spec_built(field, table)[at]), ';')[0]
                + crate::patch::params_text(params) + seq![':'] + crate::patch::spec_value(
                spec_built(field, table)[at],
            ),
{
    let line = spec_built(field, table)[at];
    crate::patch::law_omitted_parameter_stays(originals[at], line, field_params(field), p);
    assert(spec_content_lines(field, table, originals)[at] == spec_rewritten(originals[at], line, field_params(field)));
}

/// Any field restates the one line it stands for when the table builds
/// that line's own value under the field's name: patching keeps the line's
/// parameters the field does not show, so the line comes back as it was.
pub proof fn law_field_restates_its_line(field: Field, table: Seq<(String, Toml)>, line: Seq<char>)
    requires
        spec_built(field, table) == seq![prop_line(field.name@, crate::patch::spec_value(line))],
        crate::patch::plain_name(field.name@),
        crate::patch::colon_at(line) < line.len(),
        crate::patch::spec_split(crate::patch::spec_head(line), ';').len() > 0,
        crate::patch::spec_split(crate::patch::spec_head(line), ';')[0] == field.name@,
        forall|i: int|
            1 <= i < crate::patch::spec_split(crate::patch::spec_head(line), ';').len() ==> !crate::patch::is_shown(
                field_params(field),
                #[trigger] crate::patch::spec_split(crate::patch::spec_head(line), ';')[i],
            ),
    ensures
        spec_content_lines(field, table, seq![line]) == seq![line],
{
    crate::patch::law_restated_line_is_kept(line, field.name@, field_params(field));
    assert(spec_content_lines(field, table, seq![line]) =~= seq![line]);
}

proof fn lemma_all_items_flat(entries: Seq<Seq<char>>)
    ensures
        all_items(entries) == entries.map_values(|e: Seq<char>| spec_texts(e)).flatten_alt(),
    decreases entries.len(),
{
    let m = entries.map_values(|e: Seq<char>| spec_texts(e));
    if entries.len() > 0 {
        lemma_all_items_flat(entries.drop_last());
        assert(m.drop_last() =~= entries.drop_last().map_values(|e: Seq<char>| spec_texts(e)));
        assert(m.last() == spec_texts(entries.last()));
    } else {
        assert(m =~= Seq::<Seq<Seq<char>>>::empty());
    }
}

proof fn lemma_flat_len(m: Seq<Seq<Seq<char>>>)
    ensures
        m.flatten().len() == m.fold_left(0int, |n: int, x: Seq<Seq<char>>| n + x.len()),
    decreases m.len(),
{
    m.lemma_flatten_and_flatten_alt_are_equivalent();
    if m.len() > 0 {
        lemma_flat_len(m.drop_last());
        m.drop_last().lemma_flatten_and_flatten_alt_are_equivalent();
    }
}

/// A list field shows the items of every line its property occupies, in
/// order: the items of the first line, then of the second, and so on, so
/// there are as many items as all its lines hold together, and the
/// projected line is the array of exactly those.
pub proof fn law_list_shows_every_line(field: Field, entries: Seq<Seq<char>>)
    ensures
        all_items(entries) == entries.map_values(|e: Seq<char>| spec_texts(e)).flatten(),
        all_items(entries).len() == entries.map_values(|e: Seq<char>| spec_texts(e)).fold_left(
            0int,
            |n: int, x: Seq<Seq<char>>| n + x.len(),
        ),
        field.kind is List ==> spec_field_lines(field, entries) == seq![
            keyed_line(field, toml_text_array(entries.map_values(|e: Seq<char>| spec_texts(e)).flatten())),
        ],
{
    let m = entries.map_values(|e: Seq<char>| spec_texts(e));
    lemma_all_items_flat(entries);
    m.lemma_flatten_and_flatten_alt_are_equivalent();
    lemma_flat_len(m);
}

} // verus!
