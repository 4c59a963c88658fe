//! # Command-line arguments
//!
//! What the verbs of the `tcal` binary take, as plain values, and the
//! decisions they make on them: which component types a set of flags
//! selects, whether a source is literal iCalendar text, the calendar a blank
//! source is seeded with, and what a failed fold-back asks the reader.
//!
//! Reading files, standard input, the clock and the editor is the binary's
//! own work; it hands the results to these functions.

use vstd::prelude::*;

use crate::error::TcalError;
use crate::model::{is_top_level, Spec};
use crate::template::{first_unknown, type_index};
use crate::text::{chars_of, lead, lemma_lead_bounds, push_all, slice_chars, string_of, unicode_space, is_space};

verus! {

/// Positional iCalendar source shared by the template and edit verbs: a
/// path to an iCalendar file, raw iCalendar contents, or `-` for stdin;
/// none for a blank template.
pub struct SourceArg {
    pub source: Option<String>,
}

/// Selection of component types to show, by flag.
///
/// Cumulative: none shows the whole calendar, one flattens that type as the
/// document root, and two or more keep the `VCALENDAR` root and show only
/// those. A type left unselected is also left untouched on save.
pub struct ComponentFlags {
    /// Show events (`VEVENT`).
    pub event: bool,
    /// Show to-dos (`VTODO`).
    pub todo: bool,
    /// Show journals (`VJOURNAL`).
    pub journal: bool,
    /// Show free/busy reports (`VFREEBUSY`).
    pub free_busy: bool,
    /// Show time zones (`VTIMEZONE`).
    pub timezone: bool,
}

/// Where a verb writes its result: a path, stdout when it has none.
pub struct Output(pub Option<String>);

/// The editor a round trip opens, shared by the edit and merge verbs: a
/// command winning over `$VISUAL` and `$EDITOR`.
pub struct EditorArg {
    pub editor: Option<String>,
}

/// Fold an edited TOML document back onto an iCalendar: `template` in
/// reverse and `edit` without the editor.
pub struct ApplyCommand {
    /// The edited TOML document: a path, or `-` for stdin.
    pub template: String,
    /// The calendar the document was projected from.
    pub source: SourceArg,
    /// The component types the form showed, and the only ones it folds back.
    pub components: ComponentFlags,
    /// Write the resulting iCalendar here instead of stdout (or the source
    /// file, when folding onto one in place).
    pub output: Option<String>,
}

/// Edit an iCalendar as TOML in `$EDITOR`, blank or prefilled from a source.
pub struct EditCommand {
    /// The iCalendar to prefill the form from, and to fold the edits onto.
    pub source: SourceArg,
    /// The component types the form shows, and the only ones it reconciles.
    pub components: ComponentFlags,
    /// The editor the form is opened in.
    pub editor: EditorArg,
    /// Write the resulting iCalendar here instead of stdout.
    pub output: Option<String>,
}

/// Merge two divergent calendars against their base and edit the result.
pub struct MergeCommand {
    /// The common ancestor both sides were derived from.
    pub base: String,
    /// The edited side, whose changes are replayed onto the remote one.
    pub local: String,
    /// The other side.
    pub remote: String,
    /// Write the merged calendar here, once the document is decided.
    pub output: String,
    /// The editor the document is decided in.
    pub editor: EditorArg,
}

/// Print a TOML template, blank or prefilled from an iCalendar.
pub struct TemplateCommand {
    /// The iCalendar to prefill the form from.
    pub source: SourceArg,
    /// The component types the form shows.
    pub components: ComponentFlags,
    /// Write to this file instead of stdout.
    pub output: Option<String>,
}

/// The `$EDITOR` round trip over one TOML document.
pub struct Editor<'a> {
    /// The document the editor opens on.
    pub document: &'a str,
    /// The command it is edited in, where one was given.
    pub command: Option<&'a str>,
}

/// A key of the selection when its flag is on.
pub open spec fn flag_key(on: bool, key: Seq<char>) -> Seq<Seq<char>> {
    if on {
        seq![key]
    } else {
        Seq::empty()
    }
}

impl ComponentFlags {
    /// The type keys the flags select, in a stable order.
    pub open spec fn spec_selected(&self) -> Seq<Seq<char>> {
        flag_key(self.event, "event"@) + flag_key(self.todo, "todo"@) + flag_key(self.journal, "journal"@)
            + flag_key(self.free_busy, "free-busy"@) + flag_key(self.timezone, "timezone"@)
    }

    /// The selected component type keys, in a stable order; empty means no
    /// filter, so every type is shown.
    pub fn selected(&self) -> (keys: Vec<String>)
        ensures
            keys@.map_values(|k: String| k@) == self.spec_selected(),
    {
        let mut keys: Vec<String> = Vec::new();
        let ghost start = keys@.map_values(|k: String| k@);
        if self.event {
            keys.push(string_of(&chars_of("event")));
        }
        if self.todo {
            keys.push(string_of(&chars_of("todo")));
        }
        if self.journal {
            keys.push(string_of(&chars_of("journal")));
        }
        if self.free_busy {
            keys.push(string_of(&chars_of("free-busy")));
        }
        if self.timezone {
            keys.push(string_of(&chars_of("timezone")));
        }
        proof {
            assert(keys@.map_values(|k: String| k@) =~= self.spec_selected());
        }
        keys
    }
}

/// Whether every key names a type among `top`.
pub open spec fn all_known(top: Seq<Spec>, keys: Seq<Seq<char>>) -> bool {
    forall|i: int| 0 <= i < keys.len() ==> type_index(top, #[trigger] keys[i]) >= 0
}

proof fn lemma_type_index_found(top: Seq<Spec>, key: Seq<char>, j: int)
    requires
        0 <= j < top.len(),
        top[j].key@ == key,
    ensures
        type_index(top, key) >= 0,
    decreases top.len(),
{
    if !crate::text::same_ignoring_ascii_case(top[0].key@, key) {
        assert(j != 0);
        assert(top.drop_first()[j - 1] == top[j]);
        lemma_type_index_found(top.drop_first(), key, j - 1);
    }
}

proof fn lemma_all_known_first_unknown(top: Seq<Spec>, keys: Seq<Seq<char>>)
    requires
        all_known(top, keys),
    ensures
        first_unknown(top, keys) == keys.len(),
    decreases keys.len(),
{
    if keys.len() > 0 {
        assert(type_index(top, keys[0]) >= 0);
        assert forall|i: int| 0 <= i < keys.drop_first().len() implies type_index(
            top,
            #[trigger] keys.drop_first()[i],
        ) >= 0 by {
            assert(keys.drop_first()[i] == keys[i + 1]);
        }
        lemma_all_known_first_unknown(top, keys.drop_first());
    }
}

proof fn lemma_all_known_append(top: Seq<Spec>, a: Seq<Seq<char>>, b: Seq<Seq<char>>)
    requires
        all_known(top, a),
        all_known(top, b),
    ensures
        all_known(top, a + b),
{
    assert forall|i: int| 0 <= i < (a + b).len() implies type_index(top, #[trigger] (a + b)[i]) >= 0 by {
        if i < a.len() {
            assert((a + b)[i] == a[i]);
        } else {
            assert((a + b)[i] == b[i - a.len()]);
        }
    }
}

/// Every selection the component flags make names modelled component types
/// alone, so narrowing a form to it never fails on an unknown type.
pub proof fn law_flags_name_known_types(flags: ComponentFlags, top: Seq<Spec>)
    requires
        is_top_level(top),
    ensures
        first_unknown(top, flags.spec_selected()) == flags.spec_selected().len(),
{
    let keys = seq!["event"@, "todo"@, "journal"@, "free-busy"@, "timezone"@];
    assert forall|j: int| 0 <= j < 5 implies type_index(top, #[trigger] keys[j]) >= 0 by {
        assert(top[j].key@ == keys[j]);
        lemma_type_index_found(top, keys[j], j);
    }
    let parts = seq![
        flag_key(flags.event, keys[0]),
        flag_key(flags.todo, keys[1]),
        flag_key(flags.journal, keys[2]),
        flag_key(flags.free_busy, keys[3]),
        flag_key(flags.timezone, keys[4]),
    ];
    assert forall|j: int| 0 <= j < 5 implies all_known(top, #[trigger] parts[j]) by {
        assert(type_index(top, keys[j]) >= 0);
        if parts[j].len() > 0 {
            assert(parts[j] =~= seq![keys[j]]);
        }
    }
    lemma_all_known_append(top, parts[0], parts[1]);
    lemma_all_known_append(top, parts[0] + parts[1], parts[2]);
    lemma_all_known_append(top, parts[0] + parts[1] + parts[2], parts[3]);
    lemma_all_known_append(top, parts[0] + parts[1] + parts[2] + parts[3], parts[4]);
    assert(flags.spec_selected() == parts[0] + parts[1] + parts[2] + parts[3] + parts[4]);
    lemma_all_known_first_unknown(top, flags.spec_selected());
}

/// Whether a text starts with another.
pub open spec fn opens_with(s: Seq<char>, prefix: Seq<char>) -> bool {
    s.len() >= prefix.len() && s.take(prefix.len() as int) == prefix
}

fn opens_with_chars(s: &[char], prefix: &str) -> (r: bool)
    ensures
        r == opens_with(s@, prefix@),
{
    let p = chars_of(prefix);
    if s.len() < p.len() {
        return false;
    }
    let head = slice_chars(s, 0, p.len());
    proof {
        assert(head@ =~= s@.take(p@.len() as int));
    }
    crate::text::chars_eq(&head, &p)
}

impl SourceArg {
    /// Whether a source that names no file is literal iCalendar contents:
    /// its text, leading white space aside, opens a calendar or an event.
    pub open spec fn spec_is_literal(source: Seq<char>) -> bool {
        let body = source.skip(lead(source));
        opens_with(body, "BEGIN:VCALENDAR"@) || opens_with(body, "BEGIN:VEVENT"@)
    }

    /// Whether a source that names no file is literal iCalendar contents.
    pub fn is_literal(source: &str) -> (r: bool)
        ensures
            r == Self::spec_is_literal(source@),
    {
        let s = chars_of(source);
        proof {
            lemma_lead_bounds(s@);
        }
        let mut start: usize = 0;
        while start < s.len() && is_space(s[start])
            invariant
                start <= s.len(),
                start <= lead(s@),
                lead(s@) <= s@.len(),
                forall|i: int| 0 <= i < lead(s@) ==> unicode_space(#[trigger] s@[i]),
                lead(s@) < s@.len() ==> !unicode_space(s@[lead(s@)]),
            decreases s.len() - start,
        {
            start = start + 1;
        }
        let body = slice_chars(&s, start, s.len());
        proof {
            assert(body@ =~= s@.skip(lead(s@)));
        }
        opens_with_chars(&body, "BEGIN:VCALENDAR") || opens_with_chars(&body, "BEGIN:VEVENT")
    }

    /// The calendar a blank source is seeded with: one event carrying the
    /// given `UID` and `DTSTAMP`, so what comes out is a valid `VEVENT` from
    /// the start.
    pub open spec fn spec_seeded(uid: Seq<char>, stamp: Seq<char>) -> Seq<char> {
        "BEGIN:VCALENDAR\r\nVERSION:2.0\r\nPRODID:-//Pimalaya//tcal//EN\r\nBEGIN:VEVENT\r\nUID:"@ + uid
            + "\r\nDTSTAMP:"@ + stamp + "\r\nEND:VEVENT\r\nEND:VCALENDAR\r\n"@
    }

    /// The calendar a blank source is seeded with, from a fresh `UID` and
    /// the current time as a UTC `DTSTAMP` value.
    pub fn seeded(uid: &str, stamp: &str) -> (text: String)
        ensures
            text@ == Self::spec_seeded(uid@, stamp@),
    {
        let mut out = chars_of(
            "BEGIN:VCALENDAR\r\nVERSION:2.0\r\nPRODID:-//Pimalaya//tcal//EN\r\nBEGIN:VEVENT\r\nUID:",
        );
        push_all(&mut out, &chars_of(uid));
        push_all(&mut out, &chars_of("\r\nDTSTAMP:"));
        push_all(&mut out, &chars_of(stamp));
        push_all(&mut out, &chars_of("\r\nEND:VEVENT\r\nEND:VCALENDAR\r\n"));
        string_of(&out)
    }
}

impl ApplyCommand {
    /// Whether both the document and the calendar would be read from stdin,
    /// which only one of them can be.
    pub fn reads_stdin_twice(&self) -> (r: bool)
        ensures
            r == (self.template@ == "-"@ && (self.source.source matches Some(s) && s@ == "-"@)),
    {
        let dash = chars_of("-");
        let template_dash = crate::text::chars_eq(&chars_of(self.template.as_str()), &dash);
        let source_dash = match &self.source.source {
            Some(s) => crate::text::chars_eq(&chars_of(s.as_str()), &dash),
            None => false,
        };
        template_dash && source_dash
    }
}

impl Editor<'_> {
    /// What a failed fold-back asks the reader before re-opening the editor
    /// on the buffer that failed: a document that does not parse and a
    /// collision left undecided are offered a re-edit, anything else (and
    /// any failure when output is JSON, which is non-interactive) is given
    /// up on, which is `None`.
    pub fn reedit_prompt(err: &TcalError, json: bool) -> (r: Option<String>)
        ensures
            json ==> r is None,
            !json ==> (err matches TcalError::ParseToml(e) ==> (r matches Some(m) && m@
                == "Cannot parse TOML buffer:\n\n"@ + e.rendered@ + "\nRe-edit to fix it?"@)),
            !json ==> (err matches TcalError::Undecided(key) ==> (r matches Some(m) && m@ == "Property "@
                + key@
                + " is left undecided.\n\nKeep one of its lines and delete the others. Re-edit to decide it?"@)),
            !(err is ParseToml) && !(err is Undecided) ==> r is None,
    {
        if json {
            return None;
        }
        match err {
            TcalError::ParseToml(e) => {
                let text = &e.rendered;
                let mut m = chars_of("Cannot parse TOML buffer:\n\n");
                push_all(&mut m, &chars_of(text.as_str()));
                push_all(&mut m, &chars_of("\nRe-edit to fix it?"));
                let r = string_of(&m);
                proof {
                    assert(r@ == "Cannot parse TOML buffer:\n\n"@ + text@ + "\nRe-edit to fix it?"@);
                }
                Some(r)
            },
            TcalError::Undecided(key) => {
                let mut m = chars_of("Property ");
                push_all(&mut m, &chars_of(key.as_str()));
                push_all(
                    &mut m,
                    &chars_of(
                        " is left undecided.\n\nKeep one of its lines and delete the others. Re-edit to decide it?",
                    ),
                );
                Some(string_of(&m))
            },
            _ => None,
        }
    }
}

} // verus!
