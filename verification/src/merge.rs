//! # Merge
//!
//! What a three-way merge of two calendars against their common ancestor
//! puts to a reader, written into the projection of the merged calendar.
//!
//! What the merge settled by itself becomes a comment in the document
//! header. What it could not settle becomes the same key written once per
//! side, which TOML refuses as a duplicate key, so an undecided document
//! does not parse and cannot be applied; deciding it is deleting the lines
//! that are not wanted. [`TcalMerged::apply`] catches that refusal and names
//! the property left undecided rather than reporting a syntax error.
//!
//! Below it, choice is a contested key and document writes the choices and
//! notes into the projection.

pub mod choice;
pub mod document;
pub mod sides;

use vstd::prelude::*;

use crate::edit::utf8_len;
use crate::error::{TcalError, TcalResult};
use crate::merge::choice::{key_of_chars, spec_key_of};
use crate::merge::document::{lines_of, spec_decorate, text_lines, Document};
use crate::merge::sides::{choice_view, spec_unions, ChoiceView, MergeAction, MergeReason, Reading, ReadingView, Sides};
use crate::template::{spec_fold, spec_project, TcalTemplate};
use crate::edit::{spec_parse, views_text};
use crate::merge::choice::{texts_view, Choice};
use crate::model::{is_top_level, top_level, Spec};
use crate::ical::{readable, unreadable_message, TcalCalendar};
use crate::text::{chars_eq, chars_of, slice_chars, string_of};
use crate::toml::{parse_document, refusal_of, toml_document, toml_refusal};
use crate::util::unquoted;

verus! {

/// A merged calendar and the document that puts its collisions to a reader.
pub struct TcalMerged {
    /// The merged iCalendar text, the source an edited document folds onto.
    pub ical: String,
    /// The TOML projection of it: what the merge settled reads as header
    /// comments, what it did not as duplicate keys.
    pub toml: String,
}

/// One conflict a merge reports: why the local side's change did not
/// simply apply, and the remote side's change it met.
pub struct Conflict {
    pub reason: MergeReason,
    pub right: MergeAction,
}

/// The notes the conflicts read as, in the order they were reported.
pub open spec fn conflict_notes(sides: Sides, top: Seq<Spec>, conflicts: Seq<Conflict>) -> Seq<Seq<char>>
    decreases conflicts.len(),
{
    if conflicts.len() == 0 {
        Seq::empty()
    } else {
        let before = conflict_notes(sides, top, conflicts.drop_last());
        match sides.spec_reading(top, conflicts.last().reason, conflicts.last().right) {
            ReadingView::Note(n) => before.push(n),
            ReadingView::Choice(_) => before,
        }
    }
}

/// The choices the conflicts read as, in the order they were reported.
pub open spec fn conflict_choices(sides: Sides, top: Seq<Spec>, conflicts: Seq<Conflict>) -> Seq<ChoiceView>
    decreases conflicts.len(),
{
    if conflicts.len() == 0 {
        Seq::empty()
    } else {
        let before = conflict_choices(sides, top, conflicts.drop_last());
        match sides.spec_reading(top, conflicts.last().reason, conflicts.last().right) {
            ReadingView::Note(_) => before,
            ReadingView::Choice(c) => before.push(c),
        }
    }
}

/// The views of some choices.
pub open spec fn choices_view(choices: Seq<Choice>) -> Seq<ChoiceView> {
    choices.map_values(|c: Choice| choice_view(c))
}

impl TcalMerged {
    /// Put what a three-way merge produced to a reader: the merged calendar
    /// as it stands, and its projection with every conflict written into it.
    /// What the merge settled on its own (each conflict read as a note, and
    /// each list both sides edited) is said in the header; what only a
    /// reader can settle is written over the lines it contests.
    ///
    /// The merged calendar is projected as the merge left it rather than
    /// written out and read back, so what the reader decides is what the
    /// reconciliation actually produced.
    pub fn settle(
        sides: Sides,
        conflicts: &Vec<Conflict>,
        left: &Vec<MergeAction>,
        right: &Vec<MergeAction>,
    ) -> (r: TcalMerged)
        ensures
            r.ical@ == sides.merged.text(),
            exists|top: Seq<Spec>, choices: Seq<Choice>|
                #![trigger is_top_level(top), choices_view(choices)]
                is_top_level(top) && choices_view(choices) == conflict_choices(sides, top, conflicts@)
                    && r.toml@ == spec_decorate(
                    spec_project(sides.merged.view(), Seq::empty(), top),
                    spec_unions(
                        conflict_notes(sides, top, conflicts@),
                        sides.merged.view(),
                        top,
                        left@,
                        right@,
                    ),
                    choices,
                ),
    {
        let top = top_level();
        let mut notes: Vec<String> = Vec::new();
        let mut choices: Vec<Choice> = Vec::new();
        let mut i: usize = 0;
        proof {
            assert(conflicts@.take(0) =~= Seq::<Conflict>::empty());
            assert(texts_view(notes@) =~= Seq::<Seq<char>>::empty());
            assert(choices_view(choices@) =~= Seq::<ChoiceView>::empty());
        }
        while i < conflicts.len()
            invariant
                i <= conflicts.len(),
                is_top_level(top@),
                texts_view(notes@) == conflict_notes(sides, top@, conflicts@.take(i as int)),
                choices_view(choices@) == conflict_choices(sides, top@, conflicts@.take(i as int)),
            decreases conflicts.len() - i,
        {
            proof {
                assert(conflicts@.take(i + 1).drop_last() =~= conflicts@.take(i as int));
                assert(conflicts@.take(i + 1).last() == conflicts@[i as int]);
            }
            let ghost before_notes = notes@;
            let ghost before_choices = choices@;
            match sides.read_with(&top, &conflicts[i].reason, &conflicts[i].right) {
                Reading::Note(note) => {
                    notes.push(note);
                    proof {
                        assert(texts_view(notes@) =~= texts_view(before_notes).push(note@));
                        assert(choices_view(choices@) =~= choices_view(before_choices));
                    }
                },
                Reading::Choice(choice) => {
                    choices.push(choice);
                    proof {
                        assert(choices_view(choices@) =~= choices_view(before_choices).push(choice_view(choice)));
                        assert(texts_view(notes@) =~= texts_view(before_notes));
                    }
                },
            }
            i = i + 1;
        }
        proof {
            assert(conflicts@.take(i as int) =~= conflicts@);
        }
        sides.note_unions_with(&top, &mut notes, left, right);
        let ical = sides.merged.to_string();
        let template = TcalTemplate { calendar: sides.merged, types: Vec::new(), top };
        let projected = template.project();
        let toml = Document { toml: projected.as_str(), notes, choices }.decorate();
        TcalMerged { ical, toml }
    }
}

/// The index of the character at which a text's first `n` octets end, -1
/// where `n` falls inside a character or past the end.
pub open spec fn char_at_octet(s: Seq<char>, n: int) -> int
    decreases s.len(),
{
    if n == 0 {
        0
    } else if s.len() == 0 || n < utf8_len(s[0]) {
        -1
    } else {
        let rest = char_at_octet(s.drop_first(), n - utf8_len(s[0]));
        if rest < 0 {
            -1
        } else {
            rest + 1
        }
    }
}

/// The index of the last `\n` of a text, or -1.
pub open spec fn last_newline(s: Seq<char>) -> int
    decreases s.len(),
{
    if s.len() == 0 {
        -1
    } else if s.last() == '\n' {
        s.len() - 1
    } else {
        last_newline(s.drop_last())
    }
}

/// Whether a text starts with another.
pub open spec fn starts_with(s: Seq<char>, prefix: Seq<char>) -> bool {
    s.len() >= prefix.len() && s.take(prefix.len() as int) == prefix
}

/// The key a TOML refusal names as duplicated: for a message about a
/// duplicate key, the key of the line holding the byte offset where the
/// refused text starts, its quotes removed. The span of a dotted key covers
/// its last segment alone, so the key is read from its line: a reader told
/// about `min` would find no such key where the document writes
/// `trigger.min`.
pub open spec fn spec_undecided(edited: Seq<char>, message: Seq<char>, start: Option<usize>) -> Option<
    Seq<char>,
> {
    if !starts_with(message, "duplicate key"@) {
        None
    } else {
        match start {
            None => None,
            Some(n) => {
                let k = char_at_octet(edited, n as int);
                if k < 0 {
                    None
                } else {
                    let from = last_newline(edited.take(k)) + 1;
                    let lines = text_lines(edited.skip(from));
                    if lines.len() == 0 {
                        None
                    } else {
                        Some(unquoted(spec_key_of(lines[0])))
                    }
                }
            },
        }
    }
}

fn octet_char(s: &[char], n: usize) -> (r: Option<usize>)
    ensures
        match r {
            Some(k) => k as int == char_at_octet(s@, n as int) && k <= s.len(),
            None => char_at_octet(s@, n as int) < 0,
        },
{
    let mut k: usize = 0;
    let mut left: usize = n;
    proof {
        assert(s@.skip(0) =~= s@);
    }
    while left > 0
        invariant
            k <= s.len(),
            left <= n,
            char_at_octet(s@, n as int) == (if char_at_octet(s@.skip(k as int), left as int) < 0 {
                -1
            } else {
                char_at_octet(s@.skip(k as int), left as int) + k
            }),
        decreases left,
    {
        if k >= s.len() {
            proof {
                assert(s@.skip(k as int).len() == 0);
            }
            return None;
        }
        let c = s[k];
        let width: usize = if (c as u32) < 0x80 {
            1
        } else if (c as u32) < 0x800 {
            2
        } else if (c as u32) < 0x10000 {
            3
        } else {
            4
        };
        proof {
            assert(s@.skip(k as int)[0] == c);
            assert(width as int == utf8_len(c));
            assert(s@.skip(k as int).drop_first() =~= s@.skip(k + 1));
        }
        if left < width {
            return None;
        }
        left = left - width;
        k = k + 1;
    }
    Some(k)
}

/// The key a TOML refusal names as duplicated, undecided rather than
/// mistyped, from the refusal's message and the byte offset at which its
/// span starts.
pub fn undecided(edited: &str, message: &str, start: Option<usize>) -> (r: Option<String>)
    ensures
        match r {
            Some(k) => spec_undecided(edited@, message@, start) == Some(k@),
            None => spec_undecided(edited@, message@, start) is None,
        },
{
    let m = chars_of(message);
    let marker = chars_of("duplicate key");
    if m.len() < marker.len() || !chars_eq(&slice_chars(&m, 0, marker.len()), &marker) {
        proof {
            if m@.len() >= marker@.len() {
                assert(m@.subrange(0, marker@.len() as int) =~= m@.take(marker@.len() as int));
            }
        }
        return None;
    }
    proof {
        assert(m@.subrange(0, marker@.len() as int) =~= m@.take(marker@.len() as int));
    }
    let n = match start {
        Some(n) => n,
        None => return None,
    };
    let text = chars_of(edited);
    let k = match octet_char(&text, n) {
        Some(k) => k,
        None => return None,
    };
    let mut at = k;
    while at > 0 && text[at - 1] != '\n'
        invariant
            at <= k <= text.len(),
            last_newline(text@.take(k as int)) == last_newline(text@.take(at as int)),
        decreases at,
    {
        proof {
            assert(text@.take(at as int).drop_last() =~= text@.take(at - 1));
        }
        at = at - 1;
    }
    proof {
        if at > 0 {
            assert(text@.take(at as int).last() == '\n');
        }
        assert(last_newline(text@.take(k as int)) + 1 == at);
    }
    let rest = slice_chars(&text, at, text.len());
    proof {
        assert(rest@ =~= text@.skip(at as int));
    }
    let lines = lines_of(&rest);
    if lines.len() == 0 {
        proof {
            assert(lines@.map_values(|l: Vec<char>| l@).len() == 0);
        }
        return None;
    }
    proof {
        assert(lines@.map_values(|l: Vec<char>| l@)[0] == lines@[0]@);
    }
    let key = key_of_chars(&lines[0]);
    Some(string_of(&crate::util::unquote(&key)))
}

impl TcalMerged {
    /// Fold an edited document back onto the merged calendar.
    ///
    /// A collision left undecided is named by the property it lands on,
    /// rather than as the syntax error the duplicate key it is written as
    /// would otherwise be: a refusal whose message and span [`undecided`]
    /// reads as a duplicate key becomes [`TcalError::Undecided`].
    pub fn apply(&self, edited: &str) -> (r: TcalResult<String>)
        ensures
            !readable(self.ical@) ==> (r matches Err(TcalError::ParseICalendar(m)) && m@ == unreadable_message()),
            readable(self.ical@) ==> match toml_document(edited@) {
                Some(doc) => r matches Ok(out) && exists|top: Seq<Spec>|
                    #[trigger] is_top_level(top) && out@ == views_text(
                        spec_fold(spec_parse(self.ical@), doc.entries@, Seq::empty(), top),
                    ),
                None => match spec_undecided(edited@, toml_refusal(edited@).0, toml_refusal(edited@).1) {
                    Some(k) => r matches Err(TcalError::Undecided(key)) && key@ == k,
                    None => r matches Err(TcalError::ParseToml(e)) && refusal_of(e, edited@),
                },
            },
    {
        let template = match TcalTemplate::parse(self.ical.as_str()) {
            Ok(t) => t,
            Err(e) => return Err(e),
        };
        match template.apply(edited) {
            Err(TcalError::ParseToml(refusal)) => match undecided(edited, refusal.message.as_str(), refusal.start) {
                Some(key) => Err(TcalError::Undecided(key)),
                None => Err(TcalError::ParseToml(refusal)),
            },
            other => other,
        }
    }
}

/// Read one side of a merge, named by the side it is where it does not read
/// as an iCalendar.
pub fn read_side(text: &str, side: &'static str) -> (r: TcalResult<TcalCalendar>)
    ensures
        readable(text@) ==> (r matches Ok(c) && c.text() == text@ && c.view() == spec_parse(text@)),
        !readable(text@) ==> (r matches Err(TcalError::ReadCalendar { side: s, message: m }) && s@ == side@
            && m@ == unreadable_message()),
{
    match TcalCalendar::parse(text) {
        Ok(c) => Ok(c),
        Err(TcalError::ParseICalendar(message)) => Err(TcalError::ReadCalendar { side, message }),
        Err(e) => Err(e),
    }
}

/// Read the three sides of a merge, base, local then remote, naming the
/// first that does not read.
pub fn read_sides(base: &str, local: &str, remote: &str) -> (r: TcalResult<
    (TcalCalendar, TcalCalendar, TcalCalendar),
>)
    ensures
        match r {
            Ok((b, l, m)) => readable(base@) && readable(local@) && readable(remote@) && b.view() == spec_parse(
                base@,
            ) && l.view() == spec_parse(local@) && m.view() == spec_parse(remote@),
            Err(TcalError::ReadCalendar { side, message }) => message@ == unreadable_message() && if !readable(
                base@,
            ) {
                side@ == "base"@
            } else if !readable(local@) {
                side@ == "local"@
            } else {
                side@ == "remote"@ && !readable(remote@)
            },
            Err(_) => false,
        },
        readable(base@) && readable(local@) && readable(remote@) ==> r is Ok,
{
    let b = match read_side(base, "base") {
        Ok(c) => c,
        Err(e) => return Err(e),
    };
    let l = match read_side(local, "local") {
        Ok(c) => c,
        Err(e) => return Err(e),
    };
    let m = match read_side(remote, "remote") {
        Ok(c) => c,
        Err(e) => return Err(e),
    };
    Ok((b, l, m))
}

} // verus!
