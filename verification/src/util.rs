//! # Reading a content line
//!
//! A line is read through its logical form and the [`crate::patch`] grammar a
//! fold-back patches it with, so what the projection shows and what it
//! writes agree; and a parameter the document sets is written back onto one.

use vstd::prelude::*;

use crate::edit::{find_char, index_of_char, lemma_index_of_char_bounds};
use crate::patch::{
    head_of, spec_head, spec_split, spec_texts, spec_value, split_chars, texts_of, unescape_chars,
    unescaped, value_of, views_of,
};
use crate::text::{
    chars_of, eq_ignore_ascii_case, push_all, same_ignoring_ascii_case, slice_chars, to_upper,
    unicode_upper,
};
use crate::toml::Toml;

verus! {

/// The value a line carries, still escaped: everything after the colon that
/// ends its name and parameters, one inside a quoted parameter value not
/// counting. A structured value (a recurrence rule) is read in this form.
pub fn raw(line: &[char]) -> (out: Vec<char>)
    ensures
        out@ == spec_value(line@),
{
    value_of(line)
}

/// A line's value as one unescaped string.
pub open spec fn line_text(line: Seq<char>) -> Seq<char> {
    unescaped(spec_value(line))
}

/// A line's value as one unescaped string, its commas kept literal.
pub fn text(line: &[char]) -> (out: Vec<char>)
    ensures
        out@ == line_text(line@),
{
    unescape_chars(&value_of(line))
}

/// A line's value as its comma-separated items, each unescaped on its own.
pub fn items(line: &[char]) -> (out: Vec<Vec<char>>)
    ensures
        views_of(out@) == spec_texts(line@),
{
    texts_of(&value_of(line))
}

/// A text with every leading `"` removed.
pub open spec fn unquoted_front(s: Seq<char>) -> Seq<char>
    decreases s.len(),
{
    if s.len() > 0 && s[0] == '"' {
        unquoted_front(s.drop_first())
    } else {
        s
    }
}

/// A text with every trailing `"` removed.
pub open spec fn unquoted_back(s: Seq<char>) -> Seq<char>
    decreases s.len(),
{
    if s.len() > 0 && s.last() == '"' {
        unquoted_back(s.drop_last())
    } else {
        s
    }
}

/// A parameter value with the quotes around it removed, as
/// `str::trim_matches('"')` does.
pub open spec fn unquoted(s: Seq<char>) -> Seq<char> {
    unquoted_back(unquoted_front(s))
}

/// The value of the first parameter among `params` (each `NAME=value`) whose
/// name matches, ignoring ASCII case.
pub open spec fn param_of(params: Seq<Seq<char>>, name: Seq<char>) -> Option<Seq<char>>
    decreases params.len(),
{
    if params.len() == 0 {
        None
    } else {
        let p = params[0];
        let eq = index_of_char(p, '=');
        if eq >= 0 && same_ignoring_ascii_case(p.take(eq), name) {
            Some(unquoted(p.skip(eq + 1)))
        } else {
            param_of(params.drop_first(), name)
        }
    }
}

/// The first value of a named parameter of a line, unquoted.
pub open spec fn spec_param_value(line: Seq<char>, name: Seq<char>) -> Option<Seq<char>> {
    param_of(spec_split(spec_head(line), ';').drop_first(), name)
}

pub fn unquote(s: &[char]) -> (out: Vec<char>)
    ensures
        out@ == unquoted(s@),
{
    let mut start: usize = 0;
    proof {
        assert(s@.skip(0) =~= s@);
    }
    while start < s.len() && s[start] == '"'
        invariant
            start <= s.len(),
            unquoted_front(s@) == unquoted_front(s@.skip(start as int)),
        decreases s.len() - start,
    {
        proof {
            assert(s@.skip(start as int).drop_first() =~= s@.skip(start + 1));
        }
        start = start + 1;
    }
    let front = slice_chars(s, start, s.len());
    proof {
        assert(front@ =~= s@.skip(start as int));
    }
    let mut end: usize = front.len();
    proof {
        assert(front@.take(end as int) =~= front@);
    }
    while end > 0 && front[end - 1] == '"'
        invariant
            end <= front.len(),
            unquoted_back(front@) == unquoted_back(front@.take(end as int)),
        decreases end,
    {
        proof {
            assert(front@.take(end as int).drop_last() =~= front@.take(end - 1));
        }
        end = end - 1;
    }
    proof {
        assert(front@.subrange(0, end as int) =~= front@.take(end as int));
    }
    slice_chars(&front, 0, end)
}

/// The first value of a named parameter (RFC 5545 section 3.2), the quotes
/// it may be written with stripped.
pub fn param(line: &[char], name: &[char]) -> (r: Option<Vec<char>>)
    ensures
        match r {
            Some(v) => spec_param_value(line@, name@) == Some(v@),
            None => spec_param_value(line@, name@) is None,
        },
{
    let params = split_chars(&head_of(line), ';');
    let ghost all = views_of(params@).drop_first();
    if params.len() == 0 {
        return None;
    }
    let mut i: usize = 1;
    proof {
        assert(all.skip(0) =~= all);
    }
    while i < params.len()
        invariant
            1 <= i <= params.len(),
            all == views_of(params@).drop_first(),
            all == spec_split(spec_head(line@), ';').drop_first(),
            param_of(all, name@) == param_of(all.skip(i - 1), name@),
        decreases params.len() - i,
    {
        let p = &params[i];
        let ghost rest = all.skip(i - 1);
        proof {
            assert(rest[0] == p@);
            assert(rest.drop_first() =~= all.skip(i as int));
            lemma_index_of_char_bounds(p@, '=');
        }
        if let Some(eq) = find_char(p, '=') {
            let held = slice_chars(p, 0, eq);
            proof {
                assert(held@ =~= p@.take(eq as int));
            }
            if eq_ignore_ascii_case(&held, name) {
                let value = slice_chars(p, eq + 1, p.len());
                proof {
                    assert(value@ =~= p@.skip(eq + 1));
                }
                return Some(unquote(&value));
            }
        }
        i = i + 1;
    }
    proof {
        assert(all.skip(i - 1) =~= Seq::<Seq<char>>::empty());
    }
    None
}

/// Whether a parameter value holds a delimiter that calls for quoting.
pub open spec fn needs_quotes(v: Seq<char>) -> bool {
    exists|i: int| 0 <= i < v.len() && (v[i] == ',' || v[i] == ';' || v[i] == ':' || v[i] == '"')
}

/// A text with every `"` removed.
pub open spec fn without_quotes(v: Seq<char>) -> Seq<char>
    decreases v.len(),
{
    if v.len() == 0 {
        Seq::empty()
    } else if v.last() == '"' {
        without_quotes(v.drop_last())
    } else {
        without_quotes(v.drop_last()).push(v.last())
    }
}

/// The string a TOML value holds, where it is one.
pub open spec fn item_text(item: Option<Toml>) -> Option<Seq<char>> {
    match item {
        Some(Toml::Text(s)) => Some(s@),
        _ => None,
    }
}

/// The `;NAME=value` a table entry adds to a line: nothing when the entry is
/// not a non-empty string, the value uppercased when `upper`, and quoted
/// (its own quotes dropped) when it holds a delimiter.
pub open spec fn param_text(name: Seq<char>, value: Option<Seq<char>>, upper: bool) -> Seq<char> {
    match value {
        Some(v0) => if v0.len() > 0 {
            let v = if upper {
                unicode_upper(v0)
            } else {
                v0
            };
            ";"@ + name + "="@ + if needs_quotes(v) {
                "\""@ + without_quotes(v) + "\""@
            } else {
                v
            }
        } else {
            Seq::empty()
        },
        None => Seq::empty(),
    }
}

fn quote_scan(v: &[char]) -> (r: (bool, Vec<char>))
    ensures
        r.0 == needs_quotes(v@),
        r.1@ == without_quotes(v@),
{
    let mut found = false;
    let mut out: Vec<char> = Vec::new();
    let mut i: usize = 0;
    proof {
        assert(v@.take(0) =~= Seq::<char>::empty());
    }
    while i < v.len()
        invariant
            i <= v.len(),
            found == exists|j: int|
                0 <= j < i && (v@[j] == ',' || v@[j] == ';' || v@[j] == ':' || v@[j] == '"'),
            out@ == without_quotes(v@.take(i as int)),
        decreases v.len() - i,
    {
        let c = v[i];
        proof {
            assert(v@.take(i + 1).drop_last() =~= v@.take(i as int));
            assert(v@.take(i + 1).last() == c);
        }
        if c == ',' || c == ';' || c == ':' || c == '"' {
            found = true;
        }
        if c != '"' {
            out.push(c);
        }
        i = i + 1;
    }
    proof {
        assert(v@.take(i as int) =~= v@);
    }
    (found, out)
}

/// Append `;NAME=value` to `line` when the table entry is non-empty,
/// quoting on a parameter delimiter. `upper` uppercases the closed
/// vocabularies (`ROLE`, `PARTSTAT`).
pub fn push_param(line: &mut Vec<char>, name: &str, item: Option<&Toml>, upper: bool)
    ensures
        final(line)@ == old(line)@ + param_text(
            name@,
            item_text(
                match item {
                    Some(t) => Some(*t),
                    None => None,
                },
            ),
            upper,
        ),
{
    let given = match item {
        Some(Toml::Text(s)) => chars_of(s.as_str()),
        _ => {
            proof {
                assert(old(line)@ + Seq::<char>::empty() =~= old(line)@);
            }
            return;
        },
    };
    if given.len() == 0 {
        proof {
            assert(old(line)@ + Seq::<char>::empty() =~= old(line)@);
        }
        return;
    }
    let value = if upper {
        to_upper(&given)
    } else {
        given
    };
    let (quote, bare) = quote_scan(&value);
    let ghost start = line@;
    push_all(line, &chars_of(";"));
    push_all(line, &chars_of(name));
    push_all(line, &chars_of("="));
    if quote {
        push_all(line, &chars_of("\""));
        push_all(line, &bare);
        push_all(line, &chars_of("\""));
    } else {
        push_all(line, &value);
    }
    proof {
        if quote {
            assert(line@ =~= start + (";"@ + name@ + "="@ + ("\""@ + bare@ + "\""@)));
        } else {
            assert(line@ =~= start + (";"@ + name@ + "="@ + value@));
        }
    }
}

} // verus!
