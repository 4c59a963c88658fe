//! # Content lines
//!
//! The grammar a projected value is read through and patched with: a line
//! split into its head and its value, the RFC 5545 section 3.3.11 escapes that
//! value carries, and the scheme a calendar address wears.
//!
//! The projection shows a modelled property's value and the few parameters it
//! has keys for. Rebuilding the line out of the document alone would therefore
//! drop every other parameter (`RSVP`, `SENT-BY`, `ALTREP`, `LANGUAGE`), so
//! the line is patched instead.

use vstd::prelude::*;

use crate::edit::{find_char, index_of_char, lemma_index_of_char_bounds};
use crate::text::{
    chars_of, copy_chars, eq_ignore_ascii_case, push_all, same_ignoring_ascii_case, slice_chars,
    string_of,
};

verus! {

/// One content line, without its line ending.
pub struct Content<'a>(pub &'a str);

/// Where the colon ending a line's name and parameters sits, scanning with
/// the quoting state given: a colon inside a quoted parameter value does not
/// count. The length when there is none.
pub open spec fn colon_scan(s: Seq<char>, quoted: bool) -> int
    decreases s.len(),
{
    if s.len() == 0 {
        0
    } else if s[0] == '"' {
        1 + colon_scan(s.drop_first(), !quoted)
    } else if s[0] == ':' && !quoted {
        0
    } else {
        1 + colon_scan(s.drop_first(), quoted)
    }
}

pub open spec fn colon_at(s: Seq<char>) -> int {
    colon_scan(s, false)
}

/// The name and parameters of a line, its value excluded.
pub open spec fn spec_head(s: Seq<char>) -> Seq<char> {
    s.take(colon_at(s))
}

/// The value of a line, its name and parameters excluded.
pub open spec fn spec_value(s: Seq<char>) -> Seq<char> {
    if colon_at(s) < s.len() {
        s.skip(colon_at(s) + 1)
    } else {
        Seq::empty()
    }
}

pub proof fn lemma_colon_scan_bound(s: Seq<char>, quoted: bool)
    ensures
        0 <= colon_scan(s, quoted) <= s.len(),
    decreases s.len(),
{
    if s.len() > 0 {
        if s[0] == '"' {
            lemma_colon_scan_bound(s.drop_first(), !quoted);
        } else if !(s[0] == ':' && !quoted) {
            lemma_colon_scan_bound(s.drop_first(), quoted);
        }
    }
}

/// Where the colon ending a line's name and parameters sits.
fn colon(line: &[char]) -> (at: usize)
    ensures
        at as int == colon_at(line@),
        at <= line.len(),
{
    let mut quoted = false;
    let mut i: usize = 0;
    proof {
        lemma_colon_scan_bound(line@, false);
        assert(line@.skip(0) =~= line@);
    }
    while i < line.len()
        invariant
            i <= line.len(),
            colon_at(line@) == i + colon_scan(line@.skip(i as int), quoted),
        decreases line.len() - i,
    {
        let ghost rest = line@.skip(i as int);
        proof {
            assert(rest[0] == line@[i as int]);
            assert(rest.drop_first() =~= line@.skip(i + 1));
        }
        if line[i] == '"' {
            quoted = !quoted;
        } else if line[i] == ':' && !quoted {
            return i;
        }
        i = i + 1;
    }
    proof {
        assert(line@.skip(i as int) =~= Seq::<char>::empty());
    }
    i
}

/// The name and parameters of a line, its value excluded.
pub fn head_of(line: &[char]) -> (head: Vec<char>)
    ensures
        head@ == spec_head(line@),
{
    let at = colon(line);
    slice_chars(line, 0, at)
}

/// The value of a line, its name and parameters excluded.
pub fn value_of(line: &[char]) -> (value: Vec<char>)
    ensures
        value@ == spec_value(line@),
{
    let at = colon(line);
    if at < line.len() {
        slice_chars(line, at + 1, line.len())
    } else {
        Vec::new()
    }
}

/// A text value with the RFC 5545 section 3.3.11 escapes applied.
pub open spec fn escaped(s: Seq<char>) -> Seq<char>
    decreases s.len(),
{
    if s.len() == 0 {
        Seq::empty()
    } else {
        escaped_char(s[0]) + escaped(s.drop_first())
    }
}

pub open spec fn escaped_char(c: char) -> Seq<char> {
    if c == '\\' {
        seq!['\\', '\\']
    } else if c == ',' {
        seq!['\\', ',']
    } else if c == ';' {
        seq!['\\', ';']
    } else if c == '\n' {
        seq!['\\', 'n']
    } else {
        seq![c]
    }
}

/// A text value with its escapes undone: `\n` and `\N` are a newline, any
/// other escaped character stands for itself, and a lone trailing backslash
/// is kept.
pub open spec fn unescaped(s: Seq<char>) -> Seq<char>
    decreases s.len(),
{
    if s.len() == 0 {
        Seq::empty()
    } else if s[0] != '\\' {
        seq![s[0]] + unescaped(s.drop_first())
    } else if s.len() == 1 {
        seq!['\\']
    } else if s[1] == 'n' || s[1] == 'N' {
        seq!['\n'] + unescaped(s.subrange(2, s.len() as int))
    } else {
        seq![s[1]] + unescaped(s.subrange(2, s.len() as int))
    }
}

/// Undoing the escapes gives back the value escaped, for every value: the
/// projection reads back exactly the text a fold-back writes.
pub proof fn law_unescape_undoes_escape(s: Seq<char>)
    ensures
        unescaped(escaped(s)) == s,
    decreases s.len(),
{
    if s.len() > 0 {
        law_unescape_undoes_escape(s.drop_first());
        let e = escaped(s);
        let tail = escaped(s.drop_first());
        let c = s[0];
        if c == '\\' || c == ',' || c == ';' || c == '\n' {
            assert(e.subrange(2, e.len() as int) =~= tail);
        } else {
            assert(e.drop_first() =~= tail);
        }
        assert(seq![c] + s.drop_first() =~= s);
    }
}

/// Escape a text value.
pub fn escape_chars(value: &[char]) -> (out: Vec<char>)
    ensures
        out@ == escaped(value@),
{
    let mut out: Vec<char> = Vec::new();
    let mut i: usize = 0;
    proof {
        assert(value@.skip(0) =~= value@);
        assert(out@ + escaped(value@) =~= escaped(value@));
    }
    while i < value.len()
        invariant
            i <= value.len(),
            out@ + escaped(value@.skip(i as int)) == escaped(value@),
        decreases value.len() - i,
    {
        let ch = value[i];
        let ghost rest = value@.skip(i as int);
        let ghost before = out@;
        proof {
            assert(rest[0] == ch);
            assert(rest.drop_first() =~= value@.skip(i + 1));
        }
        if ch == '\\' {
            out.push('\\');
            out.push('\\');
        } else if ch == ',' {
            out.push('\\');
            out.push(',');
        } else if ch == ';' {
            out.push('\\');
            out.push(';');
        } else if ch == '\n' {
            out.push('\\');
            out.push('n');
        } else {
            out.push(ch);
        }
        proof {
            assert(out@ =~= before + escaped_char(ch));
            assert(before + escaped_char(ch) + escaped(value@.skip(i + 1)) =~= before + (
            escaped_char(ch) + escaped(value@.skip(i + 1))));
        }
        i = i + 1;
    }
    proof {
        assert(value@.skip(i as int) =~= Seq::<char>::empty());
        assert(out@ + Seq::<char>::empty() =~= out@);
    }
    out
}

/// Undo the escaping, the inverse of [`escape_chars`].
pub fn unescape_chars(value: &[char]) -> (out: Vec<char>)
    ensures
        out@ == unescaped(value@),
{
    let mut out: Vec<char> = Vec::new();
    let mut i: usize = 0;
    proof {
        assert(value@.skip(0) =~= value@);
        assert(out@ + unescaped(value@) =~= unescaped(value@));
    }
    while i < value.len()
        invariant
            i <= value.len(),
            out@ + unescaped(value@.skip(i as int)) == unescaped(value@),
        decreases value.len() - i,
    {
        let ch = value[i];
        let ghost rest = value@.skip(i as int);
        let ghost before = out@;
        proof {
            assert(rest[0] == ch);
        }
        if ch != '\\' {
            out.push(ch);
            proof {
                assert(rest.drop_first() =~= value@.skip(i + 1));
                assert(before + seq![ch] + unescaped(value@.skip(i + 1)) =~= before + (seq![ch]
                    + unescaped(value@.skip(i + 1))));
            }
            i = i + 1;
        } else if i + 1 == value.len() {
            out.push('\\');
            proof {
                assert(rest.len() == 1);
                assert(value@.skip(i + 1) =~= Seq::<char>::empty());
                assert(out@ + Seq::<char>::empty() =~= out@);
            }
            i = i + 1;
        } else {
            let next = value[i + 1];
            proof {
                assert(rest[1] == next);
                assert(rest.subrange(2, rest.len() as int) =~= value@.skip(i + 2));
            }
            if next == 'n' || next == 'N' {
                out.push('\n');
                proof {
                    assert(before + seq!['\n'] + unescaped(value@.skip(i + 2)) =~= before + (seq![
                        '\n',
                    ] + unescaped(value@.skip(i + 2))));
                }
            } else {
                out.push(next);
                proof {
                    assert(before + seq![next] + unescaped(value@.skip(i + 2)) =~= before + (seq![
                        next,
                    ] + unescaped(value@.skip(i + 2))));
                }
            }
            i = i + 2;
        }
    }
    proof {
        assert(value@.skip(i as int) =~= Seq::<char>::empty());
        assert(out@ + Seq::<char>::empty() =~= out@);
    }
    out
}

/// Escape an iCalendar text value per RFC 5545 section 3.3.11.
pub fn escape(value: &str) -> (out: String)
    ensures
        out@ == escaped(value@),
{
    string_of(&escape_chars(&chars_of(value)))
}

/// Undo that escaping, the inverse of [`escape`].
///
/// What a calendar wrote as `\,` is a comma, and either spelling of an escaped
/// newline is one.
pub fn unescape(value: &str) -> (out: String)
    ensures
        out@ == unescaped(value@),
{
    string_of(&unescape_chars(&chars_of(value)))
}


/// The pieces of `s` between every `sep` outside a quoted parameter value,
/// `cur` being the piece already begun before `s`.
pub open spec fn split_scan(s: Seq<char>, sep: char, quoted: bool, cur: Seq<char>) -> Seq<Seq<char>>
    decreases s.len(),
{
    if s.len() == 0 {
        seq![cur]
    } else if s[0] == '"' {
        split_scan(s.drop_first(), sep, !quoted, cur.push(s[0]))
    } else if s[0] == sep && !quoted {
        seq![cur] + split_scan(s.drop_first(), sep, quoted, Seq::empty())
    } else {
        split_scan(s.drop_first(), sep, quoted, cur.push(s[0]))
    }
}

pub open spec fn spec_split(s: Seq<char>, sep: char) -> Seq<Seq<char>> {
    split_scan(s, sep, false, Seq::empty())
}

pub open spec fn views_of(v: Seq<Vec<char>>) -> Seq<Seq<char>> {
    v.map_values(|x: Vec<char>| x@)
}

pub proof fn lemma_split_scan_nonempty(s: Seq<char>, sep: char, quoted: bool, cur: Seq<char>)
    ensures
        split_scan(s, sep, quoted, cur).len() >= 1,
    decreases s.len(),
{
    if s.len() > 0 {
        if s[0] == '"' {
            lemma_split_scan_nonempty(s.drop_first(), sep, !quoted, cur.push(s[0]));
        } else if s[0] == sep && !quoted {
            lemma_split_scan_nonempty(s.drop_first(), sep, quoted, Seq::empty());
        } else {
            lemma_split_scan_nonempty(s.drop_first(), sep, quoted, cur.push(s[0]));
        }
    }
}

/// Split on every `sep` outside a quoted parameter value.
pub fn split_chars(text: &[char], sep: char) -> (out: Vec<Vec<char>>)
    ensures
        views_of(out@) == spec_split(text@, sep),
        out@.len() >= 1,
{
    let mut out: Vec<Vec<char>> = Vec::new();
    let mut cur: Vec<char> = Vec::new();
    let mut quoted = false;
    let mut i: usize = 0;
    proof {
        assert(text@.skip(0) =~= text@);
        assert(views_of(out@) + spec_split(text@, sep) =~= spec_split(text@, sep));
    }
    while i < text.len()
        invariant
            i <= text.len(),
            views_of(out@) + split_scan(text@.skip(i as int), sep, quoted, cur@) == spec_split(
                text@,
                sep,
            ),
        decreases text.len() - i,
    {
        let ch = text[i];
        let ghost rest = text@.skip(i as int);
        proof {
            assert(rest[0] == ch);
            assert(rest.drop_first() =~= text@.skip(i + 1));
        }
        if ch == '"' {
            quoted = !quoted;
            cur.push(ch);
        } else if ch == sep && !quoted {
            let ghost before = views_of(out@);
            let piece = cur;
            out.push(piece);
            cur = Vec::new();
            proof {
                assert(views_of(out@) =~= before.push(piece@));
                assert(cur@ =~= Seq::<char>::empty());
                assert(before + (seq![piece@] + split_scan(text@.skip(i + 1), sep, quoted, cur@))
                    =~= before.push(piece@) + split_scan(text@.skip(i + 1), sep, quoted, cur@));
            }
        } else {
            cur.push(ch);
        }
        i = i + 1;
    }
    let ghost before = views_of(out@);
    let piece = cur;
    out.push(piece);
    proof {
        assert(text@.skip(i as int) =~= Seq::<char>::empty());
        assert(views_of(out@) =~= before.push(piece@));
        assert(before + seq![piece@] =~= before.push(piece@));
    }
    out
}

/// The items of a value split on its unescaped commas, `cur` the item begun
/// before `s`, each item still escaped.
pub open spec fn items_scan(s: Seq<char>, escaped: bool, cur: Seq<char>) -> Seq<Seq<char>>
    decreases s.len(),
{
    if s.len() == 0 {
        seq![cur]
    } else if s[0] == '\\' && !escaped {
        items_scan(s.drop_first(), true, cur.push(s[0]))
    } else if s[0] == ',' && !escaped {
        seq![cur] + items_scan(s.drop_first(), false, Seq::empty())
    } else {
        items_scan(s.drop_first(), false, cur.push(s[0]))
    }
}

/// The value as its comma-separated items, each unescaped on its own.
pub open spec fn spec_texts(line: Seq<char>) -> Seq<Seq<char>> {
    items_scan(spec_value(line), false, Seq::empty()).map_values(|item: Seq<char>| unescaped(item))
}

/// Split a value on its unescaped commas, each item unescaped.
pub fn texts_of(value: &[char]) -> (out: Vec<Vec<char>>)
    ensures
        views_of(out@) == items_scan(value@, false, Seq::empty()).map_values(
            |item: Seq<char>| unescaped(item),
        ),
{
    let mut raw: Vec<Vec<char>> = Vec::new();
    let mut cur: Vec<char> = Vec::new();
    let mut escaped = false;
    let mut i: usize = 0;
    let ghost all = items_scan(value@, false, Seq::empty());
    proof {
        assert(value@.skip(0) =~= value@);
        assert(views_of(raw@) + all =~= all);
    }
    while i < value.len()
        invariant
            i <= value.len(),
            views_of(raw@) + items_scan(value@.skip(i as int), escaped, cur@) == all,
        decreases value.len() - i,
    {
        let ch = value[i];
        let ghost rest = value@.skip(i as int);
        proof {
            assert(rest[0] == ch);
            assert(rest.drop_first() =~= value@.skip(i + 1));
        }
        if ch == '\\' && !escaped {
            escaped = true;
            cur.push(ch);
        } else if ch == ',' && !escaped {
            let ghost before = views_of(raw@);
            let piece = cur;
            raw.push(piece);
            cur = Vec::new();
            proof {
                assert(views_of(raw@) =~= before.push(piece@));
                assert(cur@ =~= Seq::<char>::empty());
                assert(before + (seq![piece@] + items_scan(value@.skip(i + 1), false, cur@))
                    =~= before.push(piece@) + items_scan(value@.skip(i + 1), false, cur@));
            }
            escaped = false;
        } else {
            escaped = false;
            cur.push(ch);
        }
        i = i + 1;
    }
    let ghost before = views_of(raw@);
    let piece = cur;
    raw.push(piece);
    proof {
        assert(value@.skip(i as int) =~= Seq::<char>::empty());
        assert(views_of(raw@) =~= before.push(piece@));
        assert(views_of(raw@) =~= all);
    }
    let mut out: Vec<Vec<char>> = Vec::new();
    let mut k: usize = 0;
    while k < raw.len()
        invariant
            k <= raw.len(),
            views_of(raw@) == all,
            out@.len() == k,
            forall|j: int| 0 <= j < k ==> (#[trigger] out@[j])@ == unescaped(raw@[j]@),
        decreases raw.len() - k,
    {
        out.push(unescape_chars(&raw[k]));
        k = k + 1;
    }
    proof {
        assert(views_of(out@) =~= all.map_values(|item: Seq<char>| unescaped(item)));
    }
    out
}

pub open spec fn mailto() -> Seq<char> {
    seq!['m', 'a', 'i', 'l', 't', 'o', ':']
}

/// A calendar address without its `mailto:` scheme (any case).
pub open spec fn spec_strip_mailto(value: Seq<char>) -> Seq<char> {
    if value.len() >= 7 && same_ignoring_ascii_case(value.take(7), mailto()) {
        value.skip(7)
    } else {
        value
    }
}

/// A calendar address with a scheme: a bare address gains `mailto:`.
pub open spec fn spec_ensure_mailto(value: Seq<char>) -> Seq<char> {
    if index_of_char(value, ':') >= 0 {
        value
    } else {
        mailto() + value
    }
}

fn mailto_chars() -> (m: Vec<char>)
    ensures
        m@ == mailto(),
{
    let m = vec!['m', 'a', 'i', 'l', 't', 'o', ':'];
    proof {
        assert(m@ =~= mailto());
    }
    m
}

pub fn strip_mailto_chars(value: &[char]) -> (out: Vec<char>)
    ensures
        out@ == spec_strip_mailto(value@),
{
    if value.len() >= 7 {
        let scheme = slice_chars(value, 0, 7);
        if eq_ignore_ascii_case(&scheme, &mailto_chars()) {
            return slice_chars(value, 7, value.len());
        }
    }
    copy_chars(value)
}

pub fn ensure_mailto_chars(value: &[char]) -> (out: Vec<char>)
    ensures
        out@ == spec_ensure_mailto(value@),
{
    match find_char(value, ':') {
        Some(_) => copy_chars(value),
        None => {
            let mut out = mailto_chars();
            push_all(&mut out, value);
            out
        },
    }
}

/// A calendar address without its `mailto:` scheme (any case), for display.
pub fn strip_mailto(value: &str) -> (out: String)
    ensures
        out@ == spec_strip_mailto(value@),
{
    string_of(&strip_mailto_chars(&chars_of(value)))
}

/// A calendar address with a scheme: a bare address gains `mailto:`.
pub fn ensure_mailto(value: &str) -> (out: String)
    ensures
        out@ == spec_ensure_mailto(value@),
{
    string_of(&ensure_mailto_chars(&chars_of(value)))
}


/// The name a parameter carries, its value excluded.
pub open spec fn param_name(param: Seq<char>) -> Seq<char> {
    if index_of_char(param, '=') >= 0 {
        param.take(index_of_char(param, '='))
    } else {
        param
    }
}

/// Whether a parameter carries the given name, compared without regard to
/// case (RFC 5545 section 3.2).
pub open spec fn named_after(param: Seq<char>, name: Seq<char>) -> bool {
    same_ignoring_ascii_case(param_name(param), name)
}

/// Whether two parameters name the same thing.
pub open spec fn same_param(one: Seq<char>, other: Seq<char>) -> bool {
    named_after(one, param_name(other))
}

/// The first of `params` naming the same thing as `param`.
pub open spec fn find_same(params: Seq<Seq<char>>, param: Seq<char>) -> Option<Seq<char>>
    decreases params.len(),
{
    if params.len() == 0 {
        None
    } else if same_param(params[0], param) {
        Some(params[0])
    } else {
        find_same(params.drop_first(), param)
    }
}

/// Whether the projection shows a parameter of that name.
pub open spec fn is_shown(shown: Seq<Seq<char>>, param: Seq<char>) -> bool {
    exists|i: int| 0 <= i < shown.len() && named_after(param, #[trigger] shown[i])
}

/// What the line's own parameters become: the document's spelling where it
/// writes one of the same name, dropped where the projection shows it and the
/// document cleared it, kept as it stood otherwise.
pub open spec fn held_pushes(held: Seq<Seq<char>>, written: Seq<Seq<char>>, shown: Seq<Seq<char>>) -> Seq<
    Seq<char>,
>
    decreases held.len(),
{
    if held.len() == 0 {
        Seq::empty()
    } else {
        let rest = held_pushes(held.drop_first(), written, shown);
        match find_same(written, held[0]) {
            Some(mine) => seq![mine] + rest,
            None => if is_shown(shown, held[0]) {
                rest
            } else {
                seq![held[0]] + rest
            },
        }
    }
}

/// The document's parameters the line did not hold, in order.
pub open spec fn written_pushes(written: Seq<Seq<char>>, held: Seq<Seq<char>>) -> Seq<Seq<char>>
    decreases written.len(),
{
    if written.len() == 0 {
        Seq::empty()
    } else {
        let rest = written_pushes(written.drop_first(), held);
        if find_same(held, written[0]) is Some {
            rest
        } else {
            seq![written[0]] + rest
        }
    }
}

/// Parameters written out, each behind its `;`.
pub open spec fn params_text(params: Seq<Seq<char>>) -> Seq<char>
    decreases params.len(),
{
    if params.len() == 0 {
        Seq::empty()
    } else {
        seq![';'] + params[0] + params_text(params.drop_first())
    }
}

/// The line a fold-back writes, patched onto the one it came from.
pub open spec fn spec_rewritten(original: Seq<char>, line: Seq<char>, shown: Seq<Seq<char>>) -> Seq<
    char,
> {
    let held = spec_split(spec_head(original), ';');
    let written = spec_split(spec_head(line), ';');
    written[0] + params_text(
        held_pushes(held.drop_first(), written.drop_first(), shown) + written_pushes(
            written.drop_first(),
            held.drop_first(),
        ),
    ) + seq![':'] + spec_value(line)
}

pub proof fn lemma_params_text_push(params: Seq<Seq<char>>, param: Seq<char>)
    ensures
        params_text(params.push(param)) == params_text(params) + seq![';'] + param,
    decreases params.len(),
{
    if params.len() == 0 {
        assert(params.push(param).drop_first() =~= Seq::<Seq<char>>::empty());
        assert(params.push(param)[0] == param);
        assert(params_text(Seq::<Seq<char>>::empty()) == Seq::<char>::empty());
        assert(params_text(params.push(param)) =~= seq![';'] + param + Seq::<char>::empty());
        assert(seq![';'] + param + Seq::<char>::empty() =~= seq![';'] + param);
        assert(params_text(params) + seq![';'] + param =~= seq![';'] + param);
    } else {
        lemma_params_text_push(params.drop_first(), param);
        assert(params.push(param).drop_first() =~= params.drop_first().push(param));
        assert(seq![';'] + params[0] + (params_text(params.drop_first()) + seq![';'] + param)
            =~= seq![';'] + params[0] + params_text(params.drop_first()) + seq![';'] + param);
    }
}

/// The name a parameter carries.
fn param_name_of(param: &[char]) -> (name: Vec<char>)
    ensures
        name@ == param_name(param@),
{
    proof {
        lemma_index_of_char_bounds(param@, '=');
    }
    match find_char(param, '=') {
        Some(at) => slice_chars(param, 0, at),
        None => copy_chars(param),
    }
}

fn same_param_exec(one: &[char], other: &[char]) -> (r: bool)
    ensures
        r == same_param(one@, other@),
{
    eq_ignore_ascii_case(&param_name_of(one), &param_name_of(other))
}

/// The index in `params` (from `from` on) of the first naming the same thing.
fn find_same_exec(params: &Vec<Vec<char>>, from: usize, param: &[char]) -> (r: Option<usize>)
    requires
        from <= params.len(),
    ensures
        match r {
            Some(k) => from <= k < params.len() && find_same(
                views_of(params@).skip(from as int),
                param@,
            ) == Some(params@[k as int]@),
            None => find_same(views_of(params@).skip(from as int), param@) is None,
        },
{
    let mut k: usize = from;
    while k < params.len()
        invariant
            from <= k <= params.len(),
            find_same(views_of(params@).skip(from as int), param@) == find_same(
                views_of(params@).skip(k as int),
                param@,
            ),
        decreases params.len() - k,
    {
        let ghost rest = views_of(params@).skip(k as int);
        proof {
            assert(rest[0] == params@[k as int]@);
            assert(rest.drop_first() =~= views_of(params@).skip(k + 1));
        }
        if same_param_exec(&params[k], param) {
            return Some(k);
        }
        k = k + 1;
    }
    proof {
        assert(views_of(params@).skip(k as int) =~= Seq::<Seq<char>>::empty());
    }
    None
}

fn is_shown_exec(shown: &Vec<Vec<char>>, param: &[char]) -> (r: bool)
    ensures
        r == is_shown(views_of(shown@), param@),
{
    let mut i: usize = 0;
    while i < shown.len()
        invariant
            i <= shown.len(),
            forall|j: int| 0 <= j < i ==> !named_after(param@, #[trigger] views_of(shown@)[j]),
        decreases shown.len() - i,
    {
        let name = param_name_of(param);
        if eq_ignore_ascii_case(&name, &shown[i]) {
            proof {
                assert(views_of(shown@)[i as int] == shown@[i as int]@);
            }
            return true;
        }
        proof {
            assert(views_of(shown@)[i as int] == shown@[i as int]@);
        }
        i = i + 1;
    }
    false
}

/// Append `;` and a parameter.
fn push_param_text(out: &mut Vec<char>, param: &[char], acc: Ghost<Seq<Seq<char>>>)
    ensures
        final(out)@ == old(out)@ + seq![';'] + param@,
{
    out.push(';');
    push_all(out, param);
}

/// The line a fold-back writes, patched onto `original`, the one it came
/// from. `shown` names the parameters the projection writes.
pub fn rewritten_chars(original: &[char], line: &[char], shown: &Vec<Vec<char>>) -> (out: Vec<char>)
    ensures
        out@ == spec_rewritten(original@, line@, views_of(shown@)),
{
    let held = split_chars(&head_of(original), ';');
    let written = split_chars(&head_of(line), ';');
    let ghost hv = views_of(held@);
    let ghost wv = views_of(written@);
    let ghost sv = views_of(shown@);
    let mut out = copy_chars(&written[0]);
    proof {
        assert(wv[0] == written@[0]@);
    }
    let ghost mut acc: Seq<Seq<char>> = Seq::empty();
    let mut i: usize = 1;
    proof {
        assert(out@ =~= wv[0] + params_text(acc));
        assert(hv.drop_first() =~= hv.skip(1));
        assert(wv.drop_first() =~= wv.skip(1));
        assert(acc + held_pushes(hv.skip(1), wv.skip(1), sv) =~= held_pushes(
            hv.skip(1),
            wv.skip(1),
            sv,
        ));
    }
    while i < held.len()
        invariant
            1 <= i <= held.len(),
            hv == views_of(held@),
            wv == views_of(written@),
            sv == views_of(shown@),
            written@.len() >= 1,
            out@ == wv[0] + params_text(acc),
            acc + held_pushes(hv.skip(i as int), wv.skip(1), sv) == held_pushes(
                hv.skip(1),
                wv.skip(1),
                sv,
            ),
        decreases held.len() - i,
    {
        let ghost rest = hv.skip(i as int);
        proof {
            assert(rest[0] == held@[i as int]@);
            assert(rest.drop_first() =~= hv.skip(i + 1));
        }
        match find_same_exec(&written, 1, &held[i]) {
            Some(k) => {
                proof {
                    lemma_params_text_push(acc, written@[k as int]@);
                }
                push_param_text(&mut out, &written[k], Ghost(acc));
                proof {
                    assert(acc.push(written@[k as int]@) + held_pushes(hv.skip(i + 1), wv.skip(1), sv)
                        =~= acc + (seq![written@[k as int]@] + held_pushes(
                        hv.skip(i + 1),
                        wv.skip(1),
                        sv,
                    )));
                    acc = acc.push(written@[k as int]@);
                    assert(out@ =~= wv[0] + params_text(acc));
                }
            },
            None => {
                if !is_shown_exec(shown, &held[i]) {
                    proof {
                        lemma_params_text_push(acc, held@[i as int]@);
                    }
                    push_param_text(&mut out, &held[i], Ghost(acc));
                    proof {
                        assert(acc.push(held@[i as int]@) + held_pushes(hv.skip(i + 1), wv.skip(1), sv)
                            =~= acc + (seq![held@[i as int]@] + held_pushes(
                            hv.skip(i + 1),
                            wv.skip(1),
                            sv,
                        )));
                        acc = acc.push(held@[i as int]@);
                        assert(out@ =~= wv[0] + params_text(acc));
                    }
                }
            },
        }
        i = i + 1;
    }
    proof {
        assert(hv.skip(i as int) =~= Seq::<Seq<char>>::empty());
        assert(acc + Seq::<Seq<char>>::empty() =~= acc);
    }
    let ghost first = acc;
    let mut j: usize = 1;
    proof {
        assert(acc + written_pushes(wv.skip(1), hv.skip(1)) =~= first + written_pushes(
            wv.skip(1),
            hv.skip(1),
        ));
    }
    while j < written.len()
        invariant
            1 <= j <= written.len(),
            hv == views_of(held@),
            wv == views_of(written@),
            held@.len() >= 1,
            out@ == wv[0] + params_text(acc),
            acc + written_pushes(wv.skip(j as int), hv.skip(1)) == first + written_pushes(
                wv.skip(1),
                hv.skip(1),
            ),
        decreases written.len() - j,
    {
        let ghost rest = wv.skip(j as int);
        proof {
            assert(rest[0] == written@[j as int]@);
            assert(rest.drop_first() =~= wv.skip(j + 1));
        }
        if find_same_exec(&held, 1, &written[j]).is_none() {
            proof {
                lemma_params_text_push(acc, written@[j as int]@);
            }
            push_param_text(&mut out, &written[j], Ghost(acc));
            proof {
                assert(acc.push(written@[j as int]@) + written_pushes(wv.skip(j + 1), hv.skip(1))
                    =~= acc + (seq![written@[j as int]@] + written_pushes(
                    wv.skip(j + 1),
                    hv.skip(1),
                )));
                acc = acc.push(written@[j as int]@);
                assert(out@ =~= wv[0] + params_text(acc));
            }
        }
        j = j + 1;
    }
    proof {
        assert(wv.skip(j as int) =~= Seq::<Seq<char>>::empty());
        assert(acc + Seq::<Seq<char>>::empty() =~= acc);
    }
    out.push(':');
    push_all(&mut out, &value_of(line));
    out
}

/// The views of a slice of strings.
pub open spec fn str_views(v: Seq<&str>) -> Seq<Seq<char>> {
    v.map_values(|x: &str| x@)
}

fn chars_of_all(v: &[&str]) -> (out: Vec<Vec<char>>)
    ensures
        views_of(out@) == str_views(v@),
{
    let mut out: Vec<Vec<char>> = Vec::new();
    let mut i: usize = 0;
    while i < v.len()
        invariant
            i <= v.len(),
            out@.len() == i,
            forall|j: int| 0 <= j < i ==> (#[trigger] out@[j])@ == v@[j]@,
        decreases v.len() - i,
    {
        out.push(chars_of(v[i]));
        i = i + 1;
    }
    proof {
        assert(views_of(out@) =~= str_views(v@));
    }
    out
}

fn strings_of(v: &Vec<Vec<char>>) -> (out: Vec<String>)
    ensures
        out@.len() == v@.len(),
        forall|j: int| 0 <= j < v@.len() ==> (#[trigger] out@[j])@ == v@[j]@,
{
    let mut out: Vec<String> = Vec::new();
    let mut i: usize = 0;
    while i < v.len()
        invariant
            i <= v.len(),
            out@.len() == i,
            forall|j: int| 0 <= j < i ==> (#[trigger] out@[j])@ == v@[j]@,
        decreases v.len() - i,
    {
        out.push(string_of(&v[i]));
        i = i + 1;
    }
    out
}

/// Split on every `sep` outside a quoted parameter value.
pub fn split(text: &str, sep: char) -> (out: Vec<String>)
    ensures
        out@.len() == spec_split(text@, sep).len(),
        forall|j: int| 0 <= j < out@.len() ==> (#[trigger] out@[j])@ == spec_split(text@, sep)[j],
{
    let pieces = split_chars(&chars_of(text), sep);
    proof {
        assert(forall|j: int| 0 <= j < pieces@.len() ==> #[trigger] views_of(pieces@)[j] == pieces@[j]@);
    }
    strings_of(&pieces)
}

impl<'a> Content<'a> {
    /// The name and parameters of the line, its value excluded.
    pub fn head(&self) -> (head: String)
        ensures
            head@ == spec_head(self.0@),
    {
        string_of(&head_of(&chars_of(self.0)))
    }

    /// The value of the line, its name and parameters excluded.
    pub fn value(&self) -> (value: String)
        ensures
            value@ == spec_value(self.0@),
    {
        string_of(&value_of(&chars_of(self.0)))
    }

    /// The value as one unescaped string, its commas kept literal.
    pub fn text(&self) -> (text: String)
        ensures
            text@ == unescaped(spec_value(self.0@)),
    {
        string_of(&unescape_chars(&value_of(&chars_of(self.0))))
    }

    /// The value as its comma-separated items, each unescaped on its own.
    ///
    /// An escaped comma stays inside the item it belongs to.
    pub fn texts(&self) -> (texts: Vec<String>)
        ensures
            texts@.len() == spec_texts(self.0@).len(),
            forall|j: int| 0 <= j < texts@.len() ==> (#[trigger] texts@[j])@ == spec_texts(self.0@)[j],
    {
        let items = texts_of(&value_of(&chars_of(self.0)));
        proof {
            assert(forall|j: int| 0 <= j < items@.len() ==> #[trigger] views_of(items@)[j] == items@[j]@);
        }
        strings_of(&items)
    }

    /// The line a fold-back writes, patched onto this one it came from.
    ///
    /// A parameter the projection shows is the document's, dropped where the
    /// document cleared it; every other one is this line's own and stays where
    /// it stood.
    pub fn rewritten(&self, line: &str, shown: &[&str]) -> (out: String)
        ensures
            out@ == spec_rewritten(self.0@, line@, str_views(shown@)),
    {
        let names = chars_of_all(shown);
        string_of(&rewritten_chars(&chars_of(self.0), &chars_of(line), &names))
    }
}

/// Pieces put back together with the separator between each two.
pub open spec fn joined_by(pieces: Seq<Seq<char>>, sep: char) -> Seq<char>
    decreases pieces.len(),
{
    if pieces.len() == 0 {
        Seq::empty()
    } else if pieces.len() == 1 {
        pieces[0]
    } else {
        pieces[0].push(sep) + joined_by(pieces.drop_first(), sep)
    }
}

/// How many `sep` stand in `s` outside a quoted parameter value, `quoted`
/// telling whether `s` starts inside one.
pub open spec fn seps_outside_quotes(s: Seq<char>, sep: char, quoted: bool) -> nat
    decreases s.len(),
{
    if s.len() == 0 {
        0
    } else {
        let rest = seps_outside_quotes(s.drop_first(), sep, if s[0] == '"' {
            !quoted
        } else {
            quoted
        });
        if s[0] != '"' && s[0] == sep && !quoted {
            rest + 1
        } else {
            rest
        }
    }
}

proof fn lemma_split_scan_joins(s: Seq<char>, sep: char, quoted: bool, cur: Seq<char>)
    ensures
        joined_by(split_scan(s, sep, quoted, cur), sep) == cur + s,
        split_scan(s, sep, quoted, cur).len() == seps_outside_quotes(s, sep, quoted) + 1,
    decreases s.len(),
{
    if s.len() == 0 {
        assert(cur + s =~= cur);
    } else if s[0] == '"' {
        lemma_split_scan_joins(s.drop_first(), sep, !quoted, cur.push(s[0]));
        assert(cur.push(s[0]) + s.drop_first() =~= cur + s);
    } else if s[0] == sep && !quoted {
        let rest = split_scan(s.drop_first(), sep, quoted, Seq::empty());
        lemma_split_scan_joins(s.drop_first(), sep, quoted, Seq::empty());
        lemma_split_scan_nonempty(s.drop_first(), sep, quoted, Seq::empty());
        let all = seq![cur] + rest;
        assert(all.drop_first() =~= rest);
        assert(all[0] == cur);
        assert(Seq::<char>::empty() + s.drop_first() =~= s.drop_first());
        assert(cur.push(sep) + s.drop_first() =~= cur + s);
    } else {
        lemma_split_scan_joins(s.drop_first(), sep, quoted, cur.push(s[0]));
        assert(cur.push(s[0]) + s.drop_first() =~= cur + s);
    }
}

/// Splitting loses nothing: the pieces joined by the separator give the
/// text back, and there is one piece more than there are separators
/// outside quoted parameter values.
pub proof fn law_split_joins_back(text: Seq<char>, sep: char)
    ensures
        joined_by(spec_split(text, sep), sep) == text,
        spec_split(text, sep).len() == seps_outside_quotes(text, sep, false) + 1,
{
    lemma_split_scan_joins(text, sep, false, Seq::empty());
    assert(Seq::<char>::empty() + text =~= text);
}

proof fn lemma_held_pushes_keep(held: Seq<Seq<char>>, written: Seq<Seq<char>>, shown: Seq<Seq<char>>, p: Seq<char>)
    requires
        held.contains(p),
        find_same(written, p) is None,
        !is_shown(shown, p),
    ensures
        held_pushes(held, written, shown).contains(p),
    decreases held.len(),
{
    let rest = held_pushes(held.drop_first(), written, shown);
    if held[0] == p {
        assert(held_pushes(held, written, shown)[0] == p);
    } else {
        let k = choose|k: int| 0 <= k < held.len() && held[k] == p;
        assert(held.drop_first()[k - 1] == p);
        lemma_held_pushes_keep(held.drop_first(), written, shown, p);
        let j = choose|j: int| 0 <= j < rest.len() && rest[j] == p;
        match find_same(written, held[0]) {
            Some(mine) => assert((seq![mine] + rest)[j + 1] == p),
            None => if !is_shown(shown, held[0]) {
                assert((seq![held[0]] + rest)[j + 1] == p);
            },
        }
    }
}

/// Patching a line onto the one it came from keeps every parameter of the
/// original that the new line does not set and the field does not own: a
/// parameter the document omits stays on the line.
pub proof fn law_omitted_parameter_stays(original: Seq<char>, line: Seq<char>, shown: Seq<Seq<char>>, p: Seq<char>)
    requires
        spec_split(spec_head(original), ';').drop_first().contains(p),
        find_same(spec_split(spec_head(line), ';').drop_first(), p) is None,
        !is_shown(shown, p),
    ensures
        exists|params: Seq<Seq<char>>|
            #[trigger] params.contains(p) && spec_rewritten(original, line, shown) == spec_split(spec_head(line), ';')[0]
                + params_text(params) + seq![':'] + spec_value(line),
{
    let held = spec_split(spec_head(original), ';');
    let written = spec_split(spec_head(line), ';');
    lemma_held_pushes_keep(held.drop_first(), written.drop_first(), shown, p);
    let kept = held_pushes(held.drop_first(), written.drop_first(), shown);
    let params = kept + written_pushes(written.drop_first(), held.drop_first());
    let j = choose|j: int| 0 <= j < kept.len() && kept[j] == p;
    assert(params[j] == p);
    assert(params.contains(p));
}

/// Whether a text is a plain name: no colon, semicolon or double quote.
pub open spec fn plain_name(name: Seq<char>) -> bool {
    forall|i: int| 0 <= i < name.len() ==> #[trigger] name[i] != ':' && name[i] != ';' && name[i] != '"'
}

proof fn lemma_colon_scan_plain(name: Seq<char>, rest: Seq<char>)
    requires
        plain_name(name),
    ensures
        colon_scan(name + rest, false) == name.len() + colon_scan(rest, false),
    decreases name.len(),
{
    if name.len() > 0 {
        assert((name + rest)[0] == name[0]);
        assert((name + rest).drop_first() =~= name.drop_first() + rest);
        assert forall|i: int| 0 <= i < name.drop_first().len() implies #[trigger] name.drop_first()[i] != ':'
            && name.drop_first()[i] != ';' && name.drop_first()[i] != '"' by {
            assert(name.drop_first()[i] == name[i + 1]);
        }
        lemma_colon_scan_plain(name.drop_first(), rest);
    } else {
        assert(name + rest =~= rest);
    }
}

proof fn lemma_split_scan_plain(name: Seq<char>, cur: Seq<char>)
    requires
        plain_name(name),
    ensures
        split_scan(name, ';', false, cur) == seq![cur + name],
    decreases name.len(),
{
    if name.len() == 0 {
        assert(cur + name =~= cur);
    } else {
        assert forall|i: int| 0 <= i < name.drop_first().len() implies #[trigger] name.drop_first()[i] != ':'
            && name.drop_first()[i] != ';' && name.drop_first()[i] != '"' by {
            assert(name.drop_first()[i] == name[i + 1]);
        }
        lemma_split_scan_plain(name.drop_first(), cur.push(name[0]));
        assert(cur.push(name[0]) + name.drop_first() =~= cur + name);
    }
}

proof fn lemma_joined_params(ps: Seq<Seq<char>>)
    requires
        ps.len() >= 1,
    ensures
        joined_by(ps, ';') == ps[0] + params_text(ps.drop_first()),
    decreases ps.len(),
{
    if ps.len() == 1 {
        assert(ps.drop_first() =~= Seq::<Seq<char>>::empty());
        assert(ps[0] + Seq::<char>::empty() =~= ps[0]);
    } else {
        lemma_joined_params(ps.drop_first());
        assert(ps.drop_first()[0] == ps[1]);
        assert(ps[0].push(';') + (ps[1] + params_text(ps.drop_first().drop_first())) =~= ps[0] + (seq![';'] + ps[1]
            + params_text(ps.drop_first().drop_first())));
    }
}

proof fn lemma_held_pushes_alone(held: Seq<Seq<char>>, shown: Seq<Seq<char>>)
    requires
        forall|i: int| 0 <= i < held.len() ==> !is_shown(shown, #[trigger] held[i]),
    ensures
        held_pushes(held, Seq::empty(), shown) == held,
    decreases held.len(),
{
    if held.len() > 0 {
        assert forall|i: int| 0 <= i < held.drop_first().len() implies !is_shown(shown, #[trigger] held.drop_first()[i]) by {
            assert(held.drop_first()[i] == held[i + 1]);
        }
        lemma_held_pushes_alone(held.drop_first(), shown);
        assert(!is_shown(shown, held[0]));
        assert(seq![held[0]] + held.drop_first() =~= held);
    }
}

/// A line written afresh, under a plain name, with the value a line already
/// has, patches onto that line as the line itself when its name is spelled
/// the same and the projection owns none of its parameters: every
/// parameter stays where it stood.
pub proof fn law_restated_line_is_kept(line: Seq<char>, name: Seq<char>, shown: Seq<Seq<char>>)
    requires
        plain_name(name),
        colon_at(line) < line.len(),
        spec_split(spec_head(line), ';').len() > 0 && spec_split(spec_head(line), ';')[0] == name,
        forall|i: int|
            1 <= i < spec_split(spec_head(line), ';').len() ==> !is_shown(
                shown,
                #[trigger] spec_split(spec_head(line), ';')[i],
            ),
    ensures
        spec_rewritten(line, name + ":"@ + spec_value(line), shown) == line,
{
    reveal_strlit(":");
    let v = spec_value(line);
    let fresh = name + ":"@ + v;
    lemma_colon_scan_plain(name, ":"@ + v);
    assert(fresh =~= name + (":"@ + v));
    assert((":"@ + v)[0] == ':');
    assert(colon_scan(":"@ + v, false) == 0);
    assert(colon_at(fresh) == name.len());
    assert(spec_head(fresh) =~= name);
    assert(spec_value(fresh) =~= v);
    lemma_split_scan_plain(name, Seq::empty());
    assert(Seq::<char>::empty() + name =~= name);
    let written = spec_split(spec_head(fresh), ';');
    assert(written == seq![name]);
    assert(written.drop_first() =~= Seq::<Seq<char>>::empty());
    let held = spec_split(spec_head(line), ';');
    lemma_split_scan_nonempty(spec_head(line), ';', false, Seq::empty());
    assert forall|i: int| 0 <= i < held.drop_first().len() implies !is_shown(shown, #[trigger] held.drop_first()[i]) by {
        assert(held.drop_first()[i] == held[i + 1]);
    }
    lemma_held_pushes_alone(held.drop_first(), shown);
    assert(written_pushes(Seq::<Seq<char>>::empty(), held.drop_first()) =~= Seq::<Seq<char>>::empty());
    assert(held.drop_first() + Seq::<Seq<char>>::empty() =~= held.drop_first());
    law_split_joins_back(spec_head(line), ';');
    lemma_joined_params(held);
    lemma_colon_scan_bound(line, false);
    assert(spec_head(line) + seq![':'] + v =~= line) by {
        lemma_colon_char(line, false);
    }
}

proof fn lemma_colon_char(s: Seq<char>, quoted: bool)
    requires
        colon_scan(s, quoted) < s.len(),
    ensures
        s[colon_scan(s, quoted)] == ':',
    decreases s.len(),
{
    if s.len() > 0 {
        if s[0] == '"' {
            lemma_colon_scan_bound(s.drop_first(), !quoted);
            lemma_colon_char(s.drop_first(), !quoted);
            assert(s[1 + colon_scan(s.drop_first(), !quoted)] == s.drop_first()[colon_scan(s.drop_first(), !quoted)]);
        } else if !(s[0] == ':' && !quoted) {
            lemma_colon_scan_bound(s.drop_first(), quoted);
            lemma_colon_char(s.drop_first(), quoted);
            assert(s[1 + colon_scan(s.drop_first(), quoted)] == s.drop_first()[colon_scan(s.drop_first(), quoted)]);
        }
    }
}

/// Whether a scan of `s` that starts with the given quoting state ends
/// inside a quoted parameter value.
pub open spec fn quote_state(s: Seq<char>, quoted: bool) -> bool
    decreases s.len(),
{
    if s.len() == 0 {
        quoted
    } else {
        quote_state(s.drop_first(), if s[0] == '"' {
            !quoted
        } else {
            quoted
        })
    }
}

proof fn lemma_scan_push(s: Seq<char>, c: char, sep: char, quoted: bool)
    ensures
        quote_state(s.push(c), quoted) == (if c == '"' {
            !quote_state(s, quoted)
        } else {
            quote_state(s, quoted)
        }),
        seps_outside_quotes(s.push(c), sep, quoted) == seps_outside_quotes(s, sep, quoted) + (if c != '"' && c
            == sep && !quote_state(s, quoted) {
            1int
        } else {
            0int
        }),
    decreases s.len(),
{
    let e = Seq::<char>::empty();
    if s.len() == 0 {
        assert(s.push(c).drop_first() =~= e);
        assert(s.push(c)[0] == c);
        assert(quote_state(e, !quoted) == !quoted);
        assert(quote_state(e, quoted) == quoted);
        assert(seps_outside_quotes(e, sep, quoted) == 0);
        assert(seps_outside_quotes(e, sep, !quoted) == 0);
        assert(quote_state(s, quoted) == quoted);
        assert(seps_outside_quotes(s, sep, quoted) == 0);
    } else {
        assert(s.push(c).drop_first() =~= s.drop_first().push(c));
        assert(s.push(c)[0] == s[0]);
        lemma_scan_push(s.drop_first(), c, sep, if s[0] == '"' {
            !quoted
        } else {
            quoted
        });
    }
}

proof fn lemma_split_pieces_clear(s: Seq<char>, sep: char, quoted: bool, cur: Seq<char>)
    requires
        seps_outside_quotes(cur, sep, false) == 0,
        quote_state(cur, false) == quoted,
    ensures
        forall|i: int|
            0 <= i < split_scan(s, sep, quoted, cur).len() ==> seps_outside_quotes(
                #[trigger] split_scan(s, sep, quoted, cur)[i],
                sep,
                false,
            ) == 0,
    decreases s.len(),
{
    let e = Seq::<char>::empty();
    if s.len() == 0 {
        assert(split_scan(s, sep, quoted, cur) == seq![cur]);
    } else if s[0] == '"' {
        lemma_scan_push(cur, s[0], sep, false);
        lemma_split_pieces_clear(s.drop_first(), sep, !quoted, cur.push(s[0]));
        assert(split_scan(s, sep, quoted, cur) == split_scan(s.drop_first(), sep, !quoted, cur.push(s[0])));
    } else if s[0] == sep && !quoted {
        assert(seps_outside_quotes(e, sep, false) == 0);
        assert(quote_state(e, false) == false);
        lemma_split_pieces_clear(s.drop_first(), sep, quoted, e);
        let rest = split_scan(s.drop_first(), sep, quoted, e);
        assert(split_scan(s, sep, quoted, cur) == seq![cur] + rest);
        assert forall|i: int| 0 <= i < (seq![cur] + rest).len() implies seps_outside_quotes(
            #[trigger] (seq![cur] + rest)[i],
            sep,
            false,
        ) == 0 by {
            if i > 0 {
                assert((seq![cur] + rest)[i] == rest[i - 1]);
            }
        }
    } else {
        lemma_scan_push(cur, s[0], sep, false);
        lemma_split_pieces_clear(s.drop_first(), sep, quoted, cur.push(s[0]));
        assert(split_scan(s, sep, quoted, cur) == split_scan(s.drop_first(), sep, quoted, cur.push(s[0])));
    }
}

/// No piece of a split holds the separator outside a quoted parameter value:
/// each is read from an unquoted start, and every such separator ends one.
pub proof fn law_split_pieces_hold_no_separator(text: Seq<char>, sep: char)
    ensures
        forall|i: int|
            0 <= i < spec_split(text, sep).len() ==> seps_outside_quotes(#[trigger] spec_split(text, sep)[i], sep, false)
                == 0,
{
    let e = Seq::<char>::empty();
    assert(seps_outside_quotes(e, sep, false) == 0);
    assert(quote_state(e, false) == false);
    lemma_split_pieces_clear(text, sep, false, e);
}

} // verus!
