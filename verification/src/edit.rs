//! A format-preserving iCalendar editor.
//!
//! A normalizing reader/writer churns line folding, parameter casing and
//! property order even where nothing changed. This editor instead keeps every
//! content line's original bytes and re-renders only the lines a caller
//! mutates, so editing one property yields a minimal diff.
//!
//! iCalendar is line-oriented (`NAME;PARAMS:VALUE`) with a single wrinkle,
//! line folding, so the layer is small. The core invariant is round-trip
//! identity: `parse(s).to_string() == s` for any input.

use vstd::prelude::*;

use crate::text::{
    chars_eq, chars_of, copy_chars, eq_ignore_ascii_case, push_all, same_ignoring_ascii_case,
    slice_chars, string_of, to_ascii_upper, trim, trimmed, ascii_upper,
};

verus! {

/// The longest octet length of a physical line before folding kicks in, per
/// RFC 5545 section 3.1.
pub const MAX_LINE_OCTETS: usize = 75;

/// A parsed iCalendar stream as a format-preserving tree.
pub struct Calendar {
    pub items: Vec<Node>,
}

/// A `BEGIN`/`END` component (`VEVENT`, `VALARM`, ...) and its contents.
pub struct Component {
    pub name: Vec<char>,
    pub begin_raw: Vec<char>,
    pub items: Vec<Node>,
    pub end_raw: Vec<char>,
}

/// One node of a [`Calendar`]: a property, a nested component, or an
/// unrecognized line (blank line, junk) kept verbatim.
pub enum Node {
    Property(Property),
    Component(Component),
    Raw(Vec<char>),
}

/// A single content line (`NAME;PARAMS:VALUE`): unfolded for matching but
/// kept byte-for-byte (folding and end of line included) for output.
pub struct Property {
    pub name: Vec<char>,
    pub logical: Vec<char>,
    pub raw: Vec<char>,
}

/// A logical (unfolded) line: its joined content and the exact original
/// characters of every physical line that made it up.
pub struct Logical {
    pub content: Vec<char>,
    pub raw: Vec<char>,
}

/// Why [`parse_block`] returned: it consumed a closing `END` (whose raw
/// characters it hands back) or reached the end of input.
pub enum Stop {
    End(Vec<char>),
    Eof,
}

/// The text one item writes out.
pub open spec fn item_text(item: Node) -> Seq<char>
    decreases item,
{
    match item {
        Node::Property(p) => p.raw@,
        Node::Raw(r) => r@,
        Node::Component(c) => c.begin_raw@ + items_text(c.items@) + c.end_raw@,
    }
}

/// The text a run of items writes out, one after the other.
pub open spec fn items_text(items: Seq<Node>) -> Seq<char>
    decreases items,
{
    if items.len() == 0 {
        Seq::empty()
    } else {
        items_text(items.subrange(0, items.len() - 1)) + item_text(items[items.len() - 1])
    }
}

/// The raw text of a run of lines, one after the other.
pub open spec fn raws(lines: Seq<Logical>) -> Seq<char>
    decreases lines.len(),
{
    if lines.len() == 0 {
        Seq::empty()
    } else {
        raws(lines.drop_last()) + lines.last().raw@
    }
}

/// The text a stop consumed.
pub open spec fn stop_text(stop: Stop) -> Seq<char> {
    match stop {
        Stop::End(raw) => raw@,
        Stop::Eof => Seq::empty(),
    }
}

impl Calendar {
    /// The text the calendar writes out.
    pub open spec fn text(&self) -> Seq<char> {
        items_text(self.items@)
    }
}

impl Component {
    /// The text the component writes out, its envelope included.
    pub open spec fn text(&self) -> Seq<char> {
        self.begin_raw@ + items_text(self.items@) + self.end_raw@
    }
}

pub proof fn lemma_items_text_push(items: Seq<Node>, item: Node)
    ensures
        items_text(items.push(item)) == items_text(items) + item_text(item),
{
    assert(items.push(item).subrange(0, items.len() as int) =~= items);
}

pub proof fn lemma_raws_push(lines: Seq<Logical>, line: Logical)
    ensures
        raws(lines.push(line)) == raws(lines) + line.raw@,
{
    assert(lines.push(line).drop_last() =~= lines);
}

/// The texts of two runs of items concatenate.
pub proof fn lemma_items_text_append(a: Seq<Node>, b: Seq<Node>)
    ensures
        items_text(a + b) == items_text(a) + items_text(b),
    decreases b.len(),
{
    if b.len() == 0 {
        assert(a + b =~= a);
        assert(items_text(a) + items_text(b) =~= items_text(a));
    } else {
        let c = b.subrange(0, b.len() - 1);
        lemma_items_text_append(a, c);
        assert((a + b).subrange(0, (a + b).len() - 1) =~= a + c);
        assert((a + b)[(a + b).len() - 1] == b[b.len() - 1]);
        assert(items_text(a) + items_text(c) + item_text(b[b.len() - 1]) =~= items_text(a) + (
        items_text(c) + item_text(b[b.len() - 1])));
    }
}

/// The raws of adjacent runs concatenate.
pub proof fn lemma_raws_split(lines: Seq<Logical>, a: int, b: int, c: int)
    requires
        0 <= a <= b <= c <= lines.len(),
    ensures
        raws(lines.subrange(a, b)) + raws(lines.subrange(b, c)) == raws(lines.subrange(a, c)),
    decreases c - b,
{
    if b == c {
        assert(lines.subrange(b, c) =~= Seq::<Logical>::empty());
        assert(raws(lines.subrange(a, b)) + Seq::<char>::empty() =~= raws(lines.subrange(a, b)));
    } else {
        lemma_raws_split(lines, a, b, c - 1);
        assert(lines.subrange(b, c).drop_last() =~= lines.subrange(b, c - 1));
        assert(lines.subrange(a, c).drop_last() =~= lines.subrange(a, c - 1));
        assert(raws(lines.subrange(a, b)) + raws(lines.subrange(b, c - 1)) + lines[c - 1].raw@
            =~= raws(lines.subrange(a, b)) + (raws(lines.subrange(b, c - 1)) + lines[c - 1].raw@));
    }
}

/// Concatenate every item's characters into `out`.
pub(crate) fn write_items(items: &Vec<Node>, out: &mut Vec<char>)
    ensures
        final(out)@ == old(out)@ + items_text(items@),
    decreases items@,
{
    let mut i: usize = 0;
    while i < items.len()
        invariant
            i <= items.len(),
            out@ == old(out)@ + items_text(items@.subrange(0, i as int)),
        decreases items.len() - i,
    {
        write_item(&items[i], out);
        proof {
            assert(items@.subrange(0, i + 1).subrange(0, i as int) =~= items@.subrange(0, i as int));
            assert(old(out)@ + items_text(items@.subrange(0, i as int)) + item_text(items@[i as int])
                =~= old(out)@ + items_text(items@.subrange(0, i + 1)));
        }
        i = i + 1;
    }
    proof {
        assert(items@.subrange(0, items@.len() as int) =~= items@);
    }
}

/// Write one item's characters into `out`.
fn write_item(item: &Node, out: &mut Vec<char>)
    ensures
        final(out)@ == old(out)@ + item_text(*item),
    decreases *item,
{
    match item {
        Node::Property(property) => push_all(out, &property.raw),
        Node::Raw(raw) => push_all(out, raw),
        Node::Component(component) => {
            push_all(out, &component.begin_raw);
            write_items(&component.items, out);
            push_all(out, &component.end_raw);
            proof {
                assert(old(out)@ + component.begin_raw@ + items_text(component.items@)
                    + component.end_raw@ =~= old(out)@ + (component.begin_raw@ + items_text(
                    component.items@) + component.end_raw@));
            }
        },
    }
}


/// The content of a physical line: its raw characters without the line
/// ending (`\r\n` or `\n`) that closes it.
pub open spec fn line_content(raw: Seq<char>) -> Seq<char> {
    if raw.len() > 0 && raw.last() == '\n' {
        if raw.len() > 1 && raw[raw.len() - 2] == '\r' {
            raw.subrange(0, raw.len() - 2)
        } else {
            raw.subrange(0, raw.len() - 1)
        }
    } else {
        raw
    }
}

/// Split `src` into physical lines, each with its content (no end of line)
/// and its raw characters (the end of line, when present, included).
fn physical_lines(src: &[char]) -> (lines: Vec<Logical>)
    ensures
        raws(lines@) == src@,
        lines@.map_values(|l: Logical| l.raw@) == physical_raws(src@),
        forall|j: int| 0 <= j < lines@.len() ==> (#[trigger] lines@[j]).content@ == line_content(
            lines@[j].raw@),
{
    let mut lines: Vec<Logical> = Vec::new();
    let mut start: usize = 0;
    let mut i: usize = 0;
    proof {
        assert(src@.subrange(0, src.len() as int) =~= src@);
        assert(lines@.map_values(|l: Logical| l.raw@) + physical_raws(src@) =~= physical_raws(src@));
    }
    while i < src.len()
        invariant
            start <= i <= src.len(),
            raws(lines@) == src@.subrange(0, start as int),
            lines@.map_values(|l: Logical| l.raw@) + physical_raws(
                src@.subrange(start as int, src.len() as int),
            ) == physical_raws(src@),
            forall|j: int| start <= j < i ==> src@[j] != '\n',
            forall|j: int| 0 <= j < lines@.len() ==> (#[trigger] lines@[j]).content@
                == line_content(lines@[j].raw@),
        decreases src.len() - i,
    {
        if src[i] == '\n' {
            let raw = slice_chars(src, start, i + 1);
            let content_end = if i > start && src[i - 1] == '\r' {
                i - 1
            } else {
                i
            };
            let content = slice_chars(src, start, content_end);
            let line = Logical { content, raw };
            proof {
                assert(content@ =~= line_content(raw@));
                lemma_raws_push(lines@, line);
                assert(src@.subrange(0, start as int) + src@.subrange(start as int, i + 1)
                    =~= src@.subrange(0, i + 1));
                let rest = src@.subrange(start as int, src.len() as int);
                let k = i - start;
                assert forall|j: int| 0 <= j < k implies rest[j] != '\n' by {
                    assert(rest[j] == src@[start + j]);
                }
                assert(rest[k] == src@[i as int]);
                lemma_index_of_char_at(rest, '\n', k);
                assert(rest.subrange(0, k + 1) =~= raw@);
                assert(rest.subrange(k + 1, rest.len() as int) =~= src@.subrange(
                    i + 1,
                    src.len() as int,
                ));
                assert(lines@.push(line).map_values(|l: Logical| l.raw@) =~= lines@.map_values(
                    |l: Logical| l.raw@,
                ).push(raw@));
                assert(lines@.map_values(|l: Logical| l.raw@).push(raw@) + physical_raws(
                    src@.subrange(i + 1, src.len() as int),
                ) =~= lines@.map_values(|l: Logical| l.raw@) + (seq![raw@] + physical_raws(
                    src@.subrange(i + 1, src.len() as int),
                )));
            }
            lines.push(line);
            start = i + 1;
        }
        i = i + 1;
    }
    if start < src.len() {
        let raw = slice_chars(src, start, src.len());
        let content = slice_chars(src, start, src.len());
        let line = Logical { content, raw };
        proof {
            assert(raw@.last() == src@[src.len() - 1]);
            assert(content@ =~= line_content(raw@));
            lemma_raws_push(lines@, line);
            assert(src@.subrange(0, start as int) + src@.subrange(start as int, src.len() as int)
                =~= src@);
            let rest = src@.subrange(start as int, src.len() as int);
            assert forall|j: int| 0 <= j < rest.len() implies rest[j] != '\n' by {
                assert(rest[j] == src@[start + j]);
            }
            lemma_index_of_char_at(rest, '\n', rest.len() as int);
            assert(rest =~= raw@);
            assert(lines@.push(line).map_values(|l: Logical| l.raw@) =~= lines@.map_values(
                |l: Logical| l.raw@,
            ) + seq![raw@]);
        }
        lines.push(line);
    } else {
        proof {
            assert(src@.subrange(start as int, src.len() as int) =~= Seq::<char>::empty());
            assert(lines@.map_values(|l: Logical| l.raw@) + Seq::<Seq<char>>::empty()
                =~= lines@.map_values(|l: Logical| l.raw@));
        }
    }
    proof {
        assert(src@.subrange(0, src.len() as int) =~= src@);
    }
    lines
}

/// Split `src` into logical lines, joining folded continuations (a physical
/// line starting with a space or tab) onto the previous line while recording
/// the exact original characters.
fn unfold(src: &[char]) -> (logicals: Vec<Logical>)
    ensures
        raws(logicals@) == src@,
        logicals_view(logicals@) == joined(physical_raws(src@)),
{
    let physical = physical_lines(src);
    let ghost phys = physical@.map_values(|l: Logical| l.raw@);
    let mut logicals: Vec<Logical> = Vec::new();
    let mut i: usize = 0;
    proof {
        assert(phys.subrange(0, 0) =~= Seq::<Seq<char>>::empty());
        assert(logicals_view(logicals@) =~= Seq::<(Seq<char>, Seq<char>)>::empty());
    }
    while i < physical.len()
        invariant
            i <= physical.len(),
            raws(logicals@) == raws(physical@.subrange(0, i as int)),
            phys == physical@.map_values(|l: Logical| l.raw@),
            forall|j: int| 0 <= j < physical@.len() ==> (#[trigger] physical@[j]).content@
                == line_content(physical@[j].raw@),
            logicals_view(logicals@) == joined(phys.subrange(0, i as int)),
        decreases physical.len() - i,
    {
        let line = &physical[i];
        let is_continuation = line.content.len() > 0 && (line.content[0] == ' '
            || line.content[0] == '\t');
        let ghost prev = logicals_view(logicals@);
        proof {
            assert(physical@.subrange(0, i + 1).drop_last() =~= physical@.subrange(0, i as int));
            assert(phys.subrange(0, i + 1).drop_last() =~= phys.subrange(0, i as int));
            assert(phys.subrange(0, i + 1).last() == line.raw@);
            assert(line.content@ == line_content(line.raw@));
            assert(is_continuation == continues(line.content@));
        }
        if is_continuation && logicals.len() > 0 {
            let ghost rest_before = logicals@;
            let mut last = logicals.pop().unwrap();
            proof {
                assert(rest_before == old_logicals(logicals@, last));
                assert(raws(old_logicals(logicals@, last)) == raws(logicals@) + last.raw@) by {
                    lemma_raws_push(logicals@, last);
                }
                assert(logicals_view(logicals@) =~= prev.drop_last());
                assert(logical_view(last) == prev.last());
            }
            let ghost before = last.raw@;
            let ghost before_content = last.content@;
            let tail = slice_chars(&line.content, 1, line.content.len());
            push_all(&mut last.content, &tail);
            push_all(&mut last.raw, &line.raw);
            proof {
                lemma_raws_push(logicals@, last);
                assert(raws(logicals@) + before + line.raw@ =~= raws(logicals@) + (before
                    + line.raw@));
                assert(logical_view(last) == (before_content + line.content@.subrange(
                    1,
                    line.content@.len() as int,
                ), before + line.raw@));
                assert(logicals_view(logicals@.push(last)) =~= logicals_view(logicals@).push(
                    logical_view(last),
                ));
            }
            logicals.push(last);
        } else {
            let next = Logical { content: copy_chars(&line.content), raw: copy_chars(&line.raw) };
            proof {
                lemma_raws_push(logicals@, next);
                assert(logicals_view(logicals@.push(next)) =~= prev.push(
                    (line_content(line.raw@), line.raw@),
                ));
            }
            logicals.push(next);
        }
        i = i + 1;
    }
    proof {
        assert(physical@.subrange(0, physical@.len() as int) =~= physical@);
        assert(phys.subrange(0, phys.len() as int) =~= phys);
    }
    logicals
}

/// The physical lines of a text: each runs up to and including a `\n`, the
/// last one up to the end of the text.
pub open spec fn physical_raws(src: Seq<char>) -> Seq<Seq<char>>
    decreases src.len(),
{
    if src.len() == 0 {
        Seq::empty()
    } else {
        let i = index_of_char(src, '\n');
        proof {
            lemma_index_of_char_bounds(src, '\n');
        }
        if i < 0 {
            seq![src]
        } else {
            seq![src.subrange(0, i + 1)] + physical_raws(src.subrange(i + 1, src.len() as int))
        }
    }
}

/// Whether a line's content opens with the space or tab of a folded
/// continuation.
pub open spec fn continues(content: Seq<char>) -> bool {
    content.len() > 0 && (content[0] == ' ' || content[0] == '\t')
}

/// The logical lines of some physical lines, each its unfolded content and
/// its original characters: a continuation line joins the line before it,
/// its leading space or tab dropped.
pub open spec fn joined(phys: Seq<Seq<char>>) -> Seq<(Seq<char>, Seq<char>)>
    decreases phys.len(),
{
    if phys.len() == 0 {
        Seq::empty()
    } else {
        let prev = joined(phys.drop_last());
        let raw = phys.last();
        let content = line_content(raw);
        if continues(content) && prev.len() > 0 {
            prev.drop_last().push(
                (prev.last().0 + content.subrange(1, content.len() as int), prev.last().1 + raw),
            )
        } else {
            prev.push((content, raw))
        }
    }
}

/// A logical line as plain values.
pub open spec fn logical_view(line: Logical) -> (Seq<char>, Seq<char>) {
    (line.content@, line.raw@)
}

pub open spec fn logicals_view(lines: Seq<Logical>) -> Seq<(Seq<char>, Seq<char>)> {
    lines.map_values(|l: Logical| logical_view(l))
}

/// The first occurrence of a character is where it first stands.
pub proof fn lemma_index_of_char_at(s: Seq<char>, c: char, k: int)
    requires
        0 <= k <= s.len(),
        k < s.len() ==> s[k] == c,
        forall|j: int| 0 <= j < k ==> s[j] != c,
        k == s.len() ==> forall|j: int| 0 <= j < s.len() ==> s[j] != c,
    ensures
        index_of_char(s, c) == (if k == s.len() {
            -1
        } else {
            k
        }),
    decreases s.len(),
{
    if s.len() > 0 && k != 0 {
        assert(s[0] != c);
        let t = s.drop_first();
        assert forall|j: int| 0 <= j < k - 1 implies t[j] != c by {
            assert(t[j] == s[j + 1]);
        }
        if k == s.len() {
            assert forall|j: int| 0 <= j < t.len() implies t[j] != c by {
                assert(t[j] == s[j + 1]);
            }
        } else {
            assert(t[k - 1] == s[k]);
        }
        lemma_index_of_char_at(t, c, k - 1);
    }
}

/// The sequence a vector held before its last element was popped.
pub open spec fn old_logicals(rest: Seq<Logical>, last: Logical) -> Seq<Logical> {
    rest.push(last)
}


/// Where a content line's name ends: the index of its first `;` or `:`, or
/// -1 when it holds neither.
pub open spec fn name_end(s: Seq<char>) -> int
    decreases s.len(),
{
    if s.len() == 0 {
        -1
    } else if s[0] == ';' || s[0] == ':' {
        0
    } else {
        let rest = name_end(s.drop_first());
        if rest < 0 {
            -1
        } else {
            rest + 1
        }
    }
}

/// The index of the first occurrence of `c`, or -1.
pub open spec fn index_of_char(s: Seq<char>, c: char) -> int
    decreases s.len(),
{
    if s.len() == 0 {
        -1
    } else if s[0] == c {
        0
    } else {
        let rest = index_of_char(s.drop_first(), c);
        if rest < 0 {
            -1
        } else {
            rest + 1
        }
    }
}

/// The property name of a content line: the characters up to the first `;`
/// or `:`, ASCII-uppercased, since names compare ignoring ASCII case.
/// `None` for blank or nameless lines.
pub open spec fn spec_property_name(content: Seq<char>) -> Option<Seq<char>> {
    if name_end(content) <= 0 {
        None
    } else {
        Some(ascii_upper(content.subrange(0, name_end(content))))
    }
}

/// The component type a `BEGIN`/`END` marker line names: its value as
/// written, ASCII-uppercased.
pub open spec fn spec_component_name(content: Seq<char>, marker: Seq<char>) -> Option<Seq<char>> {
    match spec_property_name(content) {
        Some(name) => if name != marker || index_of_char(content, ':') < 0 {
            None
        } else {
            Some(ascii_upper(content.subrange(index_of_char(content, ':') + 1, content.len() as int)))
        },
        None => None,
    }
}

pub open spec fn begin_marker() -> Seq<char> {
    seq!['B', 'E', 'G', 'I', 'N']
}

pub open spec fn end_marker() -> Seq<char> {
    seq!['E', 'N', 'D']
}

pub proof fn lemma_name_end_bounds(s: Seq<char>)
    ensures
        -1 <= name_end(s) < s.len(),
        name_end(s) >= 0 ==> (s[name_end(s)] == ';' || s[name_end(s)] == ':'),
        forall|i: int| 0 <= i < s.len() && (name_end(s) < 0 || i < name_end(s)) ==> #[trigger] s[i]
            != ';' && s[i] != ':',
    decreases s.len(),
{
    if s.len() > 0 && !(s[0] == ';' || s[0] == ':') {
        lemma_name_end_bounds(s.drop_first());
        assert forall|i: int|
            0 <= i < s.len() && (name_end(s) < 0 || i < name_end(s)) implies #[trigger] s[i] != ';'
            && s[i] != ':' by {
            if i > 0 {
                assert(s[i] == s.drop_first()[i - 1]);
            }
        }
    }
}

pub proof fn lemma_index_of_char_bounds(s: Seq<char>, c: char)
    ensures
        -1 <= index_of_char(s, c) < s.len(),
        index_of_char(s, c) >= 0 ==> s[index_of_char(s, c)] == c,
        forall|i: int|
            0 <= i < s.len() && (index_of_char(s, c) < 0 || i < index_of_char(s, c))
                ==> #[trigger] s[i] != c,
    decreases s.len(),
{
    if s.len() > 0 && s[0] != c {
        lemma_index_of_char_bounds(s.drop_first(), c);
        assert forall|i: int|
            0 <= i < s.len() && (index_of_char(s, c) < 0 || i < index_of_char(s, c))
                implies #[trigger] s[i] != c by {
            if i > 0 {
                assert(s[i] == s.drop_first()[i - 1]);
            }
        }
    }
}

/// Find the first `;` or `:`.
fn find_name_end(s: &[char]) -> (r: Option<usize>)
    ensures
        match r {
            Some(i) => i as int == name_end(s@),
            None => name_end(s@) < 0,
        },
{
    proof {
        lemma_name_end_bounds(s@);
    }
    let mut i: usize = 0;
    while i < s.len()
        invariant
            i <= s.len(),
            -1 <= name_end(s@) < s@.len(),
            name_end(s@) >= 0 ==> (s@[name_end(s@)] == ';' || s@[name_end(s@)] == ':'),
            forall|j: int| 0 <= j < s@.len() && (name_end(s@) < 0 || j < name_end(s@))
                ==> #[trigger] s@[j] != ';' && s@[j] != ':',
            name_end(s@) < 0 || i <= name_end(s@),
        decreases s.len() - i,
    {
        if s[i] == ';' || s[i] == ':' {
            return Some(i);
        }
        i = i + 1;
    }
    None
}

/// Find the first occurrence of `c`.
pub fn find_char(s: &[char], c: char) -> (r: Option<usize>)
    ensures
        match r {
            Some(i) => i as int == index_of_char(s@, c),
            None => index_of_char(s@, c) < 0,
        },
{
    proof {
        lemma_index_of_char_bounds(s@, c);
    }
    let mut i: usize = 0;
    while i < s.len()
        invariant
            i <= s.len(),
            -1 <= index_of_char(s@, c) < s@.len(),
            index_of_char(s@, c) >= 0 ==> s@[index_of_char(s@, c)] == c,
            forall|j: int|
                0 <= j < s@.len() && (index_of_char(s@, c) < 0 || j < index_of_char(s@, c))
                    ==> #[trigger] s@[j] != c,
            index_of_char(s@, c) < 0 || i <= index_of_char(s@, c),
        decreases s.len() - i,
    {
        if s[i] == c {
            return Some(i);
        }
        i = i + 1;
    }
    None
}

/// The property name of a content line, ASCII-uppercased for matching.
fn property_name(content: &[char]) -> (r: Option<Vec<char>>)
    ensures
        match r {
            Some(name) => spec_property_name(content@) == Some(name@),
            None => spec_property_name(content@).is_none(),
        },
{
    proof {
        lemma_name_end_bounds(content@);
    }
    match find_name_end(content) {
        None => None,
        Some(end) => {
            if end == 0 {
                None
            } else {
                let name = slice_chars(content, 0, end);
                Some(to_ascii_upper(&name))
            }
        },
    }
}

/// The type that a `BEGIN`/`END` marker line names, when `content` is such a
/// marker.
fn component_name(content: &[char], marker: &[char]) -> (r: Option<Vec<char>>)
    ensures
        match r {
            Some(name) => spec_component_name(content@, marker@) == Some(name@),
            None => spec_component_name(content@, marker@).is_none(),
        },
{
    let name = match property_name(content) {
        Some(name) => name,
        None => return None,
    };
    if !chars_eq(&name, marker) {
        return None;
    }
    proof {
        lemma_index_of_char_bounds(content@, ':');
    }
    let colon = match find_char(content, ':') {
        Some(colon) => colon,
        None => return None,
    };
    assert(colon < content.len());
    let value = slice_chars(content, colon + 1, content.len());
    Some(to_ascii_upper(&value))
}

/// The component type of a `BEGIN:<type>` line, ASCII-uppercased.
fn begin_name(content: &[char]) -> (r: Option<Vec<char>>)
    ensures
        match r {
            Some(name) => spec_component_name(content@, begin_marker()) == Some(name@),
            None => spec_component_name(content@, begin_marker()).is_none(),
        },
{
    let marker = vec!['B', 'E', 'G', 'I', 'N'];
    proof {
        assert(marker@ =~= begin_marker());
    }
    component_name(content, &marker)
}

/// The component type of an `END:<type>` line, ASCII-uppercased.
fn end_name(content: &[char]) -> (r: Option<Vec<char>>)
    ensures
        match r {
            Some(name) => spec_component_name(content@, end_marker()) == Some(name@),
            None => spec_component_name(content@, end_marker()).is_none(),
        },
{
    let marker = vec!['E', 'N', 'D'];
    proof {
        assert(marker@ =~= end_marker());
    }
    component_name(content, &marker)
}


/// What a line that is neither `BEGIN` nor `END` becomes: a property where
/// it has a name, else a line kept verbatim.
pub open spec fn line_item(content: Seq<char>, raw: Seq<char>) -> NodeView {
    match spec_property_name(content) {
        Some(name) => NodeView::Property { name, logical: content, raw },
        None => NodeView::Raw(raw),
    }
}

/// The `END` line a stop consumed, if any.
pub open spec fn stop_view(stop: Stop) -> Option<Seq<char>> {
    match stop {
        Stop::End(raw) => Some(raw@),
        Stop::Eof => None,
    }
}

/// Reading a block from a logical line on: the items it holds, the `END`
/// line that closed it (none at the end of input), and the line where
/// reading goes on. A `BEGIN` line opens a component whose block is read in
/// turn.
pub open spec fn spec_block(ls: Seq<(Seq<char>, Seq<char>)>, at: int) -> (
    Seq<NodeView>,
    Option<Seq<char>>,
    int,
)
    decreases ls.len() - at,
{
    if at < 0 || at >= ls.len() {
        (Seq::empty(), None, ls.len() as int)
    } else {
        let content = ls[at].0;
        let raw = ls[at].1;
        if spec_component_name(content, end_marker()) is Some {
            (Seq::empty(), Some(raw), at + 1)
        } else if spec_component_name(content, begin_marker()) is Some {
            let inner = spec_block(ls, at + 1);
            if inner.2 <= at || inner.2 > ls.len() {
                (Seq::empty(), None, ls.len() as int)
            } else {
                let component = NodeView::Component {
                    name: spec_component_name(content, begin_marker()).unwrap(),
                    begin: raw,
                    items: inner.0,
                    end: match inner.1 {
                        Some(end) => end,
                        None => Seq::empty(),
                    },
                };
                let rest = spec_block(ls, inner.2);
                (seq![component] + rest.0, rest.1, rest.2)
            }
        } else {
            let rest = spec_block(ls, at + 1);
            (seq![line_item(content, raw)] + rest.0, rest.1, rest.2)
        }
    }
}

/// The items of a whole stream read from a logical line on: block after
/// block, an `END` that closes nothing kept as a verbatim line.
pub open spec fn spec_stream(ls: Seq<(Seq<char>, Seq<char>)>, at: int) -> Seq<NodeView>
    decreases ls.len() - at,
{
    if at < 0 || at >= ls.len() {
        Seq::empty()
    } else {
        let block = spec_block(ls, at);
        if block.2 <= at || block.2 > ls.len() {
            Seq::empty()
        } else {
            block.0 + match block.1 {
                Some(end) => seq![NodeView::Raw(end)],
                None => Seq::empty(),
            } + spec_stream(ls, block.2)
        }
    }
}

/// The tree that an iCalendar text reads as.
pub open spec fn spec_parse(src: Seq<char>) -> Seq<NodeView> {
    spec_stream(joined(physical_raws(src)), 0)
}

/// The original characters of some logical lines, one after the other.
pub open spec fn view_raws(ls: Seq<(Seq<char>, Seq<char>)>) -> Seq<char>
    decreases ls.len(),
{
    if ls.len() == 0 {
        Seq::empty()
    } else {
        view_raws(ls.drop_last()) + ls.last().1
    }
}

pub proof fn lemma_views_text_append(a: Seq<NodeView>, b: Seq<NodeView>)
    ensures
        views_text(a + b) == views_text(a) + views_text(b),
    decreases b.len(),
{
    if b.len() == 0 {
        assert(a + b =~= a);
        assert(views_text(a) + views_text(b) =~= views_text(a));
    } else {
        let c = b.subrange(0, b.len() - 1);
        lemma_views_text_append(a, c);
        assert((a + b).subrange(0, (a + b).len() - 1) =~= a + c);
        assert((a + b)[(a + b).len() - 1] == b[b.len() - 1]);
        assert(views_text(a) + views_text(c) + view_text(b[b.len() - 1]) =~= views_text(a) + (
        views_text(c) + view_text(b[b.len() - 1])));
    }
}

pub proof fn lemma_views_text_single(x: NodeView)
    ensures
        views_text(seq![x]) == view_text(x),
{
    assert(seq![x].subrange(0, 0) =~= Seq::<NodeView>::empty());
    assert(seq![x][0] == x);
    assert(views_text(Seq::<NodeView>::empty()) == Seq::<char>::empty());
    assert(Seq::<char>::empty() + view_text(x) =~= view_text(x));
}

pub proof fn lemma_view_raws_split(ls: Seq<(Seq<char>, Seq<char>)>, a: int, b: int, c: int)
    requires
        0 <= a <= b <= c <= ls.len(),
    ensures
        view_raws(ls.subrange(a, b)) + view_raws(ls.subrange(b, c)) == view_raws(ls.subrange(a, c)),
    decreases c - b,
{
    if b == c {
        assert(ls.subrange(b, c) =~= Seq::<(Seq<char>, Seq<char>)>::empty());
        assert(view_raws(ls.subrange(a, b)) + Seq::<char>::empty() =~= view_raws(ls.subrange(a, b)));
    } else {
        lemma_view_raws_split(ls, a, b, c - 1);
        assert(ls.subrange(b, c).drop_last() =~= ls.subrange(b, c - 1));
        assert(ls.subrange(a, c).drop_last() =~= ls.subrange(a, c - 1));
        assert(view_raws(ls.subrange(a, b)) + view_raws(ls.subrange(b, c - 1)) + ls[c - 1].1
            =~= view_raws(ls.subrange(a, b)) + (view_raws(ls.subrange(b, c - 1)) + ls[c - 1].1));
    }
}

/// The physical lines of a text, one after the other, are the text.
pub proof fn lemma_physical_flatten(src: Seq<char>)
    ensures
        physical_raws(src).flatten() == src,
    decreases src.len(),
{
    if src.len() > 0 {
        let i = index_of_char(src, '\n');
        lemma_index_of_char_bounds(src, '\n');
        if i < 0 {
            seq![src].lemma_flatten_one_element();
        } else {
            let rest = src.subrange(i + 1, src.len() as int);
            lemma_physical_flatten(rest);
            vstd::seq_lib::lemma_flatten_concat(seq![src.subrange(0, i + 1)], physical_raws(rest));
            seq![src.subrange(0, i + 1)].lemma_flatten_one_element();
            assert(src.subrange(0, i + 1) + rest =~= src);
        }
    }
}

/// Joining continuation lines keeps every original character in order.
pub proof fn lemma_joined_raws(phys: Seq<Seq<char>>)
    ensures
        view_raws(joined(phys)) == phys.flatten_alt(),
        phys.len() > 0 ==> joined(phys).len() > 0,
    decreases phys.len(),
{
    if phys.len() > 0 {
        let prev = joined(phys.drop_last());
        lemma_joined_raws(phys.drop_last());
        let raw = phys.last();
        let content = line_content(raw);
        if continues(content) && prev.len() > 0 {
            let x = (prev.last().0 + content.subrange(1, content.len() as int), prev.last().1 + raw);
            assert(prev.drop_last().push(x).drop_last() =~= prev.drop_last());
            assert(view_raws(prev.drop_last()) + (prev.last().1 + raw) =~= view_raws(prev.drop_last())
                + prev.last().1 + raw);
        } else {
            assert(prev.push((content, raw)).drop_last() =~= prev);
        }
    }
}

/// Reading a block consumes at least one line where any is left, and the
/// items it reads, with the `END` line that closed it, write out exactly the
/// lines it consumed.
pub proof fn lemma_block_text(ls: Seq<(Seq<char>, Seq<char>)>, at: int)
    requires
        0 <= at <= ls.len(),
    ensures
        at < ls.len() ==> at < spec_block(ls, at).2 <= ls.len(),
        at == ls.len() ==> spec_block(ls, at).2 == ls.len(),
        views_text(spec_block(ls, at).0) + match spec_block(ls, at).1 {
            Some(end) => end,
            None => Seq::empty(),
        } == view_raws(ls.subrange(at, spec_block(ls, at).2)),
    decreases ls.len() - at,
{
    if at == ls.len() {
        assert(ls.subrange(at, at) =~= Seq::<(Seq<char>, Seq<char>)>::empty());
        assert(views_text(Seq::<NodeView>::empty()) + Seq::<char>::empty() =~= Seq::<char>::empty());
    } else {
        let content = ls[at].0;
        let raw = ls[at].1;
        assert(ls.subrange(at, at + 1).drop_last() =~= Seq::<(Seq<char>, Seq<char>)>::empty());
        assert(ls.subrange(at, at + 1).last() == ls[at]);
        assert(view_raws(Seq::<(Seq<char>, Seq<char>)>::empty()) == Seq::<char>::empty());
        assert(Seq::<char>::empty() + raw =~= raw);
        assert(view_raws(ls.subrange(at, at + 1)) =~= raw);
        if spec_component_name(content, end_marker()) is Some {
            assert(views_text(Seq::<NodeView>::empty()) + raw =~= raw);
        } else if spec_component_name(content, begin_marker()) is Some {
            let inner = spec_block(ls, at + 1);
            lemma_block_text(ls, at + 1);
            let rest = spec_block(ls, inner.2);
            lemma_block_text(ls, inner.2);
            let component = NodeView::Component {
                name: spec_component_name(content, begin_marker()).unwrap(),
                begin: raw,
                items: inner.0,
                end: match inner.1 {
                    Some(end) => end,
                    None => Seq::empty(),
                },
            };
            let tail = match rest.1 {
                Some(end) => end,
                None => Seq::<char>::empty(),
            };
            lemma_views_text_append(seq![component], rest.0);
            lemma_views_text_single(component);
            lemma_view_raws_split(ls, at, at + 1, inner.2);
            lemma_view_raws_split(ls, at, inner.2, rest.2);
            assert(views_text(seq![component] + rest.0) + tail =~= raw + (views_text(inner.0)
                + component->end) + (views_text(rest.0) + tail));
        } else {
            let rest = spec_block(ls, at + 1);
            lemma_block_text(ls, at + 1);
            let item = line_item(content, raw);
            let tail = match rest.1 {
                Some(end) => end,
                None => Seq::<char>::empty(),
            };
            lemma_views_text_append(seq![item], rest.0);
            lemma_views_text_single(item);
            assert(view_text(item) == raw);
            lemma_view_raws_split(ls, at, at + 1, rest.2);
            assert(views_text(seq![item] + rest.0) + tail =~= raw + (views_text(rest.0) + tail));
        }
    }
}

/// A whole stream read from a line on writes out exactly the lines from
/// there to the end.
pub proof fn lemma_stream_text(ls: Seq<(Seq<char>, Seq<char>)>, at: int)
    requires
        0 <= at <= ls.len(),
    ensures
        views_text(spec_stream(ls, at)) == view_raws(ls.subrange(at, ls.len() as int)),
    decreases ls.len() - at,
{
    if at == ls.len() {
        assert(ls.subrange(at, at) =~= Seq::<(Seq<char>, Seq<char>)>::empty());
    } else {
        let block = spec_block(ls, at);
        lemma_block_text(ls, at);
        lemma_stream_text(ls, block.2);
        let tail = match block.1 {
            Some(end) => seq![NodeView::Raw(end)],
            None => Seq::<NodeView>::empty(),
        };
        let end = match block.1 {
            Some(end) => end,
            None => Seq::<char>::empty(),
        };
        lemma_views_text_append(block.0 + tail, spec_stream(ls, block.2));
        lemma_views_text_append(block.0, tail);
        if block.1 is Some {
            lemma_views_text_single(NodeView::Raw(end));
        }
        assert(views_text(tail) == end);
        lemma_view_raws_split(ls, at, block.2, ls.len() as int);
    }
}

/// Reading a text and writing the tree back out gives the text again, for
/// every input: the reader drops, adds and moves no character.
pub proof fn law_parse_round_trip(src: Seq<char>)
    ensures
        views_text(spec_parse(src)) == src,
{
    let phys = physical_raws(src);
    let ls = joined(phys);
    lemma_stream_text(ls, 0);
    assert(ls.subrange(0, ls.len() as int) =~= ls);
    lemma_joined_raws(phys);
    phys.lemma_flatten_and_flatten_alt_are_equivalent();
    lemma_physical_flatten(src);
}

/// Parse items until the matching `END` or the end of input. `BEGIN`
/// recurses, so an `END` closes the innermost open component.
fn parse_block(logicals: &Vec<Logical>, cursor: &mut usize) -> (res: (Vec<Node>, Stop))
    requires
        *old(cursor) <= logicals.len(),
    ensures
        *old(cursor) <= *final(cursor) <= logicals.len(),
        items_text(res.0@) + stop_text(res.1) == raws(
            logicals@.subrange(*old(cursor) as int, *final(cursor) as int),
        ),
        res.1 is Eof ==> *final(cursor) == logicals.len(),
        res.1 is End ==> *old(cursor) < *final(cursor),
        (items_view(res.0@), stop_view(res.1), *final(cursor) as int) == spec_block(
            logicals_view(logicals@),
            *old(cursor) as int,
        ),
    decreases logicals.len() - *old(cursor),
{
    let start = *cursor;
    let ghost ls = logicals_view(logicals@);
    let mut items: Vec<Node> = Vec::new();
    proof {
        assert(items_view(items@) + spec_block(ls, start as int).0 =~= spec_block(ls, start as int).0);
    }
    while *cursor < logicals.len()
        invariant
            start == *old(cursor),
            start <= *cursor <= logicals.len(),
            items_text(items@) == raws(logicals@.subrange(start as int, *cursor as int)),
            ls == logicals_view(logicals@),
            spec_block(ls, start as int) == (
                items_view(items@) + spec_block(ls, *cursor as int).0,
                spec_block(ls, *cursor as int).1,
                spec_block(ls, *cursor as int).2,
            ),
        decreases logicals.len() - *cursor,
    {
        let at = *cursor;
        let logical = &logicals[at];
        proof {
            assert(ls[at as int] == (logical.content@, logical.raw@));
        }
        proof {
            lemma_raws_split(logicals@, start as int, at as int, at + 1);
            assert(logicals@.subrange(at as int, at + 1).drop_last() =~= Seq::<Logical>::empty());
            let single = logicals@.subrange(at as int, at + 1);
            assert(single.last() == logicals@[at as int]);
            assert(raws(single.drop_last()) == Seq::<char>::empty());
            assert(Seq::<char>::empty() + logical.raw@ =~= logical.raw@);
            assert(raws(single) =~= logical.raw@);
        }
        if end_name(&logical.content).is_some() {
            let end_raw = copy_chars(&logical.raw);
            *cursor = at + 1;
            proof {
                assert(items_view(items@) + Seq::<NodeView>::empty() =~= items_view(items@));
            }
            return (items, Stop::End(end_raw));
        }
        if begin_name(&logical.content).is_some() {
            let name = begin_name(&logical.content).unwrap();
            let begin_raw = copy_chars(&logical.raw);
            *cursor = at + 1;
            let (inner, stop) = parse_block(logicals, cursor);
            let after = *cursor;
            let ghost inner_stop = stop_view(stop);
            let end_raw = match stop {
                Stop::End(raw) => raw,
                Stop::Eof => Vec::new(),
            };
            let component = Component { name, begin_raw, items: inner, end_raw };
            proof {
                let rest = spec_block(ls, after as int);
                assert(end_raw@ == match inner_stop {
                    Some(end) => end,
                    None => Seq::<char>::empty(),
                });
                assert(spec_block(ls, at as int) == (
                    seq![item_view(Node::Component(component))] + rest.0,
                    rest.1,
                    rest.2,
                ));
                lemma_items_view_push(items@, Node::Component(component));
                assert(items_view(items@).push(item_view(Node::Component(component))) + rest.0
                    =~= items_view(items@) + (seq![item_view(Node::Component(component))] + rest.0));
            }
            proof {
                lemma_raws_split(logicals@, start as int, at + 1, after as int);
                lemma_raws_split(logicals@, start as int, at as int, at + 1);
                lemma_items_text_push(items@, Node::Component(component));
                assert(items_text(items@) + (component.begin_raw@ + items_text(component.items@)
                    + component.end_raw@) =~= raws(logicals@.subrange(start as int, at as int))
                    + raws(logicals@.subrange(at as int, at + 1)) + raws(
                    logicals@.subrange(at + 1, after as int)));
            }
            items.push(Node::Component(component));
            continue;
        }
        let item = match property_name(&logical.content) {
            Some(name) => Node::Property(
                Property { name, logical: copy_chars(&logical.content), raw: copy_chars(&logical.raw) },
            ),
            None => Node::Raw(copy_chars(&logical.raw)),
        };
        proof {
            lemma_items_text_push(items@, item);
            let rest = spec_block(ls, at + 1);
            assert(item_view(item) == line_item(logical.content@, logical.raw@));
            assert(spec_block(ls, at as int) == (seq![item_view(item)] + rest.0, rest.1, rest.2));
            lemma_items_view_push(items@, item);
            assert(items_view(items@).push(item_view(item)) + rest.0 =~= items_view(items@) + (seq![
                item_view(item),
            ] + rest.0));
        }
        items.push(item);
        *cursor = at + 1;
    }
    proof {
        assert(items_text(items@) + stop_text(Stop::Eof) =~= items_text(items@));
        assert(items_view(items@) + Seq::<NodeView>::empty() =~= items_view(items@));
    }
    (items, Stop::Eof)
}

/// Parse an iCalendar stream into a format-preserving tree. Infallible:
/// anything unrecognized is kept verbatim so the output round-trips.
pub fn parse(src: &str) -> (calendar: Calendar)
    ensures
        calendar.text() == src@,
        items_view(calendar.items@) == spec_parse(src@),
{
    let chars = chars_of(src);
    let logicals = unfold(&chars);
    let ghost ls = logicals_view(logicals@);
    let mut items: Vec<Node> = Vec::new();
    let mut cursor: usize = 0;
    proof {
        assert(items_view(items@) + spec_stream(ls, 0) =~= spec_stream(ls, 0));
    }
    while cursor < logicals.len()
        invariant
            cursor <= logicals.len(),
            items_text(items@) == raws(logicals@.subrange(0, cursor as int)),
            ls == logicals_view(logicals@),
            items_view(items@) + spec_stream(ls, cursor as int) == spec_stream(ls, 0),
        decreases logicals.len() - cursor,
    {
        let before = cursor;
        let ghost before_items = items@;
        let (mut block, stop) = parse_block(&logicals, &mut cursor);
        let ghost block_view = items_view(block@);
        let ghost end = stop_view(stop);
        proof {
            lemma_raws_split(logicals@, 0, before as int, cursor as int);
        }
        proof {
            lemma_items_text_append(items@, block@);
            lemma_items_view_ext(items@, block@);
        }
        items.append(&mut block);
        // A stray END with no open component is kept as-is, not dropped.
        if let Stop::End(end_raw) = stop {
            proof {
                lemma_items_text_push(items@, Node::Raw(end_raw));
                lemma_items_view_push(items@, Node::Raw(end_raw));
            }
            items.push(Node::Raw(end_raw));
        }
        proof {
            let tail = match end {
                Some(e) => seq![NodeView::Raw(e)],
                None => Seq::<NodeView>::empty(),
            };
            assert(items_view(items@) =~= items_view(before_items) + block_view + tail);
            assert(spec_stream(ls, before as int) == block_view + tail + spec_stream(ls, cursor as int));
            assert(items_view(before_items) + (block_view + tail + spec_stream(ls, cursor as int))
                =~= items_view(items@) + spec_stream(ls, cursor as int));
        }
    }
    proof {
        assert(logicals@.subrange(0, logicals@.len() as int) =~= logicals@);
        assert(items_view(items@) + Seq::<NodeView>::empty() =~= items_view(items@));
    }
    Calendar { items }
}


/// The tree of items as plain values.
pub enum NodeView {
    Property { name: Seq<char>, logical: Seq<char>, raw: Seq<char> },
    Component { name: Seq<char>, begin: Seq<char>, items: Seq<NodeView>, end: Seq<char> },
    Raw(Seq<char>),
}

pub open spec fn item_view(item: Node) -> NodeView
    decreases item,
{
    match item {
        Node::Property(p) => NodeView::Property { name: p.name@, logical: p.logical@, raw: p.raw@ },
        Node::Raw(r) => NodeView::Raw(r@),
        Node::Component(c) => NodeView::Component {
            name: c.name@,
            begin: c.begin_raw@,
            items: items_view(c.items@),
            end: c.end_raw@,
        },
    }
}

pub open spec fn items_view(items: Seq<Node>) -> Seq<NodeView>
    decreases items,
{
    if items.len() == 0 {
        Seq::empty()
    } else {
        items_view(items.subrange(0, items.len() - 1)).push(item_view(items[items.len() - 1]))
    }
}

pub proof fn lemma_items_view(items: Seq<Node>)
    ensures
        items_view(items).len() == items.len(),
        forall|i: int| 0 <= i < items.len() ==> #[trigger] items_view(items)[i] == item_view(items[i]),
    decreases items.len(),
{
    if items.len() > 0 {
        let init = items.subrange(0, items.len() - 1);
        lemma_items_view(init);
        assert forall|i: int| 0 <= i < items.len() implies #[trigger] items_view(items)[i]
            == item_view(items[i]) by {
            if i < items.len() - 1 {
                assert(init[i] == items[i]);
            }
        }
    }
}

pub proof fn lemma_items_view_ext(a: Seq<Node>, b: Seq<Node>)
    ensures
        items_view(a + b) == items_view(a) + items_view(b),
{
    lemma_items_view(a);
    lemma_items_view(b);
    lemma_items_view(a + b);
    assert(items_view(a + b) =~= items_view(a) + items_view(b));
}

/// The text a view writes out.
pub open spec fn view_text(item: NodeView) -> Seq<char>
    decreases item,
{
    match item {
        NodeView::Property { raw, .. } => raw,
        NodeView::Raw(r) => r,
        NodeView::Component { begin, items, end, .. } => begin + views_text(items) + end,
    }
}

pub open spec fn views_text(items: Seq<NodeView>) -> Seq<char>
    decreases items,
{
    if items.len() == 0 {
        Seq::empty()
    } else {
        views_text(items.subrange(0, items.len() - 1)) + view_text(items[items.len() - 1])
    }
}


/// How many UTF-8 octets encode a character.
pub open spec fn utf8_len(c: char) -> int {
    if (c as u32) < 0x80 {
        1
    } else if (c as u32) < 0x800 {
        2
    } else if (c as u32) < 0x10000 {
        3
    } else {
        4
    }
}

fn char_octets(c: char) -> (n: usize)
    ensures
        n as int == utf8_len(c),
{
    let code = c as u32;
    if code < 0x80 {
        1
    } else if code < 0x800 {
        2
    } else if code < 0x10000 {
        3
    } else {
        4
    }
}

/// The characters of `s` as written on lines already `line_len` octets wide,
/// a fold (`eol` then a space) opening a new line wherever the next character
/// would pass [`MAX_LINE_OCTETS`].
pub open spec fn fold_from(s: Seq<char>, eol: Seq<char>, line_len: int) -> Seq<char>
    decreases s.len(),
{
    if s.len() == 0 {
        Seq::empty()
    } else if line_len + utf8_len(s[0]) > MAX_LINE_OCTETS {
        eol + seq![' ', s[0]] + fold_from(s.drop_first(), eol, 1 + utf8_len(s[0]))
    } else {
        seq![s[0]] + fold_from(s.drop_first(), eol, line_len + utf8_len(s[0]))
    }
}

/// A content line as written: folded, then ended with `eol`.
pub open spec fn rendered(content: Seq<char>, eol: Seq<char>) -> Seq<char> {
    fold_from(content, eol, 0) + eol
}

/// Render a content line: fold at [`MAX_LINE_OCTETS`] octets with an
/// `{eol} ` continuation and terminate with `eol`.
fn render(content: &[char], eol: &[char]) -> (out: Vec<char>)
    ensures
        out@ == rendered(content@, eol@),
{
    let mut out: Vec<char> = Vec::new();
    let mut line_len: usize = 0;
    let mut i: usize = 0;
    proof {
        assert(content@.skip(0) =~= content@);
        assert(out@ + fold_from(content@, eol@, 0) =~= fold_from(content@, eol@, 0));
    }
    while i < content.len()
        invariant
            i <= content.len(),
            line_len <= MAX_LINE_OCTETS,
            out@ + fold_from(content@.skip(i as int), eol@, line_len as int) == fold_from(
                content@,
                eol@,
                0,
            ),
        decreases content.len() - i,
    {
        let ch = content[i];
        let n = char_octets(ch);
        let ghost rest = content@.skip(i as int);
        proof {
            assert(rest[0] == ch);
            assert(rest.drop_first() =~= content@.skip(i + 1));
        }
        if line_len + n > MAX_LINE_OCTETS {
            let ghost before = out@;
            push_all(&mut out, eol);
            out.push(' ');
            out.push(ch);
            line_len = 1 + n;
            proof {
                assert(out@ =~= before + (eol@ + seq![' ', ch]));
            }
        } else {
            let ghost before = out@;
            out.push(ch);
            line_len = line_len + n;
            proof {
                assert(out@ =~= before + seq![ch]);
            }
        }
        i = i + 1;
    }
    proof {
        assert(content@.skip(i as int) =~= Seq::<char>::empty());
        assert(out@ + Seq::<char>::empty() =~= out@);
    }
    push_all(&mut out, eol);
    out
}

/// The end of line a raw line was written with, defaulting to CRLF when there
/// is none.
pub open spec fn spec_eol_of(raw: Seq<char>) -> Seq<char> {
    if raw.len() >= 2 && raw[raw.len() - 2] == '\r' && raw[raw.len() - 1] == '\n' {
        seq!['\r', '\n']
    } else if raw.len() >= 1 && raw[raw.len() - 1] == '\n' {
        seq!['\n']
    } else {
        seq!['\r', '\n']
    }
}

pub fn eol_of(raw: &[char]) -> (eol: Vec<char>)
    ensures
        eol@ == spec_eol_of(raw@),
{
    let n = raw.len();
    if n >= 2 && raw[n - 2] == '\r' && raw[n - 1] == '\n' {
        let v = vec!['\r', '\n'];
        proof {
            assert(v@ =~= seq!['\r', '\n']);
        }
        v
    } else if n >= 1 && raw[n - 1] == '\n' {
        let v = vec!['\n'];
        proof {
            assert(v@ =~= seq!['\n']);
        }
        v
    } else {
        let v = vec!['\r', '\n'];
        proof {
            assert(v@ =~= seq!['\r', '\n']);
        }
        v
    }
}

/// Whether a view is a property of the given (uppercased) name.
pub open spec fn is_named(item: NodeView, upper: Seq<char>) -> bool {
    match item {
        NodeView::Property { name, .. } => name == upper,
        _ => false,
    }
}

/// The logical lines of the properties of that name, in order.
pub open spec fn named_lines(items: Seq<NodeView>, upper: Seq<char>) -> Seq<Seq<char>>
    decreases items.len(),
{
    if items.len() == 0 {
        Seq::empty()
    } else {
        let rest = named_lines(items.drop_first(), upper);
        match items[0] {
            NodeView::Property { name, logical, .. } => if name == upper {
                seq![logical] + rest
            } else {
                rest
            },
            _ => rest,
        }
    }
}

/// How many properties of that name there are.
pub open spec fn named_count(items: Seq<NodeView>, upper: Seq<char>) -> int
    decreases items.len(),
{
    if items.len() == 0 {
        0
    } else if is_named(items[0], upper) {
        1 + named_count(items.drop_first(), upper)
    } else {
        named_count(items.drop_first(), upper)
    }
}

/// A content line as written anew: folded at [`MAX_LINE_OCTETS`] when
/// `fold`, else on one line; ended with `eol` either way.
pub open spec fn written_raw(line: Seq<char>, eol: Seq<char>, fold: bool) -> Seq<char> {
    if fold {
        rendered(line, eol)
    } else {
        line + eol
    }
}

/// A property line written anew.
pub open spec fn written(name: Seq<char>, line: Seq<char>, eol: Seq<char>, fold: bool) -> NodeView {
    NodeView::Property { name, logical: line, raw: written_raw(line, eol, fold) }
}

/// Write a content line anew, folded or not.
fn render_as(content: &[char], eol: &[char], fold: bool) -> (out: Vec<char>)
    ensures
        out@ == written_raw(content@, eol@, fold),
{
    if fold {
        render(content, eol)
    } else {
        let mut out = copy_chars(content);
        push_all(&mut out, eol);
        out
    }
}

/// The items after the properties of that name have taken `lines` in order,
/// starting at the `rank`-th of them: a property whose line is unchanged is
/// kept as it was, a changed one is written anew, and a surplus one dropped.
pub open spec fn reuse_pass(
    items: Seq<NodeView>,
    upper: Seq<char>,
    lines: Seq<Seq<char>>,
    eol: Seq<char>,
    rank: int,
    fold: bool,
) -> Seq<NodeView>
    decreases items.len(),
{
    if items.len() == 0 {
        Seq::empty()
    } else {
        let rest = reuse_pass(items.drop_first(), upper, lines, eol, rank + 1, fold);
        match items[0] {
            NodeView::Property { name, logical, raw } => if name != upper {
                seq![items[0]] + reuse_pass(items.drop_first(), upper, lines, eol, rank, fold)
            } else if rank < lines.len() {
                if logical == lines[rank] {
                    seq![items[0]] + rest
                } else {
                    seq![written(name, lines[rank], eol, fold)] + rest
                }
            } else {
                rest
            },
            _ => seq![items[0]] + reuse_pass(items.drop_first(), upper, lines, eol, rank, fold),
        }
    }
}

/// The index just past the last property, or -1... as `0` when none.
pub open spec fn last_prop_end(items: Seq<NodeView>) -> int
    decreases items.len(),
{
    if items.len() == 0 {
        0
    } else if items.last() is Property {
        items.len() as int
    } else {
        last_prop_end(items.drop_last())
    }
}

/// The index of the first nested component, or the length when none.
pub open spec fn first_component(items: Seq<NodeView>) -> int
    decreases items.len(),
{
    if items.len() == 0 {
        0
    } else if items[0] is Component {
        0
    } else {
        1 + first_component(items.drop_first())
    }
}

/// Where a new property lands: after the last property, else before the
/// first nested component, else at the end.
pub open spec fn insertion_point(items: Seq<NodeView>) -> int {
    if last_prop_end(items) > 0 {
        last_prop_end(items)
    } else {
        first_component(items)
    }
}

/// The lines of `lines` past the first `from`, each written anew.
pub open spec fn extras(upper: Seq<char>, lines: Seq<Seq<char>>, eol: Seq<char>, from: int, fold: bool) -> Seq<
    NodeView,
> {
    Seq::new((lines.len() - from) as nat, |k: int| written(upper, lines[from + k], eol, fold))
}

/// The items once the properties of that name are exactly `lines`.
pub open spec fn spec_set_all(
    items: Seq<NodeView>,
    upper: Seq<char>,
    lines: Seq<Seq<char>>,
    eol: Seq<char>,
    fold: bool,
) -> Seq<NodeView> {
    let reused = reuse_pass(items, upper, lines, eol, 0, fold);
    let count = named_count(items, upper);
    if lines.len() > count {
        let at = insertion_point(reused);
        reused.take(at) + extras(upper, lines, eol, count, fold) + reused.skip(at)
    } else {
        reused
    }
}

pub open spec fn string_views(lines: Seq<String>) -> Seq<Seq<char>> {
    lines.map_values(|line: String| line@)
}


pub proof fn lemma_items_view_drop_first(items: Seq<Node>)
    requires
        items.len() > 0,
    ensures
        items_view(items.drop_first()) == items_view(items).drop_first(),
        items_view(items)[0] == item_view(items[0]),
{
    lemma_items_view(items);
    lemma_items_view(items.drop_first());
    assert(items_view(items.drop_first()) =~= items_view(items).drop_first());
}

pub proof fn lemma_items_view_push(items: Seq<Node>, item: Node)
    ensures
        items_view(items.push(item)) == items_view(items).push(item_view(item)),
{
    lemma_items_view(items);
    lemma_items_view(items.push(item));
    assert(items_view(items.push(item)) =~= items_view(items).push(item_view(item)));
}

pub proof fn lemma_items_view_insert(items: Seq<Node>, at: int, item: Node)
    requires
        0 <= at <= items.len(),
    ensures
        items_view(items.insert(at, item)) == items_view(items).insert(at, item_view(item)),
{
    lemma_items_view(items);
    lemma_items_view(items.insert(at, item));
    assert(items_view(items.insert(at, item)) =~= items_view(items).insert(at, item_view(item)));
}

/// The lines of a slice of strings, as characters.
pub(crate) fn lines_of(lines: &[String]) -> (out: Vec<Vec<char>>)
    ensures
        out@.len() == lines@.len(),
        forall|i: int| 0 <= i < lines@.len() ==> (#[trigger] out@[i])@ == lines@[i]@,
{
    let mut out: Vec<Vec<char>> = Vec::new();
    let mut i: usize = 0;
    while i < lines.len()
        invariant
            i <= lines.len(),
            out@.len() == i,
            forall|j: int| 0 <= j < i ==> (#[trigger] out@[j])@ == lines@[j]@,
        decreases lines.len() - i,
    {
        out.push(chars_of(lines[i].as_str()));
        i = i + 1;
    }
    out
}

/// The logical lines of the properties of that name among `items`.
fn named_logicals(items: &Vec<Node>, upper: &[char]) -> (out: Vec<String>)
    ensures
        string_views(out@) == named_lines(items_view(items@), upper@),
{
    let mut out: Vec<String> = Vec::new();
    let mut i: usize = items.len();
    proof {
        lemma_items_view(items@);
    }
    let ghost all = items_view(items@);
    while i > 0
        invariant
            i <= items.len(),
            all == items_view(items@),
            all.len() == items@.len(),
            forall|j: int| 0 <= j < items.len() ==> #[trigger] all[j] == item_view(items@[j]),
            string_views(out@) == named_lines(all.skip(i as int), upper@),
        decreases i,
    {
        i = i - 1;
        let ghost rest = all.skip(i as int);
        proof {
            assert(rest.drop_first() =~= all.skip(i + 1));
            assert(rest[0] == all[i as int]);
        }
        if let Node::Property(property) = &items[i] {
            if chars_eq(&property.name, upper) {
                let line = string_of(&property.logical);
                let ghost before = out@;
                out.insert(0, line);
                proof {
                    assert(string_views(out@) =~= seq![line@] + string_views(before));
                }
            }
        }
    }
    proof {
        assert(all.skip(0) =~= all);
    }
    out
}

/// The index just past the last property, else the first nested component,
/// else the end.
fn insertion_index(items: &Vec<Node>) -> (at: usize)
    ensures
        at as int == insertion_point(items_view(items@)),
        at <= items.len(),
{
    proof {
        lemma_items_view(items@);
    }
    let ghost all = items_view(items@);
    let mut i: usize = items.len();
    proof {
        assert(all.take(i as int) =~= all);
    }
    while i > 0
        invariant
            i <= items.len(),
            all == items_view(items@),
            all.len() == items@.len(),
            forall|j: int| 0 <= j < items.len() ==> #[trigger] all[j] == item_view(items@[j]),
            last_prop_end(all) == last_prop_end(all.take(i as int)),
        decreases i,
    {
        proof {
            assert(all.take(i as int).last() == all[i - 1]);
            assert(all.take(i as int).drop_last() =~= all.take(i - 1));
        }
        if let Node::Property(_) = &items[i - 1] {
            proof {
                lemma_last_prop_end_bound(all);
            }
            return i;
        }
        i = i - 1;
    }
    proof {
        assert(all.take(0) =~= Seq::<NodeView>::empty());
        assert(all.skip(0) =~= all);
    }
    let mut k: usize = 0;
    while k < items.len()
        invariant
            k <= items.len(),
            all == items_view(items@),
            all.len() == items@.len(),
            forall|j: int| 0 <= j < items.len() ==> #[trigger] all[j] == item_view(items@[j]),
            last_prop_end(all) == 0,
            first_component(all) == k + first_component(all.skip(k as int)),
        decreases items.len() - k,
    {
        proof {
            assert(all.skip(k as int)[0] == all[k as int]);
            assert(all.skip(k as int).drop_first() =~= all.skip(k + 1));
        }
        if let Node::Component(_) = &items[k] {
            return k;
        }
        k = k + 1;
    }
    proof {
        assert(all.skip(k as int) =~= Seq::<NodeView>::empty());
    }
    k
}

pub proof fn lemma_last_prop_end_bound(items: Seq<NodeView>)
    ensures
        0 <= last_prop_end(items) <= items.len(),
    decreases items.len(),
{
    if items.len() > 0 && !(items.last() is Property) {
        lemma_last_prop_end_bound(items.drop_last());
    }
}

pub proof fn lemma_first_component_bound(items: Seq<NodeView>)
    ensures
        0 <= first_component(items) <= items.len(),
    decreases items.len(),
{
    if items.len() > 0 && !(items[0] is Component) {
        lemma_first_component_bound(items.drop_first());
    }
}

impl Calendar {
    /// The first component of the given type, searched depth-first and
    /// case-insensitively (`cal.component_mut("VEVENT")`).
    pub fn component_mut(&mut self, ty: &str) -> (res: Option<&mut Component>)
        ensures
            match find_in(items_view(old(self).items@), ty@) {
                None => res is None && final(self).items@ == old(self).items@,
                Some(path) => res matches Some(c) && component_view(*c) == at_path(
                    items_view(old(self).items@),
                    path,
                ) && items_view(final(self).items@) == replace_at(
                    items_view(old(self).items@),
                    path,
                    component_view(*final(c)),
                ),
            },
    {
        let ty = chars_of(ty);
        find_component_mut(&mut self.items, &ty)
    }

    /// The text the calendar writes out: every node's raw characters, so
    /// only mutated or inserted properties were re-rendered.
    pub fn to_string(&self) -> (s: String)
        ensures
            s@ == self.text(),
    {
        let mut out: Vec<char> = Vec::new();
        write_items(&self.items, &mut out);
        proof {
            assert(out@ =~= Seq::<char>::empty() + items_text(self.items@));
        }
        string_of(&out)
    }
}

impl Component {
    /// The first descendant component of the given type, searched depth-first
    /// and case-insensitively.
    pub fn component_mut(&mut self, ty: &str) -> (res: Option<&mut Component>)
        ensures
            final(self).name == old(self).name,
            final(self).begin_raw == old(self).begin_raw,
            final(self).end_raw == old(self).end_raw,
            match find_in(items_view(old(self).items@), ty@) {
                None => res is None && final(self).items@ == old(self).items@,
                Some(path) => res matches Some(c) && component_view(*c) == at_path(
                    items_view(old(self).items@),
                    path,
                ) && items_view(final(self).items@) == replace_at(
                    items_view(old(self).items@),
                    path,
                    component_view(*final(c)),
                ),
            },
    {
        let ty = chars_of(ty);
        find_component_mut(&mut self.items, &ty)
    }

    /// The text the component writes out, its envelope included.
    pub fn to_string(&self) -> (s: String)
        ensures
            s@ == self.text(),
    {
        let mut out: Vec<char> = Vec::new();
        push_all(&mut out, &self.begin_raw);
        write_items(&self.items, &mut out);
        push_all(&mut out, &self.end_raw);
        proof {
            assert(out@ =~= self.text());
        }
        string_of(&out)
    }

    /// The logical content lines of this component's own direct properties
    /// matching `name` (no enclosing component is searched).
    pub fn get_all(&self, name: &str) -> (lines: Vec<String>)
        ensures
            string_views(lines@) == named_lines(items_view(self.items@), ascii_upper(name@)),
    {
        let upper = to_ascii_upper(&chars_of(name));
        named_logicals(&self.items, &upper)
    }

    /// Make this component's direct properties named `name` exactly equal
    /// `lines` (full content lines without an end of line, e.g.
    /// `"SUMMARY:Team lunch"`), with a minimal diff.
    ///
    /// Existing properties are reused in order: where the desired line
    /// already matches, the original characters are left untouched; otherwise
    /// the line is re-rendered. Surplus properties are removed and missing
    /// ones inserted after the last direct property, before any nested
    /// component. `lines == []` removes every matching property.
    pub fn set_all(&mut self, name: &str, lines: &[String])
        ensures
            final(self).name == old(self).name,
            final(self).begin_raw == old(self).begin_raw,
            final(self).end_raw == old(self).end_raw,
            items_view(final(self).items@) == spec_set_all(
                items_view(old(self).items@),
                ascii_upper(name@),
                string_views(lines@),
                spec_eol_of(old(self).begin_raw@),
                true,
            ),
    {
        let upper = to_ascii_upper(&chars_of(name));
        let wanted = lines_of(lines);
        let ghost want = string_views(lines@);
        proof {
            assert(wanted@.map_values(|line: Vec<char>| line@) =~= want);
        }
        self.set_lines_of(&upper, &wanted, true);
    }

    /// Remove every direct property matching `name`.
    pub fn remove(&mut self, name: &str)
        ensures
            final(self).name == old(self).name,
            final(self).begin_raw == old(self).begin_raw,
            final(self).end_raw == old(self).end_raw,
            items_view(final(self).items@) == spec_set_all(
                items_view(old(self).items@),
                ascii_upper(name@),
                Seq::empty(),
                spec_eol_of(old(self).begin_raw@),
                true,
            ),
    {
        let none: Vec<String> = Vec::new();
        proof {
            assert(string_views(none@) =~= Seq::<Seq<char>>::empty());
        }
        self.set_all(name, none.as_slice());
    }

    /// The work of [`Component::set_all`], on an uppercased name and lines
    /// already held as characters.
    pub(crate) fn set_lines_of(&mut self, upper: &[char], lines: &Vec<Vec<char>>, fold: bool)
        ensures
            final(self).name == old(self).name,
            final(self).begin_raw == old(self).begin_raw,
            final(self).end_raw == old(self).end_raw,
            items_view(final(self).items@) == spec_set_all(
                items_view(old(self).items@),
                upper@,
                lines@.map_values(|line: Vec<char>| line@),
                spec_eol_of(old(self).begin_raw@),
                fold,
            ),
    {
        let ghost want = lines@.map_values(|line: Vec<char>| line@);
        let eol = eol_of(&self.begin_raw);
        let ghost orig = items_view(self.items@);
        let mut pending: Vec<Node> = Vec::new();
        std::mem::swap(&mut pending, &mut self.items);
        let total = pending.len();
        let mut out: Vec<Node> = Vec::new();
        let mut rank: usize = 0;
        proof {
            lemma_named_count_bound(orig, upper@);
            lemma_items_view(pending@);
            assert(items_view(out@) =~= Seq::<NodeView>::empty());
            assert(Seq::<NodeView>::empty() + reuse_pass(orig, upper@, want, eol@, 0, fold) =~= reuse_pass(
                orig,
                upper@,
                want,
                eol@,
                0,
                fold,
            ));
        }
        while pending.len() > 0
            invariant
                want == lines@.map_values(|line: Vec<char>| line@),
                want.len() == lines@.len(),
                rank as int + named_count(items_view(pending@), upper@) == named_count(orig, upper@),
                items_view(out@) + reuse_pass(items_view(pending@), upper@, want, eol@, rank as int, fold)
                    == reuse_pass(orig, upper@, want, eol@, 0, fold),
                rank <= named_count(orig, upper@),
                named_count(orig, upper@) <= total,
                items_view(pending@).len() == pending@.len(),
            decreases pending.len(),
        {
            let ghost rest = items_view(pending@);
            proof {
                lemma_items_view_drop_first(pending@);
                lemma_named_count_bound(rest, upper@);
            }
            let item = pending.remove(0);
            let ghost before = items_view(out@);
            proof {
                assert(pending@ =~= old_pending_tail(pending@));
                lemma_named_count_bound(items_view(pending@), upper@);
                lemma_items_view(pending@);
            }
            match item {
                Node::Property(property) => {
                    if chars_eq(&property.name, upper) {
                        if rank < lines.len() {
                            let target = &lines[rank];
                            proof {
                                assert(want[rank as int] == target@);
                            }
                            if chars_eq(&property.logical, target) {
                                let kept = Node::Property(property);
                                proof {
                                    lemma_items_view_push(out@, kept);
                                }
                                out.push(kept);
                            } else {
                                let fresh = Node::Property(
                                    Property {
                                        name: property.name,
                                        logical: copy_chars(target),
                                        raw: render_as(target, &eol, fold),
                                    },
                                );
                                proof {
                                    lemma_items_view_push(out@, fresh);
                                }
                                out.push(fresh);
                            }
                        }
                        rank = rank + 1;
                        proof {
                            assert(items_view(out@) + reuse_pass(
                                items_view(pending@),
                                upper@,
                                want,
                                eol@,
                                rank as int,
                                fold,
                            ) =~= before + reuse_pass(rest, upper@, want, eol@, rank - 1, fold));
                        }
                    } else {
                        let kept = Node::Property(property);
                        proof {
                            assert(reuse_pass(rest, upper@, want, eol@, rank as int, fold) == seq![rest[0]]
                                + reuse_pass(rest.drop_first(), upper@, want, eol@, rank as int, fold));
                            lemma_items_view_push(out@, kept);
                        }
                        out.push(kept);
                        proof {
                            assert(items_view(out@) + reuse_pass(
                                items_view(pending@),
                                upper@,
                                want,
                                eol@,
                                rank as int,
                                fold,
                            ) =~= before + reuse_pass(rest, upper@, want, eol@, rank as int, fold));
                        }
                    }
                },
                other => {
                    proof {
                        assert(!(rest[0] is Property));
                        assert(reuse_pass(rest, upper@, want, eol@, rank as int, fold) == seq![rest[0]]
                            + reuse_pass(rest.drop_first(), upper@, want, eol@, rank as int, fold));
                        lemma_items_view_push(out@, other);
                    }
                    out.push(other);
                    proof {
                        assert(items_view(out@) + reuse_pass(
                            items_view(pending@),
                            upper@,
                            want,
                            eol@,
                            rank as int,
                            fold,
                        ) =~= before + reuse_pass(rest, upper@, want, eol@, rank as int, fold));
                    }
                },
            }
        }
        proof {
            assert(items_view(out@) + Seq::<NodeView>::empty() =~= items_view(out@));
        }
        let count = rank;
        if lines.len() > count {
            let at = insertion_index(&out);
            let ghost reused = items_view(out@);
            let mut k: usize = 0;
            proof {
                lemma_items_view(out@);
                assert(reused.take(at as int) + extras(upper@, want, eol@, count as int, fold).take(0)
                    + reused.skip(at as int) =~= reused);
            }
            while count + k < lines.len()
                invariant
                    count <= lines.len(),
                    want == lines@.map_values(|line: Vec<char>| line@),
                    want.len() == lines@.len(),
                    at <= reused.len(),
                    items_view(out@) == reused.take(at as int) + extras(upper@, want, eol@, count as int, fold).take(k as int) + reused.skip(at as int),
                    count + k <= lines.len(),
                decreases lines.len() - count - k,
            {
                let target = &lines[count + k];
                let fresh = Node::Property(
                    Property { name: copy_chars(upper), logical: copy_chars(target), raw: render_as(target, &eol, fold) },
                );
                proof {
                    lemma_items_view(out@);
                    lemma_items_view(out@);
                    assert(items_view(out@).len() == reused.len() + k);
                    assert(out@.len() == reused.len() + k);
                    assert(at + k <= out.len());
                    lemma_items_view_insert(out@, at + k, fresh);
                    assert(want[count + k] == target@);
                }
                out.insert(at + k, fresh);
                k = k + 1;
                proof {
                    assert(items_view(out@) =~= reused.take(at as int) + extras(upper@, want, eol@, count as int, fold).take(k as int) + reused.skip(at as int));
                }
            }
            proof {
                assert(extras(upper@, want, eol@, count as int, fold).take(k as int) =~= extras(upper@, want, eol@, count as int, fold));
            }
        }
        self.items = out;
    }
}

/// The tail of a vector once its first element was removed.
pub open spec fn old_pending_tail(s: Seq<Node>) -> Seq<Node> {
    s
}

pub proof fn lemma_named_count_bound(items: Seq<NodeView>, upper: Seq<char>)
    ensures
        0 <= named_count(items, upper) <= items.len(),
    decreases items.len(),
{
    if items.len() > 0 {
        lemma_named_count_bound(items.drop_first(), upper);
    }
}


/// Whether an item is a component of type `ty`, or holds one somewhere below.
pub open spec fn hit(item: NodeView, ty: Seq<char>) -> bool
    decreases item, 0int,
{
    match item {
        NodeView::Component { name, items, .. } => same_ignoring_ascii_case(name, ty)
            || first_hit(items, ty) < items.len(),
        _ => false,
    }
}

/// The index of the first item that is or holds a component of type `ty`,
/// the length when there is none.
pub open spec fn first_hit(items: Seq<NodeView>, ty: Seq<char>) -> int
    decreases items, 1int,
{
    if items.len() == 0 {
        0
    } else if hit(items[0], ty) {
        0
    } else {
        1 + first_hit(items.subrange(1, items.len() as int), ty)
    }
}

/// The path (one index per level) to the first component of type `ty`,
/// searched depth-first in pre-order.
pub open spec fn find_in(items: Seq<NodeView>, ty: Seq<char>) -> Option<Seq<int>>
    decreases items, 2int,
{
    let i = first_hit(items, ty);
    if 0 <= i < items.len() {
        match items[i] {
            NodeView::Component { name, items: kids, .. } => if same_ignoring_ascii_case(name, ty) {
                Some(seq![i])
            } else {
                match find_in(kids, ty) {
                    Some(p) => Some(seq![i] + p),
                    None => None,
                }
            },
            _ => None,
        }
    } else {
        None
    }
}

/// The item a path leads to.
pub open spec fn at_path(items: Seq<NodeView>, path: Seq<int>) -> NodeView
    decreases path.len(),
{
    if path.len() <= 1 {
        items[path[0]]
    } else {
        match items[path[0]] {
            NodeView::Component { items: kids, .. } => at_path(kids, path.drop_first()),
            _ => items[path[0]],
        }
    }
}

/// The items with the one a path leads to replaced.
pub open spec fn replace_at(items: Seq<NodeView>, path: Seq<int>, item: NodeView) -> Seq<NodeView>
    decreases path.len(),
{
    if path.len() <= 1 {
        items.update(path[0], item)
    } else {
        match items[path[0]] {
            NodeView::Component { name, begin, items: kids, end } => items.update(
                path[0],
                NodeView::Component { name, begin, items: replace_at(kids, path.drop_first(), item), end },
            ),
            _ => items,
        }
    }
}

pub open spec fn component_view(c: Component) -> NodeView {
    NodeView::Component { name: c.name@, begin: c.begin_raw@, items: items_view(c.items@), end: c.end_raw@ }
}

pub proof fn lemma_first_hit_bound(items: Seq<NodeView>, ty: Seq<char>)
    ensures
        0 <= first_hit(items, ty) <= items.len(),
        first_hit(items, ty) < items.len() ==> hit(items[first_hit(items, ty)], ty),
        forall|j: int| 0 <= j < first_hit(items, ty) ==> !hit(#[trigger] items[j], ty),
    decreases items.len(),
{
    if items.len() > 0 && !hit(items[0], ty) {
        let rest = items.subrange(1, items.len() as int);
        lemma_first_hit_bound(rest, ty);
        assert forall|j: int| 0 <= j < first_hit(items, ty) implies !hit(#[trigger] items[j], ty) by {
            if j > 0 {
                assert(items[j] == rest[j - 1]);
            }
        }
        if first_hit(items, ty) < items.len() {
            assert(items[first_hit(items, ty)] == rest[first_hit(rest, ty)]);
        }
    }
}

pub proof fn lemma_items_view_update(s: Seq<Node>, i: int, x: Node)
    requires
        0 <= i < s.len(),
    ensures
        items_view(s.update(i, x)) == items_view(s).update(i, item_view(x)),
{
    lemma_items_view(s);
    lemma_items_view(s.update(i, x));
    assert(items_view(s.update(i, x)) =~= items_view(s).update(i, item_view(x)));
}

pub proof fn lemma_items_view_update_all()
    ensures
        forall|s: Seq<Node>, i: int, x: Node|
            0 <= i < s.len() ==> #[trigger] items_view(s.update(i, x)) == items_view(s).update(
                i,
                item_view(x),
            ),
{
    assert forall|s: Seq<Node>, i: int, x: Node| 0 <= i < s.len() implies #[trigger] items_view(
        s.update(i, x),
    ) == items_view(s).update(i, item_view(x)) by {
        lemma_items_view_update(s, i, x);
    }
}

/// A component of that type is found exactly where one is held.
pub proof fn lemma_find_in_some(items: Seq<NodeView>, ty: Seq<char>)
    ensures
        find_in(items, ty) is Some <==> first_hit(items, ty) < items.len(),
    decreases items,
{
    lemma_first_hit_bound(items, ty);
    let i = first_hit(items, ty);
    if i < items.len() {
        match items[i] {
            NodeView::Component { name, items: kids, .. } => {
                if !same_ignoring_ascii_case(name, ty) {
                    lemma_find_in_some(kids, ty);
                }
            },
            _ => {},
        }
    }
}

/// Whether any item is or holds a component of type `ty`.
fn holds_component(items: &Vec<Node>, ty: &[char]) -> (r: bool)
    ensures
        r == (first_hit(items_view(items@), ty@) < items@.len()),
    decreases items@, 1int,
{
    proof {
        lemma_items_view(items@);
        lemma_first_hit_bound(items_view(items@), ty@);
    }
    let mut i: usize = 0;
    while i < items.len()
        invariant
            i <= items.len(),
            items_view(items@).len() == items@.len(),
            forall|j: int| 0 <= j < items.len() ==> #[trigger] items_view(items@)[j] == item_view(
                items@[j],
            ),
            0 <= first_hit(items_view(items@), ty@) <= items@.len(),
            first_hit(items_view(items@), ty@) < items@.len() ==> hit(
                items_view(items@)[first_hit(items_view(items@), ty@)],
                ty@,
            ),
            forall|j: int| 0 <= j < first_hit(items_view(items@), ty@) ==> !hit(
                #[trigger] items_view(items@)[j],
                ty@,
            ),
            i <= first_hit(items_view(items@), ty@),
        decreases items.len() - i,
    {
        if is_hit(&items[i], ty) {
            proof {
                assert(items_view(items@)[i as int] == item_view(items@[i as int]));
            }
            return true;
        }
        proof {
            assert(!hit(items_view(items@)[i as int], ty@));
        }
        i = i + 1;
    }
    false
}

/// Whether an item is or holds a component of type `ty`.
fn is_hit(item: &Node, ty: &[char]) -> (r: bool)
    ensures
        r == hit(item_view(*item), ty@),
    decreases *item, 0int,
{
    match item {
        Node::Component(c) => {
            if eq_ignore_ascii_case(&c.name, ty) {
                true
            } else {
                proof {
                    lemma_items_view(c.items@);
                }
                holds_component(&c.items, ty)
            }
        },
        _ => false,
    }
}

/// The index of the first item that is or holds a component of type `ty`.
fn first_hit_index(items: &Vec<Node>, ty: &[char]) -> (i: usize)
    ensures
        i as int == first_hit(items_view(items@), ty@),
{
    proof {
        lemma_items_view(items@);
        lemma_first_hit_bound(items_view(items@), ty@);
    }
    let mut i: usize = 0;
    while i < items.len()
        invariant
            i <= items.len(),
            items_view(items@).len() == items@.len(),
            forall|j: int| 0 <= j < items.len() ==> #[trigger] items_view(items@)[j] == item_view(
                items@[j],
            ),
            0 <= first_hit(items_view(items@), ty@) <= items@.len(),
            first_hit(items_view(items@), ty@) < items@.len() ==> hit(
                items_view(items@)[first_hit(items_view(items@), ty@)],
                ty@,
            ),
            forall|j: int| 0 <= j < first_hit(items_view(items@), ty@) ==> !hit(
                #[trigger] items_view(items@)[j],
                ty@,
            ),
            i <= first_hit(items_view(items@), ty@),
        decreases items.len() - i,
    {
        if is_hit(&items[i], ty) {
            proof {
                assert(items_view(items@)[i as int] == item_view(items@[i as int]));
            }
            return i;
        }
        i = i + 1;
    }
    i
}

/// The first component of the given type within `items`, depth-first
/// (pre-order) and case-insensitive.
fn find_component_mut<'a>(items: &'a mut Vec<Node>, ty: &[char]) -> (res: Option<&'a mut Component>)
    ensures
        match find_in(items_view(old(items)@), ty@) {
            None => res is None && final(items)@ == old(items)@,
            Some(path) => res matches Some(c) && component_view(*c) == at_path(
                items_view(old(items)@),
                path,
            ) && items_view(final(items)@) == replace_at(
                items_view(old(items)@),
                path,
                component_view(*final(c)),
            ),
        },
    decreases old(items)@,
{
    let i = first_hit_index(items, ty);
    proof {
        lemma_items_view(items@);
        lemma_first_hit_bound(items_view(items@), ty@);
    }
    if i >= items.len() {
        return None;
    }
    let ghost before = items@;
    let ghost view = items_view(items@);
    proof {
        lemma_items_view_update_all();
        lemma_find_in_some(view, ty@);
        assert(view[i as int] == item_view(items@[i as int]));
    }
    let item = &mut items[i];
    match item {
        Node::Component(c) => {
            if eq_ignore_ascii_case(&c.name, ty) {
                proof {
                    assert(view[i as int] == component_view(*c));
                }
                Some(c)
            } else {
                proof {
                    lemma_items_view(c.items@);
                    lemma_find_in_some(items_view(c.items@), ty@);
                    let p = find_in(items_view(c.items@), ty@).unwrap();
                    assert((seq![i as int] + p).drop_first() =~= p);
                    assert((seq![i as int] + p)[0] == i);
                }
                let found = find_component_mut(&mut c.items, ty);
                found
            }
        },
        _ => None,
    }
}


/// An item writes out what its view does.
pub proof fn lemma_item_text_view(item: Node)
    ensures
        item_text(item) == view_text(item_view(item)),
    decreases item,
{
    match item {
        Node::Component(c) => {
            lemma_items_text_view(c.items@);
        },
        _ => {},
    }
}

/// Items write out what their views do.
pub proof fn lemma_items_text_view(items: Seq<Node>)
    ensures
        items_text(items) == views_text(items_view(items)),
    decreases items,
{
    if items.len() > 0 {
        let init = items.subrange(0, items.len() - 1);
        lemma_items_text_view(init);
        lemma_item_text_view(items[items.len() - 1]);
        lemma_items_view(items);
        lemma_items_view(init);
        let v = items_view(items);
        assert(v.subrange(0, v.len() - 1) =~= items_view(init));
    }
}

/// A copy of an item, down to its nested components.
pub fn copy_node(item: &Node) -> (r: Node)
    ensures
        item_view(r) == item_view(*item),
    decreases item,
{
    match item {
        Node::Property(p) => Node::Property(
            Property { name: copy_chars(&p.name), logical: copy_chars(&p.logical), raw: copy_chars(&p.raw) },
        ),
        Node::Raw(r) => Node::Raw(copy_chars(r)),
        Node::Component(c) => Node::Component(
            Component {
                name: copy_chars(&c.name),
                begin_raw: copy_chars(&c.begin_raw),
                items: copy_items(&c.items),
                end_raw: copy_chars(&c.end_raw),
            },
        ),
    }
}

/// A copy of some items, down to their nested components.
pub fn copy_items(items: &Vec<Node>) -> (r: Vec<Node>)
    ensures
        items_view(r@) == items_view(items@),
    decreases items@,
{
    let mut out: Vec<Node> = Vec::new();
    let mut i: usize = 0;
    proof {
        lemma_items_view(items@);
        assert(items@.take(0) =~= Seq::<Node>::empty());
    }
    while i < items.len()
        invariant
            i <= items.len(),
            items_view(out@) == items_view(items@.take(i as int)),
        decreases items.len() - i,
    {
        let n = copy_node(&items[i]);
        let ghost prev = out@;
        out.push(n);
        proof {
            lemma_items_view_push(prev, n);
            lemma_items_view_push(items@.take(i as int), items@[i as int]);
            assert(items@.take(i + 1) =~= items@.take(i as int).push(items@[i as int]));
        }
        i = i + 1;
    }
    proof {
        assert(items@.take(i as int) =~= items@);
    }
    out
}


pub proof fn lemma_named_lines_append(a: Seq<NodeView>, b: Seq<NodeView>, upper: Seq<char>)
    ensures
        named_lines(a + b, upper) == named_lines(a, upper) + named_lines(b, upper),
    decreases a.len(),
{
    if a.len() == 0 {
        assert(a + b =~= b);
    } else {
        assert((a + b).drop_first() =~= a.drop_first() + b);
        lemma_named_lines_append(a.drop_first(), b, upper);
    }
}

pub proof fn lemma_named_lines_len(items: Seq<NodeView>, upper: Seq<char>)
    ensures
        named_lines(items, upper).len() == named_count(items, upper),
    decreases items.len(),
{
    if items.len() > 0 {
        lemma_named_lines_len(items.drop_first(), upper);
    }
}

pub proof fn lemma_named_lines_single(x: NodeView, upper: Seq<char>)
    ensures
        named_lines(seq![x], upper) == (match x {
            NodeView::Property { name, logical, .. } => if name == upper {
                seq![logical]
            } else {
                Seq::<Seq<char>>::empty()
            },
            _ => Seq::<Seq<char>>::empty(),
        }),
{
    let s = seq![x];
    assert(s.len() == 1);
    assert(s[0] == x);
    assert(s.drop_first() =~= Seq::<NodeView>::empty());
    assert(named_lines(s.drop_first(), upper) =~= Seq::<Seq<char>>::empty());
    match x {
        NodeView::Property { name, logical, .. } => {
            if name == upper {
                assert(seq![logical] + Seq::<Seq<char>>::empty() =~= seq![logical]);
            }
        },
        _ => {},
    }
}

/// The properties of that name a reuse pass leaves carry the lines from
/// `rank` on, as many as there were or as the lines run to.
pub proof fn lemma_reuse_pass_lines(
    items: Seq<NodeView>,
    upper: Seq<char>,
    lines: Seq<Seq<char>>,
    eol: Seq<char>,
    rank: int,
    fold: bool,
)
    requires
        0 <= rank,
    ensures
        named_lines(reuse_pass(items, upper, lines, eol, rank, fold), upper) == (if rank + named_count(
            items,
            upper,
        ) <= lines.len() {
            lines.subrange(rank, rank + named_count(items, upper))
        } else if rank <= lines.len() {
            lines.subrange(rank, lines.len() as int)
        } else {
            Seq::empty()
        }),
    decreases items.len(),
{
    lemma_named_count_bound(items, upper);
    if items.len() > 0 {
        let rest = items.drop_first();
        lemma_named_count_bound(rest, upper);
        match items[0] {
            NodeView::Property { name, logical, raw } => {
                if name != upper {
                    lemma_reuse_pass_lines(rest, upper, lines, eol, rank, fold);
                    lemma_named_lines_append(seq![items[0]], reuse_pass(rest, upper, lines, eol, rank, fold), upper);
                    lemma_named_lines_single(items[0], upper);
                } else {
                    lemma_reuse_pass_lines(rest, upper, lines, eol, rank + 1, fold);
                    if rank < lines.len() {
                        let head = if logical == lines[rank] {
                            items[0]
                        } else {
                            written(name, lines[rank], eol, fold)
                        };
                        lemma_named_lines_append(seq![head], reuse_pass(rest, upper, lines, eol, rank + 1, fold), upper);
                        lemma_named_lines_single(head, upper);
                        if rank + named_count(items, upper) <= lines.len() {
                            assert(seq![lines[rank]] + lines.subrange(rank + 1, rank + named_count(items, upper))
                                =~= lines.subrange(rank, rank + named_count(items, upper)));
                        } else {
                            assert(seq![lines[rank]] + lines.subrange(rank + 1, lines.len() as int)
                                =~= lines.subrange(rank, lines.len() as int));
                        }
                    }
                }
            },
            _ => {
                lemma_reuse_pass_lines(rest, upper, lines, eol, rank, fold);
                lemma_named_lines_append(seq![items[0]], reuse_pass(rest, upper, lines, eol, rank, fold), upper);
                lemma_named_lines_single(items[0], upper);
            },
        }
    } else {
        if rank <= lines.len() {
            assert(lines.subrange(rank, rank) =~= Seq::<Seq<char>>::empty());
        }
    }
}

/// Whether some items hold no property at all.
pub open spec fn no_property(items: Seq<NodeView>) -> bool {
    forall|i: int| 0 <= i < items.len() ==> !(#[trigger] items[i] is Property)
}

pub proof fn lemma_no_property_lines(items: Seq<NodeView>, upper: Seq<char>)
    requires
        no_property(items),
    ensures
        named_lines(items, upper) == Seq::<Seq<char>>::empty(),
    decreases items.len(),
{
    if items.len() > 0 {
        assert(!(items[0] is Property));
        assert forall|i: int| 0 <= i < items.drop_first().len() implies !(#[trigger] items.drop_first()[i] is Property) by {
            assert(items.drop_first()[i] == items[i + 1]);
        }
        lemma_no_property_lines(items.drop_first(), upper);
    }
}

/// Nothing past the last property is a property.
pub proof fn lemma_last_prop_end_tail(items: Seq<NodeView>)
    ensures
        0 <= last_prop_end(items) <= items.len(),
        no_property(items.skip(last_prop_end(items))),
        last_prop_end(items) == 0 ==> no_property(items),
    decreases items.len(),
{
    lemma_last_prop_end_bound(items);
    if items.len() > 0 && !(items.last() is Property) {
        let init = items.drop_last();
        lemma_last_prop_end_tail(init);
        assert forall|i: int| 0 <= i < items.skip(last_prop_end(items)).len() implies !(
        #[trigger] items.skip(last_prop_end(items))[i] is Property) by {
            let k = last_prop_end(items) + i;
            if k < items.len() - 1 {
                assert(items.skip(last_prop_end(items))[i] == init.skip(last_prop_end(init))[i]);
            }
        }
        if last_prop_end(items) == 0 {
            assert forall|i: int| 0 <= i < items.len() implies !(#[trigger] items[i] is Property) by {
                if i < items.len() - 1 {
                    assert(items[i] == init[i]);
                }
            }
        }
    } else if items.len() > 0 {
        assert(items.skip(items.len() as int) =~= Seq::<NodeView>::empty());
    }
}

pub proof fn lemma_extras_lines(upper: Seq<char>, lines: Seq<Seq<char>>, eol: Seq<char>, from: int, fold: bool)
    requires
        0 <= from <= lines.len(),
    ensures
        named_lines(extras(upper, lines, eol, from, fold), upper) == lines.skip(from),
    decreases lines.len() - from,
{
    let ex = extras(upper, lines, eol, from, fold);
    if from < lines.len() {
        lemma_extras_lines(upper, lines, eol, from + 1, fold);
        assert(ex.drop_first() =~= extras(upper, lines, eol, from + 1, fold));
        assert(ex[0] == written(upper, lines[from], eol, fold));
        assert(lines.skip(from) =~= seq![lines[from]] + lines.skip(from + 1));
    } else {
        assert(ex =~= Seq::<NodeView>::empty());
        assert(lines.skip(from) =~= Seq::<Seq<char>>::empty());
    }
}

/// Reading a name's properties back after setting them gives the lines set:
/// the component's properties of that name are exactly `lines`, in order.
#[verifier::spinoff_prover]
pub proof fn law_get_after_set(
    items: Seq<NodeView>,
    upper: Seq<char>,
    lines: Seq<Seq<char>>,
    eol: Seq<char>,
    fold: bool,
)
    ensures
        named_lines(spec_set_all(items, upper, lines, eol, fold), upper) == lines,
{
    let reused = reuse_pass(items, upper, lines, eol, 0, fold);
    let count = named_count(items, upper);
    lemma_named_count_bound(items, upper);
    lemma_reuse_pass_lines(items, upper, lines, eol, 0, fold);
    if lines.len() > count {
        let at = insertion_point(reused);
        lemma_last_prop_end_tail(reused);
        lemma_first_component_bound(reused);
        assert(named_lines(reused, upper) =~= lines.take(count));
        assert(reused =~= reused.take(at) + reused.skip(at));
        lemma_named_lines_append(reused.take(at), reused.skip(at), upper);
        if last_prop_end(reused) > 0 {
            lemma_no_property_lines(reused.skip(at), upper);
        } else {
            assert forall|i: int| 0 <= i < reused.skip(at).len() implies !(#[trigger] reused.skip(at)[i] is Property) by {
                assert(reused.skip(at)[i] == reused[at + i]);
            }
            lemma_no_property_lines(reused.skip(at), upper);
        }
        lemma_extras_lines(upper, lines, eol, count, fold);
        lemma_named_lines_append(reused.take(at), extras(upper, lines, eol, count, fold), upper);
        lemma_named_lines_append(reused.take(at) + extras(upper, lines, eol, count, fold), reused.skip(at), upper);
        assert(lines.take(count) + lines.skip(count) =~= lines);
    } else {
        assert(lines.subrange(0, lines.len() as int) =~= lines);
    }
}

/// A reuse pass against the lines the properties already hold keeps every
/// item as it was.
pub proof fn lemma_reuse_pass_same(
    items: Seq<NodeView>,
    upper: Seq<char>,
    lines: Seq<Seq<char>>,
    eol: Seq<char>,
    rank: int,
    fold: bool,
)
    requires
        0 <= rank,
        rank + named_count(items, upper) <= lines.len(),
        named_lines(items, upper) == lines.subrange(rank, rank + named_count(items, upper)),
    ensures
        reuse_pass(items, upper, lines, eol, rank, fold) == items,
    decreases items.len(),
{
    lemma_named_count_bound(items, upper);
    if items.len() > 0 {
        let rest = items.drop_first();
        lemma_named_count_bound(rest, upper);
        match items[0] {
            NodeView::Property { name, logical, raw } => {
                if name != upper {
                    assert(named_lines(rest, upper) == named_lines(items, upper));
                    lemma_reuse_pass_same(rest, upper, lines, eol, rank, fold);
                    assert(seq![items[0]] + rest =~= items);
                } else {
                    let cnt = named_count(items, upper);
                    assert(named_lines(items, upper) =~= seq![logical] + named_lines(rest, upper));
                    assert(named_lines(rest, upper) =~= named_lines(items, upper).drop_first());
                    assert(lines.subrange(rank, rank + cnt).drop_first() =~= lines.subrange(rank + 1, rank + cnt));
                    assert(named_lines(items, upper)[0] == logical);
                    assert(lines.subrange(rank, rank + cnt)[0] == lines[rank]);
                    lemma_reuse_pass_same(rest, upper, lines, eol, rank + 1, fold);
                    assert(seq![items[0]] + rest =~= items);
                }
            },
            _ => {
                lemma_reuse_pass_same(rest, upper, lines, eol, rank, fold);
                assert(seq![items[0]] + rest =~= items);
            },
        }
    }
}

/// The items a predicate keeps, in order.
pub open spec fn kept(items: Seq<NodeView>, keep: spec_fn(NodeView) -> bool) -> Seq<NodeView>
    decreases items.len(),
{
    if items.len() == 0 {
        Seq::empty()
    } else {
        (if keep(items[0]) {
            seq![items[0]]
        } else {
            Seq::empty()
        }) + kept(items.drop_first(), keep)
    }
}

pub proof fn lemma_kept_append(a: Seq<NodeView>, b: Seq<NodeView>, keep: spec_fn(NodeView) -> bool)
    ensures
        kept(a + b, keep) == kept(a, keep) + kept(b, keep),
    decreases a.len(),
{
    if a.len() == 0 {
        assert(a + b =~= b);
        assert(Seq::<NodeView>::empty() + kept(b, keep) =~= kept(b, keep));
    } else {
        lemma_kept_append(a.drop_first(), b, keep);
        assert((a + b).drop_first() =~= a.drop_first() + b);
        assert((a + b)[0] == a[0]);
        let head = if keep(a[0]) {
            seq![a[0]]
        } else {
            Seq::<NodeView>::empty()
        };
        assert(head + (kept(a.drop_first(), keep) + kept(b, keep)) =~= head + kept(a.drop_first(), keep)
            + kept(b, keep));
    }
}

pub proof fn lemma_kept_cons(x: NodeView, rest: Seq<NodeView>, keep: spec_fn(NodeView) -> bool)
    ensures
        kept(seq![x] + rest, keep) == (if keep(x) {
            seq![x]
        } else {
            Seq::<NodeView>::empty()
        }) + kept(rest, keep),
{
    assert((seq![x] + rest).drop_first() =~= rest);
    assert((seq![x] + rest)[0] == x);
}

/// A predicate that keeps none of the properties of that name.
pub open spec fn ignores_named(keep: spec_fn(NodeView) -> bool, upper: Seq<char>) -> bool {
    forall|x: NodeView| #[trigger] is_named(x, upper) ==> !keep(x)
}

/// Items of which a predicate keeps none keep nothing.
pub proof fn lemma_kept_none(items: Seq<NodeView>, keep: spec_fn(NodeView) -> bool)
    requires
        forall|i: int| 0 <= i < items.len() ==> !keep(#[trigger] items[i]),
    ensures
        kept(items, keep) == Seq::<NodeView>::empty(),
    decreases items.len(),
{
    if items.len() > 0 {
        assert(!keep(items[0]));
        assert forall|i: int| 0 <= i < items.drop_first().len() implies !keep(
            #[trigger] items.drop_first()[i],
        ) by {
            assert(items.drop_first()[i] == items[i + 1]);
        }
        lemma_kept_none(items.drop_first(), keep);
        assert(Seq::<NodeView>::empty() + Seq::<NodeView>::empty() =~= Seq::<NodeView>::empty());
    }
}

/// A reuse pass changes only properties of its name.
pub proof fn lemma_reuse_pass_kept(
    items: Seq<NodeView>,
    upper: Seq<char>,
    lines: Seq<Seq<char>>,
    eol: Seq<char>,
    rank: int,
    keep: spec_fn(NodeView) -> bool,
    fold: bool,
)
    requires
        ignores_named(keep, upper),
    ensures
        kept(reuse_pass(items, upper, lines, eol, rank, fold), keep) == kept(items, keep),
    decreases items.len(),
{
    if items.len() > 0 {
        let x = items[0];
        let rest = items.drop_first();
        assert(items =~= seq![x] + rest);
        lemma_kept_cons(x, rest, keep);
        lemma_reuse_pass_kept(rest, upper, lines, eol, rank, keep, fold);
        lemma_reuse_pass_kept(rest, upper, lines, eol, rank + 1, keep, fold);
        match x {
            NodeView::Property { name, logical, raw } => {
                if name != upper {
                    lemma_kept_cons(x, reuse_pass(rest, upper, lines, eol, rank, fold), keep);
                } else {
                    assert(is_named(x, upper));
                    assert(!keep(x));
                    if rank < lines.len() {
                        let head = if logical == lines[rank] {
                            x
                        } else {
                            written(name, lines[rank], eol, fold)
                        };
                        assert(is_named(head, upper));
                        lemma_kept_cons(head, reuse_pass(rest, upper, lines, eol, rank + 1, fold), keep);
                        assert(Seq::<NodeView>::empty() + kept(rest, keep) =~= kept(rest, keep));
                    } else {
                        assert(Seq::<NodeView>::empty() + kept(rest, keep) =~= kept(rest, keep));
                    }
                }
            },
            _ => {
                lemma_kept_cons(x, reuse_pass(rest, upper, lines, eol, rank, fold), keep);
            },
        }
    }
}

/// Setting the properties of one name keeps whatever a predicate that
/// ignores them keeps.
pub proof fn lemma_set_all_kept(
    items: Seq<NodeView>,
    upper: Seq<char>,
    lines: Seq<Seq<char>>,
    eol: Seq<char>,
    keep: spec_fn(NodeView) -> bool,
    fold: bool,
)
    requires
        ignores_named(keep, upper),
    ensures
        kept(spec_set_all(items, upper, lines, eol, fold), keep) == kept(items, keep),
{
    let reused = reuse_pass(items, upper, lines, eol, 0, fold);
    lemma_reuse_pass_kept(items, upper, lines, eol, 0, keep, fold);
    let count = named_count(items, upper);
    if lines.len() > count {
        let at = insertion_point(reused);
        lemma_last_prop_end_bound(reused);
        lemma_first_component_bound(reused);
        let more = extras(upper, lines, eol, count, fold);
        assert forall|i: int| 0 <= i < more.len() implies !keep(#[trigger] more[i]) by {
            assert(is_named(more[i], upper));
        }
        lemma_kept_none(more, keep);
        lemma_kept_append(reused.take(at), more, keep);
        lemma_kept_append(reused.take(at) + more, reused.skip(at), keep);
        lemma_kept_append(reused.take(at), reused.skip(at), keep);
        assert(reused.take(at) + reused.skip(at) =~= reused);
        assert(kept(reused.take(at), keep) + Seq::<NodeView>::empty() =~= kept(reused.take(at), keep));
    }
}

/// Setting the properties of one name leaves every other item (every other
/// property, every component, every line kept verbatim) as it was, byte for
/// byte and in order.
pub proof fn law_set_all_keeps_the_rest(
    items: Seq<NodeView>,
    upper: Seq<char>,
    lines: Seq<Seq<char>>,
    eol: Seq<char>,
    fold: bool,
)
    ensures
        kept(spec_set_all(items, upper, lines, eol, fold), |x: NodeView| !is_named(x, upper)) == kept(
            items,
            |x: NodeView| !is_named(x, upper),
        ),
{
    lemma_set_all_kept(items, upper, lines, eol, |x: NodeView| !is_named(x, upper), fold);
}

/// Setting a name's properties to the lines they already hold changes
/// nothing: every item, and so every byte, stays as it was.
pub proof fn law_set_same_is_identity(items: Seq<NodeView>, upper: Seq<char>, eol: Seq<char>, fold: bool)
    ensures
        spec_set_all(items, upper, named_lines(items, upper), eol, fold) == items,
{
    let lines = named_lines(items, upper);
    lemma_named_lines_len(items, upper);
    assert(lines.subrange(0, named_count(items, upper)) =~= lines);
    lemma_reuse_pass_same(items, upper, lines, eol, 0, fold);
}

/// How many UTF-8 octets encode a run of characters.
pub open spec fn octets(s: Seq<char>) -> int
    decreases s.len(),
{
    if s.len() == 0 {
        0
    } else {
        utf8_len(s[0]) + octets(s.drop_first())
    }
}

/// Runs of characters written one after another.
pub open spec fn concat_runs(runs: Seq<Seq<char>>) -> Seq<char>
    decreases runs.len(),
{
    if runs.len() == 0 {
        Seq::empty()
    } else {
        runs[0] + concat_runs(runs.drop_first())
    }
}

/// Physical lines written as one folded content line: each after the first
/// opens with `eol` and a space.
pub open spec fn folded_runs(runs: Seq<Seq<char>>, eol: Seq<char>) -> Seq<char>
    decreases runs.len(),
{
    if runs.len() == 0 {
        Seq::empty()
    } else if runs.len() == 1 {
        runs[0]
    } else {
        runs[0] + eol + seq![' '] + folded_runs(runs.drop_first(), eol)
    }
}

/// Where folding breaks `s` on a line already `line_len` octets wide: the
/// characters of each physical line.
pub open spec fn fold_runs(s: Seq<char>, line_len: int) -> Seq<Seq<char>>
    decreases s.len(),
{
    if s.len() == 0 {
        seq![Seq::empty()]
    } else if line_len + utf8_len(s[0]) > MAX_LINE_OCTETS {
        let rest = fold_runs(s.drop_first(), 1 + utf8_len(s[0]));
        seq![Seq::empty()] + rest.update(0, seq![s[0]] + rest[0])
    } else {
        let rest = fold_runs(s.drop_first(), line_len + utf8_len(s[0]));
        rest.update(0, seq![s[0]] + rest[0])
    }
}

proof fn lemma_octets_cons(c: char, s: Seq<char>)
    ensures
        octets(seq![c] + s) == utf8_len(c) + octets(s),
{
    assert((seq![c] + s).drop_first() =~= s);
}

proof fn lemma_runs_extend(runs: Seq<Seq<char>>, p: Seq<char>, eol: Seq<char>)
    requires
        runs.len() >= 1,
    ensures
        concat_runs(runs.update(0, p + runs[0])) == p + concat_runs(runs),
        folded_runs(runs.update(0, p + runs[0]), eol) == p + folded_runs(runs, eol),
{
    let u = runs.update(0, p + runs[0]);
    assert(u.drop_first() =~= runs.drop_first());
    assert(p + runs[0] + concat_runs(runs.drop_first()) =~= p + (runs[0] + concat_runs(runs.drop_first())));
    if runs.len() > 1 {
        assert(p + runs[0] + eol + seq![' '] + folded_runs(runs.drop_first(), eol) =~= p + (runs[0] + eol
            + seq![' '] + folded_runs(runs.drop_first(), eol)));
    }
}

proof fn lemma_fold_runs(s: Seq<char>, eol: Seq<char>, line_len: int)
    requires
        0 <= line_len <= MAX_LINE_OCTETS,
    ensures
        fold_runs(s, line_len).len() >= 1,
        concat_runs(fold_runs(s, line_len)) == s,
        folded_runs(fold_runs(s, line_len), eol) == fold_from(s, eol, line_len),
        line_len + octets(fold_runs(s, line_len)[0]) <= MAX_LINE_OCTETS,
        forall|i: int|
            1 <= i < fold_runs(s, line_len).len() ==> 1 + octets(#[trigger] fold_runs(s, line_len)[i])
                <= MAX_LINE_OCTETS,
    decreases s.len(),
{
    let runs = fold_runs(s, line_len);
    if s.len() == 0 {
        let e = Seq::<char>::empty();
        assert(concat_runs(runs.drop_first()) == e);
        assert(concat_runs(runs) =~= e);
    } else {
        let c = s[0];
        let next = if line_len + utf8_len(c) > MAX_LINE_OCTETS {
            1 + utf8_len(c)
        } else {
            line_len + utf8_len(c)
        };
        let rest = fold_runs(s.drop_first(), next);
        lemma_fold_runs(s.drop_first(), eol, next);
        lemma_runs_extend(rest, seq![c], eol);
        lemma_octets_cons(c, rest[0]);
        let grown = rest.update(0, seq![c] + rest[0]);
        assert(seq![c] + s.drop_first() =~= s);
        if line_len + utf8_len(c) > MAX_LINE_OCTETS {
            let e = Seq::<char>::empty();
            assert(runs == seq![e] + grown);
            assert(runs.drop_first() =~= grown);
            assert(runs[0] == e);
            assert(concat_runs(runs) == e + concat_runs(grown));
            assert(e + concat_runs(grown) =~= concat_runs(grown));
            assert(folded_runs(runs, eol) == e + eol + seq![' '] + folded_runs(grown, eol));
            assert(e + eol + seq![' '] + (seq![c] + folded_runs(rest, eol)) =~= eol + seq![' ', c] + folded_runs(
                rest,
                eol,
            ));
            assert(octets(e) == 0);
            assert forall|i: int| 1 <= i < runs.len() implies 1 + octets(#[trigger] runs[i])
                <= MAX_LINE_OCTETS by {
                assert(runs[i] == grown[i - 1]);
                if i > 1 {
                    assert(grown[i - 1] == rest[i - 1]);
                }
            }
        } else {
            assert(runs == grown);
            assert(seq![c] + folded_runs(rest, eol) =~= seq![c] + fold_from(s.drop_first(), eol, next));
            assert forall|i: int| 1 <= i < runs.len() implies 1 + octets(#[trigger] runs[i])
                <= MAX_LINE_OCTETS by {
                assert(runs[i] == rest[i]);
            }
        }
    }
}

/// A content line is written as physical lines none of which passes
/// [`MAX_LINE_OCTETS`] octets, a continuation's leading space counted:
/// folding only puts `eol` and a space between the characters of the line,
/// and ends it with `eol`. Every line [`Component::set_all`] writes anew is
/// written so.
pub proof fn law_written_lines_fit(content: Seq<char>, eol: Seq<char>)
    ensures
        exists|runs: Seq<Seq<char>>|
            {
                &&& runs.len() >= 1
                &&& concat_runs(runs) == content
                &&& rendered(content, eol) == folded_runs(runs, eol) + eol
                &&& octets(runs[0]) <= MAX_LINE_OCTETS
                &&& forall|i: int| 1 <= i < runs.len() ==> 1 + octets(#[trigger] runs[i]) <= MAX_LINE_OCTETS
            },
{
    lemma_fold_runs(content, eol, 0);
    let runs = fold_runs(content, 0);
    assert(octets(runs[0]) <= MAX_LINE_OCTETS);
}

/// Whether an item is a property of that name written anew from a line.
pub open spec fn written_anew(x: NodeView, upper: Seq<char>, eol: Seq<char>, fold: bool) -> bool {
    x matches NodeView::Property { name, logical, raw } && name == upper && raw == written_raw(logical, eol, fold)
}

proof fn lemma_reuse_pass_members(
    items: Seq<NodeView>,
    upper: Seq<char>,
    lines: Seq<Seq<char>>,
    eol: Seq<char>,
    rank: int,
    fold: bool,
)
    ensures
        forall|k: int|
            0 <= k < reuse_pass(items, upper, lines, eol, rank, fold).len() ==> items.contains(
                #[trigger] reuse_pass(items, upper, lines, eol, rank, fold)[k],
            ) || written_anew(reuse_pass(items, upper, lines, eol, rank, fold)[k], upper, eol, fold),
    decreases items.len(),
{
    if items.len() > 0 {
        let rest_items = items.drop_first();
        lemma_reuse_pass_members(rest_items, upper, lines, eol, rank + 1, fold);
        lemma_reuse_pass_members(rest_items, upper, lines, eol, rank, fold);
        let out = reuse_pass(items, upper, lines, eol, rank, fold);
        assert forall|k: int| 0 <= k < out.len() implies items.contains(#[trigger] out[k]) || written_anew(
            out[k],
            upper,
            eol,
            fold,
        ) by {
            let a = reuse_pass(rest_items, upper, lines, eol, rank + 1, fold);
            let b = reuse_pass(rest_items, upper, lines, eol, rank, fold);
            assert(items[0] == items[0]);
            assert(items.contains(items[0]));
            match items[0] {
                NodeView::Property { name, logical, raw } => {
                    if name != upper {
                        if k > 0 {
                            assert(out[k] == b[k - 1]);
                            if rest_items.contains(b[k - 1]) {
                                let j = choose|j: int| 0 <= j < rest_items.len() && rest_items[j] == b[k - 1];
                                assert(items[j + 1] == b[k - 1]);
                            }
                        }
                    } else if rank < lines.len() {
                        if k > 0 {
                            assert(out[k] == a[k - 1]);
                            if rest_items.contains(a[k - 1]) {
                                let j = choose|j: int| 0 <= j < rest_items.len() && rest_items[j] == a[k - 1];
                                assert(items[j + 1] == a[k - 1]);
                            }
                        }
                    } else {
                        assert(out[k] == a[k]);
                        if rest_items.contains(a[k]) {
                            let j = choose|j: int| 0 <= j < rest_items.len() && rest_items[j] == a[k];
                            assert(items[j + 1] == a[k]);
                        }
                    }
                },
                _ => {
                    if k > 0 {
                        assert(out[k] == b[k - 1]);
                        if rest_items.contains(b[k - 1]) {
                            let j = choose|j: int| 0 <= j < rest_items.len() && rest_items[j] == b[k - 1];
                            assert(items[j + 1] == b[k - 1]);
                        }
                    }
                },
            }
        }
    }
}

/// Setting a component's properties of one name, in one statement: reading
/// them back gives the lines set, in order; the properties held are reused
/// in order, an unchanged one keeping its bytes and a surplus one dropped,
/// and the lines beyond them go after the last property, else before the
/// first nested component, else at the end ([`insertion_point`]); every
/// other item keeps its place among the others; setting the lines already held changes nothing; and
/// every item is one held before or a property of that name written anew,
/// ended with the component's line ending (folded when `fold`, which
/// [`law_written_lines_fit`] keeps within [`MAX_LINE_OCTETS`] octets per
/// physical line; [`Component::set_all`] folds, `set_lines` does not).
pub proof fn law_set_all(items: Seq<NodeView>, upper: Seq<char>, lines: Seq<Seq<char>>, eol: Seq<char>, fold: bool)
    ensures
        named_lines(spec_set_all(items, upper, lines, eol, fold), upper) == lines,
        kept(spec_set_all(items, upper, lines, eol, fold), |x: NodeView| !is_named(x, upper)) == kept(
            items,
            |x: NodeView| !is_named(x, upper),
        ),
        lines.len() > named_count(items, upper) ==> spec_set_all(items, upper, lines, eol, fold) == reuse_pass(
            items,
            upper,
            lines,
            eol,
            0,
            fold,
        ).take(insertion_point(reuse_pass(items, upper, lines, eol, 0, fold))) + extras(
            upper,
            lines,
            eol,
            named_count(items, upper),
            fold,
        ) + reuse_pass(items, upper, lines, eol, 0, fold).skip(
            insertion_point(reuse_pass(items, upper, lines, eol, 0, fold)),
        ),
        lines.len() <= named_count(items, upper) ==> spec_set_all(items, upper, lines, eol, fold) == reuse_pass(
            items,
            upper,
            lines,
            eol,
            0,
            fold,
        ),
        named_lines(items, upper) == lines ==> spec_set_all(items, upper, lines, eol, fold) == items,
        forall|k: int|
            0 <= k < spec_set_all(items, upper, lines, eol, fold).len() ==> items.contains(
                #[trigger] spec_set_all(items, upper, lines, eol, fold)[k],
            ) || written_anew(spec_set_all(items, upper, lines, eol, fold)[k], upper, eol, fold),
{
    law_get_after_set(items, upper, lines, eol, fold);
    law_set_all_keeps_the_rest(items, upper, lines, eol, fold);
    if named_lines(items, upper) == lines {
        law_set_same_is_identity(items, upper, eol, fold);
    }
    let after = spec_set_all(items, upper, lines, eol, fold);
    let reused = reuse_pass(items, upper, lines, eol, 0, fold);
    lemma_reuse_pass_members(items, upper, lines, eol, 0, fold);
    let count = named_count(items, upper);
    assert forall|k: int| 0 <= k < after.len() implies items.contains(#[trigger] after[k]) || written_anew(
        after[k],
        upper,
        eol,
        fold,
    ) by {
        if lines.len() > count {
            let at = insertion_point(reused);
            lemma_last_prop_end_tail(reused);
            lemma_first_component_bound(reused);
            let ex = extras(upper, lines, eol, count, fold);
            if k < at {
                assert(after[k] == reused[k]);
            } else if k < at + ex.len() {
                assert(after[k] == ex[k - at]);
            } else {
                assert(after[k] == reused[k - ex.len()]);
            }
        }
    }
}

/// The components under an item, the item first, in depth-first
/// pre-order: a component before its descendants, siblings in source order.
pub open spec fn preorder_item(item: NodeView) -> Seq<NodeView>
    decreases item, 0int,
{
    match item {
        NodeView::Component { items, .. } => seq![item] + preorder(items),
        _ => Seq::empty(),
    }
}

/// The components among some items and under them, in depth-first
/// pre-order.
pub open spec fn preorder(items: Seq<NodeView>) -> Seq<NodeView>
    decreases items, 1int,
{
    if items.len() == 0 {
        Seq::empty()
    } else {
        preorder_item(items[0]) + preorder(items.subrange(1, items.len() as int))
    }
}

/// Whether an item is a component whose type is the given one, ASCII case
/// ignored.
pub open spec fn is_type(item: NodeView, ty: Seq<char>) -> bool {
    item matches NodeView::Component { name, .. } && same_ignoring_ascii_case(name, ty)
}

/// The index of the first component of that type, the length where there is
/// none.
pub open spec fn first_of_type(s: Seq<NodeView>, ty: Seq<char>) -> int
    decreases s.len(),
{
    if s.len() == 0 {
        0
    } else if is_type(s[0], ty) {
        0
    } else {
        1 + first_of_type(s.drop_first(), ty)
    }
}

proof fn lemma_first_of_type_append(a: Seq<NodeView>, b: Seq<NodeView>, ty: Seq<char>)
    ensures
        0 <= first_of_type(a, ty) <= a.len(),
        first_of_type(a, ty) < a.len() ==> is_type(a[first_of_type(a, ty)], ty),
        first_of_type(a + b, ty) == if first_of_type(a, ty) < a.len() {
            first_of_type(a, ty)
        } else {
            a.len() + first_of_type(b, ty)
        },
    decreases a.len(),
{
    if a.len() == 0 {
        assert(a + b =~= b);
    } else {
        assert((a + b)[0] == a[0]);
        assert((a + b).drop_first() =~= a.drop_first() + b);
        lemma_first_of_type_append(a.drop_first(), b, ty);
        if !is_type(a[0], ty) && first_of_type(a, ty) < a.len() {
            assert(a[first_of_type(a, ty)] == a.drop_first()[first_of_type(a.drop_first(), ty)]);
        }
    }
}

proof fn lemma_first_of_type_bound(s: Seq<NodeView>, ty: Seq<char>)
    ensures
        0 <= first_of_type(s, ty) <= s.len(),
        first_of_type(s, ty) < s.len() ==> is_type(s[first_of_type(s, ty)], ty),
{
    lemma_first_of_type_append(s, Seq::empty(), ty);
}

proof fn lemma_hit_item(x: NodeView, ty: Seq<char>)
    ensures
        hit(x, ty) <==> first_of_type(preorder_item(x), ty) < preorder_item(x).len(),
        hit(x, ty) ==> x is Component,
        hit(x, ty) && is_type(x, ty) ==> first_of_type(preorder_item(x), ty) == 0,
        hit(x, ty) && !is_type(x, ty) ==> (x matches NodeView::Component { items: kids, .. } && find_in(kids, ty)
            matches Some(p) && p.len() >= 1 && at_path(kids, p) == preorder_item(x)[first_of_type(
            preorder_item(x),
            ty,
        )]),
    decreases x, 0int,
{
    match x {
        NodeView::Component { name, items: kids, .. } => {
            let pk = preorder(kids);
            let pi = preorder_item(x);
            assert(pi == seq![x] + pk);
            lemma_first_of_type_append(seq![x], pk, ty);
            assert(seq![x][0] == x);
            lemma_scan(kids, ty);
            lemma_find(kids, ty);
            lemma_first_of_type_bound(pk, ty);
            lemma_first_of_type_bound(seq![x], ty);
            if !is_type(x, ty) {
                assert(first_of_type(seq![x], ty) == 1) by {
                    assert(seq![x].drop_first() =~= Seq::<NodeView>::empty());
                }
                if first_of_type(pk, ty) < pk.len() {
                    assert(pi[1 + first_of_type(pk, ty)] == pk[first_of_type(pk, ty)]);
                }
            }
        },
        _ => {
            assert(preorder_item(x) =~= Seq::<NodeView>::empty());
        },
    }
}

proof fn lemma_scan(items: Seq<NodeView>, ty: Seq<char>)
    ensures
        0 <= first_hit(items, ty) <= items.len(),
        first_hit(items, ty) < items.len() <==> first_of_type(preorder(items), ty) < preorder(items).len(),
        first_hit(items, ty) < items.len() ==> hit(items[first_hit(items, ty)], ty) && preorder(items)[first_of_type(
            preorder(items),
            ty,
        )] == preorder_item(items[first_hit(items, ty)])[first_of_type(
            preorder_item(items[first_hit(items, ty)]),
            ty,
        )],
    decreases items, 1int,
{
    if items.len() > 0 {
        let x = items[0];
        let rest = items.subrange(1, items.len() as int);
        let pi = preorder_item(x);
        let pr = preorder(rest);
        assert(preorder(items) == pi + pr);
        lemma_hit_item(x, ty);
        lemma_first_of_type_append(pi, pr, ty);
        lemma_first_of_type_bound(pr, ty);
        if !hit(x, ty) {
            lemma_scan(rest, ty);
            if first_hit(rest, ty) < rest.len() {
                assert(items[first_hit(items, ty)] == rest[first_hit(rest, ty)]);
                assert((pi + pr)[pi.len() + first_of_type(pr, ty)] == pr[first_of_type(pr, ty)]);
            }
        } else {
            assert((pi + pr)[first_of_type(pi, ty)] == pi[first_of_type(pi, ty)]);
        }
    } else {
        assert(preorder(items) =~= Seq::<NodeView>::empty());
    }
}

proof fn lemma_find(items: Seq<NodeView>, ty: Seq<char>)
    ensures
        find_in(items, ty) is None <==> first_of_type(preorder(items), ty) == preorder(items).len(),
        find_in(items, ty) matches Some(p) ==> p.len() >= 1 && at_path(items, p) == preorder(items)[first_of_type(
            preorder(items),
            ty,
        )],
    decreases items, 2int,
{
    lemma_scan(items, ty);
    lemma_first_of_type_bound(preorder(items), ty);
    let i = first_hit(items, ty);
    if i < items.len() {
        let x = items[i];
        lemma_hit_item(x, ty);
        lemma_first_of_type_bound(preorder_item(x), ty);
        match x {
            NodeView::Component { name, items: kids, .. } => {
                if same_ignoring_ascii_case(name, ty) {
                    assert(is_type(x, ty));
                    assert(preorder_item(x)[0] == x);
                } else {
                    assert(!is_type(x, ty));
                    let p = find_in(kids, ty)->Some_0;
                    let path = seq![i] + p;
                    assert(path.drop_first() =~= p);
                    assert(path[0] == i);
                }
            },
            _ => {},
        }
    }
}

/// Finding a component of a type finds the first one, in depth-first
/// pre-order (a component before its descendants, siblings in source order),
/// whose type is that one, ASCII case ignored; there is none exactly when no
/// component at any depth has that type.
pub proof fn law_component_found_first(items: Seq<NodeView>, ty: Seq<char>)
    ensures
        find_in(items, ty) is None <==> forall|k: int|
            0 <= k < preorder(items).len() ==> !is_type(#[trigger] preorder(items)[k], ty),
        find_in(items, ty) matches Some(p) ==> ({
            let k = first_of_type(preorder(items), ty);
            &&& 0 <= k < preorder(items).len()
            &&& at_path(items, p) == preorder(items)[k]
            &&& is_type(preorder(items)[k], ty)
            &&& forall|j: int| 0 <= j < k ==> !is_type(#[trigger] preorder(items)[j], ty)
        }),
{
    lemma_find(items, ty);
    lemma_first_of_type_bound(preorder(items), ty);
    lemma_first_of_type_before(preorder(items), ty);
}

proof fn lemma_first_of_type_before(s: Seq<NodeView>, ty: Seq<char>)
    ensures
        forall|j: int| 0 <= j < first_of_type(s, ty) && j < s.len() ==> !is_type(#[trigger] s[j], ty),
    decreases s.len(),
{
    if s.len() > 0 && !is_type(s[0], ty) {
        lemma_first_of_type_before(s.drop_first(), ty);
        assert forall|j: int| 0 <= j < first_of_type(s, ty) && j < s.len() implies !is_type(#[trigger] s[j], ty) by {
            if j > 0 {
                assert(s[j] == s.drop_first()[j - 1]);
            }
        }
    }
}

} // verus!
