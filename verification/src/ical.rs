//! # Reading and editing a calendar
//!
//! The one reader every verb uses, and the byte-preserving edits a fold-back
//! makes through it.
//!
//! [`TcalCalendar::parse`] reads a whole stream into the format-preserving
//! tree of [`crate::edit`], which writes the input back exactly. A calendar is
//! therefore read once: what the projection walks and what a fold-back
//! patches are the same tree, and no value passes through a second reader
//! that might normalise it.

use vstd::prelude::*;

use crate::edit::{
    component_view, eol_of, item_view, items_text, items_view, lemma_items_view, lemma_items_view_push,
    named_lines, parse, spec_eol_of, spec_parse, spec_set_all, string_views, write_items, Component, Node,
    NodeView, Property,
};
use crate::error::{TcalError, TcalResult};
use crate::patch::{spec_texts, spec_value, views_of};
use crate::text::{chars_eq, chars_of, copy_chars, push_all, string_of, to_ascii_upper, ascii_upper};
use crate::util::{items, line_text, param, raw, spec_param_value, text};

verus! {

/// A parsed iCalendar stream: the calendars it holds, byte for byte.
///
/// A file usually holds one. Where it holds more, the first is the one every
/// verb reads and the rest are carried through untouched, since a calendar a
/// reader never asked about is not one to drop.
pub struct TcalCalendar(pub Vec<Node>);

/// Whether an item is a component of that (uppercase) type.
pub open spec fn is_child(item: NodeView, name: Seq<char>) -> bool {
    match item {
        NodeView::Component { name: n, .. } => n == name,
        _ => false,
    }
}

/// The index of the first component among some items, their length where
/// there is none.
pub open spec fn first_component_at(items: Seq<NodeView>) -> int
    decreases items.len(),
{
    if items.len() == 0 {
        0
    } else if items[0] is Component {
        0
    } else {
        1 + first_component_at(items.drop_first())
    }
}

/// The components among some items, whatever their type, in order.
pub open spec fn nested_views(items: Seq<NodeView>) -> Seq<NodeView>
    decreases items.len(),
{
    if items.len() == 0 {
        Seq::empty()
    } else if items.last() is Component {
        nested_views(items.drop_last()).push(items.last())
    } else {
        nested_views(items.drop_last())
    }
}

/// The components of that type among some items, in order.
pub open spec fn child_views(items: Seq<NodeView>, name: Seq<char>) -> Seq<NodeView>
    decreases items.len(),
{
    if items.len() == 0 {
        Seq::empty()
    } else if is_child(items.last(), name) {
        child_views(items.drop_last(), name).push(items.last())
    } else {
        child_views(items.drop_last(), name)
    }
}

/// How many components of that type there are among some items.
pub open spec fn child_count(items: Seq<NodeView>, name: Seq<char>) -> int {
    child_views(items, name).len() as int
}

/// The items of a component view.
pub open spec fn view_items(view: NodeView) -> Seq<NodeView> {
    match view {
        NodeView::Component { items, .. } => items,
        _ => Seq::empty(),
    }
}

/// The first calendar of a stream: its first component, where it has one.
pub open spec fn spec_read(items: Seq<NodeView>) -> Option<NodeView> {
    let at = first_component_at(items);
    if at < items.len() {
        Some(items[at])
    } else {
        None
    }
}

/// Whether a text is blank: only spaces, tabs and line ends.
pub open spec fn spec_blank(s: Seq<char>) -> bool {
    forall|i: int| 0 <= i < s.len() ==> (#[trigger] s[i] == ' ' || s[i] == '\t' || s[i] == '\r' || s[i] == '\n')
}

/// Whether a text reads as an iCalendar stream: it holds a component, or
/// nothing but blanks.
pub open spec fn readable(text: Seq<char>) -> bool {
    spec_read(spec_parse(text)) is Some || spec_blank(text)
}

/// What a text that is no iCalendar is refused with.
pub open spec fn unreadable_message() -> Seq<char> {
    "no iCalendar component found"@
}

/// Whether a text is blank.
fn blank(s: &[char]) -> (r: bool)
    ensures
        r == spec_blank(s@),
{
    let mut i: usize = 0;
    while i < s.len()
        invariant
            i <= s.len(),
            forall|j: int| 0 <= j < i ==> (#[trigger] s@[j] == ' ' || s@[j] == '\t' || s@[j] == '\r' || s@[j] == '\n'),
        decreases s.len() - i,
    {
        let c = s[i];
        if !(c == ' ' || c == '\t' || c == '\r' || c == '\n') {
            return false;
        }
        i = i + 1;
    }
    true
}

/// The top-level components of a stream: the first calendar's children
/// where it is a `VCALENDAR`, else that lone component.
pub open spec fn spec_top_level(items: Seq<NodeView>) -> Seq<NodeView> {
    match spec_read(items) {
        Some(root) => if is_child(root, "VCALENDAR"@) {
            nested_views(view_items(root))
        } else {
            seq![root]
        },
        None => Seq::empty(),
    }
}

pub proof fn lemma_first_component_at(items: Seq<NodeView>)
    ensures
        0 <= first_component_at(items) <= items.len(),
        first_component_at(items) < items.len() ==> items[first_component_at(items)] is Component,
        forall|j: int| 0 <= j < first_component_at(items) ==> !(#[trigger] items[j] is Component),
    decreases items.len(),
{
    if items.len() > 0 && !(items[0] is Component) {
        lemma_first_component_at(items.drop_first());
        assert forall|j: int| 0 <= j < first_component_at(items) implies !(
        #[trigger] items[j] is Component) by {
            if j > 0 {
                assert(items[j] == items.drop_first()[j - 1]);
            }
        }
    }
}

/// The views of some component references.
pub open spec fn refs_view(v: Seq<&Component>) -> Seq<NodeView> {
    v.map_values(|c: &Component| component_view(*c))
}

/// The components of that type among some items, as references.
pub fn children_of<'a>(items: &'a Vec<Node>, name: &[char]) -> (out: Vec<&'a Component>)
    ensures
        refs_view(out@) == child_views(items_view(items@), name@),
{
    proof {
        lemma_items_view(items@);
    }
    let ghost all = items_view(items@);
    let mut out: Vec<&'a Component> = Vec::new();
    let mut i: usize = 0;
    proof {
        assert(all.take(0) =~= Seq::<NodeView>::empty());
        assert(refs_view(out@) =~= Seq::<NodeView>::empty());
    }
    while i < items.len()
        invariant
            i <= items.len(),
            all == items_view(items@),
            all.len() == items@.len(),
            forall|j: int| 0 <= j < items@.len() ==> #[trigger] all[j] == item_view(items@[j]),
            refs_view(out@) == child_views(all.take(i as int), name@),
        decreases items.len() - i,
    {
        proof {
            assert(all.take(i + 1).drop_last() =~= all.take(i as int));
            assert(all.take(i + 1).last() == all[i as int]);
        }
        match &items[i] {
            Node::Component(c) => {
                if chars_eq(&c.name, name) {
                    let ghost prev = out@;
                    out.push(c);
                    proof {
                        assert(refs_view(out@) =~= refs_view(prev).push(component_view(*c)));
                    }
                }
            },
            _ => {},
        }
        i = i + 1;
    }
    proof {
        assert(all.take(i as int) =~= all);
    }
    out
}

/// Every component among some items, as references.
pub fn nested_of<'a>(items: &'a Vec<Node>) -> (out: Vec<&'a Component>)
    ensures
        refs_view(out@) == nested_views(items_view(items@)),
{
    proof {
        lemma_items_view(items@);
    }
    let ghost all = items_view(items@);
    let mut out: Vec<&'a Component> = Vec::new();
    let mut i: usize = 0;
    proof {
        assert(all.take(0) =~= Seq::<NodeView>::empty());
        assert(refs_view(out@) =~= Seq::<NodeView>::empty());
    }
    while i < items.len()
        invariant
            i <= items.len(),
            all == items_view(items@),
            all.len() == items@.len(),
            forall|j: int| 0 <= j < items@.len() ==> #[trigger] all[j] == item_view(items@[j]),
            refs_view(out@) == nested_views(all.take(i as int)),
        decreases items.len() - i,
    {
        proof {
            assert(all.take(i + 1).drop_last() =~= all.take(i as int));
            assert(all.take(i + 1).last() == all[i as int]);
        }
        match &items[i] {
            Node::Component(c) => {
                let ghost prev = out@;
                out.push(c);
                proof {
                    assert(refs_view(out@) =~= refs_view(prev).push(component_view(*c)));
                }
            },
            _ => {},
        }
        i = i + 1;
    }
    proof {
        assert(all.take(i as int) =~= all);
    }
    out
}

impl TcalCalendar {
    /// The stream's items as plain values.
    pub open spec fn view(&self) -> Seq<NodeView> {
        items_view(self.0@)
    }

    /// The text the stream writes out.
    pub open spec fn text(&self) -> Seq<char> {
        items_text(self.0@)
    }

    /// Parse a whole iCalendar stream. A bare component with no `VCALENDAR`
    /// around it is accepted as well as a full calendar, and a line the
    /// reader does not recognise is kept verbatim, so every stream read writes
    /// back exactly as it was. A text that holds something but no component
    /// at all is no iCalendar and is refused.
    pub fn parse(input: &str) -> (r: TcalResult<TcalCalendar>)
        ensures
            readable(input@) ==> (r matches Ok(c) && c.text() == input@ && c.view() == spec_parse(input@)),
            !readable(input@) ==> (r matches Err(TcalError::ParseICalendar(m)) && m@ == unreadable_message()),
    {
        let calendar = parse(input);
        let cal = TcalCalendar(calendar.items);
        if cal.read().is_none() && !blank(&chars_of(input)) {
            return Err(TcalError::ParseICalendar(string_of(&chars_of("no iCalendar component found"))));
        }
        Ok(cal)
    }

    /// The calendar every verb reads, which is the first of the stream.
    pub fn read(&self) -> (r: Option<&Component>)
        ensures
            match spec_read(self.view()) {
                Some(v) => r matches Some(c) && component_view(*c) == v,
                None => r is None,
            },
    {
        proof {
            lemma_items_view(self.0@);
            lemma_first_component_at(self.view());
        }
        let mut i: usize = 0;
        while i < self.0.len()
            invariant
                i <= self.0.len(),
                self.view().len() == self.0@.len(),
                forall|j: int| 0 <= j < self.0@.len() ==> #[trigger] self.view()[j] == item_view(self.0@[j]),
                0 <= first_component_at(self.view()) <= self.view().len(),
                first_component_at(self.view()) < self.view().len() ==> self.view()[first_component_at(
                    self.view(),
                )] is Component,
                forall|j: int|
                    0 <= j < first_component_at(self.view()) ==> !(#[trigger] self.view()[j] is Component),
                i <= first_component_at(self.view()),
            decreases self.0.len() - i,
        {
            match &self.0[i] {
                Node::Component(c) => {
                    return Some(c);
                },
                _ => {},
            }
            proof {
                assert(!(self.view()[i as int] is Component));
            }
            i = i + 1;
        }
        None
    }

    /// The top-level components: the `VCALENDAR`'s children, or the lone
    /// component of a bare stream, which has no calendar around it.
    pub fn top_level(&self) -> (out: Vec<&Component>)
        ensures
            refs_view(out@) == spec_top_level(self.view()),
    {
        match self.read() {
            None => {
                let v: Vec<&Component> = Vec::new();
                proof {
                    assert(refs_view(v@) =~= Seq::<NodeView>::empty());
                }
                v
            },
            Some(root) => {
                if chars_eq(&root.name, &chars_of("VCALENDAR")) {
                    nested_of(&root.items)
                } else {
                    let v = vec![root];
                    proof {
                        assert(refs_view(v@) =~= seq![component_view(*root)]);
                    }
                    v
                }
            },
        }
    }

    /// The text the stream writes out: every node's own characters, so only
    /// what a fold-back moved was written anew.
    pub fn to_string(&self) -> (s: String)
        ensures
            s@ == self.text(),
    {
        let mut out: Vec<char> = Vec::new();
        write_items(&self.0, &mut out);
        proof {
            assert(out@ =~= Seq::<char>::empty() + items_text(self.0@));
        }
        string_of(&out)
    }
}


/// The items with the components of that type past the first `count`
/// dropped, everything else kept in place.
pub open spec fn keep_first(items: Seq<NodeView>, name: Seq<char>, count: int) -> Seq<NodeView>
    decreases items.len(),
{
    if items.len() == 0 {
        Seq::empty()
    } else if is_child(items[0], name) {
        if count > 0 {
            seq![items[0]] + keep_first(items.drop_first(), name, count - 1)
        } else {
            keep_first(items.drop_first(), name, count)
        }
    } else {
        seq![items[0]] + keep_first(items.drop_first(), name, count)
    }
}

/// An empty component of that type, its envelope ended with `eol`.
pub open spec fn empty_component(name: Seq<char>, eol: Seq<char>) -> NodeView {
    NodeView::Component {
        name,
        begin: "BEGIN:"@ + name + eol,
        items: Seq::empty(),
        end: "END:"@ + name + eol,
    }
}

/// The items once the components of that type number exactly `count`:
/// empty ones appended, or a surplus dropped from the back so the ones
/// before it keep their bytes.
pub open spec fn spec_set_child_count(items: Seq<NodeView>, name: Seq<char>, count: int, eol: Seq<char>) -> Seq<
    NodeView,
> {
    let have = child_count(items, name);
    if have < count {
        items + Seq::new((count - have) as nat, |k: int| empty_component(name, eol))
    } else {
        keep_first(items, name, count)
    }
}

fn empty_node(name: &[char], eol: &[char]) -> (n: Node)
    ensures
        item_view(n) == empty_component(name@, eol@),
{
    let mut begin = chars_of("BEGIN:");
    push_all(&mut begin, name);
    push_all(&mut begin, eol);
    let mut end = chars_of("END:");
    push_all(&mut end, name);
    push_all(&mut end, eol);
    let n = Node::Component(Component { name: copy_chars(name), begin_raw: begin, items: Vec::new(), end_raw: end });
    proof {
        assert(items_view(Seq::<Node>::empty()) =~= Seq::<NodeView>::empty());
    }
    n
}

/// Make the components of that type among `items` number exactly `count`.
///
/// Empty ones are appended, and a surplus is dropped from the back so the
/// ones before it keep their bytes.
pub fn set_child_count(items: &mut Vec<Node>, name: &[char], count: usize, eol: &[char])
    ensures
        items_view(final(items)@) == spec_set_child_count(items_view(old(items)@), name@, count as int, eol@),
{
    let have = children_of(items, name).len();
    let ghost orig = items_view(items@);
    if have < count {
        let mut k: usize = have;
        proof {
            assert(orig + Seq::new((k - have) as nat, |j: int| empty_component(name@, eol@)) =~= orig);
        }
        while k < count
            invariant
                have <= k <= count,
                have == child_count(orig, name@),
                items_view(items@) == orig + Seq::new((k - have) as nat, |j: int| empty_component(name@, eol@)),
            decreases count - k,
        {
            let n = empty_node(name, eol);
            let ghost prev = items@;
            items.push(n);
            proof {
                lemma_items_view_push(prev, n);
                assert(orig + Seq::new((k + 1 - have) as nat, |j: int| empty_component(name@, eol@)) =~= (orig
                    + Seq::new((k - have) as nat, |j: int| empty_component(name@, eol@))).push(
                    empty_component(name@, eol@),
                ));
            }
            k = k + 1;
        }
        return;
    }
    let mut i: usize = 0;
    let ghost mut j: int = 0;
    let mut seen: usize = 0;
    proof {
        lemma_items_view(items@);
        assert(orig.skip(0) =~= orig);
        assert(items_view(items@).take(0) + keep_first(orig, name@, count as int) =~= keep_first(
            orig,
            name@,
            count as int,
        ));
    }
    while i < items.len()
        invariant
            i <= items.len(),
            0 <= j <= orig.len(),
            items.len() == i + (orig.len() - j),
            seen <= count,
            items_view(items@).skip(i as int) == orig.skip(j),
            items_view(items@).take(i as int) + keep_first(orig.skip(j), name@, count - seen) == keep_first(
                orig,
                name@,
                count as int,
            ),
        decreases orig.len() - j,
    {
        proof {
            lemma_items_view(items@);
            assert(items_view(items@)[i as int] == orig.skip(j)[0]);
            assert(orig.skip(j).drop_first() =~= orig.skip(j + 1));
        }
        let named = match &items[i] {
            Node::Component(c) => chars_eq(&c.name, name),
            _ => false,
        };
        proof {
            assert(named == is_child(orig.skip(j)[0], name@));
        }
        if named && seen >= count {
            let ghost prev = items@;
            items.remove(i);
            proof {
                lemma_items_view(prev);
                lemma_items_view(items@);
                assert(items_view(items@).take(i as int) =~= items_view(prev).take(i as int));
                assert(items_view(items@).skip(i as int) =~= items_view(prev).skip(i + 1));
                assert(items_view(prev).skip(i + 1) =~= items_view(prev).skip(i as int).drop_first());
            }
            proof {
                j = j + 1;
            }
        } else {
            let ghost v = items_view(items@);
            proof {
                assert(v.take(i + 1) =~= v.take(i as int).push(v[i as int]));
                assert(v.skip(i + 1) =~= v.skip(i as int).drop_first());
                assert(v.take(i as int) + (seq![v[i as int]] + keep_first(orig.skip(j + 1), name@, if named {
                    count - seen - 1
                } else {
                    count - seen
                })) =~= v.take(i as int).push(v[i as int]) + keep_first(orig.skip(j + 1), name@, if named {
                    count - seen - 1
                } else {
                    count - seen
                }));
            }
            if named {
                seen = seen + 1;
            }
            i = i + 1;
            proof {
                j = j + 1;
            }
        }
    }
    proof {
        lemma_items_view(items@);
        assert(orig.skip(j) =~= Seq::<NodeView>::empty());
        assert(items_view(items@).take(i as int) =~= items_view(items@));
    }
}

impl Component {
    /// The logical lines of this component's direct properties of that
    /// (uppercase) name, in order.
    pub fn lines_named(&self, upper: &[char]) -> (lines: Vec<Vec<char>>)
        ensures
            views_of(lines@) == named_lines(items_view(self.items@), upper@),
    {
        proof {
            lemma_items_view(self.items@);
        }
        let ghost all = items_view(self.items@);
        let mut out: Vec<Vec<char>> = Vec::new();
        let mut i: usize = self.items.len();
        proof {
            assert(all.skip(i as int) =~= Seq::<NodeView>::empty());
            assert(views_of(out@) =~= Seq::<Seq<char>>::empty());
        }
        while i > 0
            invariant
                i <= self.items.len(),
                all == items_view(self.items@),
                all.len() == self.items@.len(),
                forall|j: int| 0 <= j < self.items.len() ==> #[trigger] all[j] == item_view(self.items@[j]),
                views_of(out@) == named_lines(all.skip(i as int), upper@),
            decreases i,
        {
            i = i - 1;
            let ghost rest = all.skip(i as int);
            proof {
                assert(rest.drop_first() =~= all.skip(i + 1));
                assert(rest[0] == all[i as int]);
            }
            if let Node::Property(property) = &self.items[i] {
                if chars_eq(&property.name, upper) {
                    let line = copy_chars(&property.logical);
                    let ghost before = out@;
                    out.insert(0, line);
                    proof {
                        assert(views_of(out@) =~= seq![line@] + views_of(before));
                    }
                }
            }
        }
        proof {
            assert(all.skip(0) =~= all);
        }
        out
    }
}


/// The properties of that (uppercase) name among some items.
pub open spec fn prop_views(items: Seq<NodeView>, upper: Seq<char>) -> Seq<NodeView>
    decreases items.len(),
{
    if items.len() == 0 {
        Seq::empty()
    } else {
        let rest = prop_views(items.drop_last(), upper);
        match items.last() {
            NodeView::Property { name, .. } => if name == upper {
                rest.push(items.last())
            } else {
                rest
            },
            _ => rest,
        }
    }
}

/// Some properties, as plain values.
pub open spec fn prop_refs_view(v: Seq<&Property>) -> Seq<NodeView> {
    v.map_values(|p: &Property| item_view(Node::Property(*p)))
}

/// The line ending of a stream's first component, CRLF where it has none.
pub open spec fn first_eol(items: Seq<NodeView>) -> Seq<char> {
    match spec_read(items) {
        Some(NodeView::Component { begin, .. }) => spec_eol_of(begin),
        _ => "\r\n"@,
    }
}

/// Whatever holds direct child components: one calendar, or the stream of
/// them a bare component sits loose in.
pub trait TcalContainer {
    /// Make the direct child components of that type number exactly
    /// `count`. Empty ones are appended, and a surplus is dropped from the
    /// back so the ones before it keep their bytes.
    fn set_child_count(&mut self, name: &str, count: usize);
}

/// The reading of one component, and the byte-preserving edits a fold-back
/// makes to it. A type is matched in its ASCII-uppercase spelling, which is how
/// the reader names a component.
pub trait TcalComponent: TcalContainer {
    /// Whether the component is of that type.
    fn named(&self, name: &str) -> bool;

    /// The direct properties of that name, in source order.
    fn props(&self, name: &str) -> Vec<&Property>;

    /// Every direct child component, whatever its type, in source order.
    fn nested(&self) -> Vec<&Component>;

    /// The direct child components of that type, in source order.
    fn children(&self, name: &str) -> Vec<&Component>;

    /// The logical content lines of the direct properties of that name, in
    /// source order, each without its line ending.
    fn lines(&self, name: &str) -> Vec<String>;

    /// Make those properties exactly `lines`: an unchanged one keeps its own
    /// bytes, a surplus one is dropped, and a missing one is inserted after
    /// the last property. A line written anew goes out unfolded, as the
    /// document wrote it. An empty slice removes them all.
    fn set_lines(&mut self, name: &str, lines: &[String]);
}

/// The reading of one content line.
pub trait TcalProp {
    /// The logical content line the property occupies: its name, parameters
    /// and value, without the line ending or the folds it was written with.
    fn logical(&self) -> String;

    /// The value it carries, still escaped.
    fn raw(&self) -> String;

    /// The value as one unescaped string, its commas kept literal.
    fn text(&self) -> String;

    /// The value as its comma-separated items, each unescaped on its own.
    fn items(&self) -> Vec<String>;

    /// The first value of a named parameter, unquoted.
    fn param_value(&self, name: &str) -> Option<String>;
}

impl TcalContainer for TcalCalendar {
    fn set_child_count(&mut self, name: &str, count: usize)
        ensures
            final(self).view() == spec_set_child_count(
                old(self).view(),
                ascii_upper(name@),
                count as int,
                first_eol(old(self).view()),
            ),
    {
        let eol = match self.read() {
            Some(c) => eol_of(&c.begin_raw),
            None => chars_of("\r\n"),
        };
        let upper = to_ascii_upper(&chars_of(name));
        set_child_count(&mut self.0, &upper, count, &eol);
    }
}

impl TcalContainer for Component {
    fn set_child_count(&mut self, name: &str, count: usize)
        ensures
            final(self).name == old(self).name,
            final(self).begin_raw == old(self).begin_raw,
            final(self).end_raw == old(self).end_raw,
            items_view(final(self).items@) == spec_set_child_count(
                items_view(old(self).items@),
                ascii_upper(name@),
                count as int,
                spec_eol_of(old(self).begin_raw@),
            ),
    {
        let eol = eol_of(&self.begin_raw);
        let upper = to_ascii_upper(&chars_of(name));
        set_child_count(&mut self.items, &upper, count, &eol);
    }
}

impl TcalComponent for Component {
    fn named(&self, name: &str) -> (r: bool)
        ensures
            r == (self.name@ == ascii_upper(name@)),
    {
        chars_eq(&self.name, &to_ascii_upper(&chars_of(name)))
    }

    fn props(&self, name: &str) -> (out: Vec<&Property>)
        ensures
            prop_refs_view(out@) == prop_views(items_view(self.items@), ascii_upper(name@)),
    {
        let upper = to_ascii_upper(&chars_of(name));
        proof {
            lemma_items_view(self.items@);
        }
        let ghost all = items_view(self.items@);
        let mut out: Vec<&Property> = Vec::new();
        let mut i: usize = 0;
        proof {
            assert(all.take(0) =~= Seq::<NodeView>::empty());
            assert(prop_refs_view(out@) =~= Seq::<NodeView>::empty());
        }
        while i < self.items.len()
            invariant
                i <= self.items.len(),
                all == items_view(self.items@),
                all.len() == self.items@.len(),
                forall|j: int| 0 <= j < self.items@.len() ==> #[trigger] all[j] == item_view(self.items@[j]),
                prop_refs_view(out@) == prop_views(all.take(i as int), upper@),
            decreases self.items.len() - i,
        {
            proof {
                assert(all.take(i + 1).drop_last() =~= all.take(i as int));
                assert(all.take(i + 1).last() == all[i as int]);
            }
            match &self.items[i] {
                Node::Property(p) => {
                    if chars_eq(&p.name, &upper) {
                        let ghost prev = out@;
                        out.push(p);
                        proof {
                            assert(prop_refs_view(out@) =~= prop_refs_view(prev).push(
                                item_view(Node::Property(*p)),
                            ));
                        }
                    }
                },
                _ => {},
            }
            i = i + 1;
        }
        proof {
            assert(all.take(i as int) =~= all);
        }
        out
    }

    fn nested(&self) -> (out: Vec<&Component>)
        ensures
            refs_view(out@) == nested_views(items_view(self.items@)),
    {
        nested_of(&self.items)
    }

    fn children(&self, name: &str) -> (out: Vec<&Component>)
        ensures
            refs_view(out@) == child_views(items_view(self.items@), ascii_upper(name@)),
    {
        children_of(&self.items, &to_ascii_upper(&chars_of(name)))
    }

    fn lines(&self, name: &str) -> (lines: Vec<String>)
        ensures
            string_views(lines@) == named_lines(items_view(self.items@), ascii_upper(name@)),
    {
        self.get_all(name)
    }

    fn set_lines(&mut self, name: &str, lines: &[String])
        ensures
            final(self).name == old(self).name,
            final(self).begin_raw == old(self).begin_raw,
            final(self).end_raw == old(self).end_raw,
            items_view(final(self).items@) == spec_set_all(
                items_view(old(self).items@),
                ascii_upper(name@),
                string_views(lines@),
                spec_eol_of(old(self).begin_raw@),
                false,
            ),
    {
        let upper = to_ascii_upper(&chars_of(name));
        let wanted = crate::edit::lines_of(lines);
        proof {
            assert(wanted@.map_values(|line: Vec<char>| line@) =~= string_views(lines@));
        }
        self.set_lines_of(&upper, &wanted, false);
    }
}

impl TcalProp for Property {
    fn logical(&self) -> (r: String)
        ensures
            r@ == self.logical@,
    {
        string_of(&self.logical)
    }

    fn raw(&self) -> (r: String)
        ensures
            r@ == spec_value(self.logical@),
    {
        string_of(&raw(&self.logical))
    }

    fn text(&self) -> (r: String)
        ensures
            r@ == line_text(self.logical@),
    {
        string_of(&text(&self.logical))
    }

    fn items(&self) -> (r: Vec<String>)
        ensures
            string_views(r@) == spec_texts(self.logical@),
    {
        let all = items(&self.logical);
        let mut out: Vec<String> = Vec::new();
        let mut i: usize = 0;
        while i < all.len()
            invariant
                i <= all.len(),
                string_views(out@) == views_of(all@).take(i as int),
            decreases all.len() - i,
        {
            proof {
                assert(views_of(all@).take(i + 1) =~= views_of(all@).take(i as int).push(all@[i as int]@));
            }
            let ghost prev = out@;
            out.push(string_of(&all[i]));
            proof {
                assert(string_views(out@) =~= string_views(prev).push(all@[i as int]@));
            }
            i = i + 1;
        }
        proof {
            assert(views_of(all@).take(i as int) =~= views_of(all@));
        }
        out
    }

    fn param_value(&self, name: &str) -> (r: Option<String>)
        ensures
            match r {
                Some(v) => spec_param_value(self.logical@, name@) == Some(v@),
                None => spec_param_value(self.logical@, name@) is None,
            },
    {
        match param(&self.logical, &chars_of(name)) {
            Some(v) => Some(string_of(&v)),
            None => None,
        }
    }
}

impl Default for TcalCalendar {
    /// An empty stream, holding no calendar.
    fn default() -> (c: TcalCalendar)
        ensures
            c.0@.len() == 0,
    {
        TcalCalendar(Vec::new())
    }
}

proof fn lemma_first_component_prefix(a: Seq<NodeView>, b: Seq<NodeView>)
    requires
        first_component_at(a) < a.len(),
    ensures
        first_component_at(a + b) == first_component_at(a),
    decreases a.len(),
{
    assert((a + b)[0] == a[0]);
    if !(a[0] is Component) {
        assert((a + b).drop_first() =~= a.drop_first() + b);
        lemma_first_component_prefix(a.drop_first(), b);
    }
}

/// The top-level components of a stream: none when it holds no component;
/// the components inside its first calendar when that is a `VCALENDAR`; else
/// that first component alone. Only the first component is read: whatever
/// follows it changes nothing.
pub proof fn law_top_level(items: Seq<NodeView>, rest: Seq<NodeView>)
    ensures
        first_component_at(items) == items.len() ==> spec_top_level(items) == Seq::<NodeView>::empty(),
        first_component_at(items) < items.len() && is_child(items[first_component_at(items)], "VCALENDAR"@)
            ==> spec_top_level(items) == nested_views(view_items(items[first_component_at(items)])),
        first_component_at(items) < items.len() && !is_child(items[first_component_at(items)], "VCALENDAR"@)
            ==> spec_top_level(items) == seq![items[first_component_at(items)]],
        first_component_at(items) < items.len() ==> spec_top_level(
            items.take(first_component_at(items) + 1) + rest,
        ) == spec_top_level(items),
{
    lemma_first_component_at(items);
    let at = first_component_at(items);
    if at < items.len() {
        let head = items.take(at + 1);
        lemma_first_component_at(head);
        assert forall|j: int| 0 <= j < at implies !(#[trigger] head[j] is Component) by {
            assert(head[j] == items[j]);
        }
        lemma_first_component_head(head, at);
        lemma_first_component_prefix(head, rest);
        assert((head + rest)[at] == items[at]);
    }
}

proof fn lemma_first_component_head(items: Seq<NodeView>, at: int)
    requires
        0 <= at < items.len(),
        items[at] is Component,
        forall|j: int| 0 <= j < at ==> !(#[trigger] items[j] is Component),
    ensures
        first_component_at(items) == at,
    decreases at,
{
    if at > 0 {
        assert forall|j: int| 0 <= j < at - 1 implies !(#[trigger] items.drop_first()[j] is Component) by {
            assert(items.drop_first()[j] == items[j + 1]);
        }
        assert(!(items[0] is Component));
        lemma_first_component_head(items.drop_first(), at - 1);
    }
}

} // verus!
