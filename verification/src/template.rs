//! # Projection
//!
//! The two directions between a calendar and the ergonomic TOML form a reader
//! edits: projecting one out, and folding an edited one back.
//!
//! [`TcalTemplate`] carries the calendar and the component types it shows, so
//! the tree it projects is the tree it patches. Nothing selected shows every
//! modelled type as a `[[block]]`, one type flattens at the document root, and
//! two or more keep the `VCALENDAR` root while showing only those.
//!
//! A type left out is never lost: a fold-back reconciles the selected ones and
//! keeps every other byte, so editing an event with only to-dos selected adds
//! a to-do and leaves the event alone. `UID` and `DTSTAMP` are app-managed,
//! not modelled.

use vstd::prelude::*;

use crate::edit::{
    component_view, item_view, items_view, lemma_items_text_view, lemma_items_view,
    lemma_items_view_update, named_lines, spec_eol_of, spec_parse, spec_set_all, views_text, Component, Node,
    NodeView, ignores_named, is_named, kept, lemma_kept_append, lemma_kept_cons, lemma_kept_none,
    lemma_set_all_kept,
};
use crate::error::{TcalError, TcalResult};
use crate::ical::{
    empty_component, keep_first, child_views, children_of, first_component_at, is_child, lemma_first_component_at, refs_view,
    readable, set_child_count, spec_set_child_count, spec_top_level, unreadable_message, view_items, TcalCalendar,
};
use crate::model::{
    is_event, is_free_busy, is_journal, is_timezone, is_todo, is_top_level, spec_built,
    spec_content_lines, spec_field_lines, top_level, top_level_at, Field, Kind, Spec,
};
use crate::line::{
    comment_column, emit_line_chars, lines_text, lines_view, line_view, make_line, spec_comment_column,
    Line,
};
use crate::patch::{spec_strip_mailto, strip_mailto_chars, views_of};
use crate::util::{line_text, param, spec_param_value, text};
use crate::text::{
    chars_eq, chars_of, copy_chars, eq_ignore_ascii_case, push_all, same_ignoring_ascii_case, string_of,
    to_ascii_upper,
    ascii_upper,
};
use crate::toml::{
    entries_writable, entry_of, lemma_entry_of_writable, lemma_tables_writable, parse_document, quoted, refusal_of, spec_tables,
    table_get, tables, toml_document, toml_quoted, Toml,
};

verus! {

/// The tables a table holds under a key: its `[[key]]` blocks, or the inline
/// tables of an inline array.
pub open spec fn child_tables(table: Seq<(String, Toml)>, key: Seq<char>) -> Seq<Seq<(String, Toml)>> {
    match entry_of(table, key) {
        Some(item) => spec_tables(item),
        None => Seq::empty(),
    }
}

/// Whether any of the fields writes a line from the table.
pub open spec fn fields_have_content(fields: Seq<Field>, table: Seq<(String, Toml)>) -> bool
    decreases fields.len(),
{
    fields.len() > 0 && (fields_have_content(fields.drop_last(), table) || spec_built(
        fields.last(),
        table,
    ).len() > 0)
}

/// Whether a TOML block carries any modelled value, in its own fields or in
/// a child block: what tells a real component from an empty example.
pub open spec fn has_content(table: Seq<(String, Toml)>, spec: Spec) -> bool
    decreases spec, 1int, 0int,
{
    fields_have_content(spec.fields@, table) || children_have_content(
        table,
        spec,
        spec.children@.len() as int,
    )
}

/// Whether a block of one of the first `n` child types carries content.
pub open spec fn children_have_content(table: Seq<(String, Toml)>, parent: Spec, n: int) -> bool
    decreases parent, 0int, n,
{
    if n <= 0 || n > parent.children@.len() {
        false
    } else {
        children_have_content(table, parent, n - 1) || tables_have_content(
            child_tables(table, parent.children@[n - 1].key@),
            parent.children@[n - 1],
        )
    }
}

/// Whether any of the tables carries content for that spec.
pub open spec fn tables_have_content(tables: Seq<Seq<(String, Toml)>>, spec: Spec) -> bool
    decreases spec, 2int, tables.len(),
{
    tables.len() > 0 && (tables_have_content(tables.drop_last(), spec) || has_content(
        tables.last(),
        spec,
    ))
}

/// The tables that carry content for that spec, in order.
pub open spec fn content_blocks(tables: Seq<Seq<(String, Toml)>>, spec: Spec) -> Seq<Seq<(String, Toml)>>
    decreases tables.len(),
{
    if tables.len() == 0 {
        Seq::empty()
    } else if has_content(tables.last(), spec) {
        content_blocks(tables.drop_last(), spec).push(tables.last())
    } else {
        content_blocks(tables.drop_last(), spec)
    }
}

/// The items once each field's property is folded from the table, in field
/// order, every one patched onto the lines the component already held.
pub open spec fn fields_applied(
    items: Seq<NodeView>,
    fields: Seq<Field>,
    table: Seq<(String, Toml)>,
    eol: Seq<char>,
) -> Seq<NodeView>
    decreases fields.len(),
{
    if fields.len() == 0 {
        items
    } else {
        let before = fields_applied(items, fields.drop_last(), table, eol);
        let upper = ascii_upper(fields.last().name@);
        spec_set_all(
            before,
            upper,
            spec_content_lines(fields.last(), table, named_lines(before, upper)),
            eol,
            false,
        )
    }
}

/// A component rewritten from its TOML table: its fields, then its children
/// of each child type, one per block that carries content.
pub open spec fn spec_apply(view: NodeView, table: Seq<(String, Toml)>, spec: Spec) -> NodeView
    decreases spec, 1int, 0int,
{
    match view {
        NodeView::Component { name, begin, items, end } => {
            let eol = spec_eol_of(begin);
            NodeView::Component {
                name,
                begin,
                items: children_applied(
                    fields_applied(items, spec.fields@, table, eol),
                    table,
                    spec,
                    spec.children@.len() as int,
                    eol,
                ),
                end,
            }
        },
        _ => view,
    }
}

/// The items once the first `n` child types of `parent` are reconciled
/// against their blocks in the table.
pub open spec fn children_applied(
    items: Seq<NodeView>,
    table: Seq<(String, Toml)>,
    parent: Spec,
    n: int,
    eol: Seq<char>,
) -> Seq<NodeView>
    decreases parent, 0int, n,
{
    if n <= 0 || n > parent.children@.len() {
        items
    } else {
        let before = children_applied(items, table, parent, n - 1, eol);
        let child = parent.children@[n - 1];
        let blocks = content_blocks(child_tables(table, child.key@), child);
        applied_to_children(
            spec_set_child_count(before, child.name@, blocks.len() as int, eol),
            child,
            blocks,
            0,
        )
    }
}

/// The items with the components of a spec's type rewritten from the
/// blocks in order, `rank` of them having gone before.
pub open spec fn applied_to_children(
    items: Seq<NodeView>,
    child: Spec,
    blocks: Seq<Seq<(String, Toml)>>,
    rank: int,
) -> Seq<NodeView>
    decreases child, 2int, items.len(),
{
    if items.len() == 0 {
        Seq::empty()
    } else if is_child(items[0], child.name@) {
        let head = if 0 <= rank < blocks.len() {
            spec_apply(items[0], blocks[rank], child)
        } else {
            items[0]
        };
        seq![head] + applied_to_children(items.drop_first(), child, blocks, rank + 1)
    } else {
        seq![items[0]] + applied_to_children(items.drop_first(), child, blocks, rank)
    }
}

/// The items once each of the specs is reconciled against its blocks.
pub open spec fn specs_applied(
    items: Seq<NodeView>,
    table: Seq<(String, Toml)>,
    specs: Seq<Spec>,
    eol: Seq<char>,
) -> Seq<NodeView>
    decreases specs.len(),
{
    if specs.len() == 0 {
        items
    } else {
        let before = specs_applied(items, table, specs.drop_last(), eol);
        let s = specs.last();
        let blocks = content_blocks(child_tables(table, s.key@), s);
        applied_to_children(spec_set_child_count(before, s.name@, blocks.len() as int, eol), s, blocks, 0)
    }
}

/// A container's items reconciled against the edited document.
///
/// Flat mode reads the whole document as the selected type's table, a
/// `VEVENT` by default. Block mode reads each selected type's blocks, an
/// empty selection meaning every type. An unselected type is left untouched.
pub open spec fn spec_reconcile(
    items: Seq<NodeView>,
    doc: Seq<(String, Toml)>,
    blocky: bool,
    filter: Seq<Spec>,
    top: Seq<Spec>,
    eol: Seq<char>,
) -> Seq<NodeView> {
    if !blocky {
        let spec = if filter.len() > 0 {
            filter[0]
        } else {
            top[0]
        };
        let blocks = if has_content(doc, spec) {
            seq![doc]
        } else {
            Seq::empty()
        };
        applied_to_children(spec_set_child_count(items, spec.name@, blocks.len() as int, eol), spec, blocks, 0)
    } else {
        specs_applied(
            items,
            doc,
            if filter.len() > 0 {
                filter
            } else {
                top
            },
            eol,
        )
    }
}

/// Whether a document is in block form: it holds a component type's key.
pub open spec fn is_blocky(doc: Seq<(String, Toml)>, top: Seq<Spec>) -> bool {
    exists|i: int| 0 <= i < top.len() && #[trigger] entry_of(doc, top[i].key@) is Some
}

/// The line ending of a stream's first component, CRLF where it has none.
pub open spec fn stream_eol(stream: Seq<NodeView>) -> Seq<char> {
    let at = first_component_at(stream);
    if at < stream.len() {
        match stream[at] {
            NodeView::Component { begin, .. } => spec_eol_of(begin),
            _ => seq!['\r', '\n'],
        }
    } else {
        seq!['\r', '\n']
    }
}

/// A stream with an edited document folded back onto it: the components
/// live inside the `VCALENDAR` when the stream opens with one, else beside
/// it in the stream, a bare component with no calendar around it.
pub open spec fn spec_fold(
    stream: Seq<NodeView>,
    doc: Seq<(String, Toml)>,
    types: Seq<Spec>,
    top: Seq<Spec>,
) -> Seq<NodeView> {
    let blocky = is_blocky(doc, top);
    let at = first_component_at(stream);
    if at < stream.len() && is_child(stream[at], "VCALENDAR"@) {
        match stream[at] {
            NodeView::Component { name, begin, items, end } => stream.update(
                at,
                NodeView::Component {
                    name,
                    begin,
                    items: spec_reconcile(items, doc, blocky, types, top, spec_eol_of(begin)),
                    end,
                },
            ),
            _ => stream,
        }
    } else {
        spec_reconcile(stream, doc, blocky, types, top, stream_eol(stream))
    }
}

/// Whether every date-time some tables hold is writable.
pub open spec fn all_writable(tables: Seq<Seq<(String, Toml)>>) -> bool {
    forall|i: int| 0 <= i < tables.len() ==> entries_writable(#[trigger] tables[i])
}

/// The views of some table references.
pub open spec fn tables_view(v: Seq<&Vec<(String, Toml)>>) -> Seq<Seq<(String, Toml)>> {
    v.map_values(|t: &Vec<(String, Toml)>| t@)
}

fn fields_content(table: &Vec<(String, Toml)>, fields: &Vec<Field>) -> (r: bool)
    requires
        entries_writable(table@),
    ensures
        r == fields_have_content(fields@, table@),
{
    let mut i: usize = 0;
    proof {
        assert(fields@.take(0) =~= Seq::<Field>::empty());
    }
    while i < fields.len()
        invariant
            i <= fields.len(),
            !fields_have_content(fields@.take(i as int), table@),
            entries_writable(table@),
        decreases fields.len() - i,
    {
        let none: Vec<Vec<char>> = Vec::new();
        let lines = fields[i].content_lines(table, &none);
        proof {
            assert(fields@.take(i + 1).drop_last() =~= fields@.take(i as int));
            assert(fields@.take(i + 1).last() == fields@[i as int]);
            assert(views_of(lines@).len() == lines@.len());
        }
        if lines.len() > 0 {
            proof {
                lemma_fields_content_prefix(fields@, table@, i + 1);
            }
            return true;
        }
        i = i + 1;
    }
    proof {
        assert(fields@.take(i as int) =~= fields@);
    }
    false
}

/// A prefix of the fields carrying content means they all do.
pub proof fn lemma_fields_content_prefix(fields: Seq<Field>, table: Seq<(String, Toml)>, n: int)
    requires
        0 <= n <= fields.len(),
        fields_have_content(fields.take(n), table),
    ensures
        fields_have_content(fields, table),
    decreases fields.len() - n,
{
    if n < fields.len() {
        assert(fields.take(n + 1).drop_last() =~= fields.take(n));
        lemma_fields_content_prefix(fields, table, n + 1);
    } else {
        assert(fields.take(n) =~= fields);
    }
}

/// A prefix of the tables carrying content means they all do.
pub proof fn lemma_tables_content_prefix(tables: Seq<Seq<(String, Toml)>>, spec: Spec, n: int)
    requires
        0 <= n <= tables.len(),
        tables_have_content(tables.take(n), spec),
    ensures
        tables_have_content(tables, spec),
    decreases tables.len() - n,
{
    if n < tables.len() {
        assert(tables.take(n + 1).drop_last() =~= tables.take(n));
        lemma_tables_content_prefix(tables, spec, n + 1);
    } else {
        assert(tables.take(n) =~= tables);
    }
}

/// A prefix of the child types carrying content means they all do.
pub proof fn lemma_children_content_prefix(table: Seq<(String, Toml)>, parent: Spec, n: int)
    requires
        0 <= n <= parent.children@.len(),
        children_have_content(table, parent, n),
    ensures
        children_have_content(table, parent, parent.children@.len() as int),
    decreases parent.children@.len() - n,
{
    if n < parent.children@.len() {
        lemma_children_content_prefix(table, parent, n + 1);
    }
}

fn tables_content(all: &Vec<&Vec<(String, Toml)>>, spec: &Spec) -> (r: bool)
    requires
        all_writable(tables_view(all@)),
    ensures
        r == tables_have_content(tables_view(all@), *spec),
    decreases *spec, 2int, 0int,
{
    let ghost tv = tables_view(all@);
    let mut i: usize = 0;
    proof {
        assert(tv.take(0) =~= Seq::<Seq<(String, Toml)>>::empty());
    }
    while i < all.len()
        invariant
            i <= all.len(),
            tv == tables_view(all@),
            all_writable(tv),
            !tables_have_content(tv.take(i as int), *spec),
        decreases all.len() - i,
    {
        proof {
            assert(tv.take(i + 1).drop_last() =~= tv.take(i as int));
            assert(tv.take(i + 1).last() == all@[i as int]@);
        }
        proof {
            assert(entries_writable(tv[i as int]));
        }
        if block_has_content(all[i], spec) {
            proof {
                lemma_tables_content_prefix(tv, *spec, i + 1);
            }
            return true;
        }
        i = i + 1;
    }
    proof {
        assert(tv.take(i as int) =~= tv);
    }
    false
}

/// The tables an entry of a table addresses.
fn tables_under<'a>(table: &'a Vec<(String, Toml)>, key: &str) -> (out: Vec<&'a Vec<(String, Toml)>>)
    ensures
        tables_view(out@) == child_tables(table@, key@),
        entries_writable(table@) ==> all_writable(tables_view(out@)),
{
    proof {
        if entries_writable(table@) {
            lemma_entry_of_writable(table@, key@);
            if let Some(item) = entry_of(table@, key@) {
                lemma_tables_writable(item);
            }
        }
    }
    match table_get(table, &chars_of(key)) {
        Some(item) => tables(item),
        None => {
            let v: Vec<&'a Vec<(String, Toml)>> = Vec::new();
            proof {
                assert(tables_view(v@) =~= Seq::<Seq<(String, Toml)>>::empty());
            }
            v
        },
    }
}

/// Whether a TOML block carries any modelled value.
///
/// That is what tells a real component from an empty example placeholder.
fn block_has_content(table: &Vec<(String, Toml)>, spec: &Spec) -> (r: bool)
    requires
        entries_writable(table@),
    ensures
        r == has_content(table@, *spec),
    decreases *spec, 1int, 0int,
{
    if fields_content(table, &spec.fields) {
        return true;
    }
    let mut c: usize = 0;
    while c < spec.children.len()
        invariant
            c <= spec.children.len(),
            !children_have_content(table@, *spec, c as int),
            entries_writable(table@),
        decreases spec.children.len() - c,
    {
        let child = &spec.children[c];
        let all = tables_under(table, child.key);
        proof {
            assert(decreases_to!(*spec => spec.children));
        }
        if tables_content(&all, child) {
            proof {
                lemma_children_content_prefix(table@, *spec, c + 1);
            }
            return true;
        }
        c = c + 1;
    }
    false
}

fn content_blocks_of<'a>(all: &Vec<&'a Vec<(String, Toml)>>, spec: &Spec) -> (out: Vec<&'a Vec<(String, Toml)>>)
    requires
        all_writable(tables_view(all@)),
    ensures
        tables_view(out@) == content_blocks(tables_view(all@), *spec),
        all_writable(tables_view(out@)),
{
    let ghost tv = tables_view(all@);
    let mut out: Vec<&'a Vec<(String, Toml)>> = Vec::new();
    let mut i: usize = 0;
    proof {
        assert(tv.take(0) =~= Seq::<Seq<(String, Toml)>>::empty());
        assert(tables_view(out@) =~= Seq::<Seq<(String, Toml)>>::empty());
    }
    while i < all.len()
        invariant
            i <= all.len(),
            tv == tables_view(all@),
            all_writable(tv),
            all_writable(tables_view(out@)),
            tables_view(out@) == content_blocks(tv.take(i as int), *spec),
        decreases all.len() - i,
    {
        proof {
            assert(tv.take(i + 1).drop_last() =~= tv.take(i as int));
            assert(tv.take(i + 1).last() == all@[i as int]@);
            assert(entries_writable(tv[i as int]));
        }
        if block_has_content(all[i], spec) {
            let ghost prev = out@;
            out.push(all[i]);
            proof {
                assert(tables_view(out@) =~= tables_view(prev).push(all@[i as int]@));
            }
        }
        i = i + 1;
    }
    proof {
        assert(tv.take(i as int) =~= tv);
    }
    out
}


/// Fold each field's property of a component from its table.
fn apply_fields(component: &mut Component, table: &Vec<(String, Toml)>, fields: &Vec<Field>)
    requires
        entries_writable(table@),
    ensures
        final(component).name == old(component).name,
        final(component).begin_raw == old(component).begin_raw,
        final(component).end_raw == old(component).end_raw,
        items_view(final(component).items@) == fields_applied(
            items_view(old(component).items@),
            fields@,
            table@,
            spec_eol_of(old(component).begin_raw@),
        ),
{
    let ghost start = items_view(component.items@);
    let ghost eol = spec_eol_of(component.begin_raw@);
    let mut i: usize = 0;
    proof {
        assert(fields@.take(0) =~= Seq::<Field>::empty());
    }
    while i < fields.len()
        invariant
            i <= fields.len(),
            component.name == old(component).name,
            component.begin_raw == old(component).begin_raw,
            component.end_raw == old(component).end_raw,
            eol == spec_eol_of(component.begin_raw@),
            start == items_view(old(component).items@),
            items_view(component.items@) == fields_applied(start, fields@.take(i as int), table@, eol),
            entries_writable(table@),
        decreases fields.len() - i,
    {
        let field = &fields[i];
        let upper = to_ascii_upper(&chars_of(field.name));
        let originals = component.lines_named(&upper);
        let lines = field.content_lines(table, &originals);
        proof {
            assert(lines@.map_values(|line: Vec<char>| line@) == views_of(lines@));
        }
        component.set_lines_of(&upper, &lines, false);
        proof {
            assert(fields@.take(i + 1).drop_last() =~= fields@.take(i as int));
            assert(fields@.take(i + 1).last() == fields@[i as int]);
        }
        i = i + 1;
    }
    proof {
        assert(fields@.take(i as int) =~= fields@);
    }
}

/// Rewrite one component's fields and children from its TOML table.
///
/// Each field is folded onto the lines the component already holds for it,
/// so a parameter the document does not show survives.
fn apply_component(component: &mut Component, table: &Vec<(String, Toml)>, spec: &Spec)
    requires
        entries_writable(table@),
    ensures
        component_view(*final(component)) == spec_apply(component_view(*old(component)), table@, *spec),
    decreases *spec, 1int, 0int,
{
    let eol = crate::edit::eol_of(&component.begin_raw);
    apply_fields(component, table, &spec.fields);
    let ghost with_fields = items_view(component.items@);
    let mut c: usize = 0;
    while c < spec.children.len()
        invariant
            c <= spec.children.len(),
            eol@ == spec_eol_of(component.begin_raw@),
            component.name == old(component).name,
            component.begin_raw == old(component).begin_raw,
            component.end_raw == old(component).end_raw,
            with_fields == fields_applied(
                items_view(old(component).items@),
                spec.fields@,
                table@,
                spec_eol_of(old(component).begin_raw@),
            ),
            items_view(component.items@) == children_applied(with_fields, table@, *spec, c as int, eol@),
            entries_writable(table@),
        decreases spec.children.len() - c,
    {
        let child = &spec.children[c];
        let all = tables_under(table, child.key);
        let blocks = content_blocks_of(&all, child);
        set_child_count(&mut component.items, &chars_of(child.name), blocks.len(), &eol);
        proof {
            assert(decreases_to!(*spec => spec.children));
        }
        apply_children(&mut component.items, child, &blocks);
        c = c + 1;
    }
}

/// Rewrite the components of a spec's type among `items` from the blocks,
/// the first from the first block and so on; one past the blocks is kept.
fn apply_children(items: &mut Vec<Node>, child: &Spec, blocks: &Vec<&Vec<(String, Toml)>>)
    requires
        all_writable(tables_view(blocks@)),
    ensures
        items_view(final(items)@) == applied_to_children(
            items_view(old(items)@),
            *child,
            tables_view(blocks@),
            0,
        ),
    decreases *child, 2int, 0int,
{
    let ghost orig = items_view(items@);
    let ghost bv = tables_view(blocks@);
    let name = chars_of(child.name);
    let mut i: usize = 0;
    let mut rank: usize = 0;
    proof {
        lemma_items_view(items@);
        assert(orig.skip(0) =~= orig);
        assert(items_view(items@).take(0) + applied_to_children(orig, *child, bv, 0) =~= applied_to_children(
            orig,
            *child,
            bv,
            0,
        ));
    }
    while i < items.len()
        invariant
            i <= items.len(),
            items.len() == orig.len(),
            name@ == child.name@,
            bv == tables_view(blocks@),
            all_writable(bv),
            rank <= i,
            items_view(items@).skip(i as int) == orig.skip(i as int),
            items_view(items@).take(i as int) + applied_to_children(orig.skip(i as int), *child, bv, rank as int)
                == applied_to_children(orig, *child, bv, 0),
        decreases items.len() - i,
    {
        proof {
            lemma_items_view(items@);
            assert(items_view(items@)[i as int] == orig.skip(i as int)[0]);
            assert(orig.skip(i as int).drop_first() =~= orig.skip(i + 1));
        }
        let ghost before = items@;
        let ghost v = items_view(items@);
        let named = match &items[i] {
            Node::Component(c) => chars_eq(&c.name, &name),
            _ => false,
        };
        proof {
            assert(named == is_child(v[i as int], child.name@));
        }
        if named && rank < blocks.len() {
            proof {
                assert(entries_writable(bv[rank as int]));
            }
            let item = &mut items[i];
            match item {
                Node::Component(c) => {
                    apply_component(c, blocks[rank], child);
                },
                _ => {},
            }
            proof {
                lemma_items_view_update(before, i as int, items@[i as int]);
                assert(items@ == before.update(i as int, items@[i as int]));
            }
        }
        proof {
            let w = items_view(items@);
            lemma_items_view(items@);
            assert(w.take(i + 1) =~= v.take(i as int).push(w[i as int]));
            assert(w.skip(i + 1) =~= v.skip(i + 1));
            assert(v.take(i as int) + (seq![w[i as int]] + applied_to_children(orig.skip(i + 1), *child, bv, if named {
                rank + 1
            } else {
                rank as int
            })) =~= v.take(i as int).push(w[i as int]) + applied_to_children(orig.skip(i + 1), *child, bv, if named {
                rank + 1
            } else {
                rank as int
            }));
        }
        if named {
            rank = rank + 1;
        }
        i = i + 1;
    }
    proof {
        lemma_items_view(items@);
        assert(orig.skip(i as int) =~= Seq::<NodeView>::empty());
        assert(items_view(items@).take(i as int) =~= items_view(items@));
    }
}


fn is_component_node(item: &Node) -> (r: bool)
    ensures
        r == (item_view(*item) is Component),
{
    match item {
        Node::Component(_) => true,
        _ => false,
    }
}

/// Reconcile a container's items against the edited document.
fn reconcile(
    items: &mut Vec<Node>,
    doc: &Vec<(String, Toml)>,
    blocky: bool,
    filter: &Vec<Spec>,
    top: &Vec<Spec>,
    eol: &[char],
)
    requires
        top@.len() > 0,
        entries_writable(doc@),
    ensures
        items_view(final(items)@) == spec_reconcile(
            items_view(old(items)@),
            doc@,
            blocky,
            filter@,
            top@,
            eol@,
        ),
{
    if !blocky {
        let spec = if filter.len() > 0 {
            &filter[0]
        } else {
            &top[0]
        };
        let mut blocks: Vec<&Vec<(String, Toml)>> = Vec::new();
        if block_has_content(doc, spec) {
            blocks.push(doc);
        }
        proof {
            assert(all_writable(tables_view(blocks@)));
            if has_content(doc@, *spec) {
                assert(tables_view(blocks@) =~= seq![doc@]);
            } else {
                assert(tables_view(blocks@) =~= Seq::<Seq<(String, Toml)>>::empty());
            }
        }
        set_child_count(items, &chars_of(spec.name), blocks.len(), eol);
        apply_children(items, spec, &blocks);
        return;
    }
    let specs = if filter.len() > 0 {
        filter
    } else {
        top
    };
    let ghost orig = items_view(items@);
    let mut i: usize = 0;
    proof {
        assert(specs@.take(0) =~= Seq::<Spec>::empty());
    }
    while i < specs.len()
        invariant
            i <= specs.len(),
            orig == items_view(old(items)@),
            specs@ == (if filter@.len() > 0 {
                filter@
            } else {
                top@
            }),
            items_view(items@) == specs_applied(orig, doc@, specs@.take(i as int), eol@),
            entries_writable(doc@),
        decreases specs.len() - i,
    {
        let spec = &specs[i];
        let all = tables_under(doc, spec.key);
        let blocks = content_blocks_of(&all, spec);
        set_child_count(items, &chars_of(spec.name), blocks.len(), eol);
        apply_children(items, spec, &blocks);
        proof {
            assert(specs@.take(i + 1).drop_last() =~= specs@.take(i as int));
            assert(specs@.take(i + 1).last() == specs@[i as int]);
        }
        i = i + 1;
    }
    proof {
        assert(specs@.take(i as int) =~= specs@);
    }
}

fn blocky_of(doc: &Vec<(String, Toml)>, top: &Vec<Spec>) -> (r: bool)
    ensures
        r == is_blocky(doc@, top@),
{
    let mut j: usize = 0;
    while j < top.len()
        invariant
            j <= top.len(),
            forall|k: int| 0 <= k < j ==> #[trigger] entry_of(doc@, top@[k].key@) is None,
        decreases top.len() - j,
    {
        if table_get(doc, &chars_of(top[j].key)).is_some() {
            proof {
                assert(entry_of(doc@, top@[j as int].key@) is Some);
            }
            return true;
        }
        j = j + 1;
    }
    false
}

/// The index of the first top-level spec a type key names, ignoring ASCII
/// case, or -1.
pub open spec fn type_index(top: Seq<Spec>, key: Seq<char>) -> int
    decreases top.len(),
{
    if top.len() == 0 {
        -1
    } else if same_ignoring_ascii_case(top[0].key@, key) {
        0
    } else {
        let rest = type_index(top.drop_first(), key);
        if rest < 0 {
            -1
        } else {
            rest + 1
        }
    }
}

/// Whether a spec is the one at that position of the top-level list.
pub open spec fn is_top_at(s: Spec, at: int) -> bool {
    ||| at == 0 && is_event(s)
    ||| at == 1 && is_todo(s)
    ||| at == 2 && is_journal(s)
    ||| at == 3 && is_free_busy(s)
    ||| at == 4 && is_timezone(s)
}

/// The position of the first key no top-level spec names, or the number
/// of keys where every one is known.
pub open spec fn first_unknown(top: Seq<Spec>, keys: Seq<Seq<char>>) -> int
    decreases keys.len(),
{
    if keys.len() == 0 {
        0
    } else if type_index(top, keys[0]) < 0 {
        0
    } else {
        1 + first_unknown(top, keys.drop_first())
    }
}

pub proof fn lemma_type_index_bounds(top: Seq<Spec>, key: Seq<char>)
    ensures
        -1 <= type_index(top, key) < top.len(),
        type_index(top, key) >= 0 ==> same_ignoring_ascii_case(top[type_index(top, key)].key@, key),
        forall|j: int|
            0 <= j < top.len() && (type_index(top, key) < 0 || j < type_index(top, key))
                ==> !same_ignoring_ascii_case(#[trigger] top[j].key@, key),
    decreases top.len(),
{
    if top.len() > 0 && !same_ignoring_ascii_case(top[0].key@, key) {
        lemma_type_index_bounds(top.drop_first(), key);
        assert forall|j: int|
            0 <= j < top.len() && (type_index(top, key) < 0 || j < type_index(top, key))
                implies !same_ignoring_ascii_case(#[trigger] top[j].key@, key) by {
            if j > 0 {
                assert(top[j] == top.drop_first()[j - 1]);
            }
        }
    }
}

pub proof fn lemma_first_unknown_bounds(top: Seq<Spec>, keys: Seq<Seq<char>>)
    ensures
        0 <= first_unknown(top, keys) <= keys.len(),
        first_unknown(top, keys) < keys.len() ==> type_index(top, keys[first_unknown(top, keys)]) < 0,
        forall|i: int| 0 <= i < first_unknown(top, keys) ==> type_index(top, #[trigger] keys[i]) >= 0,
    decreases keys.len(),
{
    if keys.len() > 0 && type_index(top, keys[0]) >= 0 {
        lemma_first_unknown_bounds(top, keys.drop_first());
        assert forall|i: int| 0 <= i < first_unknown(top, keys) implies type_index(top, #[trigger] keys[i])
            >= 0 by {
            if i > 0 {
                assert(keys[i] == keys.drop_first()[i - 1]);
            }
        }
    }
}

/// The views of some strings.
pub open spec fn strings_view(v: Seq<String>) -> Seq<Seq<char>> {
    v.map_values(|s: String| s@)
}

/// An iCalendar stream and the TOML form it is edited through.
pub struct TcalTemplate {
    /// The calendar the form shows.
    pub calendar: TcalCalendar,
    /// The component types the form is narrowed to, every one when empty.
    pub types: Vec<Spec>,
    /// The modelled top-level component types, in projection order.
    pub top: Vec<Spec>,
}

/// The specs the keys select: one per key, the top-level spec it names.
pub open spec fn selected(types: Seq<Spec>, top: Seq<Spec>, keys: Seq<Seq<char>>) -> bool {
    types.len() == keys.len() && forall|i: int|
        0 <= i < keys.len() ==> is_top_at(#[trigger] types[i], type_index(top, keys[i]))
}

fn type_at(top: &Vec<Spec>, key: &[char]) -> (r: Option<usize>)
    ensures
        match r {
            Some(j) => j as int == type_index(top@, key@),
            None => type_index(top@, key@) < 0,
        },
{
    proof {
        lemma_type_index_bounds(top@, key@);
    }
    let mut j: usize = 0;
    while j < top.len()
        invariant
            j <= top.len(),
            -1 <= type_index(top@, key@) < top@.len(),
            type_index(top@, key@) >= 0 ==> same_ignoring_ascii_case(top@[type_index(top@, key@)].key@, key@),
            forall|k: int|
                0 <= k < top@.len() && (type_index(top@, key@) < 0 || k < type_index(top@, key@))
                    ==> !same_ignoring_ascii_case(#[trigger] top@[k].key@, key@),
            type_index(top@, key@) < 0 || j <= type_index(top@, key@),
        decreases top.len() - j,
    {
        if eq_ignore_ascii_case(&chars_of(top[j].key), key) {
            return Some(j);
        }
        j = j + 1;
    }
    None
}

/// The specs some type keys select, an unknown key an error naming it.
fn select(top: &Vec<Spec>, keys: &[String]) -> (r: TcalResult<Vec<Spec>>)
    requires
        is_top_level(top@),
    ensures
        first_unknown(top@, strings_view(keys@)) < keys@.len() ==> (r matches Err(
            TcalError::UnknownComponent(k),
        ) && k@ == keys@[first_unknown(top@, strings_view(keys@))]@),
        first_unknown(top@, strings_view(keys@)) == keys@.len() ==> (r matches Ok(types) && selected(
            types@,
            top@,
            strings_view(keys@),
        )),
{
    let ghost kv = strings_view(keys@);
    proof {
        lemma_first_unknown_bounds(top@, kv);
    }
    let mut types: Vec<Spec> = Vec::new();
    let mut i: usize = 0;
    while i < keys.len()
        invariant
            i <= keys.len(),
            is_top_level(top@),
            kv == strings_view(keys@),
            0 <= first_unknown(top@, kv) <= kv.len(),
            first_unknown(top@, kv) < kv.len() ==> type_index(top@, kv[first_unknown(top@, kv)]) < 0,
            forall|k: int| 0 <= k < first_unknown(top@, kv) ==> type_index(top@, #[trigger] kv[k]) >= 0,
            i <= first_unknown(top@, kv),
            types@.len() == i,
            forall|k: int| 0 <= k < i ==> is_top_at(#[trigger] types@[k], type_index(top@, kv[k])),
        decreases keys.len() - i,
    {
        let key = chars_of(keys[i].as_str());
        proof {
            assert(kv[i as int] == keys@[i as int]@);
        }
        match type_at(top, &key) {
            Some(j) => {
                proof {
                    lemma_type_index_bounds(top@, key@);
                }
                let s = top_level_at(j);
                types.push(s);
            },
            None => {
                return Err(TcalError::UnknownComponent(string_of(&key)));
            },
        }
        i = i + 1;
    }
    Ok(types)
}

impl TcalTemplate {
    /// The template reads its form against the modelled vocabulary.
    pub open spec fn wf(&self) -> bool {
        is_top_level(self.top@)
    }

    /// Read an iCalendar stream as the form it will be edited through,
    /// showing every modelled component type; a text that is no iCalendar is
    /// refused as [`TcalCalendar::parse`] refuses it.
    pub fn parse(source: &str) -> (r: TcalResult<TcalTemplate>)
        ensures
            readable(source@) ==> (r matches Ok(t) && t.wf() && t.types@.len() == 0 && t.calendar.text()
                == source@ && t.calendar.view() == spec_parse(source@)),
            !readable(source@) ==> (r matches Err(TcalError::ParseICalendar(m)) && m@ == unreadable_message()),
    {
        let calendar = match TcalCalendar::parse(source) {
            Ok(c) => c,
            Err(e) => return Err(e),
        };
        Ok(TcalTemplate { calendar, types: Vec::new(), top: top_level() })
    }

    /// Narrow the form to the given component type keys (`event`, `todo`,
    /// ...), matched without regard to ASCII case. They keep the given order,
    /// and an unknown key is an error naming it.
    pub fn with_types(self, keys: &[String]) -> (r: TcalResult<TcalTemplate>)
        requires
            self.wf(),
        ensures
            first_unknown(self.top@, strings_view(keys@)) < keys@.len() ==> (r matches Err(
                TcalError::UnknownComponent(k),
            ) && k@ == keys@[first_unknown(self.top@, strings_view(keys@))]@),
            first_unknown(self.top@, strings_view(keys@)) == keys@.len() ==> (r matches Ok(t) && t.wf()
                && t.calendar == self.calendar && t.top == self.top && selected(
                t.types@,
                self.top@,
                strings_view(keys@),
            )),
    {
        match select(&self.top, keys) {
            Ok(types) => Ok(TcalTemplate { calendar: self.calendar, types, top: self.top }),
            Err(e) => Err(e),
        }
    }

    /// Fold an edited form back onto the calendar it was projected from.
    ///
    /// Only changed lines are re-rendered, everything unmodelled staying byte
    /// for byte. A filled block updates or adds a component, and a cleared one
    /// removes it. A document that is not TOML is refused with the parser's
    /// own error.
    pub fn apply(&self, edited: &str) -> (r: TcalResult<String>)
        requires
            self.wf(),
        ensures
            match toml_document(edited@) {
                None => r matches Err(TcalError::ParseToml(e)) && refusal_of(e, edited@),
                Some(doc) => r matches Ok(s) && s@ == views_text(
                    spec_fold(self.calendar.view(), doc.entries@, self.types@, self.top@),
                ),
            },
    {
        let doc = match parse_document(edited) {
            Ok(doc) => doc,
            Err(e) => return Err(TcalError::ParseToml(e)),
        };
        let blocky = blocky_of(&doc.entries, &self.top);
        let mut items = crate::edit::copy_items(&self.calendar.0);
        let ghost stream = self.calendar.view();
        proof {
            lemma_items_view(items@);
            lemma_first_component_at(stream);
        }
        let mut at: usize = 0;
        while at < items.len() && !is_component_node(&items[at])
            invariant
                at <= items.len(),
                items_view(items@) == stream,
                stream.len() == items@.len(),
                forall|j: int| 0 <= j < items@.len() ==> #[trigger] stream[j] == item_view(items@[j]),
                0 <= first_component_at(stream) <= stream.len(),
                first_component_at(stream) < stream.len() ==> stream[first_component_at(stream)] is Component,
                forall|j: int| 0 <= j < first_component_at(stream) ==> !(#[trigger] stream[j] is Component),
                at <= first_component_at(stream),
            decreases items.len() - at,
        {
            proof {
                assert(!(stream[at as int] is Component));
            }
            at = at + 1;
        }
        proof {
            if at < items.len() {
                assert(stream[at as int] is Component);
            }
            assert(at == first_component_at(stream));
        }
        let calendar_root = at < items.len() && match &items[at] {
            Node::Component(root) => chars_eq(&root.name, &chars_of("VCALENDAR")),
            _ => false,
        };
        if calendar_root {
            let ghost before = items@;
            let item = &mut items[at];
            match item {
                Node::Component(root) => {
                    let eol = crate::edit::eol_of(&root.begin_raw);
                    reconcile(&mut root.items, &doc.entries, blocky, &self.types, &self.top, &eol);
                },
                _ => {},
            }
            proof {
                lemma_items_view_update(before, at as int, items@[at as int]);
                assert(items@ == before.update(at as int, items@[at as int]));
            }
        } else {
            let eol = if at < items.len() {
                match &items[at] {
                    Node::Component(c) => crate::edit::eol_of(&c.begin_raw),
                    _ => vec!['\r', '\n'],
                }
            } else {
                vec!['\r', '\n']
            };
            proof {
                assert(eol@ =~= stream_eol(stream));
            }
            reconcile(&mut items, &doc.entries, blocky, &self.types, &self.top, &eol);
        }
        let out = TcalCalendar(items);
        let text = out.to_string();
        proof {
            lemma_items_text_view(out.0@);
        }
        Ok(text)
    }
}


/// The lines a component writes for a field's property; none for an absent
/// component, as an empty block's are.
pub open spec fn entries_for(view: Option<NodeView>, field: Field) -> Seq<Seq<char>> {
    match view {
        Some(c) => named_lines(view_items(c), ascii_upper(field.name@)),
        None => Seq::empty(),
    }
}

/// The display group of an inline field, driving the blank line
/// separators: the bare scalar keys form one group and the dates another,
/// while each structured field is its own, keyed by field key so that two
/// adjacent durations stay separated.
pub open spec fn group_of(field: Field) -> (int, Seq<char>) {
    match field.kind {
        Kind::Date => (1, Seq::empty()),
        Kind::Duration { .. } => (2, field.key@),
        Kind::Recur => (3, field.key@),
        _ => (0, Seq::empty()),
    }
}

/// The group of the last simple field among some fields.
pub open spec fn last_simple_group(fields: Seq<Field>) -> Option<(int, Seq<char>)>
    decreases fields.len(),
{
    if fields.len() == 0 {
        None
    } else if fields.last().kind.simple() {
        Some(group_of(fields.last()))
    } else {
        last_simple_group(fields.drop_last())
    }
}

/// The lines of a component's simple fields, a blank line between two
/// groups.
pub open spec fn simple_lines(fields: Seq<Field>, view: Option<NodeView>) -> Seq<
    (Seq<char>, Option<Seq<char>>),
>
    decreases fields.len(),
{
    if fields.len() == 0 {
        Seq::empty()
    } else {
        let f = fields.last();
        let before = simple_lines(fields.drop_last(), view);
        if !f.kind.simple() {
            before
        } else {
            let sep = match last_simple_group(fields.drop_last()) {
                Some(g) => g != group_of(f),
                None => false,
            };
            before + (if sep {
                seq![(Seq::<char>::empty(), None::<Seq<char>>)]
            } else {
                Seq::empty()
            }) + spec_field_lines(f, entries_for(view, f))
        }
    }
}

/// The TOML header for a section or child `key` under an optional
/// `prefix`: `key` at the flat top level, else `prefix.key`.
pub open spec fn section_header(prefix: Option<Seq<char>>, key: Seq<char>) -> Seq<char> {
    match prefix {
        Some(p) => p + "."@ + key,
        None => key,
    }
}

/// A parameter's value on an attendee line, empty where there is none.
pub open spec fn param_or_empty(entry: Option<Seq<char>>, name: Seq<char>) -> Seq<char> {
    match entry {
        Some(line) => match spec_param_value(line, name) {
            Some(v) => v,
            None => Seq::empty(),
        },
        None => Seq::empty(),
    }
}

/// The keys of one attendee block, without its `[[header]]` line.
pub open spec fn spec_attendee_keys(entry: Option<Seq<char>>) -> Seq<(Seq<char>, Option<Seq<char>>)> {
    let value = match entry {
        Some(line) => line_text(line),
        None => Seq::empty(),
    };
    seq![
        ("display-name = "@ + toml_quoted(param_or_empty(entry, "CN"@)), None),
        ("value = "@ + toml_quoted(spec_strip_mailto(value)), Some("email address"@)),
        (
            "role = "@ + toml_quoted(param_or_empty(entry, "ROLE"@)),
            Some("chair, req-participant, opt-participant, non-participant"@),
        ),
        (
            "status = "@ + toml_quoted(param_or_empty(entry, "PARTSTAT"@)),
            Some("needs-action, accepted, declined, tentative, delegated"@),
        ),
    ]
}

/// One attendee block under `header`, filled or empty.
pub open spec fn spec_attendee_block(header: Seq<char>, entry: Option<Seq<char>>) -> Seq<
    (Seq<char>, Option<Seq<char>>),
> {
    seq![("[["@ + header + "]]"@, None::<Seq<char>>)] + spec_attendee_keys(entry)
}

/// One attendee block per entry.
pub open spec fn attendee_blocks(entries: Seq<Seq<char>>, header: Seq<char>) -> Seq<
    (Seq<char>, Option<Seq<char>>),
>
    decreases entries.len(),
{
    if entries.len() == 0 {
        Seq::empty()
    } else {
        attendee_blocks(entries.drop_last(), header) + spec_attendee_block(header, Some(entries.last()))
    }
}

/// An attendee field as one block per entry, or a single empty example
/// where no entry wrote it.
pub open spec fn spec_attendee_section(entries: Seq<Seq<char>>, header: Seq<char>) -> Seq<
    (Seq<char>, Option<Seq<char>>),
> {
    if entries.len() == 0 {
        spec_attendee_block(header, None)
    } else {
        attendee_blocks(entries, header)
    }
}

/// The sections of a component's sectioned fields.
pub open spec fn sections(fields: Seq<Field>, view: Option<NodeView>, prefix: Option<Seq<char>>) -> Seq<
    Seq<(Seq<char>, Option<Seq<char>>)>,
>
    decreases fields.len(),
{
    if fields.len() == 0 {
        Seq::empty()
    } else {
        let before = sections(fields.drop_last(), view, prefix);
        let f = fields.last();
        if f.kind.simple() {
            before
        } else {
            before.push(spec_attendee_section(entries_for(view, f), section_header(prefix, f.key@)))
        }
    }
}

/// The lines of some sections, one after the other.
pub open spec fn flat(secs: Seq<Seq<(Seq<char>, Option<Seq<char>>)>>) -> Seq<
    (Seq<char>, Option<Seq<char>>),
>
    decreases secs.len(),
{
    if secs.len() == 0 {
        Seq::empty()
    } else {
        flat(secs.drop_last()) + secs.last()
    }
}

/// Sections as emitted, each after a blank line.
pub open spec fn sections_text(secs: Seq<Seq<(Seq<char>, Option<Seq<char>>)>>, column: int) -> Seq<char>
    decreases secs.len(),
{
    if secs.len() == 0 {
        Seq::empty()
    } else {
        sections_text(secs.drop_last(), column) + "\n"@ + lines_text(secs.last(), column)
    }
}

/// A component's own block: its header where it has one, its simple
/// fields, then its sections, every comment aligned at one column.
pub open spec fn own_text(view: Option<NodeView>, spec: Spec, prefix: Option<Seq<char>>) -> Seq<char> {
    let simple = simple_lines(spec.fields@, view);
    let secs = sections(spec.fields@, view, prefix);
    let column = spec_comment_column(simple + flat(secs));
    (match prefix {
        Some(p) => "\n[["@ + p + "]]\n"@,
        None => Seq::empty(),
    }) + lines_text(simple, column) + sections_text(secs, column)
}

/// A component rendered as a `[[prefix]]` block, its child components
/// after it as nested `[[prefix.key]]` blocks, recursively; an absent one
/// as an empty example.
pub open spec fn spec_project_component(view: Option<NodeView>, spec: Spec, prefix: Option<Seq<char>>) -> Seq<
    char,
>
    decreases spec, 1int, 0int,
{
    own_text(view, spec, prefix) + children_projected(view, spec, spec.children@.len() as int, prefix)
}

/// The blocks of the first `n` child types of `parent`.
pub open spec fn children_projected(view: Option<NodeView>, parent: Spec, n: int, prefix: Option<Seq<char>>) -> Seq<
    char,
>
    decreases parent, 0int, n,
{
    if n <= 0 || n > parent.children@.len() {
        Seq::empty()
    } else {
        let child = parent.children@[n - 1];
        let kids = match view {
            Some(c) => child_views(view_items(c), child.name@),
            None => Seq::empty(),
        };
        let header = section_header(prefix, child.key@);
        children_projected(view, parent, n - 1, prefix) + if kids.len() == 0 {
            spec_project_component(None, child, Some(header))
        } else {
            kids_projected(kids, child, header)
        }
    }
}

/// One block per component, in order.
pub open spec fn kids_projected(kids: Seq<NodeView>, child: Spec, prefix: Seq<char>) -> Seq<char>
    decreases child, 2int, kids.len(),
{
    if kids.len() == 0 {
        Seq::empty()
    } else {
        kids_projected(kids.drop_last(), child, prefix) + spec_project_component(
            Some(kids.last()),
            child,
            Some(prefix),
        )
    }
}


/// A component reference as an optional view.
pub open spec fn opt_view(component: Option<&Component>) -> Option<NodeView> {
    match component {
        Some(c) => Some(component_view(*c)),
        None => None,
    }
}

fn copy_line(line: &Line) -> (r: Line)
    ensures
        line_view(r) == line_view(*line),
{
    let hint = match &line.hint {
        Some(h) => Some(string_of(&chars_of(h.as_str()))),
        None => None,
    };
    Line { lhs: string_of(&chars_of(line.lhs.as_str())), hint }
}

fn append_lines(out: &mut Vec<Line>, more: Vec<Line>)
    ensures
        lines_view(final(out)@) == lines_view(old(out)@) + lines_view(more@),
{
    let mut more = more;
    let ghost before = out@;
    let ghost added = more@;
    out.append(&mut more);
    proof {
        assert(lines_view(out@) =~= lines_view(before) + lines_view(added));
    }
}

fn copy_lines(lines: &Vec<Line>) -> (r: Vec<Line>)
    ensures
        lines_view(r@) == lines_view(lines@),
{
    let mut out: Vec<Line> = Vec::new();
    let mut i: usize = 0;
    while i < lines.len()
        invariant
            i <= lines.len(),
            lines_view(out@) == lines_view(lines@).take(i as int),
        decreases lines.len() - i,
    {
        let ghost prev = out@;
        out.push(copy_line(&lines[i]));
        proof {
            assert(lines_view(out@) =~= lines_view(prev).push(line_view(lines@[i as int])));
            assert(lines_view(lines@).take(i + 1) =~= lines_view(lines@).take(i as int).push(
                line_view(lines@[i as int]),
            ));
        }
        i = i + 1;
    }
    proof {
        assert(lines_view(lines@).take(i as int) =~= lines_view(lines@));
    }
    out
}

/// The lines of a component writing a field's property; none where the
/// component is absent, as an empty block's are.
pub(crate) fn entries_of(component: Option<&Component>, field: &Field) -> (r: Vec<Vec<char>>)
    ensures
        views_of(r@) == entries_for(opt_view(component), *field),
{
    match component {
        Some(c) => {
            let upper = to_ascii_upper(&chars_of(field.name));
            c.lines_named(&upper)
        },
        None => {
            let v: Vec<Vec<char>> = Vec::new();
            proof {
                assert(views_of(v@) =~= Seq::<Seq<char>>::empty());
            }
            v
        },
    }
}

/// The display group of an inline field.
fn field_group(field: &Field) -> (r: (u8, Vec<char>))
    ensures
        (r.0 as int, r.1@) == group_of(*field),
{
    match field.kind {
        Kind::Date => (1, Vec::new()),
        Kind::Duration { .. } => (2, chars_of(field.key)),
        Kind::Recur => (3, chars_of(field.key)),
        _ => (0, Vec::new()),
    }
}

/// The lines of a component's simple fields, grouped.
fn simple_lines_of(component: Option<&Component>, fields: &Vec<Field>) -> (r: Vec<Line>)
    ensures
        lines_view(r@) == simple_lines(fields@, opt_view(component)),
{
    let ghost view = opt_view(component);
    let mut out: Vec<Line> = Vec::new();
    let mut group: Option<(u8, Vec<char>)> = None;
    let mut i: usize = 0;
    proof {
        assert(fields@.take(0) =~= Seq::<Field>::empty());
        assert(lines_view(out@) =~= Seq::<(Seq<char>, Option<Seq<char>>)>::empty());
    }
    while i < fields.len()
        invariant
            i <= fields.len(),
            view == opt_view(component),
            lines_view(out@) == simple_lines(fields@.take(i as int), view),
            match group {
                Some(g) => last_simple_group(fields@.take(i as int)) == Some((g.0 as int, g.1@)),
                None => last_simple_group(fields@.take(i as int)) is None,
            },
        decreases fields.len() - i,
    {
        let field = &fields[i];
        proof {
            assert(fields@.take(i + 1).drop_last() =~= fields@.take(i as int));
            assert(fields@.take(i + 1).last() == *field);
        }
        if field.kind.is_simple() {
            let key = field_group(field);
            let sep = match &group {
                Some(g) => !(g.0 == key.0 && chars_eq(&g.1, &key.1)),
                None => false,
            };
            if sep {
                let ghost prev = out@;
                out.push(Line { lhs: String::new(), hint: None });
                proof {
                    assert(lines_view(out@) =~= lines_view(prev) + seq![(Seq::<char>::empty(), None::<Seq<char>>)]);
                }
            }
            let entries = entries_of(component, field);
            let more = field.lines(&entries);
            append_lines(&mut out, more);
            group = Some(key);
        }
        i = i + 1;
    }
    proof {
        assert(fields@.take(i as int) =~= fields@);
    }
    out
}

fn header_line(header: &[char]) -> (line: Line)
    ensures
        line_view(line) == ("[["@ + header@ + "]]"@, None::<Seq<char>>),
{
    let mut lhs = chars_of("[[");
    push_all(&mut lhs, header);
    push_all(&mut lhs, &chars_of("]]"));
    make_line(&lhs, None)
}

fn param_text_of(entry: Option<&Vec<char>>, name: &str) -> (r: Vec<char>)
    ensures
        r@ == param_or_empty(
            match entry {
                Some(e) => Some(e@),
                None => None,
            },
            name@,
        ),
{
    match entry {
        Some(line) => match param(line, &chars_of(name)) {
            Some(v) => v,
            None => Vec::new(),
        },
        None => Vec::new(),
    }
}

fn key_line(key: &str, value: &[char], hint: Option<&str>) -> (line: Line)
    ensures
        line_view(line) == (key@ + toml_quoted(value@), match hint {
            Some(h) => Some(h@),
            None => None,
        }),
{
    let mut lhs = chars_of(key);
    push_all(&mut lhs, &quoted(value));
    let hint = match hint {
        Some(h) => Some(chars_of(h)),
        None => None,
    };
    make_line(&lhs, hint)
}

/// The keys of one attendee block, without its `[[header]]` line.
///
/// This is what a merge writes when two sides contest one attendee, since
/// repeating the header would make a second attendee rather than a
/// duplicate key.
pub fn attendee_keys(entry: Option<&Vec<char>>) -> (lines: Vec<Line>)
    ensures
        lines_view(lines@) == spec_attendee_keys(
            match entry {
                Some(e) => Some(e@),
                None => None,
            },
        ),
{
    let value = match entry {
        Some(line) => text(line),
        None => Vec::new(),
    };
    let v = vec![
        key_line("display-name = ", &param_text_of(entry, "CN"), None),
        key_line("value = ", &strip_mailto_chars(&value), Some("email address")),
        key_line(
            "role = ",
            &param_text_of(entry, "ROLE"),
            Some("chair, req-participant, opt-participant, non-participant"),
        ),
        key_line(
            "status = ",
            &param_text_of(entry, "PARTSTAT"),
            Some("needs-action, accepted, declined, tentative, delegated"),
        ),
    ];
    proof {
        assert(lines_view(v@) =~= spec_attendee_keys(
            match entry {
                Some(e) => Some(e@),
                None => None,
            },
        ));
    }
    v
}

/// Render an attendee field as one `[[header]]` block per entry; a field
/// no entry wrote gets a single empty example instead.
fn attendee_section(entries: &Vec<Vec<char>>, header: &[char]) -> (lines: Vec<Line>)
    ensures
        lines_view(lines@) == spec_attendee_section(views_of(entries@), header@),
{
    let mut lines: Vec<Line> = Vec::new();
    if entries.len() == 0 {
        lines.push(header_line(header));
        append_lines(&mut lines, attendee_keys(None));
        proof {
            assert(lines_view(lines@) =~= spec_attendee_block(header@, None));
        }
        return lines;
    }
    let ghost ev = views_of(entries@);
    let mut i: usize = 0;
    proof {
        assert(ev.take(0) =~= Seq::<Seq<char>>::empty());
        assert(lines_view(lines@) =~= Seq::<(Seq<char>, Option<Seq<char>>)>::empty());
    }
    while i < entries.len()
        invariant
            i <= entries.len(),
            ev == views_of(entries@),
            lines_view(lines@) == attendee_blocks(ev.take(i as int), header@),
        decreases entries.len() - i,
    {
        let ghost prev = lines@;
        lines.push(header_line(header));
        append_lines(&mut lines, attendee_keys(Some(&entries[i])));
        proof {
            assert(ev.take(i + 1).drop_last() =~= ev.take(i as int));
            assert(ev.take(i + 1).last() == entries@[i as int]@);
            assert(lines_view(lines@) =~= lines_view(prev) + spec_attendee_block(header@, Some(entries@[i as int]@)));
        }
        i = i + 1;
    }
    proof {
        assert(ev.take(i as int) =~= ev);
    }
    lines
}

fn header_of(prefix: Option<&[char]>, key: &str) -> (r: Vec<char>)
    ensures
        r@ == section_header(
            match prefix {
                Some(p) => Some(p@),
                None => None,
            },
            key@,
        ),
{
    match prefix {
        Some(p) => {
            let mut out = copy_chars(p);
            push_all(&mut out, &chars_of("."));
            push_all(&mut out, &chars_of(key));
            out
        },
        None => chars_of(key),
    }
}

pub open spec fn opt_prefix(prefix: Option<&[char]>) -> Option<Seq<char>> {
    match prefix {
        Some(p) => Some(p@),
        None => None,
    }
}

pub open spec fn sections_view(secs: Seq<Vec<Line>>) -> Seq<Seq<(Seq<char>, Option<Seq<char>>)>> {
    secs.map_values(|s: Vec<Line>| lines_view(s@))
}

fn sections_of(component: Option<&Component>, fields: &Vec<Field>, prefix: Option<&[char]>) -> (r: Vec<
    Vec<Line>,
>)
    ensures
        sections_view(r@) == sections(fields@, opt_view(component), opt_prefix(prefix)),
{
    let mut out: Vec<Vec<Line>> = Vec::new();
    let mut i: usize = 0;
    proof {
        assert(fields@.take(0) =~= Seq::<Field>::empty());
        assert(sections_view(out@) =~= Seq::<Seq<(Seq<char>, Option<Seq<char>>)>>::empty());
    }
    while i < fields.len()
        invariant
            i <= fields.len(),
            sections_view(out@) == sections(fields@.take(i as int), opt_view(component), opt_prefix(prefix)),
        decreases fields.len() - i,
    {
        let field = &fields[i];
        proof {
            assert(fields@.take(i + 1).drop_last() =~= fields@.take(i as int));
            assert(fields@.take(i + 1).last() == *field);
        }
        if !field.kind.is_simple() {
            let entries = entries_of(component, field);
            let header = header_of(prefix, field.key);
            let section = attendee_section(&entries, &header);
            let ghost prev = out@;
            out.push(section);
            proof {
                assert(sections_view(out@) =~= sections_view(prev).push(lines_view(section@)));
            }
        }
        i = i + 1;
    }
    proof {
        assert(fields@.take(i as int) =~= fields@);
    }
    out
}

/// Render a component as a `[[prefix]]` block.
///
/// Its simple fields become one aligned key block, and its attendee fields
/// and child components nested `[[prefix.key]]` blocks, recursively. No
/// prefix is the flat top-level component: it takes no header, and its
/// sections sit at the top level.
fn project_component(out: &mut Vec<char>, component: Option<&Component>, spec: &Spec, prefix: Option<&[char]>)
    ensures
        final(out)@ == old(out)@ + spec_project_component(opt_view(component), *spec, opt_prefix(prefix)),
    decreases *spec, 1int, 0int,
{
    let ghost view = opt_view(component);
    let ghost pv = opt_prefix(prefix);
    let ghost start = out@;
    if let Some(p) = prefix {
        push_all(out, &chars_of("\n[["));
        push_all(out, p);
        push_all(out, &chars_of("]]\n"));
    }
    let simple = simple_lines_of(component, &spec.fields);
    let secs = sections_of(component, &spec.fields, prefix);
    let mut all = copy_lines(&simple);
    let mut k: usize = 0;
    proof {
        assert(sections_view(secs@).take(0) =~= Seq::<Seq<(Seq<char>, Option<Seq<char>>)>>::empty());
        assert(lines_view(all@) =~= lines_view(simple@) + flat(sections_view(secs@).take(0)));
    }
    while k < secs.len()
        invariant
            k <= secs.len(),
            lines_view(all@) == lines_view(simple@) + flat(sections_view(secs@).take(k as int)),
        decreases secs.len() - k,
    {
        append_lines(&mut all, copy_lines(&secs[k]));
        proof {
            let sv = sections_view(secs@);
            assert(sv.take(k + 1).drop_last() =~= sv.take(k as int));
            assert(sv.take(k + 1).last() == lines_view(secs@[k as int]@));
            assert(lines_view(simple@) + flat(sv.take(k + 1)) =~= lines_view(simple@) + flat(sv.take(k as int))
                + lines_view(secs@[k as int]@));
        }
        k = k + 1;
    }
    proof {
        assert(sections_view(secs@).take(k as int) =~= sections_view(secs@));
    }
    let column = comment_column(&all);
    let ghost head = out@;
    emit_line_chars(out, &simple, column);
    let mut k: usize = 0;
    proof {
        assert(sections_view(secs@).take(0) =~= Seq::<Seq<(Seq<char>, Option<Seq<char>>)>>::empty());
    }
    while k < secs.len()
        invariant
            k <= secs.len(),
            column <= 4 * (usize::MAX as int) + 8,
            out@ == head + lines_text(lines_view(simple@), column as int) + sections_text(
                sections_view(secs@).take(k as int),
                column as int,
            ),
        decreases secs.len() - k,
    {
        out.push('\n');
        emit_line_chars(out, &secs[k], column);
        proof {
            let sv = sections_view(secs@);
            assert(sv.take(k + 1).drop_last() =~= sv.take(k as int));
            assert(sv.take(k + 1).last() == lines_view(secs@[k as int]@));
            assert(("\n"@).len() == 1 && "\n"@[0] == '\n') by {
                reveal_strlit("\n");
            }
        }
        k = k + 1;
    }
    proof {
        assert(sections_view(secs@).take(k as int) =~= sections_view(secs@));
        assert(out@ == start + own_text(view, *spec, pv)) by {
            if let Some(p) = prefix {
                assert(head =~= start + ("\n[["@ + p@ + "]]\n"@));
            } else {
                assert(head =~= start + Seq::<char>::empty());
            }
        }
    }
    let ghost with_own = out@;
    let mut c: usize = 0;
    while c < spec.children.len()
        invariant
            c <= spec.children.len(),
            view == opt_view(component),
            pv == opt_prefix(prefix),
            out@ == with_own + children_projected(view, *spec, c as int, pv),
        decreases spec.children.len() - c,
    {
        let child = &spec.children[c];
        let header = header_of(prefix, child.key);
        let kids = match component {
            Some(comp) => children_of(&comp.items, &chars_of(child.name)),
            None => Vec::new(),
        };
        proof {
            assert(decreases_to!(*spec => spec.children));
            if component is None {
                assert(refs_view(kids@) =~= Seq::<NodeView>::empty());
            }
        }
        if kids.len() == 0 {
            project_component(out, None, child, Some(header.as_slice()));
        } else {
            project_kids(out, &kids, child, &header);
        }
        c = c + 1;
    }
}

/// One block per component, in order.
fn project_kids(out: &mut Vec<char>, kids: &Vec<&Component>, child: &Spec, prefix: &[char])
    ensures
        final(out)@ == old(out)@ + kids_projected(refs_view(kids@), *child, prefix@),
    decreases *child, 2int, 0int,
{
    let ghost kv = refs_view(kids@);
    let ghost start = out@;
    let mut i: usize = 0;
    proof {
        assert(kv.take(0) =~= Seq::<NodeView>::empty());
        assert(out@ =~= start + kids_projected(kv.take(0), *child, prefix@));
    }
    while i < kids.len()
        invariant
            i <= kids.len(),
            kv == refs_view(kids@),
            out@ == start + kids_projected(kv.take(i as int), *child, prefix@),
        decreases kids.len() - i,
    {
        project_component(out, Some(kids[i]), child, Some(prefix));
        proof {
            assert(kv.take(i + 1).drop_last() =~= kv.take(i as int));
            assert(kv.take(i + 1).last() == component_view(*kids@[i as int]));
        }
        i = i + 1;
    }
    proof {
        assert(kv.take(i as int) =~= kv);
    }
}


/// The comment heading a block-form document.
pub open spec fn blocks_header() -> Seq<char> {
    "# iCalendar as TOML, edited by tCal.\n"@ + "#\n"@
        + "# Each component is a [[block]]; repeat a block for repeated\n"@
        + "# components, delete one you do not need. Empty fields and empty\n"@
        + "# blocks are ignored. Properties and component types tCal does\n"@
        + "# not model are kept verbatim, not shown here.\n"@
}

/// The comment heading a flat document of one component type.
pub open spec fn flat_header(key: Seq<char>) -> Seq<char> {
    "# iCalendar "@ + key + " as TOML, edited by tCal.\n"@ + "#\n"@
        + "# Fill what you need; empty fields are ignored. Other\n"@
        + "# components and properties tCal does not model are kept\n"@ + "# verbatim, not shown here.\n"@
        + "\n"@
}

/// The blocks of the given specs: each instance of a type filled, one
/// empty example where the calendar holds none.
pub open spec fn blocks_projected(tops: Seq<NodeView>, specs: Seq<Spec>) -> Seq<char>
    decreases specs.len(),
{
    if specs.len() == 0 {
        Seq::empty()
    } else {
        let s = specs.last();
        let instances = child_views(tops, s.name@);
        blocks_projected(tops, specs.drop_last()) + if instances.len() == 0 {
            spec_project_component(None, s, Some(s.key@))
        } else {
            kids_projected(instances, s, s.key@)
        }
    }
}

/// The form a stream projects to: every modelled type as blocks when none is
/// selected, the one selected type flattened at the document root, or the
/// selected types as blocks.
pub open spec fn spec_project(stream: Seq<NodeView>, types: Seq<Spec>, top: Seq<Spec>) -> Seq<char> {
    let tops = spec_top_level(stream);
    if types.len() == 1 {
        let instances = child_views(tops, types[0].name@);
        flat_header(types[0].key@) + spec_project_component(
            if instances.len() > 0 {
                Some(instances[0])
            } else {
                None
            },
            types[0],
            None,
        )
    } else {
        blocks_header() + blocks_projected(
            tops,
            if types.len() == 0 {
                top
            } else {
                types
            },
        )
    }
}

/// The components of that type among some components.
pub(crate) fn named_among<'a>(tops: &Vec<&'a Component>, name: &[char]) -> (out: Vec<&'a Component>)
    ensures
        refs_view(out@) == child_views(refs_view(tops@), name@),
{
    let ghost tv = refs_view(tops@);
    let mut out: Vec<&'a Component> = Vec::new();
    let mut i: usize = 0;
    proof {
        assert(tv.take(0) =~= Seq::<NodeView>::empty());
        assert(refs_view(out@) =~= Seq::<NodeView>::empty());
    }
    while i < tops.len()
        invariant
            i <= tops.len(),
            tv == refs_view(tops@),
            refs_view(out@) == child_views(tv.take(i as int), name@),
        decreases tops.len() - i,
    {
        proof {
            assert(tv.take(i + 1).drop_last() =~= tv.take(i as int));
            assert(tv.take(i + 1).last() == component_view(*tops@[i as int]));
        }
        if chars_eq(&tops[i].name, name) {
            let ghost prev = out@;
            out.push(tops[i]);
            proof {
                assert(refs_view(out@) =~= refs_view(prev).push(component_view(*tops@[i as int])));
            }
        }
        i = i + 1;
    }
    proof {
        assert(tv.take(i as int) =~= tv);
    }
    out
}

/// Render the given specs as `[[block]]`s under the `VCALENDAR`.
fn project_blocks(calendar: &TcalCalendar, specs: &Vec<Spec>) -> (out: Vec<char>)
    ensures
        out@ == blocks_header() + blocks_projected(spec_top_level(calendar.view()), specs@),
{
    let mut out = chars_of("# iCalendar as TOML, edited by tCal.\n");
    push_all(&mut out, &chars_of("#\n"));
    push_all(&mut out, &chars_of("# Each component is a [[block]]; repeat a block for repeated\n"));
    push_all(&mut out, &chars_of("# components, delete one you do not need. Empty fields and empty\n"));
    push_all(&mut out, &chars_of("# blocks are ignored. Properties and component types tCal does\n"));
    push_all(&mut out, &chars_of("# not model are kept verbatim, not shown here.\n"));
    let tops = calendar.top_level();
    let ghost tv = refs_view(tops@);
    let mut i: usize = 0;
    proof {
        assert(specs@.take(0) =~= Seq::<Spec>::empty());
        assert(out@ =~= blocks_header() + blocks_projected(tv, specs@.take(0)));
    }
    while i < specs.len()
        invariant
            i <= specs.len(),
            tv == refs_view(tops@),
            tv == spec_top_level(calendar.view()),
            out@ == blocks_header() + blocks_projected(tv, specs@.take(i as int)),
        decreases specs.len() - i,
    {
        let spec = &specs[i];
        let key = chars_of(spec.key);
        let instances = named_among(&tops, &chars_of(spec.name));
        if instances.len() == 0 {
            project_component(&mut out, None, spec, Some(key.as_slice()));
        } else {
            project_kids(&mut out, &instances, spec, &key);
        }
        proof {
            assert(specs@.take(i + 1).drop_last() =~= specs@.take(i as int));
            assert(specs@.take(i + 1).last() == *spec);
        }
        i = i + 1;
    }
    proof {
        assert(specs@.take(i as int) =~= specs@);
    }
    out
}

/// Render one component type flattened as the document root: bare keys at
/// the top level, sections like `[[attendee]]` under them, and no header
/// wrapping them. The first component of that type fills it, or an empty
/// example where there is none.
fn project_flat(calendar: &TcalCalendar, spec: &Spec) -> (out: Vec<char>)
    ensures
        out@ == {
            let instances = child_views(spec_top_level(calendar.view()), spec.name@);
            flat_header(spec.key@) + spec_project_component(
                if instances.len() > 0 {
                    Some(instances[0])
                } else {
                    None
                },
                *spec,
                None,
            )
        },
{
    let tops = calendar.top_level();
    let instances = named_among(&tops, &chars_of(spec.name));
    let mut out = chars_of("# iCalendar ");
    push_all(&mut out, &chars_of(spec.key));
    push_all(&mut out, &chars_of(" as TOML, edited by tCal.\n"));
    push_all(&mut out, &chars_of("#\n"));
    push_all(&mut out, &chars_of("# Fill what you need; empty fields are ignored. Other\n"));
    push_all(&mut out, &chars_of("# components and properties tCal does not model are kept\n"));
    push_all(&mut out, &chars_of("# verbatim, not shown here.\n"));
    push_all(&mut out, &chars_of("\n"));
    if instances.len() > 0 {
        project_component(&mut out, Some(instances[0]), spec, None);
    } else {
        project_component(&mut out, None, spec, None);
    }
    out
}

fn project_for(calendar: &TcalCalendar, types: &Vec<Spec>, top: &Vec<Spec>) -> (out: String)
    ensures
        out@ == spec_project(calendar.view(), types@, top@),
{
    if types.len() == 1 {
        string_of(&project_flat(calendar, &types[0]))
    } else if types.len() == 0 {
        string_of(&project_blocks(calendar, top))
    } else {
        string_of(&project_blocks(calendar, types))
    }
}

impl TcalTemplate {
    /// Project the calendar into a fillable TOML form: each instance is
    /// filled, plus one empty example per absent type.
    pub fn project(&self) -> (out: String)
        ensures
            out@ == spec_project(self.calendar.view(), self.types@, self.top@),
    {
        project_for(&self.calendar, &self.types, &self.top)
    }
}


/// Project a calendar into a fillable TOML form, every modelled type as a
/// block.
pub fn project(calendar: &TcalCalendar) -> (out: String)
    ensures
        exists|top: Seq<Spec>| #[trigger] is_top_level(top) && out@ == spec_project(calendar.view(), Seq::empty(), top),
{
    let top = top_level();
    let none: Vec<Spec> = Vec::new();
    let out = project_for(calendar, &none, &top);
    proof {
        assert(none@ =~= Seq::<Spec>::empty());
        assert(is_top_level(top@) && out@ == spec_project(calendar.view(), Seq::empty(), top@));
    }
    out
}

/// What projecting the selected types gives: an error naming the first
/// unknown key, else the form of the types the keys select.
pub open spec fn projected_with(
    r: TcalResult<String>,
    stream: Seq<NodeView>,
    keys: Seq<Seq<char>>,
    top: Seq<Spec>,
) -> bool {
    &&& first_unknown(top, keys) < keys.len() ==> (r matches Err(TcalError::UnknownComponent(k)) && k@
        == keys[first_unknown(top, keys)])
    &&& first_unknown(top, keys) == keys.len() ==> (r matches Ok(out) && exists|sel: Seq<Spec>|
        #[trigger] selected(sel, top, keys) && out@ == spec_project(stream, sel, top))
}

/// Project the given component types, one of them flattening at the root;
/// an unknown type key is an error naming it.
pub fn project_with(calendar: &TcalCalendar, types: &[String]) -> (r: TcalResult<String>)
    ensures
        exists|top: Seq<Spec>| #[trigger] is_top_level(top) && projected_with(
            r,
            calendar.view(),
            strings_view(types@),
            top,
        ),
{
    let top = top_level();
    let ghost keys = strings_view(types@);
    proof {
        lemma_first_unknown_bounds(top@, keys);
    }
    let r = match select(&top, types) {
        Ok(sel) => {
            let out = project_for(calendar, &sel, &top);
            proof {
                assert(selected(sel@, top@, keys) && out@ == spec_project(calendar.view(), sel@, top@));
            }
            Ok(out)
        },
        Err(e) => Err(e),
    };
    proof {
        assert(is_top_level(top@) && projected_with(r, calendar.view(), keys, top@));
    }
    r
}

/// Project one component type, flattened at the document root; an unknown
/// type key is an error naming it.
pub fn project_one(calendar: &TcalCalendar, ty: &str) -> (r: TcalResult<String>)
    ensures
        exists|top: Seq<Spec>| #[trigger] is_top_level(top) && projected_with(
            r,
            calendar.view(),
            seq![ty@],
            top,
        ),
{
    let keys = vec![string_of(&chars_of(ty))];
    proof {
        assert(strings_view(keys@) =~= seq![ty@]);
    }
    project_with(calendar, &keys)
}

/// Fold an edited document back onto a calendar, every modelled type
/// reconciled; an original that is no iCalendar is refused first.
pub fn apply(original_src: &str, edited_toml: &str) -> (r: TcalResult<String>)
    ensures
        !readable(original_src@) ==> (r matches Err(TcalError::ParseICalendar(m)) && m@
            == unreadable_message()),
        readable(original_src@) ==> match toml_document(edited_toml@) {
            None => r matches Err(TcalError::ParseToml(e)) && refusal_of(e, edited_toml@),
            Some(doc) => r matches Ok(out) && exists|top: Seq<Spec>|
                #[trigger] is_top_level(top) && out@ == views_text(
                    spec_fold(spec_parse(original_src@), doc.entries@, Seq::empty(), top),
                ),
        },
{
    let template = match TcalTemplate::parse(original_src) {
        Ok(t) => t,
        Err(e) => return Err(e),
    };
    let r = template.apply(edited_toml);
    proof {
        assert(template.types@ =~= Seq::<Spec>::empty());
        if let Some(doc) = toml_document(edited_toml@) {
            let cal = template.calendar;
            let top = template.top@;
            assert(is_top_level(top) && r->Ok_0@ == views_text(
                spec_fold(spec_parse(original_src@), doc.entries@, Seq::empty(), top),
            ));
        }
    }
    r
}

/// What folding a document back for the selected types gives: the refusal
/// of an original that is no iCalendar, an error naming the first unknown
/// key, the parser's error for a document that is not TOML, else the fold
/// onto the calendar read from the original.
pub open spec fn applied_with(
    r: TcalResult<String>,
    original: Seq<char>,
    edited: Seq<char>,
    keys: Seq<Seq<char>>,
    top: Seq<Spec>,
) -> bool {
    &&& !readable(original) ==> (r matches Err(TcalError::ParseICalendar(m)) && m@ == unreadable_message())
    &&& readable(original) && first_unknown(top, keys) < keys.len() ==> (r matches Err(
        TcalError::UnknownComponent(k),
    ) && k@ == keys[first_unknown(top, keys)])
    &&& readable(original) && first_unknown(top, keys) == keys.len() && toml_document(edited) is None ==> (r matches Err(
        TcalError::ParseToml(e),
    ) && refusal_of(e, edited))
    &&& readable(original) && first_unknown(top, keys) == keys.len() && toml_document(edited) is Some ==> (r matches Ok(out)
        && exists|sel: Seq<Spec>|
        #[trigger] selected(sel, top, keys) && out@ == views_text(
            spec_fold(spec_parse(original), toml_document(edited).unwrap().entries@, sel, top),
        ))
}

/// Fold an edited document back for the given component types alone; an
/// unknown type key is an error naming it.
pub fn apply_with(original_src: &str, edited_toml: &str, types: &[String]) -> (r: TcalResult<String>)
    ensures
        exists|top: Seq<Spec>| #[trigger] is_top_level(top) && applied_with(
            r,
            original_src@,
            edited_toml@,
            strings_view(types@),
            top,
        ),
{
    let template = match TcalTemplate::parse(original_src) {
        Ok(t) => t,
        Err(e) => {
            let specs = top_level();
            let r = Err(e);
            proof {
                assert(is_top_level(specs@) && applied_with(r, original_src@, edited_toml@, strings_view(types@), specs@));
            }
            return r;
        },
    };
    let ghost top = template.top@;
    let ghost cal = template.calendar;
    let ghost keys = strings_view(types@);
    proof {
        lemma_first_unknown_bounds(top, keys);
    }
    let narrowed = template.with_types(types);
    let r = match narrowed {
        Ok(t) => {
            let out = t.apply(edited_toml);
            proof {
                if let Some(doc) = toml_document(edited_toml@) {
                    assert(selected(t.types@, top, keys) && out->Ok_0@
                        == views_text(spec_fold(spec_parse(original_src@), doc.entries@, t.types@, top)));
                }
            }
            out
        },
        Err(e) => Err(e),
    };
    proof {
        assert(is_top_level(top) && applied_with(r, original_src@, edited_toml@, keys, top));
    }
    r
}


pub proof fn lemma_child_views_append(a: Seq<NodeView>, b: Seq<NodeView>, name: Seq<char>)
    ensures
        child_views(a + b, name) == child_views(a, name) + child_views(b, name),
    decreases b.len(),
{
    if b.len() == 0 {
        assert(a + b =~= a);
        assert(child_views(a, name) + Seq::<NodeView>::empty() =~= child_views(a, name));
    } else {
        assert((a + b).drop_last() =~= a + b.drop_last());
        assert((a + b).last() == b.last());
        lemma_child_views_append(a, b.drop_last(), name);
    }
}

pub proof fn lemma_child_views_cons(x: NodeView, rest: Seq<NodeView>, name: Seq<char>)
    ensures
        child_views(seq![x] + rest, name) == (if is_child(x, name) {
            seq![x]
        } else {
            Seq::<NodeView>::empty()
        }) + child_views(rest, name),
{
    lemma_child_views_append(seq![x], rest, name);
    assert(seq![x].drop_last() =~= Seq::<NodeView>::empty());
    assert(seq![x].last() == x);
    assert(child_views(Seq::<NodeView>::empty(), name) =~= Seq::<NodeView>::empty());
    if is_child(x, name) {
        assert(Seq::<NodeView>::empty().push(x) =~= seq![x]);
        assert(child_views(seq![x], name) =~= seq![x]);
    } else {
        assert(child_views(seq![x], name) =~= Seq::<NodeView>::empty());
    }
}

/// Dropping surplus components of one type keeps those of every other type.
pub proof fn lemma_keep_first_others(items: Seq<NodeView>, name: Seq<char>, count: int, other: Seq<char>)
    requires
        name != other,
    ensures
        child_views(keep_first(items, name, count), other) == child_views(items, other),
        named_lines(keep_first(items, name, count), other) == named_lines(items, other),
    decreases items.len(),
{
    if items.len() > 0 {
        let x = items[0];
        let rest = items.drop_first();
        assert(items =~= seq![x] + rest);
        lemma_child_views_cons(x, rest, other);
        crate::edit::lemma_named_lines_append(seq![x], rest, other);
        if is_child(x, name) {
            if count > 0 {
                lemma_keep_first_others(rest, name, count - 1, other);
                lemma_child_views_cons(x, keep_first(rest, name, count - 1), other);
                crate::edit::lemma_named_lines_append(seq![x], keep_first(rest, name, count - 1), other);
            } else {
                lemma_keep_first_others(rest, name, count, other);
                crate::edit::lemma_named_lines_single(x, other);
                assert(!is_child(x, other));
                assert(Seq::<NodeView>::empty() + child_views(rest, other) =~= child_views(rest, other));
                assert(Seq::<Seq<char>>::empty() + named_lines(rest, other) =~= named_lines(rest, other));
            }
        } else {
            lemma_keep_first_others(rest, name, count, other);
            lemma_child_views_cons(x, keep_first(rest, name, count), other);
            crate::edit::lemma_named_lines_append(seq![x], keep_first(rest, name, count), other);
        }
    }
}

/// Empty components of one type add none of another type and no property.
pub proof fn lemma_empties_others(n: nat, name: Seq<char>, eol: Seq<char>, other: Seq<char>)
    requires
        name != other,
    ensures
        child_views(Seq::new(n, |k: int| empty_component(name, eol)), other) == Seq::<NodeView>::empty(),
        named_lines(Seq::new(n, |k: int| empty_component(name, eol)), other) == Seq::<Seq<char>>::empty(),
    decreases n,
{
    let s = Seq::new(n, |k: int| empty_component(name, eol));
    if n > 0 {
        lemma_empties_others((n - 1) as nat, name, eol, other);
        assert(s.drop_last() =~= Seq::new((n - 1) as nat, |k: int| empty_component(name, eol)));
        assert(s =~= seq![s[0]] + s.drop_first());
        assert(s.drop_first() =~= Seq::new((n - 1) as nat, |k: int| empty_component(name, eol)));
        crate::edit::lemma_named_lines_append(seq![s[0]], s.drop_first(), other);
        crate::edit::lemma_named_lines_single(s[0], other);
    } else {
        assert(s =~= Seq::<NodeView>::empty());
    }
}

/// Setting the count of one type keeps the components of every other type
/// and every property.
pub proof fn lemma_set_child_count_others(
    items: Seq<NodeView>,
    name: Seq<char>,
    count: int,
    eol: Seq<char>,
    other: Seq<char>,
)
    requires
        name != other,
    ensures
        child_views(spec_set_child_count(items, name, count, eol), other) == child_views(items, other),
        named_lines(spec_set_child_count(items, name, count, eol), other) == named_lines(items, other),
{
    let have = crate::ical::child_count(items, name);
    if have < count {
        let more = Seq::new((count - have) as nat, |k: int| empty_component(name, eol));
        lemma_child_views_append(items, more, other);
        crate::edit::lemma_named_lines_append(items, more, other);
        lemma_empties_others((count - have) as nat, name, eol, other);
        assert(child_views(items, other) + Seq::<NodeView>::empty() =~= child_views(items, other));
        assert(named_lines(items, other) + Seq::<Seq<char>>::empty() =~= named_lines(items, other));
    } else {
        lemma_keep_first_others(items, name, count, other);
    }
}

/// Dropping surplus components of one type keeps the first of them, in order.
proof fn lemma_keep_first_same(items: Seq<NodeView>, name: Seq<char>, count: int)
    requires
        0 <= count <= crate::ical::child_count(items, name),
    ensures
        child_views(keep_first(items, name, count), name) == child_views(items, name).take(count),
    decreases items.len(),
{
    if items.len() == 0 {
        assert(child_views(items, name).take(count) =~= Seq::<NodeView>::empty());
    } else {
        let x = items[0];
        let rest = items.drop_first();
        assert(items =~= seq![x] + rest);
        lemma_child_views_cons(x, rest, name);
        if is_child(x, name) {
            if count > 0 {
                lemma_keep_first_same(rest, name, count - 1);
                lemma_child_views_cons(x, keep_first(rest, name, count - 1), name);
                assert(seq![x] + child_views(rest, name).take(count - 1) =~= (seq![x] + child_views(
                    rest,
                    name,
                )).take(count));
            } else {
                lemma_keep_first_same(rest, name, count);
                assert(child_views(items, name).take(0) =~= Seq::<NodeView>::empty());
                assert(child_views(rest, name).take(0) =~= Seq::<NodeView>::empty());
            }
        } else {
            lemma_keep_first_same(rest, name, count);
            lemma_child_views_cons(x, keep_first(rest, name, count), name);
            assert(Seq::<NodeView>::empty() + child_views(rest, name) =~= child_views(rest, name));
            assert(Seq::<NodeView>::empty() + child_views(keep_first(rest, name, count), name) =~= child_views(
                keep_first(rest, name, count),
                name,
            ));
        }
    }
}

/// Empty components of a type are all components of that type.
proof fn lemma_empties_same(n: nat, name: Seq<char>, eol: Seq<char>)
    ensures
        child_views(Seq::new(n, |k: int| empty_component(name, eol)), name) == Seq::new(
            n,
            |k: int| empty_component(name, eol),
        ),
    decreases n,
{
    let s = Seq::new(n, |k: int| empty_component(name, eol));
    if n > 0 {
        lemma_empties_same((n - 1) as nat, name, eol);
        assert(s.drop_last() =~= Seq::new((n - 1) as nat, |k: int| empty_component(name, eol)));
        assert(is_child(s.last(), name));
        assert(s.drop_last().push(s.last()) =~= s);
    } else {
        assert(s =~= Seq::<NodeView>::empty());
    }
}

/// Setting how many components of a type there are leaves exactly that
/// many: the first ones kept in order when there were more (a surplus dropped,
/// everything else kept in place), empty ones, ended with the given line
/// ending, appended after every item when there were fewer; the components of
/// every other type and every property stay as they were.
pub proof fn law_set_child_count(items: Seq<NodeView>, name: Seq<char>, count: nat, eol: Seq<char>)
    ensures
        crate::ical::child_count(items, name) < count ==> spec_set_child_count(items, name, count as int, eol)
            == items + Seq::new(
            (count - crate::ical::child_count(items, name)) as nat,
            |k: int| empty_component(name, eol),
        ),
        crate::ical::child_count(items, name) >= count ==> spec_set_child_count(items, name, count as int, eol)
            == keep_first(items, name, count as int),
        crate::ical::child_count(items, name) < count ==> child_views(
            spec_set_child_count(items, name, count as int, eol),
            name,
        ) == child_views(items, name) + Seq::new(
            (count - crate::ical::child_count(items, name)) as nat,
            |k: int| empty_component(name, eol),
        ),
        crate::ical::child_count(items, name) >= count ==> child_views(
            spec_set_child_count(items, name, count as int, eol),
            name,
        ) == child_views(items, name).take(count as int),
        crate::ical::child_count(spec_set_child_count(items, name, count as int, eol), name) == count,
        forall|other: Seq<char>|
            other != name ==> #[trigger] child_views(spec_set_child_count(items, name, count as int, eol), other)
                =~= child_views(items, other),
        forall|other: Seq<char>|
            other != name ==> #[trigger] named_lines(spec_set_child_count(items, name, count as int, eol), other)
                =~= named_lines(items, other),
{
    let have = crate::ical::child_count(items, name);
    let after = spec_set_child_count(items, name, count as int, eol);
    if have < count {
        let more = Seq::new((count - have) as nat, |k: int| empty_component(name, eol));
        lemma_child_views_append(items, more, name);
        lemma_empties_same((count - have) as nat, name, eol);
        assert(after == items + more);
        assert(child_views(after, name) == child_views(items, name) + more);
        assert(crate::ical::child_count(after, name) == count);
    } else {
        lemma_keep_first_same(items, name, count as int);
        assert(after == keep_first(items, name, count as int));
        assert(child_views(after, name) == child_views(items, name).take(count as int));
        assert(crate::ical::child_count(after, name) == count);
    }
    assert forall|other: Seq<char>| other != name implies #[trigger] child_views(after, other) =~= child_views(
        items,
        other,
    ) by {
        lemma_set_child_count_others(items, name, count as int, eol, other);
    }
    assert forall|other: Seq<char>| other != name implies #[trigger] named_lines(after, other) =~= named_lines(
        items,
        other,
    ) by {
        lemma_set_child_count_others(items, name, count as int, eol, other);
    }
}

/// Rewriting the components of one type keeps the components of every
/// other type and every property.
pub proof fn lemma_applied_others(
    items: Seq<NodeView>,
    child: Spec,
    blocks: Seq<Seq<(String, Toml)>>,
    rank: int,
    other: Seq<char>,
)
    requires
        child.name@ != other,
    ensures
        child_views(applied_to_children(items, child, blocks, rank), other) == child_views(items, other),
        named_lines(applied_to_children(items, child, blocks, rank), other) == named_lines(items, other),
    decreases items.len(),
{
    if items.len() > 0 {
        let x = items[0];
        let rest = items.drop_first();
        assert(items =~= seq![x] + rest);
        lemma_child_views_cons(x, rest, other);
        crate::edit::lemma_named_lines_append(seq![x], rest, other);
        if is_child(x, child.name@) {
            let head = if 0 <= rank < blocks.len() {
                spec_apply(x, blocks[rank], child)
            } else {
                x
            };
            lemma_applied_others(rest, child, blocks, rank + 1, other);
            lemma_child_views_cons(head, applied_to_children(rest, child, blocks, rank + 1), other);
            crate::edit::lemma_named_lines_append(seq![head], applied_to_children(rest, child, blocks, rank + 1), other);
            crate::edit::lemma_named_lines_single(head, other);
            crate::edit::lemma_named_lines_single(x, other);
            assert(!is_child(head, other));
            assert(!is_child(x, other));
        } else {
            lemma_applied_others(rest, child, blocks, rank, other);
            lemma_child_views_cons(x, applied_to_children(rest, child, blocks, rank), other);
            crate::edit::lemma_named_lines_append(seq![x], applied_to_children(rest, child, blocks, rank), other);
        }
    }
}

/// Whether no spec among some is of that component type.
pub open spec fn none_named(specs: Seq<Spec>, other: Seq<char>) -> bool {
    forall|i: int| 0 <= i < specs.len() ==> (#[trigger] specs[i]).name@ != other
}

/// Reconciling some component types against a document keeps every
/// component of any other type, and every property of the container, as it
/// was: a type left out of a fold-back is never lost.
pub proof fn law_reconcile_keeps_the_rest(
    items: Seq<NodeView>,
    doc: Seq<(String, Toml)>,
    specs: Seq<Spec>,
    eol: Seq<char>,
    other: Seq<char>,
)
    requires
        none_named(specs, other),
    ensures
        child_views(specs_applied(items, doc, specs, eol), other) == child_views(items, other),
        named_lines(specs_applied(items, doc, specs, eol), other) == named_lines(items, other),
    decreases specs.len(),
{
    if specs.len() > 0 {
        let s = specs.last();
        assert(s.name@ != other);
        assert(none_named(specs.drop_last(), other)) by {
            assert forall|i: int| 0 <= i < specs.drop_last().len() implies (#[trigger] specs.drop_last()[i]).name@
                != other by {
                assert(specs.drop_last()[i] == specs[i]);
            }
        }
        law_reconcile_keeps_the_rest(items, doc, specs.drop_last(), eol, other);
        let before = specs_applied(items, doc, specs.drop_last(), eol);
        let blocks = content_blocks(child_tables(doc, s.key@), s);
        lemma_set_child_count_others(before, s.name@, blocks.len() as int, eol, other);
        lemma_applied_others(
            spec_set_child_count(before, s.name@, blocks.len() as int, eol),
            s,
            blocks,
            0,
            other,
        );
    }
}

/// A flat document reconciles one component type alone: every component
/// of any other type, and every property of the container, is kept.
pub proof fn law_flat_keeps_the_rest(
    items: Seq<NodeView>,
    doc: Seq<(String, Toml)>,
    spec: Spec,
    eol: Seq<char>,
    other: Seq<char>,
)
    requires
        spec.name@ != other,
    ensures
        ({
            let blocks = if has_content(doc, spec) {
                seq![doc]
            } else {
                Seq::empty()
            };
            let out = applied_to_children(
                spec_set_child_count(items, spec.name@, blocks.len() as int, eol),
                spec,
                blocks,
                0,
            );
            child_views(out, other) == child_views(items, other) && named_lines(out, other) == named_lines(
                items,
                other,
            )
        }),
{
    let blocks = if has_content(doc, spec) {
        seq![doc]
    } else {
        Seq::<Seq<(String, Toml)>>::empty()
    };
    lemma_set_child_count_others(items, spec.name@, blocks.len() as int, eol, other);
    lemma_applied_others(spec_set_child_count(items, spec.name@, blocks.len() as int, eol), spec, blocks, 0, other);
}


/// Whether a predicate keeps no component.
pub open spec fn ignores_components(keep: spec_fn(NodeView) -> bool) -> bool {
    forall|x: NodeView| #[trigger] keep(x) ==> !(x is Component)
}

/// Whether an item is one a fold-back onto a component of that spec never
/// touches: neither a nested component nor a property one of its fields
/// models.
pub open spec fn unmodelled(spec: Spec) -> spec_fn(NodeView) -> bool {
    |x: NodeView|
        !(x is Component) && forall|i: int|
            0 <= i < spec.fields@.len() ==> !is_named(x, ascii_upper(#[trigger] spec.fields@[i].name@))
}

proof fn lemma_fields_applied_kept(
    items: Seq<NodeView>,
    fields: Seq<Field>,
    table: Seq<(String, Toml)>,
    eol: Seq<char>,
    keep: spec_fn(NodeView) -> bool,
)
    requires
        forall|i: int| 0 <= i < fields.len() ==> ignores_named(keep, ascii_upper(#[trigger] fields[i].name@)),
    ensures
        kept(fields_applied(items, fields, table, eol), keep) == kept(items, keep),
    decreases fields.len(),
{
    if fields.len() > 0 {
        assert forall|i: int| 0 <= i < fields.drop_last().len() implies ignores_named(
            keep,
            ascii_upper(#[trigger] fields.drop_last()[i].name@),
        ) by {
            assert(fields.drop_last()[i] == fields[i]);
        }
        lemma_fields_applied_kept(items, fields.drop_last(), table, eol, keep);
        let before = fields_applied(items, fields.drop_last(), table, eol);
        let upper = ascii_upper(fields.last().name@);
        assert(ignores_named(keep, ascii_upper(fields[fields.len() - 1].name@)));
        lemma_set_all_kept(
            before,
            upper,
            spec_content_lines(fields.last(), table, named_lines(before, upper)),
            eol,
            keep,
            false,
        );
    }
}

proof fn lemma_keep_first_kept(items: Seq<NodeView>, name: Seq<char>, count: int, keep: spec_fn(NodeView) -> bool)
    requires
        ignores_components(keep),
    ensures
        kept(keep_first(items, name, count), keep) == kept(items, keep),
    decreases items.len(),
{
    if items.len() > 0 {
        let x = items[0];
        let rest = items.drop_first();
        assert(items =~= seq![x] + rest);
        lemma_kept_cons(x, rest, keep);
        if is_child(x, name) {
            assert(!keep(x));
            if count > 0 {
                lemma_keep_first_kept(rest, name, count - 1, keep);
                lemma_kept_cons(x, keep_first(rest, name, count - 1), keep);
            } else {
                lemma_keep_first_kept(rest, name, count, keep);
            }
            assert(Seq::<NodeView>::empty() + kept(rest, keep) =~= kept(rest, keep));
            assert(Seq::<NodeView>::empty() + kept(keep_first(rest, name, count - 1), keep) =~= kept(
                keep_first(rest, name, count - 1),
                keep,
            ));
        } else {
            lemma_keep_first_kept(rest, name, count, keep);
            lemma_kept_cons(x, keep_first(rest, name, count), keep);
        }
    }
}

proof fn lemma_set_child_count_kept(
    items: Seq<NodeView>,
    name: Seq<char>,
    count: int,
    eol: Seq<char>,
    keep: spec_fn(NodeView) -> bool,
)
    requires
        ignores_components(keep),
    ensures
        kept(spec_set_child_count(items, name, count, eol), keep) == kept(items, keep),
{
    let have = crate::ical::child_count(items, name);
    if have < count {
        let more = Seq::new((count - have) as nat, |k: int| empty_component(name, eol));
        assert forall|i: int| 0 <= i < more.len() implies !keep(#[trigger] more[i]) by {
            assert(more[i] is Component);
        }
        lemma_kept_none(more, keep);
        lemma_kept_append(items, more, keep);
        assert(kept(items, keep) + Seq::<NodeView>::empty() =~= kept(items, keep));
    } else {
        lemma_keep_first_kept(items, name, count, keep);
    }
}

proof fn lemma_applied_to_children_kept(
    items: Seq<NodeView>,
    child: Spec,
    blocks: Seq<Seq<(String, Toml)>>,
    rank: int,
    keep: spec_fn(NodeView) -> bool,
)
    requires
        ignores_components(keep),
    ensures
        kept(applied_to_children(items, child, blocks, rank), keep) == kept(items, keep),
    decreases items.len(),
{
    if items.len() > 0 {
        let x = items[0];
        let rest = items.drop_first();
        assert(items =~= seq![x] + rest);
        lemma_kept_cons(x, rest, keep);
        if is_child(x, child.name@) {
            let head = if 0 <= rank < blocks.len() {
                spec_apply(x, blocks[rank], child)
            } else {
                x
            };
            assert(head is Component);
            assert(!keep(head));
            assert(!keep(x));
            lemma_applied_to_children_kept(rest, child, blocks, rank + 1, keep);
            lemma_kept_cons(head, applied_to_children(rest, child, blocks, rank + 1), keep);
            assert(Seq::<NodeView>::empty() + kept(rest, keep) =~= kept(rest, keep));
        } else {
            lemma_applied_to_children_kept(rest, child, blocks, rank, keep);
            lemma_kept_cons(x, applied_to_children(rest, child, blocks, rank), keep);
        }
    }
}

proof fn lemma_children_applied_kept(
    items: Seq<NodeView>,
    table: Seq<(String, Toml)>,
    parent: Spec,
    n: int,
    eol: Seq<char>,
    keep: spec_fn(NodeView) -> bool,
)
    requires
        ignores_components(keep),
    ensures
        kept(children_applied(items, table, parent, n, eol), keep) == kept(items, keep),
    decreases n,
{
    if 0 < n <= parent.children@.len() {
        lemma_children_applied_kept(items, table, parent, n - 1, eol, keep);
        let before = children_applied(items, table, parent, n - 1, eol);
        let child = parent.children@[n - 1];
        let blocks = content_blocks(child_tables(table, child.key@), child);
        lemma_set_child_count_kept(before, child.name@, blocks.len() as int, eol, keep);
        lemma_applied_to_children_kept(
            spec_set_child_count(before, child.name@, blocks.len() as int, eol),
            child,
            blocks,
            0,
            keep,
        );
    }
}

/// Folding a table back onto a component keeps, byte for byte and in order,
/// every property that none of its spec's fields models and every line kept
/// verbatim; its own envelope is kept too.
pub proof fn law_apply_keeps_unmodelled(view: NodeView, table: Seq<(String, Toml)>, spec: Spec)
    requires
        view is Component,
    ensures
        spec_apply(view, table, spec) is Component,
        spec_apply(view, table, spec)->Component_name == view->Component_name,
        spec_apply(view, table, spec)->Component_begin == view->Component_begin,
        spec_apply(view, table, spec)->Component_end == view->Component_end,
        kept(view_items(spec_apply(view, table, spec)), unmodelled(spec)) == kept(
            view_items(view),
            unmodelled(spec),
        ),
{
    let keep = unmodelled(spec);
    let items = view_items(view);
    let eol = spec_eol_of(view->Component_begin);
    assert forall|i: int| 0 <= i < spec.fields@.len() implies ignores_named(
        keep,
        ascii_upper(#[trigger] spec.fields@[i].name@),
    ) by {
        assert forall|x: NodeView| #[trigger] is_named(x, ascii_upper(spec.fields@[i].name@)) implies !keep(
            x,
        ) by {}
    }
    assert(ignores_components(keep));
    lemma_fields_applied_kept(items, spec.fields@, table, eol, keep);
    lemma_children_applied_kept(
        fields_applied(items, spec.fields@, table, eol),
        table,
        spec,
        spec.children@.len() as int,
        eol,
        keep,
    );
}


proof fn lemma_specs_applied_kept(
    items: Seq<NodeView>,
    doc: Seq<(String, Toml)>,
    specs: Seq<Spec>,
    eol: Seq<char>,
    keep: spec_fn(NodeView) -> bool,
)
    requires
        ignores_components(keep),
    ensures
        kept(specs_applied(items, doc, specs, eol), keep) == kept(items, keep),
    decreases specs.len(),
{
    if specs.len() > 0 {
        lemma_specs_applied_kept(items, doc, specs.drop_last(), eol, keep);
        let before = specs_applied(items, doc, specs.drop_last(), eol);
        let s = specs.last();
        let blocks = content_blocks(child_tables(doc, s.key@), s);
        lemma_set_child_count_kept(before, s.name@, blocks.len() as int, eol, keep);
        lemma_applied_to_children_kept(
            spec_set_child_count(before, s.name@, blocks.len() as int, eol),
            s,
            blocks,
            0,
            keep,
        );
    }
}

/// Folding a document back never touches a line of the container itself:
/// every property of the calendar and every line kept verbatim comes out
/// byte for byte and in order, whatever the document holds.
pub proof fn law_reconcile_keeps_container_lines(
    items: Seq<NodeView>,
    doc: Seq<(String, Toml)>,
    blocky: bool,
    filter: Seq<Spec>,
    top: Seq<Spec>,
    eol: Seq<char>,
)
    ensures
        kept(spec_reconcile(items, doc, blocky, filter, top, eol), |x: NodeView| !(x is Component)) == kept(
            items,
            |x: NodeView| !(x is Component),
        ),
{
    let keep = |x: NodeView| !(x is Component);
    assert(ignores_components(keep));
    if !blocky {
        let spec = if filter.len() > 0 {
            filter[0]
        } else {
            top[0]
        };
        let blocks = if has_content(doc, spec) {
            seq![doc]
        } else {
            Seq::<Seq<(String, Toml)>>::empty()
        };
        lemma_set_child_count_kept(items, spec.name@, blocks.len() as int, eol, keep);
        lemma_applied_to_children_kept(
            spec_set_child_count(items, spec.name@, blocks.len() as int, eol),
            spec,
            blocks,
            0,
            keep,
        );
    } else {
        lemma_specs_applied_kept(
            items,
            doc,
            if filter.len() > 0 {
                filter
            } else {
                top
            },
            eol,
            keep,
        );
    }
}


/// Projecting with no type selected projects every type: it is the
/// projection of the whole calendar, for every calendar.
pub proof fn law_no_selection_shows_everything(r: TcalResult<String>, stream: Seq<NodeView>, top: Seq<Spec>)
    requires
        projected_with(r, stream, Seq::empty(), top),
    ensures
        r matches Ok(out) && out@ == spec_project(stream, Seq::empty(), top),
{
    assert(first_unknown(top, Seq::<Seq<char>>::empty()) == 0);
    let out = r->Ok_0;
    let sel = choose|sel: Seq<Spec>| #[trigger] selected(sel, top, Seq::empty()) && out@ == spec_project(
        stream,
        sel,
        top,
    );
    assert(sel =~= Seq::<Spec>::empty());
}


/// Folding back with no type selected folds every type back: the same as
/// a fold-back with no selection at all, for every calendar and document.
pub proof fn law_no_selection_folds_every_type(
    r: TcalResult<String>,
    original: Seq<char>,
    edited: Seq<char>,
    top: Seq<Spec>,
)
    requires
        applied_with(r, original, edited, Seq::empty(), top),
    ensures
        !readable(original) ==> (r matches Err(TcalError::ParseICalendar(m)) && m@ == unreadable_message()),
        readable(original) ==> match toml_document(edited) {
            None => r matches Err(TcalError::ParseToml(e)) && refusal_of(e, edited),
            Some(doc) => r matches Ok(out) && out@ == views_text(
                spec_fold(spec_parse(original), doc.entries@, Seq::empty(), top),
            ),
        },
{
    assert(first_unknown(top, Seq::<Seq<char>>::empty()) == 0);
    if !readable(original) {
    } else if let Some(doc) = toml_document(edited) {
        let out = r->Ok_0;
        let sel = choose|sel: Seq<Spec>| #[trigger] selected(sel, top, Seq::empty()) && out@ == views_text(
            spec_fold(spec_parse(original), doc.entries@, sel, top),
        );
        assert(sel =~= Seq::<Spec>::empty());
    }
}

/// Whether a table restates the lines some items hold for each field: the
/// lines it builds, patched onto those lines, are those lines.
pub open spec fn fields_restated(items: Seq<NodeView>, fields: Seq<Field>, table: Seq<(String, Toml)>) -> bool {
    forall|i: int|
        0 <= i < fields.len() ==> spec_content_lines(
            #[trigger] fields[i],
            table,
            named_lines(items, ascii_upper(fields[i].name@)),
        ) == named_lines(items, ascii_upper(fields[i].name@))
}

/// Whether a table restates a component: its fields, and for each child
/// type as many blocks with content as the component has children of that
/// type, each restating the child at its rank.
pub open spec fn restates(view: NodeView, table: Seq<(String, Toml)>, spec: Spec) -> bool
    decreases spec, 1int, 0int,
{
    match view {
        NodeView::Component { items, .. } => fields_restated(items, spec.fields@, table) && children_restated(
            items,
            table,
            spec,
            spec.children@.len() as int,
        ),
        _ => true,
    }
}

/// Whether a table restates the children of the first `n` child types of
/// `parent` among some items.
pub open spec fn children_restated(items: Seq<NodeView>, table: Seq<(String, Toml)>, parent: Spec, n: int) -> bool
    decreases parent, 0int, n,
{
    if n <= 0 || n > parent.children@.len() {
        true
    } else {
        let child = parent.children@[n - 1];
        &&& children_restated(items, table, parent, n - 1)
        &&& blocks_restate(items, content_blocks(child_tables(table, child.key@), child), child)
    }
}

/// Whether some blocks restate the components of a spec's type among some
/// items, one block per component, in order.
pub open spec fn blocks_restate(items: Seq<NodeView>, blocks: Seq<Seq<(String, Toml)>>, child: Spec) -> bool
    decreases child, 3int, 0int,
{
    &&& blocks.len() == crate::ical::child_count(items, child.name@)
    &&& forall|r: int|
        0 <= r < blocks.len() ==> restates(
            #[trigger] child_views(items, child.name@)[r],
            blocks[r],
            child,
        )
}

proof fn lemma_fields_restated(items: Seq<NodeView>, fields: Seq<Field>, table: Seq<(String, Toml)>, eol: Seq<char>)
    requires
        fields_restated(items, fields, table),
    ensures
        fields_applied(items, fields, table, eol) == items,
    decreases fields.len(),
{
    if fields.len() > 0 {
        let init = fields.drop_last();
        assert forall|i: int| 0 <= i < init.len() implies spec_content_lines(
            #[trigger] init[i],
            table,
            named_lines(items, ascii_upper(init[i].name@)),
        ) == named_lines(items, ascii_upper(init[i].name@)) by {
            assert(init[i] == fields[i]);
        }
        lemma_fields_restated(items, init, table, eol);
        let f = fields.last();
        assert(f == fields[fields.len() - 1]);
        crate::edit::law_set_same_is_identity(items, ascii_upper(f.name@), eol, false);
    }
}

/// Keeping as many components of a type as there are keeps everything.
proof fn lemma_keep_first_all(items: Seq<NodeView>, name: Seq<char>)
    ensures
        keep_first(items, name, crate::ical::child_count(items, name)) == items,
    decreases items.len(),
{
    if items.len() > 0 {
        let x = items[0];
        let rest = items.drop_first();
        assert(items =~= seq![x] + rest);
        lemma_child_views_cons(x, rest, name);
        lemma_keep_first_all(rest, name);
        if is_child(x, name) {
            assert(crate::ical::child_count(items, name) == crate::ical::child_count(rest, name) + 1);
        } else {
            assert(Seq::<NodeView>::empty() + child_views(rest, name) =~= child_views(rest, name));
        }
    }
}

proof fn lemma_restated_apply(view: NodeView, table: Seq<(String, Toml)>, spec: Spec)
    requires
        restates(view, table, spec),
    ensures
        spec_apply(view, table, spec) == view,
    decreases spec, 1int, 0int,
{
    match view {
        NodeView::Component { name, begin, items, end } => {
            let eol = spec_eol_of(begin);
            lemma_fields_restated(items, spec.fields@, table, eol);
            lemma_restated_children(items, table, spec, spec.children@.len() as int, eol);
        },
        _ => {},
    }
}

proof fn lemma_restated_children(
    items: Seq<NodeView>,
    table: Seq<(String, Toml)>,
    parent: Spec,
    n: int,
    eol: Seq<char>,
)
    requires
        children_restated(items, table, parent, n),
    ensures
        children_applied(items, table, parent, n, eol) == items,
    decreases parent, 0int, n,
{
    if 0 < n <= parent.children@.len() {
        lemma_restated_children(items, table, parent, n - 1, eol);
        let child = parent.children@[n - 1];
        let blocks = content_blocks(child_tables(table, child.key@), child);
        assert(blocks_restate(items, blocks, child));
        assert(blocks.len() == crate::ical::child_count(items, child.name@));
        lemma_keep_first_all(items, child.name@);
        assert(spec_set_child_count(items, child.name@, blocks.len() as int, eol) == items);
        assert forall|c: int|
            0 <= c < crate::ical::child_count(items, child.name@) && 0 + c < blocks.len() implies restates(
            #[trigger] child_views(items, child.name@)[c],
            blocks[0 + c],
            child,
        ) by {
            assert(restates(child_views(items, child.name@)[c], blocks[c], child));
        }
        lemma_restated_blocks(items, child, blocks, 0);
    }
}

proof fn lemma_restated_blocks(items: Seq<NodeView>, child: Spec, blocks: Seq<Seq<(String, Toml)>>, rank: int)
    requires
        0 <= rank,
        forall|c: int|
            0 <= c < crate::ical::child_count(items, child.name@) && rank + c < blocks.len() ==> restates(
                #[trigger] child_views(items, child.name@)[c],
                blocks[rank + c],
                child,
            ),
    ensures
        applied_to_children(items, child, blocks, rank) == items,
    decreases child, 2int, items.len(),
{
    if items.len() > 0 {
        let x = items[0];
        let rest = items.drop_first();
        assert(items =~= seq![x] + rest);
        lemma_child_views_cons(x, rest, child.name@);
        if is_child(x, child.name@) {
            assert(child_views(items, child.name@)[0] == x);
            if rank < blocks.len() {
                lemma_restated_apply(x, blocks[rank], child);
            }
            assert forall|c: int|
                0 <= c < crate::ical::child_count(rest, child.name@) && rank + 1 + c < blocks.len() implies restates(
                #[trigger] child_views(rest, child.name@)[c],
                blocks[rank + 1 + c],
                child,
            ) by {
                assert(child_views(rest, child.name@)[c] == child_views(items, child.name@)[c + 1]);
            }
            lemma_restated_blocks(rest, child, blocks, rank + 1);
        } else {
            assert(Seq::<NodeView>::empty() + child_views(rest, child.name@) =~= child_views(rest, child.name@));
            assert forall|c: int|
                0 <= c < crate::ical::child_count(rest, child.name@) && rank + c < blocks.len() implies restates(
                #[trigger] child_views(rest, child.name@)[c],
                blocks[rank + c],
                child,
            ) by {
                assert(child_views(rest, child.name@)[c] == child_views(items, child.name@)[c]);
            }
            lemma_restated_blocks(rest, child, blocks, rank);
        }
        assert(seq![x] + rest =~= items);
    }
}

/// A component folds back onto itself byte for byte from a table that
/// restates it: each field's lines and, type by type, one block per child.
pub proof fn law_restating_table_changes_nothing(view: NodeView, table: Seq<(String, Toml)>, spec: Spec)
    requires
        restates(view, table, spec),
    ensures
        spec_apply(view, table, spec) == view,
{
    lemma_restated_apply(view, table, spec);
}

/// The items a fold-back reconciles: the first calendar's when the stream
/// opens with a `VCALENDAR`, else the stream's own.
pub open spec fn folded_items(stream: Seq<NodeView>) -> Seq<NodeView> {
    let at = first_component_at(stream);
    if at < stream.len() && is_child(stream[at], "VCALENDAR"@) {
        view_items(stream[at])
    } else {
        stream
    }
}

/// Whether a document restates, type by type, every component of the
/// given types among some items, one block per component.
pub open spec fn specs_restated(items: Seq<NodeView>, doc: Seq<(String, Toml)>, specs: Seq<Spec>) -> bool {
    forall|k: int|
        0 <= k < specs.len() ==> blocks_restate(
            items,
            content_blocks(child_tables(doc, (#[trigger] specs[k]).key@), specs[k]),
            specs[k],
        )
}

proof fn lemma_specs_restated(items: Seq<NodeView>, doc: Seq<(String, Toml)>, specs: Seq<Spec>, eol: Seq<char>)
    requires
        specs_restated(items, doc, specs),
    ensures
        specs_applied(items, doc, specs, eol) == items,
    decreases specs.len(),
{
    if specs.len() > 0 {
        let init = specs.drop_last();
        assert forall|k: int| 0 <= k < init.len() implies blocks_restate(
            items,
            content_blocks(child_tables(doc, (#[trigger] init[k]).key@), init[k]),
            init[k],
        ) by {
            assert(init[k] == specs[k]);
        }
        lemma_specs_restated(items, doc, init, eol);
        let s = specs.last();
        let blocks = content_blocks(child_tables(doc, s.key@), s);
        assert(blocks_restate(items, blocks, specs[specs.len() - 1]));
        lemma_keep_first_all(items, s.name@);
        assert(spec_set_child_count(items, s.name@, blocks.len() as int, eol) == items);
        assert forall|c: int|
            0 <= c < crate::ical::child_count(items, s.name@) && 0 + c < blocks.len() implies restates(
            #[trigger] child_views(items, s.name@)[c],
            blocks[0 + c],
            s,
        ) by {
            assert(restates(child_views(items, s.name@)[c], blocks[c], s));
        }
        lemma_restated_blocks(items, s, blocks, 0);
    }
}

/// A calendar folds back byte for byte from a document in block form that
/// restates it: every component of every modelled type, field by field and
/// child by child. What a fold-back changes is what the document changes.
pub proof fn law_restating_document_folds_back_unchanged(
    stream: Seq<NodeView>,
    doc: Seq<(String, Toml)>,
    top: Seq<Spec>,
)
    requires
        is_blocky(doc, top),
        specs_restated(folded_items(stream), doc, top),
    ensures
        spec_fold(stream, doc, Seq::empty(), top) == stream,
{
    let at = first_component_at(stream);
    lemma_first_component_at(stream);
    if at < stream.len() && is_child(stream[at], "VCALENDAR"@) {
        match stream[at] {
            NodeView::Component { name, begin, items, end } => {
                lemma_specs_restated(items, doc, top, spec_eol_of(begin));
                assert(stream.update(at, NodeView::Component { name, begin, items, end }) =~= stream);
            },
            _ => {},
        }
    } else {
        lemma_specs_restated(stream, doc, top, stream_eol(stream));
    }
}

/// A calendar's text comes back byte for byte from a fold-back of any
/// document in block form that restates it: the projection of a calendar,
/// left untouched, whose reading restates it, folds back to the very text it
/// was projected from.
pub proof fn law_untouched_document_gives_the_calendar_back(src: Seq<char>, doc: Seq<(String, Toml)>, top: Seq<Spec>)
    requires
        is_blocky(doc, top),
        specs_restated(folded_items(spec_parse(src)), doc, top),
    ensures
        views_text(spec_fold(spec_parse(src), doc, Seq::empty(), top)) == src,
{
    law_restating_document_folds_back_unchanged(spec_parse(src), doc, top);
    crate::edit::law_parse_round_trip(src);
}

/// Projecting again after folding back a document that restates the
/// calendar gives the same projection: the form settles rather than drifts.
pub proof fn law_restated_projection_settles(
    src: Seq<char>,
    doc: Seq<(String, Toml)>,
    types: Seq<Spec>,
    top: Seq<Spec>,
)
    requires
        is_blocky(doc, top),
        specs_restated(folded_items(spec_parse(src)), doc, top),
    ensures
        spec_project(spec_parse(views_text(spec_fold(spec_parse(src), doc, Seq::empty(), top))), types, top)
            == spec_project(spec_parse(src), types, top),
{
    law_untouched_document_gives_the_calendar_back(src, doc, top);
}

/// Whether the items a fold-back reconciled keep, from the ones it was given,
/// every component of a type and every line of the container.
pub open spec fn keeps_type_and_lines(after: Seq<NodeView>, before: Seq<NodeView>, other: Seq<char>) -> bool {
    &&& child_views(after, other) == child_views(before, other)
    &&& kept(after, |x: NodeView| !(x is Component)) == kept(before, |x: NodeView| !(x is Component))
}

proof fn lemma_reconcile_keeps_type(
    items: Seq<NodeView>,
    doc: Seq<(String, Toml)>,
    blocky: bool,
    sel: Seq<Spec>,
    top: Seq<Spec>,
    eol: Seq<char>,
    other: Seq<char>,
)
    requires
        sel.len() > 0,
        none_named(sel, other),
    ensures
        keeps_type_and_lines(spec_reconcile(items, doc, blocky, sel, top, eol), items, other),
{
    law_reconcile_keeps_container_lines(items, doc, blocky, sel, top, eol);
    if blocky {
        law_reconcile_keeps_the_rest(items, doc, sel, eol, other);
    } else {
        assert(sel[0].name@ != other);
        law_flat_keeps_the_rest(items, doc, sel[0], eol, other);
    }
}

/// A fold-back for some component types keeps what it was not asked to
/// touch: in the calendar it writes, every component of a type not selected
/// is the one the original held, in the same order and byte for byte, and
/// every line of the `VCALENDAR` (or of the bare stream) other than a
/// component is unchanged; an unknown key is refused, naming it.
pub proof fn law_apply_with_keeps_unselected(
    r: TcalResult<String>,
    original: Seq<char>,
    edited: Seq<char>,
    keys: Seq<Seq<char>>,
    top: Seq<Spec>,
    other: Seq<char>,
)
    requires
        is_top_level(top),
        applied_with(r, original, edited, keys, top),
        keys.len() > 0,
        forall|i: int|
            0 <= i < keys.len() && 0 <= type_index(top, keys[i]) < top.len() ==> top[type_index(
                top,
                #[trigger] keys[i],
            )].name@ != other,
    ensures
        readable(original) && first_unknown(top, keys) < keys.len() ==> (r matches Err(
            TcalError::UnknownComponent(k),
        ) && k@ == keys[first_unknown(top, keys)]),
        readable(original) && first_unknown(top, keys) == keys.len() && toml_document(edited) is Some ==> (r matches Ok(
            out,
        ) && exists|stream: Seq<NodeView>|
            out@ == views_text(stream) && stream.len() == spec_parse(original).len() && (forall|i: int|
                0 <= i < stream.len() && i != first_component_at(spec_parse(original)) ==> #[trigger] stream[i]
                    == spec_parse(original)[i]) && (if first_component_at(spec_parse(original)) < spec_parse(
                original,
            ).len() && is_child(
                spec_parse(original)[first_component_at(spec_parse(original))],
                "VCALENDAR"@,
            ) {
                stream[first_component_at(spec_parse(original))] matches NodeView::Component {
                    name,
                    begin,
                    items,
                    end,
                } && spec_parse(original)[first_component_at(spec_parse(original))] matches NodeView::Component {
                    name: n0,
                    begin: b0,
                    items: i0,
                    end: e0,
                } && name == n0 && begin == b0 && end == e0 && keeps_type_and_lines(items, i0, other)
            } else {
                true
            })) || (r matches Ok(out) && exists|stream: Seq<NodeView>|
            out@ == views_text(stream) && !(first_component_at(spec_parse(original)) < spec_parse(original).len()
                && is_child(spec_parse(original)[first_component_at(spec_parse(original))], "VCALENDAR"@))
                && keeps_type_and_lines(stream, spec_parse(original), other)),
{
    if readable(original) && first_unknown(top, keys) == keys.len() && toml_document(edited) is Some {
        let out = r->Ok_0;
        let doc = toml_document(edited).unwrap().entries@;
        let sel = choose|sel: Seq<Spec>|
            #[trigger] selected(sel, top, keys) && out@ == views_text(
                spec_fold(spec_parse(original), doc, sel, top),
            );
        lemma_first_unknown_bounds(top, keys);
        assert(none_named(sel, other)) by {
            assert forall|i: int| 0 <= i < sel.len() implies (#[trigger] sel[i]).name@ != other by {
                assert(is_top_at(sel[i], type_index(top, keys[i])));
                lemma_type_index_bounds(top, keys[i]);
                let j = type_index(top, keys[i]);
                assert(0 <= j < top.len());
                assert(sel[i].name@ == top[j].name@);
            }
        }
        let src = spec_parse(original);
        let at = first_component_at(src);
        lemma_first_component_at(src);
        let stream = spec_fold(src, doc, sel, top);
        let blocky = is_blocky(doc, top);
        if at < src.len() && is_child(src[at], "VCALENDAR"@) {
            match src[at] {
                NodeView::Component { name, begin, items, end } => {
                    lemma_reconcile_keeps_type(items, doc, blocky, sel, top, spec_eol_of(begin), other);
                    assert forall|i: int| 0 <= i < stream.len() && i != at implies #[trigger] stream[i] == src[i] by {}
                },
                _ => {},
            }
        } else {
            lemma_reconcile_keeps_type(src, doc, blocky, sel, top, stream_eol(src), other);
        }
    }
}

} // verus!
