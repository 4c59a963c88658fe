//! # Sides
//!
//! The three calendars a merge read and the one it produced, and what each
//! conflict becomes when read against them.
//!
//! A conflict is a choice where both sides wrote a value the projection has a
//! key for and only a reader can pick, and a note where the merge already
//! decided or the projection shows nothing to contest.
//!
//! The merge reports where its actions landed as paths: a component path is
//! one step per level, each a component type and the key that picks one of
//! its siblings; a property path adds the property's name, its position
//! among the properties of that name, and for an attendee the address that
//! identifies it in every calendar.

use vstd::prelude::*;

use crate::datetime::opt_chars_of;
use crate::edit::{
    component_view, find_char, index_of_char, lemma_index_of_char_bounds, named_lines, Component, NodeView,
};
use crate::patch::views_of;
use crate::ical::{child_views, is_child, refs_view, spec_read, spec_top_level, view_items, TcalCalendar};
use crate::line::{digits, digits_of, lines_view, Line};
use crate::merge::choice::{differing, distinct_keys, texts_view, Choice};
use crate::model::spec_field_lines;
use crate::patch::{spec_strip_mailto, strip_mailto_chars};
use crate::template::{attendee_keys, entries_for, entries_of, named_among, opt_view, spec_attendee_keys};
use crate::model::{is_top_level, top_level, Field, Kind, Spec};
use crate::number::{parse_unsigned, spec_parse_unsigned};
use crate::text::{
    chars_eq, chars_of, eq_ignore_ascii_case, join_chars, join_with, push_all, same_ignoring_ascii_case,
    slice_chars, string_of, to_ascii_upper, ascii_upper,
};
use crate::util::{line_text, text};

verus! {

/// One step of a merge path: a component type, and the key that picks one
/// of its siblings (a `UID`, a `UID/instance`, or a position).
pub struct PathStep {
    pub name: String,
    pub key: String,
}

/// The component a merge action lands in, one step per level.
pub struct ComponentPath(pub Vec<PathStep>);

/// The property a merge action lands on.
pub struct PropPath {
    /// The component it sits in.
    pub component: ComponentPath,
    /// Its name.
    pub name: String,
    /// Its position among the properties of that name, in the side the
    /// action was read from.
    pub index: usize,
    /// For an attendee, the calendar address that names it in every side.
    pub identity: Option<String>,
}

/// One change a side made, as the merge reports it.
#[allow(inconsistent_fields)]
pub enum MergeAction {
    ComponentAdded { at: ComponentPath },
    ComponentRemoved { at: ComponentPath },
    PropAdded { at: PropPath },
    PropRemoved { at: PropPath },
    ValueChanged { at: PropPath },
    ValueItemAdded { at: PropPath },
    ValueItemRemoved { at: PropPath },
    ParamAdded { at: PropPath },
    ParamRemoved { at: PropPath },
    ParamChanged { at: PropPath },
}

/// Why the local side's change did not simply apply.
pub enum MergeReason {
    /// One side changed a series and the other one of its instances.
    Recurrence(MergeAction),
    /// Both sides changed the same thing.
    Divergent(MergeAction),
}

/// A step as plain values: its type and its key.
pub open spec fn step_view(step: PathStep) -> (Seq<char>, Seq<char>) {
    (step.name@, step.key@)
}

impl ComponentPath {
    pub open spec fn view(&self) -> Seq<(Seq<char>, Seq<char>)> {
        self.0@.map_values(|step: PathStep| step_view(step))
    }
}

/// The identity of a property path as plain values.
pub open spec fn identity_view(identity: Option<String>) -> Option<Seq<char>> {
    match identity {
        Some(id) => Some(id@),
        None => None,
    }
}

impl PropPath {
    pub open spec fn view(&self) -> (Seq<(Seq<char>, Seq<char>)>, Seq<char>, usize, Option<Seq<char>>) {
        (self.component.view(), self.name@, self.index, identity_view(self.identity))
    }
}

/// Whether an action takes something away: a collision the merge settles
/// on its own, by keeping the data.
pub open spec fn spec_is_removal(action: MergeAction) -> bool {
    ||| action is ComponentRemoved
    ||| action is PropRemoved
    ||| action is ValueItemRemoved
    ||| action is ParamRemoved
}

/// The component an action lands in.
pub open spec fn spec_path_of(action: MergeAction) -> ComponentPath {
    match action {
        MergeAction::ComponentAdded { at } => at,
        MergeAction::ComponentRemoved { at } => at,
        MergeAction::PropAdded { at } => at.component,
        MergeAction::PropRemoved { at } => at.component,
        MergeAction::ValueChanged { at } => at.component,
        MergeAction::ValueItemAdded { at } => at.component,
        MergeAction::ValueItemRemoved { at } => at.component,
        MergeAction::ParamAdded { at } => at.component,
        MergeAction::ParamRemoved { at } => at.component,
        MergeAction::ParamChanged { at } => at.component,
    }
}

/// The property an action lands on, for the actions that land on one.
pub open spec fn spec_prop_of(action: MergeAction) -> Option<PropPath> {
    match action {
        MergeAction::ComponentAdded { .. } => None,
        MergeAction::ComponentRemoved { .. } => None,
        MergeAction::PropAdded { at } => Some(at),
        MergeAction::PropRemoved { at } => Some(at),
        MergeAction::ValueChanged { at } => Some(at),
        MergeAction::ValueItemAdded { at } => Some(at),
        MergeAction::ValueItemRemoved { at } => Some(at),
        MergeAction::ParamAdded { at } => Some(at),
        MergeAction::ParamRemoved { at } => Some(at),
        MergeAction::ParamChanged { at } => Some(at),
    }
}

/// The list an action edited, for the two actions that edit one.
pub open spec fn spec_edited_items(action: MergeAction) -> Option<PropPath> {
    match action {
        MergeAction::ValueItemAdded { at } => Some(at),
        MergeAction::ValueItemRemoved { at } => Some(at),
        _ => None,
    }
}

/// Whether an action takes something away.
pub fn is_removal(action: &MergeAction) -> (r: bool)
    ensures
        r == spec_is_removal(*action),
{
    match action {
        MergeAction::ComponentRemoved { .. } => true,
        MergeAction::PropRemoved { .. } => true,
        MergeAction::ValueItemRemoved { .. } => true,
        MergeAction::ParamRemoved { .. } => true,
        _ => false,
    }
}

/// The component an action lands in.
pub fn path_of(action: &MergeAction) -> (r: &ComponentPath)
    ensures
        *r == spec_path_of(*action),
{
    match action {
        MergeAction::ComponentAdded { at } => at,
        MergeAction::ComponentRemoved { at } => at,
        MergeAction::PropAdded { at } => &at.component,
        MergeAction::PropRemoved { at } => &at.component,
        MergeAction::ValueChanged { at } => &at.component,
        MergeAction::ValueItemAdded { at } => &at.component,
        MergeAction::ValueItemRemoved { at } => &at.component,
        MergeAction::ParamAdded { at } => &at.component,
        MergeAction::ParamRemoved { at } => &at.component,
        MergeAction::ParamChanged { at } => &at.component,
    }
}

/// The property an action lands on, for the actions that land on one.
pub fn prop_of(action: &MergeAction) -> (r: Option<&PropPath>)
    ensures
        match r {
            Some(at) => spec_prop_of(*action) == Some(*at),
            None => spec_prop_of(*action) is None,
        },
{
    match action {
        MergeAction::ComponentAdded { .. } => None,
        MergeAction::ComponentRemoved { .. } => None,
        MergeAction::PropAdded { at } => Some(at),
        MergeAction::PropRemoved { at } => Some(at),
        MergeAction::ValueChanged { at } => Some(at),
        MergeAction::ValueItemAdded { at } => Some(at),
        MergeAction::ValueItemRemoved { at } => Some(at),
        MergeAction::ParamAdded { at } => Some(at),
        MergeAction::ParamRemoved { at } => Some(at),
        MergeAction::ParamChanged { at } => Some(at),
    }
}

/// The list an action edited, for the two actions that edit one.
pub fn edited_items(action: &MergeAction) -> (r: Option<&PropPath>)
    ensures
        match r {
            Some(at) => spec_edited_items(*action) == Some(*at),
            None => spec_edited_items(*action) is None,
        },
{
    match action {
        MergeAction::ValueItemAdded { at } => Some(at),
        MergeAction::ValueItemRemoved { at } => Some(at),
        _ => None,
    }
}

/// The index of the first spec of that component type, matched without
/// regard to ASCII case, or -1.
pub open spec fn spec_index(specs: Seq<Spec>, name: Seq<char>) -> int
    decreases specs.len(),
{
    if specs.len() == 0 {
        -1
    } else if same_ignoring_ascii_case(specs[0].name@, name) {
        0
    } else {
        let rest = spec_index(specs.drop_first(), name);
        if rest < 0 {
            -1
        } else {
            rest + 1
        }
    }
}

pub proof fn lemma_spec_index_bounds(specs: Seq<Spec>, name: Seq<char>)
    ensures
        -1 <= spec_index(specs, name) < specs.len(),
        forall|j: int| 0 <= j < specs.len() && (spec_index(specs, name) < 0 || j < spec_index(specs, name))
            ==> !same_ignoring_ascii_case(#[trigger] specs[j].name@, name),
        spec_index(specs, name) >= 0 ==> same_ignoring_ascii_case(specs[spec_index(specs, name)].name@, name),
    decreases specs.len(),
{
    if specs.len() > 0 && !same_ignoring_ascii_case(specs[0].name@, name) {
        lemma_spec_index_bounds(specs.drop_first(), name);
        assert forall|j: int|
            0 <= j < specs.len() && (spec_index(specs, name) < 0 || j < spec_index(specs, name)) implies
            !same_ignoring_ascii_case(#[trigger] specs[j].name@, name) by {
            if j > 0 {
                assert(specs[j] == specs.drop_first()[j - 1]);
            }
        }
        if spec_index(specs, name) >= 0 {
            assert(specs[spec_index(specs, name)] == specs.drop_first()[spec_index(specs, name) - 1]);
        }
    }
}

/// The spec projecting a component type, among the ones reachable there.
pub fn spec_of<'s>(specs: &'s Vec<Spec>, name: &[char]) -> (r: Option<&'s Spec>)
    ensures
        match r {
            Some(s) => 0 <= spec_index(specs@, name@) && *s == specs@[spec_index(specs@, name@)],
            None => spec_index(specs@, name@) < 0,
        },
{
    proof {
        lemma_spec_index_bounds(specs@, name@);
    }
    let mut i: usize = 0;
    while i < specs.len()
        invariant
            i <= specs.len(),
            -1 <= spec_index(specs@, name@) < specs@.len(),
            forall|j: int|
                0 <= j < specs@.len() && (spec_index(specs@, name@) < 0 || j < spec_index(specs@, name@))
                    ==> !same_ignoring_ascii_case(#[trigger] specs@[j].name@, name@),
            spec_index(specs@, name@) >= 0 ==> same_ignoring_ascii_case(
                specs@[spec_index(specs@, name@)].name@,
                name@,
            ),
            spec_index(specs@, name@) < 0 || i <= spec_index(specs@, name@),
        decreases specs.len() - i,
    {
        if eq_ignore_ascii_case(&chars_of(specs[i].name), name) {
            return Some(&specs[i]);
        }
        i = i + 1;
    }
    None
}

/// The index of the first field of that property name, matched without
/// regard to ASCII case, or -1.
pub open spec fn field_index(fields: Seq<Field>, name: Seq<char>) -> int
    decreases fields.len(),
{
    if fields.len() == 0 {
        -1
    } else if same_ignoring_ascii_case(fields[0].name@, name) {
        0
    } else {
        let rest = field_index(fields.drop_first(), name);
        if rest < 0 {
            -1
        } else {
            rest + 1
        }
    }
}

pub proof fn lemma_field_index_bounds(fields: Seq<Field>, name: Seq<char>)
    ensures
        -1 <= field_index(fields, name) < fields.len(),
        forall|j: int| 0 <= j < fields.len() && (field_index(fields, name) < 0 || j < field_index(fields, name))
            ==> !same_ignoring_ascii_case(#[trigger] fields[j].name@, name),
        field_index(fields, name) >= 0 ==> same_ignoring_ascii_case(fields[field_index(fields, name)].name@, name),
    decreases fields.len(),
{
    if fields.len() > 0 && !same_ignoring_ascii_case(fields[0].name@, name) {
        lemma_field_index_bounds(fields.drop_first(), name);
        assert forall|j: int|
            0 <= j < fields.len() && (field_index(fields, name) < 0 || j < field_index(fields, name)) implies
            !same_ignoring_ascii_case(#[trigger] fields[j].name@, name) by {
            if j > 0 {
                assert(fields[j] == fields.drop_first()[j - 1]);
            }
        }
        if field_index(fields, name) >= 0 {
            assert(fields[field_index(fields, name)] == fields.drop_first()[field_index(fields, name) - 1]);
        }
    }
}

/// The field projecting a property name, among a spec's own.
pub fn field_of(spec: &Spec, name: &[char]) -> (r: Option<Field>)
    ensures
        match r {
            Some(f) => 0 <= field_index(spec.fields@, name@) && f == spec.fields@[field_index(
                spec.fields@,
                name@,
            )],
            None => field_index(spec.fields@, name@) < 0,
        },
{
    let fields = &spec.fields;
    proof {
        lemma_field_index_bounds(fields@, name@);
    }
    let mut i: usize = 0;
    while i < fields.len()
        invariant
            i <= fields.len(),
            fields@ == spec.fields@,
            -1 <= field_index(fields@, name@) < fields@.len(),
            forall|j: int|
                0 <= j < fields@.len() && (field_index(fields@, name@) < 0 || j < field_index(fields@, name@))
                    ==> !same_ignoring_ascii_case(#[trigger] fields@[j].name@, name@),
            field_index(fields@, name@) >= 0 ==> same_ignoring_ascii_case(
                fields@[field_index(fields@, name@)].name@,
                name@,
            ),
            field_index(fields@, name@) < 0 || i <= field_index(fields@, name@),
        decreases fields.len() - i,
    {
        let field = fields[i];
        if eq_ignore_ascii_case(&chars_of(field.name), name) {
            proof {
                assert(field == fields@[i as int]);
                assert(same_ignoring_ascii_case(fields@[i as int].name@, name@));
            }
            return Some(field);
        }
        i = i + 1;
    }
    None
}


/// The text of a component's first property of that name.
pub open spec fn spec_text_of(c: NodeView, name: Seq<char>) -> Option<Seq<char>> {
    let lines = named_lines(view_items(c), ascii_upper(name));
    if lines.len() > 0 {
        Some(line_text(lines[0]))
    } else {
        None
    }
}

fn text_of(c: &Component, name: &str) -> (r: Option<Vec<char>>)
    ensures
        opt_chars_of(r) == spec_text_of(component_view(*c), name@),
{
    let lines = c.lines_named(&to_ascii_upper(&chars_of(name)));
    if lines.len() > 0 {
        proof {
            assert(views_of(lines@)[0] == lines@[0]@);
        }
        Some(text(&lines[0]))
    } else {
        None
    }
}

/// The `UID` a merge step's key names: the key up to its first `/`.
pub open spec fn key_uid(key: Seq<char>) -> Seq<char> {
    if index_of_char(key, '/') >= 0 {
        key.take(index_of_char(key, '/'))
    } else {
        key
    }
}

/// Whether a merge step's key names an overriding instance, `UID/instance`.
pub open spec fn key_instance(key: Seq<char>) -> bool {
    index_of_char(key, '/') >= 0
}

/// Whether a component is the one a key names by identity: its `UID`
/// matches, and it overrides an instance exactly where the key says so.
pub open spec fn picks(c: NodeView, key: Seq<char>) -> bool {
    &&& spec_text_of(c, "UID"@) == Some(key_uid(key))
    &&& (spec_text_of(c, "RECURRENCE-ID"@) is Some) == key_instance(key)
}

/// The first sibling a key names by identity, or -1.
pub open spec fn first_pick(sibs: Seq<NodeView>, key: Seq<char>) -> int
    decreases sibs.len(),
{
    if sibs.len() == 0 {
        -1
    } else if picks(sibs[0], key) {
        0
    } else {
        let rest = first_pick(sibs.drop_first(), key);
        if rest < 0 {
            -1
        } else {
            rest + 1
        }
    }
}

pub proof fn lemma_first_pick_bounds(sibs: Seq<NodeView>, key: Seq<char>)
    ensures
        -1 <= first_pick(sibs, key) < sibs.len(),
        forall|j: int| 0 <= j < sibs.len() && (first_pick(sibs, key) < 0 || j < first_pick(sibs, key))
            ==> !picks(#[trigger] sibs[j], key),
        first_pick(sibs, key) >= 0 ==> picks(sibs[first_pick(sibs, key)], key),
    decreases sibs.len(),
{
    if sibs.len() > 0 && !picks(sibs[0], key) {
        lemma_first_pick_bounds(sibs.drop_first(), key);
        assert forall|j: int|
            0 <= j < sibs.len() && (first_pick(sibs, key) < 0 || j < first_pick(sibs, key)) implies !picks(
            #[trigger] sibs[j],
            key,
        ) by {
            if j > 0 {
                assert(sibs[j] == sibs.drop_first()[j - 1]);
            }
        }
        if first_pick(sibs, key) >= 0 {
            assert(sibs[first_pick(sibs, key)] == sibs.drop_first()[first_pick(sibs, key) - 1]);
        }
    }
}

/// The sibling a merge step names: the first whose `UID` matches and which
/// overrides an instance exactly where the key does, else the position the
/// key carries for a component with no `UID` at all.
pub open spec fn spec_pick(sibs: Seq<NodeView>, key: Seq<char>) -> Option<int> {
    if first_pick(sibs, key) >= 0 {
        Some(first_pick(sibs, key))
    } else {
        match spec_parse_unsigned(key, usize::MAX as nat) {
            Some(n) => if n < sibs.len() {
                Some(n as int)
            } else {
                None
            },
            None => None,
        }
    }
}

/// The sibling a merge step names, with its position.
pub fn pick<'i>(siblings: &Vec<&'i Component>, key: &str) -> (r: Option<(usize, &'i Component)>)
    ensures
        match r {
            Some((i, c)) => spec_pick(refs_view(siblings@), key@) == Some(i as int) && i < siblings@.len()
                && *c == *siblings@[i as int],
            None => spec_pick(refs_view(siblings@), key@) is None,
        },
{
    let ghost sibs = refs_view(siblings@);
    let k = chars_of(key);
    proof {
        lemma_index_of_char_bounds(k@, '/');
        lemma_first_pick_bounds(sibs, key@);
    }
    let (uid, instance) = match find_char(&k, '/') {
        Some(at) => (slice_chars(&k, 0, at), true),
        None => (slice_chars(&k, 0, k.len()), false),
    };
    proof {
        assert(uid@ =~= key_uid(key@));
    }
    let mut i: usize = 0;
    while i < siblings.len()
        invariant
            i <= siblings.len(),
            sibs == refs_view(siblings@),
            uid@ == key_uid(key@),
            instance == key_instance(key@),
            -1 <= first_pick(sibs, key@) < sibs.len(),
            forall|j: int| 0 <= j < sibs.len() && (first_pick(sibs, key@) < 0 || j < first_pick(sibs, key@))
                ==> !picks(#[trigger] sibs[j], key@),
            first_pick(sibs, key@) >= 0 ==> picks(sibs[first_pick(sibs, key@)], key@),
            first_pick(sibs, key@) < 0 || i <= first_pick(sibs, key@),
        decreases siblings.len() - i,
    {
        let c = siblings[i];
        let found = text_of(c, "UID");
        let instance_of = text_of(c, "RECURRENCE-ID");
        let same = match &found {
            Some(u) => chars_eq(u, &uid),
            None => false,
        };
        proof {
            assert(sibs[i as int] == component_view(*c));
        }
        if same && instance_of.is_some() == instance {
            proof {
                assert(picks(sibs[i as int], key@));
            }
            return Some((i, c));
        }
        proof {
            assert(!picks(sibs[i as int], key@));
        }
        i = i + 1;
    }
    match parse_unsigned(&k, usize::MAX as u64) {
        Some(n) => {
            if n < siblings.len() as u64 {
                let at = n as usize;
                Some((at, siblings[at]))
            } else {
                None
            }
        },
        None => None,
    }
}


/// A block's address as plain values: each step's key and index.
pub open spec fn address_view(address: Seq<(&'static str, usize)>) -> Seq<(Seq<char>, int)> {
    address.map_values(|step: (&'static str, usize)| (step.0@, step.1 as int))
}

/// A component found in a calendar: the component, the spec that projects
/// it, and the address of the block it projects to.
pub type Found = (NodeView, Spec, Seq<(Seq<char>, int)>);

/// Going down the steps of a path from `k` on, from a found component.
pub open spec fn locate_steps(found: Option<Found>, path: Seq<(Seq<char>, Seq<char>)>, k: int) -> Option<Found>
    decreases path.len() - k,
{
    match found {
        None => None,
        Some((c, spec, address)) => if k < 0 || k >= path.len() {
            found
        } else {
            let si = spec_index(spec.children@, path[k].0);
            if si < 0 {
                None
            } else {
                let child = spec.children@[si];
                let sibs = child_views(view_items(c), child.name@);
                match spec_pick(sibs, path[k].1) {
                    None => None,
                    Some(i) => locate_steps(Some((sibs[i], child, address.push((child.key@, i)))), path, k + 1),
                }
            }
        },
    }
}

/// The component a merge path names in a calendar, with the spec that
/// projects it and the address of its block. A bare component stream has
/// no `VCALENDAR` to address from, so its lone component is the first block
/// and a path addresses what nests in it.
pub open spec fn spec_locate(cal: Seq<NodeView>, top: Seq<Spec>, path: Seq<(Seq<char>, Seq<char>)>) -> Option<
    Found,
> {
    match spec_read(cal) {
        None => None,
        Some(root) => if is_child(root, "VCALENDAR"@) {
            if path.len() == 0 {
                None
            } else {
                let si = spec_index(top, path[0].0);
                if si < 0 {
                    None
                } else {
                    let spec = top[si];
                    let sibs = child_views(spec_top_level(cal), spec.name@);
                    match spec_pick(sibs, path[0].1) {
                        None => None,
                        Some(i) => locate_steps(Some((sibs[i], spec, seq![(spec.key@, i)])), path, 1),
                    }
                }
            }
        } else {
            let si = spec_index(top, view_name(root));
            if si < 0 {
                None
            } else {
                locate_steps(Some((root, top[si], seq![(top[si].key@, 0int)])), path, 0)
            }
        },
    }
}

/// The type of a component view.
pub open spec fn view_name(c: NodeView) -> Seq<char> {
    match c {
        NodeView::Component { name, .. } => name,
        _ => Seq::empty(),
    }
}

/// A component found in one calendar.
pub struct Located<'i, 's> {
    /// The component.
    pub component: &'i Component,
    /// The spec that projects it.
    pub spec: &'s Spec,
    /// The address of its block, one step per array of tables.
    pub address: Vec<(&'static str, usize)>,
}

impl Located<'_, '_> {
    pub open spec fn view(&self) -> Found {
        (component_view(*self.component), *self.spec, address_view(self.address@))
    }
}

/// The views of some optional found components.
pub open spec fn located_view(r: Option<Located>) -> Option<Found> {
    match r {
        Some(l) => Some(l.view()),
        None => None,
    }
}

/// Find the component a merge path names in one calendar.
pub fn locate<'i, 's>(cal: &'i TcalCalendar, top: &'s Vec<Spec>, path: &ComponentPath) -> (r: Option<
    Located<'i, 's>,
>)
    ensures
        located_view(r) == spec_locate(cal.view(), top@, path.view()),
{
    let ghost target = spec_locate(cal.view(), top@, path.view());
    let ghost pv = path.view();
    let root = match cal.read() {
        Some(root) => root,
        None => return None,
    };
    let steps = &path.0;
    let mut k: usize;
    let mut found: Located<'i, 's>;
    if chars_eq(&root.name, &chars_of("VCALENDAR")) {
        if steps.len() == 0 {
            return None;
        }
        proof {
            assert(pv[0] == step_view(steps@[0]));
        }
        let spec = match spec_of(top, &chars_of(steps[0].name.as_str())) {
            Some(spec) => spec,
            None => return None,
        };
        let tops = cal.top_level();
        let siblings = named_among(&tops, &chars_of(spec.name));
        let (index, component) = match pick(&siblings, steps[0].key.as_str()) {
            Some(p) => p,
            None => return None,
        };
        let address = vec![(spec.key, index)];
        proof {
            assert(address_view(address@) =~= seq![(spec.key@, index as int)]);
        }
        found = Located { component, spec, address };
        k = 1;
    } else {
        let spec = match spec_of(top, &root.name) {
            Some(spec) => spec,
            None => return None,
        };
        let address = vec![(spec.key, 0usize)];
        proof {
            assert(address_view(address@) =~= seq![(spec.key@, 0int)]);
        }
        found = Located { component: root, spec, address };
        k = 0;
    }
    while k < steps.len()
        invariant
            k <= steps.len(),
            steps@ == path.0@,
            pv == path.view(),
            pv.len() == steps@.len(),
            locate_steps(Some(found.view()), pv, k as int) == target,
            target == spec_locate(cal.view(), top@, path.view()),
        decreases steps.len() - k,
    {
        proof {
            assert(pv[k as int] == step_view(steps@[k as int]));
        }
        let child = match spec_of(&found.spec.children, &chars_of(steps[k].name.as_str())) {
            Some(child) => child,
            None => return None,
        };
        let siblings = crate::ical::children_of(&found.component.items, &chars_of(child.name));
        let (index, component) = match pick(&siblings, steps[k].key.as_str()) {
            Some(p) => p,
            None => return None,
        };
        let ghost before = found.address@;
        let mut address = found.address;
        address.push((child.key, index));
        proof {
            assert(address_view(address@) =~= address_view(before).push((child.key@, index as int)));
        }
        found = Located { component, spec: child, address };
        k = k + 1;
    }
    proof {
        assert(locate_steps(Some(found.view()), pv, k as int) == Some(found.view()));
    }
    Some(found)
}


/// Whether a property's value names the same calendar address as an
/// identity, `mailto:` aside and without regard to ASCII case.
pub open spec fn same_address(line: Seq<char>, identity: Seq<char>) -> bool {
    same_ignoring_ascii_case(spec_strip_mailto(line_text(line)), spec_strip_mailto(identity))
}

/// The first entry naming that address, or -1.
pub open spec fn first_address(entries: Seq<Seq<char>>, identity: Seq<char>) -> int
    decreases entries.len(),
{
    if entries.len() == 0 {
        -1
    } else if same_address(entries[0], identity) {
        0
    } else {
        let rest = first_address(entries.drop_first(), identity);
        if rest < 0 {
            -1
        } else {
            rest + 1
        }
    }
}

pub proof fn lemma_first_address_bounds(entries: Seq<Seq<char>>, identity: Seq<char>)
    ensures
        -1 <= first_address(entries, identity) < entries.len(),
        forall|j: int|
            0 <= j < entries.len() && (first_address(entries, identity) < 0 || j < first_address(entries, identity))
                ==> !same_address(#[trigger] entries[j], identity),
        first_address(entries, identity) >= 0 ==> same_address(entries[first_address(entries, identity)], identity),
    decreases entries.len(),
{
    if entries.len() > 0 && !same_address(entries[0], identity) {
        lemma_first_address_bounds(entries.drop_first(), identity);
        assert forall|j: int|
            0 <= j < entries.len() && (first_address(entries, identity) < 0 || j < first_address(entries, identity))
                implies !same_address(#[trigger] entries[j], identity) by {
            if j > 0 {
                assert(entries[j] == entries.drop_first()[j - 1]);
            }
        }
        if first_address(entries, identity) >= 0 {
            assert(entries[first_address(entries, identity)] == entries.drop_first()[first_address(entries, identity) - 1]);
        }
    }
}

/// Which of the entries a field wrote in one calendar a property path
/// names. A position is counted in the side the action was read from; an
/// identity, the calendar address of an attendee, names the same property
/// in every calendar.
pub open spec fn spec_index_of(entries: Seq<Seq<char>>, at: PropPath) -> Option<int> {
    match at.identity {
        None => if at.index < entries.len() {
            Some(at.index as int)
        } else {
            None
        },
        Some(id) => if first_address(entries, id@) >= 0 {
            Some(first_address(entries, id@))
        } else {
            None
        },
    }
}

fn index_of(entries: &Vec<Vec<char>>, at: &PropPath) -> (r: Option<usize>)
    ensures
        match r {
            Some(i) => spec_index_of(views_of(entries@), *at) == Some(i as int) && i < entries@.len(),
            None => spec_index_of(views_of(entries@), *at) is None,
        },
{
    let ghost ev = views_of(entries@);
    match &at.identity {
        None => {
            if at.index < entries.len() {
                Some(at.index)
            } else {
                None
            }
        },
        Some(id) => {
            let wanted = strip_mailto_chars(&chars_of(id.as_str()));
            proof {
                lemma_first_address_bounds(ev, id@);
            }
            let mut i: usize = 0;
            while i < entries.len()
                invariant
                    i <= entries.len(),
                    ev == views_of(entries@),
                    ev.len() == entries@.len(),
                    at.identity == Some(*id),
                    wanted@ == spec_strip_mailto(id@),
                    -1 <= first_address(ev, id@) < ev.len(),
                    forall|j: int|
                        0 <= j < ev.len() && (first_address(ev, id@) < 0 || j < first_address(ev, id@))
                            ==> !same_address(#[trigger] ev[j], id@),
                    first_address(ev, id@) >= 0 ==> same_address(ev[first_address(ev, id@)], id@),
                    first_address(ev, id@) < 0 || i <= first_address(ev, id@),
                decreases entries.len() - i,
            {
                proof {
                    assert(ev[i as int] == entries@[i as int]@);
                }
                let held = strip_mailto_chars(&text(&entries[i]));
                if eq_ignore_ascii_case(&held, &wanted) {
                    proof {
                        assert(same_address(ev[i as int], id@));
                    }
                    return Some(i);
                }
                i = i + 1;
            }
            None
        },
    }
}

/// The left sides of some projected lines.
pub open spec fn lhs_of(lines: Seq<(Seq<char>, Option<Seq<char>>)>) -> Seq<Seq<char>> {
    lines.map_values(|line: (Seq<char>, Option<Seq<char>>)| line.0)
}

/// The component of a found one, if any.
pub open spec fn found_component(found: Option<Found>) -> Option<NodeView> {
    match found {
        Some(f) => Some(f.0),
        None => None,
    }
}

/// How one side spells a field of the component a path names: its empty
/// value where the side carries neither the property nor the component.
pub open spec fn spec_field_side(cal: Seq<NodeView>, top: Seq<Spec>, at: PropPath, field: Field) -> Seq<Seq<char>> {
    lhs_of(
        spec_field_lines(field, entries_for(found_component(spec_locate(cal, top, at.component.view())), field)),
    )
}

/// How one side spells the attendee a path names, as the keys of its table.
pub open spec fn spec_attendee_side(cal: Seq<NodeView>, top: Seq<Spec>, at: PropPath, field: Field) -> Seq<
    Seq<char>,
> {
    let entries = entries_for(found_component(spec_locate(cal, top, at.component.view())), field);
    lhs_of(
        spec_attendee_keys(
            match spec_index_of(entries, at) {
                Some(i) => Some(entries[i]),
                None => None,
            },
        ),
    )
}

fn lhs_strings(lines: &Vec<Line>) -> (out: Vec<String>)
    ensures
        texts_view(out@) == lhs_of(lines_view(lines@)),
{
    let mut out: Vec<String> = Vec::new();
    let mut i: usize = 0;
    while i < lines.len()
        invariant
            i <= lines.len(),
            texts_view(out@) == lhs_of(lines_view(lines@)).take(i as int),
        decreases lines.len() - i,
    {
        let ghost prev = out@;
        out.push(string_of(&chars_of(lines[i].lhs.as_str())));
        proof {
            assert(texts_view(out@) =~= texts_view(prev).push(lines@[i as int].lhs@));
            assert(lhs_of(lines_view(lines@)).take(i + 1) =~= lhs_of(lines_view(lines@)).take(i as int).push(
                lines@[i as int].lhs@,
            ));
        }
        i = i + 1;
    }
    proof {
        assert(lhs_of(lines_view(lines@)).take(i as int) =~= lhs_of(lines_view(lines@)));
    }
    out
}

/// The component a located one found, if any.
fn component_at<'i>(cal: &'i TcalCalendar, top: &Vec<Spec>, path: &ComponentPath) -> (r: Option<&'i Component>)
    ensures
        match r {
            Some(c) => found_component(spec_locate(cal.view(), top@, path.view())) == Some(component_view(*c)),
            None => found_component(spec_locate(cal.view(), top@, path.view())) is None,
        },
{
    match locate(cal, top, path) {
        Some(found) => Some(found.component),
        None => None,
    }
}

/// How one side spells a field of the component a path names.
fn field_lines(cal: &TcalCalendar, top: &Vec<Spec>, at: &PropPath, field: &Field) -> (out: Vec<String>)
    requires
        field.kind.simple(),
    ensures
        texts_view(out@) == spec_field_side(cal.view(), top@, *at, *field),
{
    let component = component_at(cal, top, &at.component);
    let entries = entries_of(component, field);
    proof {
        assert(opt_view(component) == found_component(spec_locate(cal.view(), top@, at.component.view())));
    }
    lhs_strings(&field.lines(&entries))
}

/// How one side spells the attendee a path names.
fn attendee_lines(cal: &TcalCalendar, top: &Vec<Spec>, at: &PropPath, field: &Field) -> (out: Vec<String>)
    ensures
        texts_view(out@) == spec_attendee_side(cal.view(), top@, *at, *field),
{
    let component = component_at(cal, top, &at.component);
    let entries = entries_of(component, field);
    proof {
        assert(opt_view(component) == found_component(spec_locate(cal.view(), top@, at.component.view())));
    }
    let lines = match index_of(&entries, at) {
        Some(i) => {
            proof {
                assert(views_of(entries@)[i as int] == entries@[i as int]@);
            }
            attendee_keys(Some(&entries[i]))
        },
        None => attendee_keys(None),
    };
    lhs_strings(&lines)
}


/// The texts the steps of a block's address are named by: the key and the
/// block's position, counted from one.
pub open spec fn address_texts(address: Seq<(Seq<char>, int)>) -> Seq<Seq<char>> {
    address.map_values(|step: (Seq<char>, int)| step.0 + " "@ + digits((step.1 + 1) as nat))
}

/// The texts the steps of a path are named by: the type and the key.
pub open spec fn path_texts(path: Seq<(Seq<char>, Seq<char>)>) -> Seq<Seq<char>> {
    path.map_values(|step: (Seq<char>, Seq<char>)| step.0 + " "@ + step.1)
}

/// How a comment names what an action landed on: the block the projection
/// writes it in and the key it writes it as, falling back to the iCalendar
/// names where the projection models neither.
pub open spec fn spec_name(merged: Seq<NodeView>, top: Seq<Spec>, action: MergeAction) -> Seq<char> {
    let path = spec_path_of(action).view();
    let found = spec_locate(merged, top, path);
    let place = match found {
        Some(f) => join_with(address_texts(f.2), " / "@),
        None => join_with(path_texts(path), " / "@),
    };
    match spec_prop_of(action) {
        None => place,
        Some(at) => place + " / "@ + match found {
            Some(f) => if field_index(f.1.fields@, at.name@) >= 0 {
                f.1.fields@[field_index(f.1.fields@, at.name@)].key@
            } else {
                at.name@
            },
            None => at.name@,
        },
    }
}

fn address_parts(address: &Vec<(&'static str, usize)>) -> (out: Vec<Vec<char>>)
    ensures
        views_of(out@) == address_texts(address_view(address@)),
{
    let mut out: Vec<Vec<char>> = Vec::new();
    let mut i: usize = 0;
    while i < address.len()
        invariant
            i <= address.len(),
            views_of(out@) == address_texts(address_view(address@)).take(i as int),
        decreases address.len() - i,
    {
        let (key, index) = address[i];
        let mut part = chars_of(key);
        push_all(&mut part, &chars_of(" "));
        push_all(&mut part, &digits_of(index as u128 + 1));
        let ghost prev = out@;
        proof {
            assert(address_view(address@)[i as int] == (key@, index as int));
        }
        out.push(part);
        proof {
            assert(views_of(out@) =~= views_of(prev).push(part@));
            assert(address_texts(address_view(address@)).take(i + 1) =~= address_texts(
                address_view(address@),
            ).take(i as int).push(part@));
        }
        i = i + 1;
    }
    proof {
        assert(address_texts(address_view(address@)).take(i as int) =~= address_texts(address_view(address@)));
    }
    out
}

fn path_parts(path: &ComponentPath) -> (out: Vec<Vec<char>>)
    ensures
        views_of(out@) == path_texts(path.view()),
{
    let steps = &path.0;
    let mut out: Vec<Vec<char>> = Vec::new();
    let mut i: usize = 0;
    while i < steps.len()
        invariant
            i <= steps.len(),
            steps@ == path.0@,
            views_of(out@) == path_texts(path.view()).take(i as int),
        decreases steps.len() - i,
    {
        let mut part = chars_of(steps[i].name.as_str());
        push_all(&mut part, &chars_of(" "));
        push_all(&mut part, &chars_of(steps[i].key.as_str()));
        let ghost prev = out@;
        proof {
            assert(path.view()[i as int] == step_view(steps@[i as int]));
        }
        out.push(part);
        proof {
            assert(views_of(out@) =~= views_of(prev).push(part@));
            assert(path_texts(path.view()).take(i + 1) =~= path_texts(path.view()).take(i as int).push(part@));
        }
        i = i + 1;
    }
    proof {
        assert(path_texts(path.view()).take(i as int) =~= path_texts(path.view()));
    }
    out
}

/// The comment for a collision the document cannot put to a reader: the
/// merge settled it by keeping the local side's value.
pub open spec fn spec_kept(merged: Seq<NodeView>, top: Seq<Spec>, local: MergeAction) -> Seq<char> {
    spec_name(merged, top, local) + ": changed on both sides, and the local value was kept."@
}

/// The comment for a collision where at least one side took something
/// away, which the merge settles on its own by keeping the data.
pub open spec fn spec_dropped(merged: Seq<NodeView>, top: Seq<Spec>, local: MergeAction, remote: MergeAction) -> Seq<
    char,
> {
    let name = spec_name(merged, top, local);
    let gone = if spec_is_removal(local) {
        "local"@
    } else {
        "remote"@
    };
    let kept = if spec_is_removal(local) {
        "remote"@
    } else {
        "local"@
    };
    if spec_is_removal(local) && spec_is_removal(remote) {
        name + ": removed on both sides."@
    } else if local is ComponentRemoved || remote is ComponentRemoved {
        let outcome = if spec_locate(merged, top, spec_path_of(local).view()) is Some {
            "was kept"@
        } else {
            "is gone"@
        };
        name + ": removed on "@ + gone + " and changed on "@ + kept + ", and it "@ + outcome + "."@
    } else {
        name + ": removed on "@ + gone + " and updated on "@ + kept + ", and the update was kept."@
    }
}

/// The comment for a collision between a series and one of its instances.
pub open spec fn spec_recurrence_note(merged: Seq<NodeView>, top: Seq<Spec>, local: MergeAction, remote: MergeAction) -> Seq<
    char,
> {
    spec_name(merged, top, local) + " changed on local and "@ + spec_name(merged, top, remote)
        + " on remote: one is a series and the other one of its instances, and both were kept, so the rule may have moved the ground the instance stood on."@
}

/// The three calendars a merge read, plus the one it produced, each read
/// the way the projection reads them.
pub struct Sides {
    /// The merged calendar, the one the document projects.
    pub merged: TcalCalendar,
    /// The common ancestor, whose value a choice comments above the others.
    pub base: TcalCalendar,
    /// The edited side.
    pub local: TcalCalendar,
    /// The other side.
    pub remote: TcalCalendar,
}

impl Sides {
    fn name(&self, top: &Vec<Spec>, action: &MergeAction) -> (out: Vec<char>)
        ensures
            out@ == spec_name(self.merged.view(), top@, *action),
    {
        let path = path_of(action);
        let found = locate(&self.merged, top, path);
        let parts = match &found {
            Some(f) => address_parts(&f.address),
            None => path_parts(path),
        };
        let mut place = join_chars(&parts, " / ");
        match prop_of(action) {
            None => place,
            Some(at) => {
                let key = match &found {
                    Some(f) => match field_of(f.spec, &chars_of(at.name.as_str())) {
                        Some(field) => chars_of(field.key),
                        None => chars_of(at.name.as_str()),
                    },
                    None => chars_of(at.name.as_str()),
                };
                push_all(&mut place, &chars_of(" / "));
                push_all(&mut place, &key);
                place
            },
        }
    }

    fn kept(&self, top: &Vec<Spec>, local: &MergeAction) -> (out: Vec<char>)
        ensures
            out@ == spec_kept(self.merged.view(), top@, *local),
    {
        let mut out = self.name(top, local);
        push_all(&mut out, &chars_of(": changed on both sides, and the local value was kept."));
        out
    }

    fn dropped(&self, top: &Vec<Spec>, local: &MergeAction, remote: &MergeAction) -> (out: Vec<char>)
        ensures
            out@ == spec_dropped(self.merged.view(), top@, *local, *remote),
    {
        let mut out = self.name(top, local);
        let (gone, kept) = if is_removal(local) {
            ("local", "remote")
        } else {
            ("remote", "local")
        };
        if is_removal(local) && is_removal(remote) {
            push_all(&mut out, &chars_of(": removed on both sides."));
            return out;
        }
        let component_gone = match local {
            MergeAction::ComponentRemoved { .. } => true,
            _ => match remote {
                MergeAction::ComponentRemoved { .. } => true,
                _ => false,
            },
        };
        push_all(&mut out, &chars_of(": removed on "));
        push_all(&mut out, &chars_of(gone));
        if component_gone {
            let held = locate(&self.merged, top, path_of(local)).is_some();
            let outcome = if held {
                "was kept"
            } else {
                "is gone"
            };
            push_all(&mut out, &chars_of(" and changed on "));
            push_all(&mut out, &chars_of(kept));
            push_all(&mut out, &chars_of(", and it "));
            push_all(&mut out, &chars_of(outcome));
            push_all(&mut out, &chars_of("."));
        } else {
            push_all(&mut out, &chars_of(" and updated on "));
            push_all(&mut out, &chars_of(kept));
            push_all(&mut out, &chars_of(", and the update was kept."));
        }
        out
    }
}


/// A choice as plain values: its address, its key, the note it falls back
/// to, and each side's lines.
pub type ChoiceView = (
    Seq<(Seq<char>, int)>,
    Option<Seq<char>>,
    Seq<char>,
    Seq<Seq<char>>,
    Seq<Seq<char>>,
    Seq<Seq<char>>,
);

pub open spec fn key_view(key: Option<&'static str>) -> Option<Seq<char>> {
    match key {
        Some(k) => Some(k@),
        None => None,
    }
}

pub open spec fn choice_view(c: Choice) -> ChoiceView {
    (address_view(c.at@), key_view(c.key), c.kept@, texts_view(c.base@), texts_view(c.local@), texts_view(c.remote@))
}

/// The choice a collision offers: one only where it lands on a property the
/// projection writes as a key of its own, and where the two sides spell
/// that key differently. An attendee is contested inside the one table it
/// was written as.
pub open spec fn spec_choice(
    merged: Seq<NodeView>,
    base: Seq<NodeView>,
    local: Seq<NodeView>,
    remote: Seq<NodeView>,
    top: Seq<Spec>,
    action: MergeAction,
) -> Option<ChoiceView> {
    match spec_prop_of(action) {
        None => None,
        Some(at) => match spec_locate(merged, top, at.component.view()) {
            None => None,
            Some(f) => {
                let fi = field_index(f.1.fields@, at.name@);
                if fi < 0 {
                    None
                } else {
                    let field = f.1.fields@[fi];
                    let kept = spec_kept(merged, top, action);
                    let made: Option<ChoiceView> = if field.kind is Attendee {
                        match spec_index_of(entries_for(Some(f.0), field), at) {
                            None => None,
                            Some(index) => Some(
                                (
                                    f.2.push((field.key@, index)),
                                    None,
                                    kept,
                                    spec_attendee_side(base, top, at, field),
                                    spec_attendee_side(local, top, at, field),
                                    spec_attendee_side(remote, top, at, field),
                                ),
                            ),
                        }
                    } else {
                        Some(
                            (
                                f.2,
                                Some(field.key@),
                                kept,
                                spec_field_side(base, top, at, field),
                                spec_field_side(local, top, at, field),
                                spec_field_side(remote, top, at, field),
                            ),
                        )
                    };
                    match made {
                        None => None,
                        Some(c) => if differing(distinct_keys(c.4 + c.5), c.4, c.5).len() == 0 {
                            None
                        } else {
                            Some(c)
                        },
                    }
                }
            },
        },
    }
}

/// What one conflict becomes in the document, as plain values.
pub enum ReadingView {
    Note(Seq<char>),
    Choice(ChoiceView),
}

/// What one conflict becomes in the document.
pub enum Reading {
    /// A comment in the document header, for what the merge settled.
    Note(String),
    /// A contested key, for what only a reader can settle.
    Choice(Choice),
}

pub open spec fn reading_view(r: Reading) -> ReadingView {
    match r {
        Reading::Note(n) => ReadingView::Note(n@),
        Reading::Choice(c) => ReadingView::Choice(choice_view(c)),
    }
}

impl Sides {
    /// What a conflict becomes, read against the four calendars: a note
    /// where the merge already decided, a choice where both sides wrote a
    /// value and only a reader can pick. The reason carries the local side's
    /// change; `right` is the remote side's.
    pub open spec fn spec_reading(&self, top: Seq<Spec>, reason: MergeReason, right: MergeAction) -> ReadingView {
        let merged = self.merged.view();
        match reason {
            MergeReason::Recurrence(local) => ReadingView::Note(spec_recurrence_note(merged, top, local, right)),
            MergeReason::Divergent(local) => if spec_is_removal(local) || spec_is_removal(right) {
                ReadingView::Note(spec_dropped(merged, top, local, right))
            } else {
                match spec_choice(merged, self.base.view(), self.local.view(), self.remote.view(), top, local) {
                    Some(c) => ReadingView::Choice(c),
                    None => ReadingView::Note(spec_kept(merged, top, local)),
                }
            },
        }
    }

    fn choice(&self, top: &Vec<Spec>, local: &MergeAction) -> (r: Option<Choice>)
        ensures
            match r {
                Some(c) => spec_choice(
                    self.merged.view(),
                    self.base.view(),
                    self.local.view(),
                    self.remote.view(),
                    top@,
                    *local,
                ) == Some(choice_view(c)),
                None => spec_choice(
                    self.merged.view(),
                    self.base.view(),
                    self.local.view(),
                    self.remote.view(),
                    top@,
                    *local,
                ) is None,
            },
    {
        let at = match prop_of(local) {
            Some(at) => at,
            None => return None,
        };
        let found = match locate(&self.merged, top, &at.component) {
            Some(found) => found,
            None => return None,
        };
        let field = match field_of(found.spec, &chars_of(at.name.as_str())) {
            Some(field) => field,
            None => return None,
        };
        let kept = string_of(&self.kept(top, local));
        let choice = match field.kind {
            Kind::Attendee => {
                let entries = entries_of(Some(found.component), &field);
                proof {
                    assert(opt_view(Some(found.component)) == Some(found.view().0));
                }
                let index = match index_of(&entries, at) {
                    Some(index) => index,
                    None => return None,
                };
                let ghost before = found.address@;
                let mut address = found.address;
                address.push((field.key, index));
                proof {
                    assert(address_view(address@) =~= address_view(before).push((field.key@, index as int)));
                }
                Choice {
                    at: address,
                    key: None,
                    kept,
                    base: attendee_lines(&self.base, top, at, &field),
                    local: attendee_lines(&self.local, top, at, &field),
                    remote: attendee_lines(&self.remote, top, at, &field),
                }
            },
            _ => Choice {
                at: found.address,
                key: Some(field.key),
                kept,
                base: field_lines(&self.base, top, at, &field),
                local: field_lines(&self.local, top, at, &field),
                remote: field_lines(&self.remote, top, at, &field),
            },
        };
        if choice.contested().len() == 0 {
            return None;
        }
        Some(choice)
    }

    pub(crate) fn read_with(&self, top: &Vec<Spec>, reason: &MergeReason, right: &MergeAction) -> (r: Reading)
        ensures
            reading_view(r) == self.spec_reading(top@, *reason, *right),
    {
        match reason {
            MergeReason::Recurrence(local) => {
                let mut out = self.name(top, local);
                push_all(&mut out, &chars_of(" changed on local and "));
                push_all(&mut out, &self.name(top, right));
                push_all(
                    &mut out,
                    &chars_of(
                        " on remote: one is a series and the other one of its instances, and both were kept, so the rule may have moved the ground the instance stood on.",
                    ),
                );
                Reading::Note(string_of(&out))
            },
            MergeReason::Divergent(local) => {
                if is_removal(local) || is_removal(right) {
                    return Reading::Note(string_of(&self.dropped(top, local, right)));
                }
                match self.choice(top, local) {
                    Some(choice) => Reading::Choice(choice),
                    None => Reading::Note(string_of(&self.kept(top, local))),
                }
            },
        }
    }

    /// What one conflict becomes in the document: a choice where both sides
    /// wrote a value and only a reader can pick, a comment where the merge
    /// already decided.
    pub fn read(&self, reason: &MergeReason, right: &MergeAction) -> (r: Reading)
        ensures
            exists|top: Seq<Spec>| #[trigger] is_top_level(top) && reading_view(r) == self.spec_reading(
                top,
                *reason,
                *right,
            ),
    {
        let top = top_level();
        self.read_with(&top, reason, right)
    }
}


/// Whether two component paths are the same steps.
fn same_component_path(a: &ComponentPath, b: &ComponentPath) -> (r: bool)
    ensures
        r == (a.view() == b.view()),
{
    if a.0.len() != b.0.len() {
        proof {
            assert(a.view().len() != b.view().len());
        }
        return false;
    }
    let mut i: usize = 0;
    while i < a.0.len()
        invariant
            i <= a.0.len(),
            a.0.len() == b.0.len(),
            forall|j: int| 0 <= j < i ==> #[trigger] a.view()[j] == b.view()[j],
        decreases a.0.len() - i,
    {
        let same = chars_eq(&chars_of(a.0[i].name.as_str()), &chars_of(b.0[i].name.as_str())) && chars_eq(
            &chars_of(a.0[i].key.as_str()),
            &chars_of(b.0[i].key.as_str()),
        );
        proof {
            assert(a.view()[i as int] == step_view(a.0@[i as int]));
            assert(b.view()[i as int] == step_view(b.0@[i as int]));
        }
        if !same {
            proof {
                assert(a.view()[i as int] != b.view()[i as int]);
            }
            return false;
        }
        i = i + 1;
    }
    proof {
        assert(a.view() =~= b.view());
    }
    true
}

/// Whether two property paths name the same property.
fn same_prop_path(a: &PropPath, b: &PropPath) -> (r: bool)
    ensures
        r == (a.view() == b.view()),
{
    if !same_component_path(&a.component, &b.component) {
        return false;
    }
    if !chars_eq(&chars_of(a.name.as_str()), &chars_of(b.name.as_str())) {
        return false;
    }
    if a.index != b.index {
        return false;
    }
    match (&a.identity, &b.identity) {
        (None, None) => true,
        (Some(x), Some(y)) => chars_eq(&chars_of(x.as_str()), &chars_of(y.as_str())),
        _ => false,
    }
}

/// The comment for a list both sides edited: its items merge as a set,
/// which is right for a value RFC 5545 gives no order to, but the merged
/// value is one neither side wrote.
pub open spec fn spec_union_note(merged: Seq<NodeView>, top: Seq<Spec>, action: MergeAction) -> Seq<char> {
    spec_name(merged, top, action) + ": both sides changed its list; the items of both were kept."@
}

/// Whether one of the remote side's actions edited the same list.
pub open spec fn edited_by(remote: Seq<MergeAction>, at: PropPath) -> bool {
    exists|j: int|
        0 <= j < remote.len() && (#[trigger] spec_edited_items(remote[j]) matches Some(o) && o.view() == at.view())
}

/// The notes with one more, unless they already say it.
pub open spec fn with_note(notes: Seq<Seq<char>>, note: Seq<char>) -> Seq<Seq<char>> {
    if notes.contains(note) {
        notes
    } else {
        notes.push(note)
    }
}

/// The notes once every list both sides edited is said, in the order the
/// local side edited them.
pub open spec fn spec_unions(
    notes: Seq<Seq<char>>,
    merged: Seq<NodeView>,
    top: Seq<Spec>,
    local: Seq<MergeAction>,
    remote: Seq<MergeAction>,
) -> Seq<Seq<char>>
    decreases local.len(),
{
    if local.len() == 0 {
        notes
    } else {
        let before = spec_unions(notes, merged, top, local.drop_last(), remote);
        match spec_edited_items(local.last()) {
            Some(at) => if edited_by(remote, at) {
                with_note(before, spec_union_note(merged, top, local.last()))
            } else {
                before
            },
            None => before,
        }
    }
}

/// Add a note unless the notes already say it.
fn push_note(notes: &mut Vec<String>, note: String)
    ensures
        texts_view(final(notes)@) == with_note(texts_view(old(notes)@), note@),
{
    let n = chars_of(note.as_str());
    let mut i: usize = 0;
    while i < notes.len()
        invariant
            i <= notes.len(),
            n@ == note@,
            forall|j: int| 0 <= j < i ==> #[trigger] texts_view(notes@)[j] != note@,
        decreases notes.len() - i,
    {
        proof {
            assert(texts_view(notes@)[i as int] == notes@[i as int]@);
        }
        if chars_eq(&chars_of(notes[i].as_str()), &n) {
            proof {
                assert(texts_view(notes@).contains(note@));
            }
            return;
        }
        i = i + 1;
    }
    proof {
        assert(!texts_view(notes@).contains(note@));
    }
    let ghost prev = notes@;
    notes.push(note);
    proof {
        assert(texts_view(notes@) =~= texts_view(prev).push(note@));
    }
}

impl Sides {
    fn edited_remotely(remote: &Vec<MergeAction>, at: &PropPath) -> (r: bool)
        ensures
            r == edited_by(remote@, *at),
    {
        let mut j: usize = 0;
        while j < remote.len()
            invariant
                j <= remote.len(),
                forall|k: int|
                    0 <= k < j ==> !(#[trigger] spec_edited_items(remote@[k]) matches Some(o) && o.view()
                        == at.view()),
            decreases remote.len() - j,
        {
            match edited_items(&remote[j]) {
                Some(other) => {
                    if same_prop_path(other, at) {
                        proof {
                            assert(spec_edited_items(remote@[j as int]) matches Some(o) && o.view() == at.view());
                        }
                        return true;
                    }
                },
                None => {},
            }
            j = j + 1;
        }
        false
    }

    pub(crate) fn note_unions_with(
        &self,
        top: &Vec<Spec>,
        notes: &mut Vec<String>,
        local: &Vec<MergeAction>,
        remote: &Vec<MergeAction>,
    )
        ensures
            texts_view(final(notes)@) == spec_unions(
                texts_view(old(notes)@),
                self.merged.view(),
                top@,
                local@,
                remote@,
            ),
    {
        let ghost start = texts_view(notes@);
        let mut i: usize = 0;
        proof {
            assert(local@.take(0) =~= Seq::<MergeAction>::empty());
        }
        while i < local.len()
            invariant
                i <= local.len(),
                texts_view(notes@) == spec_unions(start, self.merged.view(), top@, local@.take(i as int), remote@),
                start == texts_view(old(notes)@),
            decreases local.len() - i,
        {
            proof {
                assert(local@.take(i + 1).drop_last() =~= local@.take(i as int));
                assert(local@.take(i + 1).last() == local@[i as int]);
            }
            let action = &local[i];
            match edited_items(action) {
                Some(at) => {
                    if Self::edited_remotely(remote, at) {
                        let mut note = self.name(top, action);
                        push_all(&mut note, &chars_of(": both sides changed its list; the items of both were kept."));
                        push_note(notes, string_of(&note));
                    }
                },
                None => {},
            }
            i = i + 1;
        }
        proof {
            assert(local@.take(i as int) =~= local@);
        }
    }

    /// Say in the header every list both sides edited. Merging its items as
    /// a set is right for a value RFC 5545 gives no order to, so the merge
    /// reports no conflict; but the merged value is one neither side wrote,
    /// and a reader who is not told cannot review it.
    pub fn note_unions(&self, notes: &mut Vec<String>, local: &Vec<MergeAction>, remote: &Vec<MergeAction>)
        ensures
            exists|top: Seq<Spec>| #[trigger] is_top_level(top) && texts_view(final(notes)@) == spec_unions(
                texts_view(old(notes)@),
                self.merged.view(),
                top,
                local@,
                remote@,
            ),
    {
        let top = top_level();
        self.note_unions_with(&top, notes, local, remote);
    }
}


/// Whether a text ends with another.
pub open spec fn ends_with(text: Seq<char>, suffix: Seq<char>) -> bool {
    text.len() >= suffix.len() && text.skip(text.len() - suffix.len()) == suffix
}

proof fn lemma_ends_with(pre: Seq<char>, suffix: Seq<char>)
    ensures
        ends_with(pre + suffix, suffix),
{
    assert((pre + suffix).skip((pre + suffix).len() - suffix.len()) =~= suffix);
}

/// What a conflict reads as follows its reason: a change against an
/// instance of a series is a note saying so; a collision where a side took
/// something away is a note; any other collision is a choice whose sides
/// spell some key differently, or else a note that the local value was
/// kept.
pub proof fn law_read_by_reason(sides: Sides, top: Seq<Spec>, reason: MergeReason, right: MergeAction)
    ensures
        reason is Recurrence ==> (sides.spec_reading(top, reason, right) matches ReadingView::Note(n) && ends_with(
            n,
            " on remote: one is a series and the other one of its instances, and both were kept, so the rule may have moved the ground the instance stood on."@,
        )),
        reason matches MergeReason::Divergent(local) && (spec_is_removal(local) || spec_is_removal(right))
            ==> sides.spec_reading(top, reason, right) is Note,
        reason matches MergeReason::Divergent(local) && !(spec_is_removal(local) || spec_is_removal(right)) ==> (
        match sides.spec_reading(top, reason, right) {
            ReadingView::Choice(c) => differing(distinct_keys(c.4 + c.5), c.4, c.5).len() > 0,
            ReadingView::Note(n) => ends_with(n, ": changed on both sides, and the local value was kept."@),
        }),
{
    let merged = sides.merged.view();
    match reason {
        MergeReason::Recurrence(local) => {
            lemma_ends_with(
                spec_name(merged, top, local) + " changed on local and "@ + spec_name(merged, top, right),
                " on remote: one is a series and the other one of its instances, and both were kept, so the rule may have moved the ground the instance stood on."@,
            );
        },
        MergeReason::Divergent(local) => {
            lemma_ends_with(spec_name(merged, top, local), ": changed on both sides, and the local value was kept."@);
        },
    }
}

/// Saying the lists both sides edited only ever adds to the notes: the
/// notes it was given come first, unchanged.
pub proof fn law_unions_keep_the_notes(
    notes: Seq<Seq<char>>,
    merged: Seq<NodeView>,
    top: Seq<Spec>,
    local: Seq<MergeAction>,
    remote: Seq<MergeAction>,
)
    ensures
        spec_unions(notes, merged, top, local, remote).len() >= notes.len(),
        spec_unions(notes, merged, top, local, remote).take(notes.len() as int) == notes,
    decreases local.len(),
{
    if local.len() > 0 {
        law_unions_keep_the_notes(notes, merged, top, local.drop_last(), remote);
        let before = spec_unions(notes, merged, top, local.drop_last(), remote);
        assert(before.push(spec_union_note(merged, top, local.last())).take(notes.len() as int) =~= before.take(
            notes.len() as int,
        ));
    }
}

/// Where no list the local side edited was edited by the remote side too,
/// the notes are left as they were.
pub proof fn law_no_shared_list_no_note(
    notes: Seq<Seq<char>>,
    merged: Seq<NodeView>,
    top: Seq<Spec>,
    local: Seq<MergeAction>,
    remote: Seq<MergeAction>,
)
    requires
        forall|i: int|
            0 <= i < local.len() ==> !(#[trigger] spec_edited_items(local[i]) matches Some(at) && edited_by(remote, at)),
    ensures
        spec_unions(notes, merged, top, local, remote) == notes,
    decreases local.len(),
{
    if local.len() > 0 {
        assert forall|i: int| 0 <= i < local.drop_last().len() implies !(#[trigger] spec_edited_items(
            local.drop_last()[i],
        ) matches Some(at) && edited_by(remote, at)) by {
            assert(local.drop_last()[i] == local[i]);
        }
        law_no_shared_list_no_note(notes, merged, top, local.drop_last(), remote);
        assert(!(spec_edited_items(local[local.len() - 1]) matches Some(at) && edited_by(remote, at)));
    }
}

/// Where a list the local side edited was edited by the remote side too,
/// the notes say so, naming it.
pub proof fn law_shared_list_is_noted(
    notes: Seq<Seq<char>>,
    merged: Seq<NodeView>,
    top: Seq<Spec>,
    local: Seq<MergeAction>,
    remote: Seq<MergeAction>,
    i: int,
)
    requires
        0 <= i < local.len(),
        spec_edited_items(local[i]) matches Some(at) && edited_by(remote, at),
    ensures
        spec_unions(notes, merged, top, local, remote).contains(spec_union_note(merged, top, local[i])),
    decreases local.len(),
{
    let all = spec_unions(notes, merged, top, local, remote);
    let before = spec_unions(notes, merged, top, local.drop_last(), remote);
    if i < local.len() - 1 {
        assert(local.drop_last()[i] == local[i]);
        law_shared_list_is_noted(notes, merged, top, local.drop_last(), remote, i);
        let j = choose|j: int| 0 <= j < before.len() && before[j] == spec_union_note(merged, top, local[i]);
        law_unions_keep_the_notes(before, merged, top, seq![local.last()], remote);
        assert(seq![local.last()].drop_last() =~= Seq::<MergeAction>::empty());
        assert(all[j] == before[j]);
    } else {
        let note = spec_union_note(merged, top, local.last());
        if !before.contains(note) {
            assert(before.push(note)[before.len() as int] == note);
        }
    }
}

proof fn lemma_unions_added(
    notes: Seq<Seq<char>>,
    merged: Seq<NodeView>,
    top: Seq<Spec>,
    local: Seq<MergeAction>,
    remote: Seq<MergeAction>,
)
    ensures
        forall|k: int|
            notes.len() <= k < spec_unions(notes, merged, top, local, remote).len() ==> exists|i: int|
                0 <= i < local.len() && (spec_edited_items(local[i]) matches Some(at) && edited_by(remote, at))
                    && #[trigger] spec_unions(notes, merged, top, local, remote)[k] == spec_union_note(
                    merged,
                    top,
                    local[i],
                ),
        forall|k: int, m: int|
            0 <= k < m < spec_unions(notes, merged, top, local, remote).len() && notes.len() <= m ==> #[trigger] spec_unions(
                notes,
                merged,
                top,
                local,
                remote,
            )[k] != #[trigger] spec_unions(notes, merged, top, local, remote)[m],
    decreases local.len(),
{
    law_unions_keep_the_notes(notes, merged, top, local, remote);
    if local.len() > 0 {
        let init = local.drop_last();
        lemma_unions_added(notes, merged, top, init, remote);
        law_unions_keep_the_notes(notes, merged, top, init, remote);
        let before = spec_unions(notes, merged, top, init, remote);
        let all = spec_unions(notes, merged, top, local, remote);
        assert forall|k: int| notes.len() <= k < all.len() implies exists|i: int|
            0 <= i < local.len() && (spec_edited_items(local[i]) matches Some(at) && edited_by(remote, at))
                && #[trigger] all[k] == spec_union_note(merged, top, local[i]) by {
            if k < before.len() {
                let i = choose|i: int|
                    0 <= i < init.len() && (spec_edited_items(init[i]) matches Some(at) && edited_by(remote, at))
                        && #[trigger] before[k] == spec_union_note(merged, top, init[i]);
                assert(init[i] == local[i]);
                assert(all[k] == before[k]);
            } else {
                assert(all[k] == spec_union_note(merged, top, local[local.len() - 1]));
            }
        }
        assert forall|k: int, m: int| 0 <= k < m < all.len() && notes.len() <= m implies #[trigger] all[k]
            != #[trigger] all[m] by {
            if m < before.len() {
                assert(all[k] == before[k] && all[m] == before[m]);
            } else {
                assert(all[k] == before[k]);
                assert(before.contains(before[k]));
            }
        }
    }
}

/// The notes a merge's edited lists add, in one statement: the notes given
/// come first, unchanged; every note added says, of an action of the local
/// side whose list the remote side edited too, its name then "both sides
/// changed its list; the items of both were kept.", and no note is said
/// twice; every such action is said; and with no such action nothing is
/// added.
pub proof fn law_note_unions(
    notes: Seq<Seq<char>>,
    merged: Seq<NodeView>,
    top: Seq<Spec>,
    local: Seq<MergeAction>,
    remote: Seq<MergeAction>,
)
    ensures
        notes.is_prefix_of(spec_unions(notes, merged, top, local, remote)),
        forall|k: int|
            notes.len() <= k < spec_unions(notes, merged, top, local, remote).len() ==> exists|i: int|
                0 <= i < local.len() && (spec_edited_items(local[i]) matches Some(at) && edited_by(remote, at))
                    && #[trigger] spec_unions(notes, merged, top, local, remote)[k] == spec_name(merged, top, local[i])
                    + ": both sides changed its list; the items of both were kept."@,
        forall|k: int, m: int|
            0 <= k < m < spec_unions(notes, merged, top, local, remote).len() && notes.len() <= m ==> #[trigger] spec_unions(
                notes,
                merged,
                top,
                local,
                remote,
            )[k] != #[trigger] spec_unions(notes, merged, top, local, remote)[m],
        forall|i: int|
            0 <= i < local.len() && (#[trigger] spec_edited_items(local[i]) matches Some(at) && edited_by(remote, at))
                ==> spec_unions(notes, merged, top, local, remote).contains(
                spec_name(merged, top, local[i]) + ": both sides changed its list; the items of both were kept."@,
            ),
        (forall|i: int|
            0 <= i < local.len() ==> !(#[trigger] spec_edited_items(local[i]) matches Some(at) && edited_by(remote, at)))
            ==> spec_unions(notes, merged, top, local, remote) == notes,
{
    law_unions_keep_the_notes(notes, merged, top, local, remote);
    lemma_unions_added(notes, merged, top, local, remote);
    let all = spec_unions(notes, merged, top, local, remote);
    assert(all.subrange(0, notes.len() as int) =~= all.take(notes.len() as int));
    assert forall|i: int|
        0 <= i < local.len() && (#[trigger] spec_edited_items(local[i]) matches Some(at) && edited_by(remote, at))
            implies all.contains(
            spec_name(merged, top, local[i]) + ": both sides changed its list; the items of both were kept."@,
        ) by {
        law_shared_list_is_noted(notes, merged, top, local, remote, i);
    }
    if forall|i: int|
        0 <= i < local.len() ==> !(#[trigger] spec_edited_items(local[i]) matches Some(at) && edited_by(remote, at)) {
        law_no_shared_list_no_note(notes, merged, top, local, remote);
    }
}

} // verus!
