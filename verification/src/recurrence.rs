//! # Recurrence
//!
//! Recurrence rules (`RRULE`) as dotted `<prefix>.*` keys of friendly parts,
//! with a raw escape hatch for a rule using parts tcal does not model.

use vstd::prelude::*;

use crate::datetime::{
    friendly_to_ical_chars, spec_friendly_to_ical, spec_toml_date, spec_until_to_ical, toml_date,
    until_to_ical,
};
use crate::duration::joined;
use crate::edit::{find_char, index_of_char, lemma_index_of_char_bounds};
use crate::line::{int_chars, int_line_chars, int_line_lhs, int_text, lines_view, make_line, Line};
use crate::number::{parse_i64, spec_parse_i64, spec_table_int, spec_table_text, table_int, table_text};
use crate::text::{
    chars_eq, chars_of, copy_chars, join_chars, join_with, push_all, slice_chars, split_on, pieces,
    to_lower, to_upper, trim, trimmed, unicode_lower, unicode_upper, unicode_space, lead, trail,
};
use crate::toml::{
    datetime_string, entries_writable, entry_of, lemma_entry_of_writable, quoted, table_get, toml_array, toml_datetime_text, toml_int_array,
    toml_integer_array, toml_quoted, toml_text_array, Toml,
};

verus! {

/// Whether a token name is one tcal models.
pub open spec fn is_recur_key(name: Seq<char>) -> bool {
    ||| name == "FREQ"@
    ||| name == "UNTIL"@
    ||| name == "COUNT"@
    ||| name == "INTERVAL"@
    ||| name == "BYDAY"@
    ||| name == "BYMONTHDAY"@
    ||| name == "BYMONTH"@
    ||| name == "BYSETPOS"@
    ||| name == "WKST"@
}

fn recur_key(name: &[char]) -> (r: bool)
    ensures
        r == is_recur_key(name@),
{
    chars_eq(name, &chars_of("FREQ")) || chars_eq(name, &chars_of("UNTIL")) || chars_eq(
        name,
        &chars_of("COUNT"),
    ) || chars_eq(name, &chars_of("INTERVAL")) || chars_eq(name, &chars_of("BYDAY"))
        || chars_eq(name, &chars_of("BYMONTHDAY")) || chars_eq(name, &chars_of("BYMONTH"))
        || chars_eq(name, &chars_of("BYSETPOS")) || chars_eq(name, &chars_of("WKST"))
}

/// One `NAME=value` piece of a rule: its uppercased name and its value,
/// split at the first `=`. `None` for a piece without one.
pub open spec fn rule_part(piece: Seq<char>) -> Option<(Seq<char>, Seq<char>)> {
    let eq = index_of_char(piece, '=');
    if eq >= 0 {
        Some((unicode_upper(piece.take(eq)), piece.skip(eq + 1)))
    } else {
        None
    }
}

/// The `NAME=value` parts among some pieces, in order.
pub open spec fn parts_of(items: Seq<Seq<char>>) -> Seq<(Seq<char>, Seq<char>)>
    decreases items.len(),
{
    if items.len() == 0 {
        Seq::empty()
    } else {
        match rule_part(items.last()) {
            Some(p) => parts_of(items.drop_last()).push(p),
            None => parts_of(items.drop_last()),
        }
    }
}

/// The parts of an `RRULE` value: its `;`-separated pieces that hold an `=`.
pub open spec fn rrule_parts(rule: Seq<char>) -> Seq<(Seq<char>, Seq<char>)> {
    parts_of(pieces(rule, ';'))
}

pub open spec fn parts_view(parts: Seq<(Vec<char>, Vec<char>)>) -> Seq<(Seq<char>, Seq<char>)> {
    parts.map_values(|p: (Vec<char>, Vec<char>)| (p.0@, p.1@))
}

/// Split an `RRULE` value into uppercased token names with their raw value.
fn parse_rrule(rule: &[char]) -> (out: Vec<(Vec<char>, Vec<char>)>)
    ensures
        parts_view(out@) == rrule_parts(rule@),
{
    let items = split_on(rule, ';');
    let ghost all = items@.map_values(|w: Vec<char>| w@);
    let mut out: Vec<(Vec<char>, Vec<char>)> = Vec::new();
    let mut i: usize = 0;
    proof {
        assert(all.take(0) =~= Seq::<Seq<char>>::empty());
        assert(parts_view(out@) =~= Seq::<(Seq<char>, Seq<char>)>::empty());
    }
    while i < items.len()
        invariant
            i <= items.len(),
            all == items@.map_values(|w: Vec<char>| w@),
            all == pieces(rule@, ';'),
            parts_view(out@) == parts_of(all.take(i as int)),
        decreases items.len() - i,
    {
        let piece = &items[i];
        proof {
            assert(all[i as int] == piece@);
            assert(all.take(i + 1).drop_last() =~= all.take(i as int));
            assert(all.take(i + 1).last() == piece@);
            lemma_index_of_char_bounds(piece@, '=');
        }
        match find_char(piece, '=') {
            Some(eq) => {
                let name = to_upper(&slice_chars(piece, 0, eq));
                let value = slice_chars(piece, eq + 1, piece.len());
                let ghost before = out@;
                proof {
                    assert(piece@.subrange(0, eq as int) =~= piece@.take(eq as int));
                }
                out.push((name, value));
                proof {
                    assert(parts_view(out@) =~= parts_view(before).push((name@, value@)));
                    assert(value@ =~= piece@.skip(eq + 1));
                }
            },
            None => {},
        }
        i = i + 1;
    }
    proof {
        assert(all.take(i as int) =~= all);
    }
    out
}

/// The value of the first part with that name.
pub open spec fn part_value(parts: Seq<(Seq<char>, Seq<char>)>, key: Seq<char>) -> Option<Seq<char>>
    decreases parts.len(),
{
    if parts.len() == 0 {
        None
    } else if parts[0].0 == key {
        Some(parts[0].1)
    } else {
        part_value(parts.drop_first(), key)
    }
}

fn get_part(parts: &Vec<(Vec<char>, Vec<char>)>, key: &str) -> (r: Option<Vec<char>>)
    ensures
        match r {
            Some(v) => part_value(parts_view(parts@), key@) == Some(v@),
            None => part_value(parts_view(parts@), key@) is None,
        },
{
    let wanted = chars_of(key);
    let ghost all = parts_view(parts@);
    let mut i: usize = 0;
    proof {
        assert(all.skip(0) =~= all);
    }
    while i < parts.len()
        invariant
            i <= parts.len(),
            wanted@ == key@,
            all == parts_view(parts@),
            part_value(all, key@) == part_value(all.skip(i as int), key@),
        decreases parts.len() - i,
    {
        let ghost rest = all.skip(i as int);
        proof {
            assert(rest[0] == (parts@[i as int].0@, parts@[i as int].1@));
            assert(rest.drop_first() =~= all.skip(i + 1));
        }
        if chars_eq(&parts[i].0, &wanted) {
            return Some(copy_chars(&parts[i].1));
        }
        i = i + 1;
    }
    proof {
        assert(all.skip(i as int) =~= Seq::<(Seq<char>, Seq<char>)>::empty());
    }
    None
}

/// A part's value, the empty text when it is absent.
pub open spec fn or_empty(o: Option<Seq<char>>) -> Seq<char> {
    match o {
        Some(v) => v,
        None => Seq::empty(),
    }
}

/// A part read as an integer, trimmed first.
pub open spec fn part_int(parts: Seq<(Seq<char>, Seq<char>)>, key: Seq<char>) -> Option<i64> {
    match part_value(parts, key) {
        Some(v) => spec_parse_i64(trimmed(v)),
        None => None,
    }
}

/// The integers among some texts, each trimmed, the others skipped.
pub open spec fn ints_of(items: Seq<Seq<char>>) -> Seq<i64>
    decreases items.len(),
{
    if items.len() == 0 {
        Seq::empty()
    } else {
        match spec_parse_i64(trimmed(items.last())) {
            Some(v) => ints_of(items.drop_last()).push(v),
            None => ints_of(items.drop_last()),
        }
    }
}

/// The comma-separated integers of a part, nothing where it is absent.
pub open spec fn part_ints(parts: Seq<(Seq<char>, Seq<char>)>, key: Seq<char>) -> Seq<i64> {
    match part_value(parts, key) {
        Some(v) => ints_of(pieces(v, ',')),
        None => Seq::empty(),
    }
}

/// The comma-separated items of a part lowercased, nothing where absent.
pub open spec fn part_lowered(parts: Seq<(Seq<char>, Seq<char>)>, key: Seq<char>) -> Seq<Seq<char>> {
    match part_value(parts, key) {
        Some(v) => pieces(v, ',').map_values(|p: Seq<char>| unicode_lower(p)),
        None => Seq::empty(),
    }
}

/// How the `UNTIL` part is shown: a native date-time where it is in digit
/// form, else the string the calendar wrote.
pub open spec fn until_rhs(parts: Seq<(Seq<char>, Seq<char>)>) -> Seq<char> {
    match part_value(parts, "UNTIL"@) {
        Some(v) => match spec_toml_date(v) {
            Some(dtm) => toml_datetime_text(dtm),
            None => toml_quoted(v),
        },
        None => toml_quoted(Seq::empty()),
    }
}

/// Whether every part of a rule is one tcal models.
pub open spec fn all_modelled(parts: Seq<(Seq<char>, Seq<char>)>) -> bool {
    forall|i: int| 0 <= i < parts.len() ==> is_recur_key(#[trigger] parts[i].0)
}

/// The dotted keys a recurrence value projects to: one line per modelled
/// part, or a single raw `<prefix>.rule` line for a rule with a part tcal
/// does not model.
pub open spec fn spec_recur_lines(value: Option<Seq<char>>, prefix: Seq<char>) -> Seq<
    (Seq<char>, Option<Seq<char>>),
> {
    let rule = match value {
        Some(v) => if v.len() > 0 {
            Some(v)
        } else {
            None
        },
        None => None,
    };
    let parts = match rule {
        Some(r) => rrule_parts(r),
        None => Seq::empty(),
    };
    if rule is Some && !all_modelled(parts) {
        seq![
            (
                prefix + ".rule = "@ + toml_quoted(rule.unwrap()),
                Some("raw RRULE; has parts tcal does not model"@),
            ),
        ]
    } else {
        seq![
            (
                prefix + ".frequency = "@ + toml_quoted(unicode_lower(or_empty(part_value(parts, "FREQ"@)))),
                Some("secondly, minutely, hourly, daily, weekly, monthly, yearly"@),
            ),
            (int_line_lhs(prefix + ".interval"@, part_int(parts, "INTERVAL"@)), Some("every N periods"@)),
            (
                int_line_lhs(prefix + ".count"@, part_int(parts, "COUNT"@)),
                Some("total occurrences; alternative to until"@),
            ),
            (prefix + ".until = "@ + until_rhs(parts), Some("2026-06-13 14:30"@)),
            (
                prefix + ".by-day = "@ + toml_text_array(part_lowered(parts, "BYDAY"@)),
                Some("mo, tu, we, th, fr, sa, su; with an ordinal like -1su, 2mo"@),
            ),
            (prefix + ".by-month = "@ + toml_integer_array(part_ints(parts, "BYMONTH"@)), Some("1 to 12"@)),
            (
                prefix + ".by-month-day = "@ + toml_integer_array(part_ints(parts, "BYMONTHDAY"@)),
                Some("1 to 31, negative counts from the end (-1 = last)"@),
            ),
            (
                prefix + ".by-position = "@ + toml_integer_array(part_ints(parts, "BYSETPOS"@)),
                Some("nth occurrence in the period; -1 = last"@),
            ),
            (
                prefix + ".week-start = "@ + toml_quoted(unicode_lower(or_empty(part_value(parts, "WKST"@)))),
                Some("mo, tu, we, th, fr, sa, su"@),
            ),
        ]
    }
}

fn all_known(parts: &Vec<(Vec<char>, Vec<char>)>) -> (r: bool)
    ensures
        r == all_modelled(parts_view(parts@)),
{
    let ghost all = parts_view(parts@);
    let mut i: usize = 0;
    while i < parts.len()
        invariant
            i <= parts.len(),
            all == parts_view(parts@),
            forall|j: int| 0 <= j < i ==> is_recur_key(#[trigger] all[j].0),
        decreases parts.len() - i,
    {
        proof {
            assert(all[i as int].0 == parts@[i as int].0@);
        }
        if !recur_key(&parts[i].0) {
            return false;
        }
        i = i + 1;
    }
    true
}

fn lowered_items(value: &[char]) -> (out: Vec<Vec<char>>)
    ensures
        out@.map_values(|w: Vec<char>| w@) == pieces(value@, ',').map_values(
            |p: Seq<char>| unicode_lower(p),
        ),
{
    let items = split_on(value, ',');
    let ghost all = items@.map_values(|w: Vec<char>| w@);
    let mut out: Vec<Vec<char>> = Vec::new();
    let mut i: usize = 0;
    while i < items.len()
        invariant
            i <= items.len(),
            all == items@.map_values(|w: Vec<char>| w@),
            out@.len() == i,
            forall|j: int| 0 <= j < i ==> (#[trigger] out@[j])@ == unicode_lower(all[j]),
        decreases items.len() - i,
    {
        proof {
            assert(all[i as int] == items@[i as int]@);
        }
        out.push(to_lower(&items[i]));
        i = i + 1;
    }
    proof {
        assert(out@.map_values(|w: Vec<char>| w@) =~= all.map_values(|p: Seq<char>| unicode_lower(p)));
    }
    out
}

fn items_ints(value: &[char]) -> (out: Vec<i64>)
    ensures
        out@ == ints_of(pieces(value@, ',')),
{
    let items = split_on(value, ',');
    let ghost all = items@.map_values(|w: Vec<char>| w@);
    let mut out: Vec<i64> = Vec::new();
    let mut i: usize = 0;
    proof {
        assert(all.take(0) =~= Seq::<Seq<char>>::empty());
    }
    while i < items.len()
        invariant
            i <= items.len(),
            all == items@.map_values(|w: Vec<char>| w@),
            out@ == ints_of(all.take(i as int)),
        decreases items.len() - i,
    {
        proof {
            assert(all[i as int] == items@[i as int]@);
            assert(all.take(i + 1).drop_last() =~= all.take(i as int));
            assert(all.take(i + 1).last() == items@[i as int]@);
        }
        match parse_i64(&trim(&items[i])) {
            Some(v) => out.push(v),
            None => {},
        }
        i = i + 1;
    }
    proof {
        assert(all.take(i as int) =~= all);
    }
    out
}

fn opt_lower(value: Option<Vec<char>>) -> (out: Vec<char>)
    ensures
        out@ == unicode_lower(or_empty(
            match value {
                Some(v) => Some(v@),
                None => None,
            },
        )),
{
    match value {
        Some(v) => to_lower(&v),
        None => to_lower(&Vec::new()),
    }
}

fn opt_int(value: Option<Vec<char>>) -> (r: Option<i64>)
    ensures
        r == match value {
            Some(v) => spec_parse_i64(trimmed(v@)),
            None => None,
        },
{
    match value {
        Some(v) => parse_i64(&trim(&v)),
        None => None,
    }
}

fn keyed(prefix: &[char], key: &str, rhs: &[char]) -> (out: Vec<char>)
    ensures
        out@ == prefix@ + key@ + rhs@,
{
    let mut out = joined(prefix, key);
    push_all(&mut out, rhs);
    out
}

/// Project a recurrence value as dotted `<prefix>.*` keys of friendly parts.
/// A rule using a part tcal does not model is shown as a single raw
/// `<prefix>.rule` key instead.
pub fn recur_lines(value: Option<&[char]>, prefix: &[char]) -> (lines: Vec<Line>)
    ensures
        lines_view(lines@) == spec_recur_lines(
            match value {
                Some(v) => Some(v@),
                None => None,
            },
            prefix@,
        ),
{
    let rule: Option<&[char]> = match value {
        Some(v) => if v.len() > 0 {
            Some(v)
        } else {
            None
        },
        None => None,
    };
    let parts = match rule {
        Some(r) => parse_rrule(r),
        None => Vec::new(),
    };
    let ghost pv = parts_view(parts@);
    proof {
        if rule is None {
            assert(pv =~= Seq::<(Seq<char>, Seq<char>)>::empty());
        }
    }
    if let Some(r) = rule {
        if !all_known(&parts) {
            let lhs = keyed(prefix, ".rule = ", &quoted(r));
            let v = vec![make_line(&lhs, Some(chars_of("raw RRULE; has parts tcal does not model")))];
            proof {
                assert(lines_view(v@) =~= spec_recur_lines(Some(r@), prefix@));
            }
            return v;
        }
    }
    let freq = keyed(prefix, ".frequency = ", &quoted(&opt_lower(get_part(&parts, "FREQ"))));
    let interval = int_line_chars(&joined(prefix, ".interval"), opt_int(get_part(&parts, "INTERVAL")));
    let count = int_line_chars(&joined(prefix, ".count"), opt_int(get_part(&parts, "COUNT")));
    let until_value = match get_part(&parts, "UNTIL") {
        Some(v) => match toml_date(&v) {
            Some(dtm) => chars_of(datetime_string(&dtm).as_str()),
            None => quoted(&v),
        },
        None => quoted(&Vec::new()),
    };
    proof {
        assert(until_value@ == until_rhs(pv));
    }
    let until = keyed(prefix, ".until = ", &until_value);
    let by_day_items = match get_part(&parts, "BYDAY") {
        Some(v) => lowered_items(&v),
        None => Vec::new(),
    };
    proof {
        assert(by_day_items@.map_values(|w: Vec<char>| w@) =~= part_lowered(pv, "BYDAY"@));
    }
    let by_day = keyed(prefix, ".by-day = ", &chars_of(toml_array(&by_day_items).as_str()));
    let month_items = match get_part(&parts, "BYMONTH") {
        Some(v) => items_ints(&v),
        None => Vec::new(),
    };
    proof {
        assert(month_items@ =~= part_ints(pv, "BYMONTH"@));
    }
    let by_month = keyed(prefix, ".by-month = ", &chars_of(toml_int_array(&month_items).as_str()));
    let month_day_items = match get_part(&parts, "BYMONTHDAY") {
        Some(v) => items_ints(&v),
        None => Vec::new(),
    };
    proof {
        assert(month_day_items@ =~= part_ints(pv, "BYMONTHDAY"@));
    }
    let by_month_day = keyed(
        prefix,
        ".by-month-day = ",
        &chars_of(toml_int_array(&month_day_items).as_str()),
    );
    let position_items = match get_part(&parts, "BYSETPOS") {
        Some(v) => items_ints(&v),
        None => Vec::new(),
    };
    proof {
        assert(position_items@ =~= part_ints(pv, "BYSETPOS"@));
    }
    let by_position = keyed(
        prefix,
        ".by-position = ",
        &chars_of(toml_int_array(&position_items).as_str()),
    );
    let week_start = keyed(prefix, ".week-start = ", &quoted(&opt_lower(get_part(&parts, "WKST"))));
    let v = vec![
        make_line(&freq, Some(chars_of("secondly, minutely, hourly, daily, weekly, monthly, yearly"))),
        make_line(&interval, Some(chars_of("every N periods"))),
        make_line(&count, Some(chars_of("total occurrences; alternative to until"))),
        make_line(&until, Some(chars_of("2026-06-13 14:30"))),
        make_line(&by_day, Some(chars_of("mo, tu, we, th, fr, sa, su; with an ordinal like -1su, 2mo"))),
        make_line(&by_month, Some(chars_of("1 to 12"))),
        make_line(&by_month_day, Some(chars_of("1 to 31, negative counts from the end (-1 = last)"))),
        make_line(&by_position, Some(chars_of("nth occurrence in the period; -1 = last"))),
        make_line(&week_start, Some(chars_of("mo, tu, we, th, fr, sa, su"))),
    ];
    proof {
        assert(lines_view(v@) =~= spec_recur_lines(
            match value {
                Some(v) => Some(v@),
                None => None,
            },
            prefix@,
        ));
    }
    v
}


/// The `UNTIL` value a recurrence table writes: a native date-time in
/// digit form, a friendly string converted, the string itself otherwise.
pub open spec fn until_value(table: Seq<(String, Toml)>) -> Option<Seq<char>> {
    match entry_of(table, "until"@) {
        Some(Toml::Datetime(d)) => Some(spec_until_to_ical(d)),
        Some(Toml::Text(s)) => if s@.len() > 0 {
            Some(spec_friendly_to_ical(s@))
        } else {
            None
        },
        _ => None,
    }
}

/// The non-empty strings among some values, uppercased.
pub open spec fn upper_texts(values: Seq<Toml>) -> Seq<Seq<char>>
    decreases values.len(),
{
    if values.len() == 0 {
        Seq::empty()
    } else {
        match values.last() {
            Toml::Text(s) => if s@.len() > 0 {
                upper_texts(values.drop_last()).push(unicode_upper(s@))
            } else {
                upper_texts(values.drop_last())
            },
            _ => upper_texts(values.drop_last()),
        }
    }
}

/// The integers among some values: bare numbers, or strings that parse as
/// one once trimmed.
pub open spec fn int_values(values: Seq<Toml>) -> Seq<i64>
    decreases values.len(),
{
    if values.len() == 0 {
        Seq::empty()
    } else {
        match values.last() {
            Toml::Integer(i) => int_values(values.drop_last()).push(i),
            Toml::Text(s) => match spec_parse_i64(trimmed(s@)) {
                Some(v) => int_values(values.drop_last()).push(v),
                None => int_values(values.drop_last()),
            },
            _ => int_values(values.drop_last()),
        }
    }
}

/// An uppercased string list from a recurrence table key.
pub open spec fn table_upper_list(table: Seq<(String, Toml)>, key: Seq<char>) -> Seq<Seq<char>> {
    match entry_of(table, key) {
        Some(Toml::Array(values)) => upper_texts(values@),
        _ => Seq::empty(),
    }
}

/// An integer list from a recurrence table key.
pub open spec fn table_int_list(table: Seq<(String, Toml)>, key: Seq<char>) -> Seq<i64> {
    match entry_of(table, key) {
        Some(Toml::Array(values)) => int_values(values@),
        _ => Seq::empty(),
    }
}

/// Integers written in decimal and joined on commas.
pub open spec fn ints_text(values: Seq<i64>) -> Seq<char> {
    join_with(values.map_values(|v: i64| int_text(v as int)), ","@)
}

pub open spec fn opt_token(o: Option<Seq<char>>) -> Seq<Seq<char>> {
    match o {
        Some(t) => seq![t],
        None => Seq::empty(),
    }
}

/// A `TOKEN=1,2` part, written only where the list is not empty; `token`
/// holds its `=`.
pub open spec fn list_token(token: Seq<char>, values: Seq<i64>) -> Seq<Seq<char>> {
    if values.len() > 0 {
        seq![token + ints_text(values)]
    } else {
        Seq::empty()
    }
}

/// The parts of the rule a recurrence table assembles, in the order tcal
/// writes them, so an untouched rule round-trips byte for byte.
pub open spec fn rule_tokens(table: Seq<(String, Toml)>, freq: Seq<char>) -> Seq<Seq<char>> {
    let byday = table_upper_list(table, "by-day"@);
    seq!["FREQ="@ + unicode_upper(freq)] + opt_token(
        match until_value(table) {
            Some(u) => Some("UNTIL="@ + u),
            None => None,
        },
    ) + opt_token(
        match spec_table_int(table, "count"@) {
            Some(c) => Some("COUNT="@ + int_text(c as int)),
            None => None,
        },
    ) + opt_token(
        match spec_table_int(table, "interval"@) {
            Some(n) => Some("INTERVAL="@ + int_text(n as int)),
            None => None,
        },
    ) + (if byday.len() > 0 {
        seq!["BYDAY="@ + join_with(byday, ","@)]
    } else {
        Seq::empty()
    }) + list_token("BYMONTHDAY="@, table_int_list(table, "by-month-day"@)) + list_token(
        "BYMONTH="@,
        table_int_list(table, "by-month"@),
    ) + list_token("BYSETPOS="@, table_int_list(table, "by-position"@)) + opt_token(
        match spec_table_text(table, "week-start"@) {
            Some(w) => Some("WKST="@ + unicode_upper(w)),
            None => None,
        },
    )
}

/// The `RRULE` value a recurrence table assembles: a non-empty raw `rule`
/// as it is, else the parts around a required `frequency`.
pub open spec fn spec_recur_rule(table: Seq<(String, Toml)>) -> Option<Seq<char>> {
    match spec_table_text(table, "rule"@) {
        Some(rule) => Some(rule),
        None => match spec_table_text(table, "frequency"@) {
            Some(freq) => Some(join_with(rule_tokens(table, freq), ";"@)),
            None => None,
        },
    }
}

fn until_token(table: &Vec<(String, Toml)>) -> (r: Option<Vec<char>>)
    requires
        entries_writable(table@),
    ensures
        match r {
            Some(v) => until_value(table@) == Some(v@),
            None => until_value(table@) is None,
        },
{
    proof {
        lemma_entry_of_writable(table@, "until"@);
    }
    match table_get(table, &chars_of("until")) {
        Some(Toml::Datetime(d)) => Some(until_to_ical(d)),
        Some(Toml::Text(s)) => {
            let v = chars_of(s.as_str());
            if v.len() > 0 {
                Some(friendly_to_ical_chars(&v))
            } else {
                None
            }
        },
        _ => None,
    }
}

/// An uppercased string list from a recurrence table key.
fn str_list(table: &Vec<(String, Toml)>, key: &str) -> (out: Vec<Vec<char>>)
    ensures
        out@.map_values(|w: Vec<char>| w@) == table_upper_list(table@, key@),
{
    let mut out: Vec<Vec<char>> = Vec::new();
    match table_get(table, &chars_of(key)) {
        Some(Toml::Array(values)) => {
            let mut i: usize = 0;
            proof {
                assert(values@.take(0) =~= Seq::<Toml>::empty());
                assert(out@.map_values(|w: Vec<char>| w@) =~= Seq::<Seq<char>>::empty());
            }
            while i < values.len()
                invariant
                    i <= values.len(),
                    out@.map_values(|w: Vec<char>| w@) == upper_texts(values@.take(i as int)),
                decreases values.len() - i,
            {
                proof {
                    assert(values@.take(i + 1).drop_last() =~= values@.take(i as int));
                    assert(values@.take(i + 1).last() == values@[i as int]);
                }
                if let Toml::Text(s) = &values[i] {
                    let v = chars_of(s.as_str());
                    if v.len() > 0 {
                        let ghost before = out@;
                        out.push(to_upper(&v));
                        proof {
                            assert(out@.map_values(|w: Vec<char>| w@) =~= before.map_values(
                                |w: Vec<char>| w@,
                            ).push(unicode_upper(s@)));
                        }
                    }
                }
                i = i + 1;
            }
            proof {
                assert(values@.take(i as int) =~= values@);
            }
        },
        _ => {
            proof {
                assert(out@.map_values(|w: Vec<char>| w@) =~= Seq::<Seq<char>>::empty());
            }
        },
    }
    out
}

/// An integer list from a recurrence table key, accepting bare numbers or
/// numeric strings.
fn int_list(table: &Vec<(String, Toml)>, key: &str) -> (out: Vec<i64>)
    ensures
        out@ == table_int_list(table@, key@),
{
    let mut out: Vec<i64> = Vec::new();
    match table_get(table, &chars_of(key)) {
        Some(Toml::Array(values)) => {
            let mut i: usize = 0;
            proof {
                assert(values@.take(0) =~= Seq::<Toml>::empty());
            }
            while i < values.len()
                invariant
                    i <= values.len(),
                    out@ == int_values(values@.take(i as int)),
                decreases values.len() - i,
            {
                proof {
                    assert(values@.take(i + 1).drop_last() =~= values@.take(i as int));
                    assert(values@.take(i + 1).last() == values@[i as int]);
                }
                match &values[i] {
                    Toml::Integer(n) => out.push(*n),
                    Toml::Text(s) => match parse_i64(&trim(&chars_of(s.as_str()))) {
                        Some(v) => out.push(v),
                        None => {},
                    },
                    _ => {},
                }
                i = i + 1;
            }
            proof {
                assert(values@.take(i as int) =~= values@);
            }
        },
        _ => {},
    }
    out
}

/// Join integers on commas for an `RRULE` part.
fn join_ints(items: &Vec<i64>) -> (out: Vec<char>)
    ensures
        out@ == ints_text(items@),
{
    let mut texts: Vec<Vec<char>> = Vec::new();
    let mut i: usize = 0;
    while i < items.len()
        invariant
            i <= items.len(),
            texts@.len() == i,
            forall|j: int| 0 <= j < i ==> (#[trigger] texts@[j])@ == int_text(items@[j] as int),
        decreases items.len() - i,
    {
        texts.push(int_chars(items[i]));
        i = i + 1;
    }
    proof {
        assert(texts@.map_values(|w: Vec<char>| w@) =~= items@.map_values(|v: i64| int_text(v as int)));
    }
    join_chars(&texts, ",")
}

fn push_token(tokens: &mut Vec<Vec<char>>, token: &str, value: &[char])
    ensures
        final(tokens)@.map_values(|w: Vec<char>| w@) == old(tokens)@.map_values(|w: Vec<char>| w@).push(
            token@ + value@,
        ),
{
    let mut t = chars_of(token);
    push_all(&mut t, value);
    let ghost before = tokens@;
    tokens.push(t);
    proof {
        assert(tokens@.map_values(|w: Vec<char>| w@) =~= before.map_values(|w: Vec<char>| w@).push(
            token@ + value@,
        ));
    }
}

fn push_list(tokens: &mut Vec<Vec<char>>, token: &str, values: &Vec<i64>)
    ensures
        final(tokens)@.map_values(|w: Vec<char>| w@) == old(tokens)@.map_values(|w: Vec<char>| w@) + list_token(
            token@,
            values@,
        ),
{
    if values.len() > 0 {
        push_token(tokens, token, &join_ints(values));
        proof {
            assert(old(tokens)@.map_values(|w: Vec<char>| w@) + list_token(token@, values@)
                =~= old(tokens)@.map_values(|w: Vec<char>| w@).push(token@ + ints_text(values@)));
        }
    } else {
        proof {
            assert(old(tokens)@.map_values(|w: Vec<char>| w@) + list_token(token@, values@)
                =~= old(tokens)@.map_values(|w: Vec<char>| w@));
        }
    }
}

/// Assemble an `RRULE` value from a recurrence table, in the order tcal
/// writes rules so an untouched one round-trips byte for byte. A non-empty
/// `rule` key short-circuits to its raw value.
pub fn recur_rule(table: &Vec<(String, Toml)>) -> (r: Option<Vec<char>>)
    requires
        entries_writable(table@),
    ensures
        match r {
            Some(v) => spec_recur_rule(table@) == Some(v@),
            None => spec_recur_rule(table@) is None,
        },
{
    if let Some(rule) = table_text(table, &chars_of("rule")) {
        return Some(rule);
    }
    let freq = match table_text(table, &chars_of("frequency")) {
        Some(freq) => freq,
        None => return None,
    };
    let ghost t = table@;
    let mut tokens: Vec<Vec<char>> = Vec::new();
    push_token(&mut tokens, "FREQ=", &to_upper(&freq));
    let ghost acc0 = seq!["FREQ="@ + unicode_upper(freq@)];
    proof {
        assert(tokens@.map_values(|w: Vec<char>| w@) =~= acc0) by {
            assert(Seq::<Vec<char>>::empty().map_values(|w: Vec<char>| w@) =~= Seq::<Seq<char>>::empty());
        }
    }
    let until = until_token(table);
    if let Some(u) = &until {
        push_token(&mut tokens, "UNTIL=", u);
    }
    let ghost acc1 = acc0 + opt_token(
        match until_value(t) {
            Some(u) => Some("UNTIL="@ + u),
            None => None,
        },
    );
    proof {
        assert(tokens@.map_values(|w: Vec<char>| w@) =~= acc1);
    }
    let count = table_int(table, &chars_of("count"));
    if let Some(c) = count {
        push_token(&mut tokens, "COUNT=", &int_chars(c));
    }
    let ghost acc2 = acc1 + opt_token(
        match spec_table_int(t, "count"@) {
            Some(c) => Some("COUNT="@ + int_text(c as int)),
            None => None,
        },
    );
    proof {
        assert(tokens@.map_values(|w: Vec<char>| w@) =~= acc2);
    }
    let interval = table_int(table, &chars_of("interval"));
    if let Some(n) = interval {
        push_token(&mut tokens, "INTERVAL=", &int_chars(n));
    }
    let ghost acc3 = acc2 + opt_token(
        match spec_table_int(t, "interval"@) {
            Some(n) => Some("INTERVAL="@ + int_text(n as int)),
            None => None,
        },
    );
    proof {
        assert(tokens@.map_values(|w: Vec<char>| w@) =~= acc3);
    }
    let byday = str_list(table, "by-day");
    if byday.len() > 0 {
        push_token(&mut tokens, "BYDAY=", &join_chars(&byday, ","));
    }
    let ghost bd = table_upper_list(t, "by-day"@);
    let ghost acc4 = acc3 + (if bd.len() > 0 {
        seq!["BYDAY="@ + join_with(bd, ","@)]
    } else {
        Seq::empty()
    });
    proof {
        assert(tokens@.map_values(|w: Vec<char>| w@) =~= acc4);
    }
    push_list(&mut tokens, "BYMONTHDAY=", &int_list(table, "by-month-day"));
    push_list(&mut tokens, "BYMONTH=", &int_list(table, "by-month"));
    push_list(&mut tokens, "BYSETPOS=", &int_list(table, "by-position"));
    let ghost acc5 = acc4 + list_token("BYMONTHDAY="@, table_int_list(t, "by-month-day"@)) + list_token(
        "BYMONTH="@,
        table_int_list(t, "by-month"@),
    ) + list_token("BYSETPOS="@, table_int_list(t, "by-position"@));
    proof {
        assert(tokens@.map_values(|w: Vec<char>| w@) =~= acc5);
    }
    if let Some(w) = table_text(table, &chars_of("week-start")) {
        push_token(&mut tokens, "WKST=", &to_upper(&w));
    }
    let ghost acc6 = acc5 + opt_token(
        match spec_table_text(t, "week-start"@) {
            Some(w) => Some("WKST="@ + unicode_upper(w)),
            None => None,
        },
    );
    proof {
        assert(tokens@.map_values(|w: Vec<char>| w@) =~= acc6);
        assert(acc6 =~= rule_tokens(t, freq@));
    }
    Some(join_chars(&tokens, ";"))
}

/// The raw escape hatch round-trips: a rule with a part tcal does not model
/// projects to the one `<prefix>.rule` line holding it whole, a modelled one
/// to the friendly keys alone, and a table whose `rule` holds text folds back
/// to exactly that text, whatever else it holds.
pub proof fn law_raw_rule_round_trips(rule: Seq<char>, prefix: Seq<char>, table: Seq<(String, Toml)>)
    ensures
        rule.len() > 0 && !all_modelled(rrule_parts(rule)) ==> spec_recur_lines(Some(rule), prefix) == seq![
            (prefix + ".rule = "@ + toml_quoted(rule), Some("raw RRULE; has parts tcal does not model"@)),
        ],
        rule.len() > 0 && all_modelled(rrule_parts(rule)) ==> spec_recur_lines(Some(rule), prefix).len() == 9,
        spec_table_text(table, "rule"@) == Some(rule) ==> spec_recur_rule(table) == Some(rule),
{
}

/// The keys a modelled recurrence projects to, each with its ` = `, in the
/// order the lines come.
pub open spec fn recur_heads() -> Seq<Seq<char>> {
    seq![
        ".frequency = "@,
        ".interval = "@,
        ".count = "@,
        ".until = "@,
        ".by-day = "@,
        ".by-month = "@,
        ".by-month-day = "@,
        ".by-position = "@,
        ".week-start = "@,
    ]
}

proof fn lemma_head_prefix(head: Seq<char>, rest: Seq<char>)
    ensures
        head.is_prefix_of(head + rest),
{
    assert((head + rest).subrange(0, head.len() as int) =~= head);
}

/// A recurrence value with no part tcal does not model, or none at all,
/// projects to nine lines, one per modelled key, in a fixed order: every line
/// opens with `<prefix>` and its key.
pub proof fn law_modelled_rule_keys(value: Option<Seq<char>>, prefix: Seq<char>)
    requires
        match value {
            Some(v) => v.len() == 0 || all_modelled(rrule_parts(v)),
            None => true,
        },
    ensures
        spec_recur_lines(value, prefix).len() == 9,
        forall|i: int|
            0 <= i < 9 ==> (prefix + recur_heads()[i]).is_prefix_of(#[trigger] spec_recur_lines(value, prefix)[i].0),
{
    reveal_strlit(".frequency = ");
    reveal_strlit(".interval = ");
    reveal_strlit(".count = ");
    reveal_strlit(".until = ");
    reveal_strlit(".by-day = ");
    reveal_strlit(".by-month = ");
    reveal_strlit(".by-month-day = ");
    reveal_strlit(".by-position = ");
    reveal_strlit(".week-start = ");
    reveal_strlit(".interval");
    reveal_strlit(".count");
    let lines = spec_recur_lines(value, prefix);
    let rule = match value {
        Some(v) => if v.len() > 0 {
            Some(v)
        } else {
            None
        },
        None => None,
    };
    let parts = match rule {
        Some(r) => rrule_parts(r),
        None => Seq::empty(),
    };
    assert(!(rule is Some && !all_modelled(parts)));
    assert forall|i: int| 0 <= i < 9 implies (prefix + recur_heads()[i]).is_prefix_of(#[trigger] lines[i].0) by {
        let h = prefix + recur_heads()[i];
        if i == 1 || i == 2 {
            let key = if i == 1 {
                prefix + ".interval"@
            } else {
                prefix + ".count"@
            };
            let v = part_int(parts, if i == 1 {
                "INTERVAL"@
            } else {
                "COUNT"@
            });
            let tail = match v {
                Some(n) => crate::line::int_text(n as int),
                None => seq!['"', '"'],
            };
            assert(key + seq![' ', '=', ' '] =~= h);
            assert(lines[i].0 =~= h + tail);
            lemma_head_prefix(h, tail);
        } else {
            let tail = lines[i].0.skip(h.len() as int);
            assert(lines[i].0 =~= h + tail);
            lemma_head_prefix(h, tail);
        }
    }
}

/// Whether a rule holds a part, as one of its `;`-separated parts after the
/// first.
pub open spec fn has_part(rule: Seq<char>, part: Seq<char>) -> bool {
    exists|a: Seq<char>, b: Seq<char>|
        rule == a + ";"@ + part + b && (b.len() == 0 || b[0] == ';')
}

proof fn lemma_join_part(ts: Seq<Seq<char>>, k: int)
    requires
        1 <= k < ts.len(),
    ensures
        exists|a: Seq<char>, b: Seq<char>|
            join_with(ts, ";"@) == a + ";"@ + ts[k] + b && (b.len() == 0 || b[0] == ';'),
    decreases ts.len(),
{
    reveal_strlit(";");
    let dl = ts.drop_last();
    if k == ts.len() - 1 {
        let a = join_with(dl, ";"@);
        let b = Seq::<char>::empty();
        assert(join_with(ts, ";"@) == a + ";"@ + ts[k] + b);
    } else {
        lemma_join_part(dl, k);
        let (a, b) = choose|a: Seq<char>, b: Seq<char>|
            join_with(dl, ";"@) == a + ";"@ + dl[k] + b && (b.len() == 0 || b[0] == ';');
        let b2 = b + ";"@ + ts.last();
        assert(dl[k] == ts[k]);
        assert(join_with(ts, ";"@) == join_with(dl, ";"@) + ";"@ + ts.last());
        assert(join_with(ts, ";"@) =~= a + ";"@ + ts[k] + b2);
        assert(b2[0] == ';');
    }
}

proof fn lemma_join_first(ts: Seq<Seq<char>>)
    requires
        ts.len() >= 1,
    ensures
        ts[0].is_prefix_of(join_with(ts, ";"@)),
        join_with(ts, ";"@).len() == ts[0].len() || join_with(ts, ";"@)[ts[0].len() as int] == ';',
    decreases ts.len(),
{
    reveal_strlit(";");
    if ts.len() == 1 {
        assert(join_with(ts, ";"@).subrange(0, ts[0].len() as int) =~= ts[0]);
    } else {
        let dl = ts.drop_last();
        lemma_join_first(dl);
        assert(dl[0] == ts[0]);
        let j = join_with(ts, ";"@);
        assert(j == join_with(dl, ";"@) + ";"@ + ts.last());
        assert(j.subrange(0, ts[0].len() as int) =~= join_with(dl, ";"@).subrange(0, ts[0].len() as int));
        if join_with(dl, ";"@).len() == ts[0].len() {
            assert(j[ts[0].len() as int] == ';');
        } else {
            assert(j[ts[0].len() as int] == join_with(dl, ";"@)[ts[0].len() as int]);
        }
    }
}

proof fn lemma_token_part(ts: Seq<Seq<char>>, pre: Seq<Seq<char>>, tok: Seq<char>, post: Seq<Seq<char>>)
    requires
        ts == pre + seq![tok] + post,
        pre.len() >= 1,
    ensures
        has_part(join_with(ts, ";"@), tok),
{
    assert(ts[pre.len() as int] == tok);
    lemma_join_part(ts, pre.len() as int);
}

/// Folding a recurrence table back writes every part it holds: a table
/// with a frequency and no raw `rule` gives a rule that opens with `FREQ=`
/// and the frequency uppercased, and holds, each as a `;`-separated part of
/// its own, `UNTIL=` with the until value, `COUNT=` and `INTERVAL=` with
/// their integers, `BYDAY=` with the days uppercased and joined on commas,
/// and `BYMONTHDAY=`, `BYMONTH=` and `BYSETPOS=` with their integers joined
/// on commas, and `WKST=` with the week start uppercased, for each key the
/// table sets.
pub proof fn law_rule_holds_every_part(table: Seq<(String, Toml)>)
    requires
        spec_table_text(table, "rule"@) is None,
        spec_table_text(table, "frequency"@) is Some,
    ensures
        ({
            let freq = spec_table_text(table, "frequency"@).unwrap();
            &&& spec_recur_rule(table) is Some
            &&& ("FREQ="@ + unicode_upper(freq)).is_prefix_of(spec_recur_rule(table).unwrap())
            &&& (spec_recur_rule(table).unwrap().len() == ("FREQ="@ + unicode_upper(freq)).len()
                || spec_recur_rule(table).unwrap()[("FREQ="@ + unicode_upper(freq)).len() as int] == ';')
            &&& until_value(table) matches Some(u) ==> has_part(spec_recur_rule(table).unwrap(), "UNTIL="@ + u)
            &&& spec_table_int(table, "count"@) matches Some(c) ==> has_part(
                spec_recur_rule(table).unwrap(),
                "COUNT="@ + int_text(c as int),
            )
            &&& spec_table_int(table, "interval"@) matches Some(n) ==> has_part(
                spec_recur_rule(table).unwrap(),
                "INTERVAL="@ + int_text(n as int),
            )
            &&& table_upper_list(table, "by-day"@).len() > 0 ==> has_part(
                spec_recur_rule(table).unwrap(),
                "BYDAY="@ + join_with(table_upper_list(table, "by-day"@), ","@),
            )
            &&& table_int_list(table, "by-month-day"@).len() > 0 ==> has_part(
                spec_recur_rule(table).unwrap(),
                "BYMONTHDAY="@ + ints_text(table_int_list(table, "by-month-day"@)),
            )
            &&& table_int_list(table, "by-month"@).len() > 0 ==> has_part(
                spec_recur_rule(table).unwrap(),
                "BYMONTH="@ + ints_text(table_int_list(table, "by-month"@)),
            )
            &&& table_int_list(table, "by-position"@).len() > 0 ==> has_part(
                spec_recur_rule(table).unwrap(),
                "BYSETPOS="@ + ints_text(table_int_list(table, "by-position"@)),
            )
            &&& spec_table_text(table, "week-start"@) matches Some(w) ==> has_part(
                spec_recur_rule(table).unwrap(),
                "WKST="@ + unicode_upper(w),
            )
        }),
{
    let freq = spec_table_text(table, "frequency"@).unwrap();
    let byday = table_upper_list(table, "by-day"@);
    let t0 = seq!["FREQ="@ + unicode_upper(freq)];
    let t1 = opt_token(
        match until_value(table) {
            Some(u) => Some("UNTIL="@ + u),
            None => None,
        },
    );
    let t2 = opt_token(
        match spec_table_int(table, "count"@) {
            Some(c) => Some("COUNT="@ + int_text(c as int)),
            None => None,
        },
    );
    let t3 = opt_token(
        match spec_table_int(table, "interval"@) {
            Some(n) => Some("INTERVAL="@ + int_text(n as int)),
            None => None,
        },
    );
    let t4 = if byday.len() > 0 {
        seq!["BYDAY="@ + join_with(byday, ","@)]
    } else {
        Seq::empty()
    };
    let t5 = list_token("BYMONTHDAY="@, table_int_list(table, "by-month-day"@));
    let t6 = list_token("BYMONTH="@, table_int_list(table, "by-month"@));
    let t7 = list_token("BYSETPOS="@, table_int_list(table, "by-position"@));
    let t8 = opt_token(
        match spec_table_text(table, "week-start"@) {
            Some(w) => Some("WKST="@ + unicode_upper(w)),
            None => None,
        },
    );
    let ts = rule_tokens(table, freq);
    assert(ts == t0 + t1 + t2 + t3 + t4 + t5 + t6 + t7 + t8);
    lemma_nine_parts(t0, t1, t2, t3, t4, t5, t6, t7, t8);
}

#[verifier::spinoff_prover]
#[verifier::rlimit(60)]
proof fn lemma_nine_parts(
    t0: Seq<Seq<char>>,
    t1: Seq<Seq<char>>,
    t2: Seq<Seq<char>>,
    t3: Seq<Seq<char>>,
    t4: Seq<Seq<char>>,
    t5: Seq<Seq<char>>,
    t6: Seq<Seq<char>>,
    t7: Seq<Seq<char>>,
    t8: Seq<Seq<char>>,
)
    requires
        t0.len() == 1,
    ensures
        t0[0].is_prefix_of(join_with(t0 + t1 + t2 + t3 + t4 + t5 + t6 + t7 + t8, ";"@)),
        join_with(t0 + t1 + t2 + t3 + t4 + t5 + t6 + t7 + t8, ";"@).len() == t0[0].len() || join_with(
            t0 + t1 + t2 + t3 + t4 + t5 + t6 + t7 + t8,
            ";"@,
        )[t0[0].len() as int] == ';',
        t1.len() == 1 ==> has_part(join_with(t0 + t1 + t2 + t3 + t4 + t5 + t6 + t7 + t8, ";"@), t1[0]),
        t2.len() == 1 ==> has_part(join_with(t0 + t1 + t2 + t3 + t4 + t5 + t6 + t7 + t8, ";"@), t2[0]),
        t3.len() == 1 ==> has_part(join_with(t0 + t1 + t2 + t3 + t4 + t5 + t6 + t7 + t8, ";"@), t3[0]),
        t4.len() == 1 ==> has_part(join_with(t0 + t1 + t2 + t3 + t4 + t5 + t6 + t7 + t8, ";"@), t4[0]),
        t5.len() == 1 ==> has_part(join_with(t0 + t1 + t2 + t3 + t4 + t5 + t6 + t7 + t8, ";"@), t5[0]),
        t6.len() == 1 ==> has_part(join_with(t0 + t1 + t2 + t3 + t4 + t5 + t6 + t7 + t8, ";"@), t6[0]),
        t7.len() == 1 ==> has_part(join_with(t0 + t1 + t2 + t3 + t4 + t5 + t6 + t7 + t8, ";"@), t7[0]),
        t8.len() == 1 ==> has_part(join_with(t0 + t1 + t2 + t3 + t4 + t5 + t6 + t7 + t8, ";"@), t8[0]),
{
    let ts = t0 + t1 + t2 + t3 + t4 + t5 + t6 + t7 + t8;
    lemma_join_first(ts);
    assert(ts[0] == t0[0]);
    if t1.len() == 1 {
        assert(ts =~= t0 + seq![t1[0]] + (t2 + t3 + t4 + t5 + t6 + t7 + t8));
        lemma_token_part(ts, t0, t1[0], t2 + t3 + t4 + t5 + t6 + t7 + t8);
    }
    if t2.len() == 1 {
        assert(ts =~= (t0 + t1) + seq![t2[0]] + (t3 + t4 + t5 + t6 + t7 + t8));
        lemma_token_part(ts, t0 + t1, t2[0], t3 + t4 + t5 + t6 + t7 + t8);
    }
    if t3.len() == 1 {
        assert(ts =~= (t0 + t1 + t2) + seq![t3[0]] + (t4 + t5 + t6 + t7 + t8));
        lemma_token_part(ts, t0 + t1 + t2, t3[0], t4 + t5 + t6 + t7 + t8);
    }
    if t4.len() == 1 {
        assert(ts =~= (t0 + t1 + t2 + t3) + seq![t4[0]] + (t5 + t6 + t7 + t8));
        lemma_token_part(ts, t0 + t1 + t2 + t3, t4[0], t5 + t6 + t7 + t8);
    }
    if t5.len() == 1 {
        assert(ts =~= (t0 + t1 + t2 + t3 + t4) + seq![t5[0]] + (t6 + t7 + t8));
        lemma_token_part(ts, t0 + t1 + t2 + t3 + t4, t5[0], t6 + t7 + t8);
    }
    if t6.len() == 1 {
        assert(ts =~= (t0 + t1 + t2 + t3 + t4 + t5) + seq![t6[0]] + (t7 + t8));
        lemma_token_part(ts, t0 + t1 + t2 + t3 + t4 + t5, t6[0], t7 + t8);
    }
    if t7.len() == 1 {
        assert(ts =~= (t0 + t1 + t2 + t3 + t4 + t5 + t6) + seq![t7[0]] + t8);
        lemma_token_part(ts, t0 + t1 + t2 + t3 + t4 + t5 + t6, t7[0], t8);
    }
    if t8.len() == 1 {
        assert(ts =~= (t0 + t1 + t2 + t3 + t4 + t5 + t6 + t7) + seq![t8[0]] + Seq::<Seq<char>>::empty());
        lemma_token_part(ts, t0 + t1 + t2 + t3 + t4 + t5 + t6 + t7, t8[0], Seq::empty());
    }
}

pub(crate) proof fn lemma_digits_round(n: nat)
    ensures
        crate::number::all_digits(crate::line::digits(n)),
        crate::number::digits_value(crate::line::digits(n)) == n,
        crate::line::digits(n).len() >= 1,
    decreases n,
{
    let ds = crate::line::digits(n);
    if n < 10 {
        let c = crate::line::digit_char(n as int);
        assert((c as u32) == 48 + n);
        assert(ds == seq![c]);
        assert(ds.drop_last() =~= Seq::<char>::empty());
        assert(crate::number::digits_value(Seq::<char>::empty()) == 0);
    } else {
        lemma_digits_round(n / 10);
        let c = crate::line::digit_char((n % 10) as int);
        assert((c as u32) == 48 + n % 10);
        let ini = crate::line::digits(n / 10);
        assert(ds == ini.push(c));
        assert(ds.drop_last() =~= ini);
        assert(ds.last() == c);
        assert(crate::number::digits_value(ds) == (n / 10) * 10 + n % 10);
        assert forall|i: int| 0 <= i < ds.len() implies crate::number::is_digit(#[trigger] ds[i]) by {
            if i < ini.len() {
                assert(ds[i] == ini[i]);
            }
        }
    }
}

/// An integer written in decimal reads back as itself, and holds no comma
/// and no white space.
pub(crate) proof fn lemma_int_text_reads(v: i64)
    ensures
        spec_parse_i64(trimmed(int_text(v as int))) == Some(v),
        trimmed(int_text(v as int)) == int_text(v as int),
        forall|i: int|
            0 <= i < int_text(v as int).len() ==> #[trigger] int_text(v as int)[i] != ',' && !unicode_space(
                int_text(v as int)[i],
            ),
        int_text(v as int).len() >= 1,
{
    let t = int_text(v as int);
    let n: nat = if v < 0 {
        (-v) as nat
    } else {
        v as nat
    };
    lemma_digits_round(n);
    let ds = crate::line::digits(n);
    assert forall|i: int| 0 <= i < t.len() implies #[trigger] t[i] != ',' && !unicode_space(t[i]) by {
        if v < 0 {
            if i > 0 {
                assert(t[i] == ds[i - 1]);
                assert(crate::number::is_digit(ds[i - 1]));
            }
        } else {
            assert(t[i] == ds[i]);
            assert(crate::number::is_digit(ds[i]));
        }
    }
    crate::text::lemma_lead_bounds(t);
    crate::text::lemma_trail_bounds(t);
    assert(lead(t) == 0) by {
        assert(!unicode_space(t[0]));
    }
    assert(trail(t) == t.len()) by {
        assert(!unicode_space(t[t.len() - 1]));
    }
    assert(trimmed(t) =~= t);
    if v < 0 {
        assert(t.drop_first() =~= ds);
        assert(t[0] == '-');
    } else {
        assert(t == ds);
        assert(crate::number::is_digit(ds[0]));
    }
}

proof fn lemma_pieces_plain(s: Seq<char>, cur: Seq<char>)
    requires
        forall|i: int| 0 <= i < s.len() ==> #[trigger] s[i] != ',',
    ensures
        crate::text::pieces_scan(s, ',', cur) == seq![cur + s],
    decreases s.len(),
{
    if s.len() == 0 {
        assert(cur + s =~= cur);
    } else {
        assert forall|i: int| 0 <= i < s.drop_first().len() implies #[trigger] s.drop_first()[i] != ',' by {
            assert(s.drop_first()[i] == s[i + 1]);
        }
        lemma_pieces_plain(s.drop_first(), cur.push(s[0]));
        assert(cur.push(s[0]) + s.drop_first() =~= cur + s);
    }
}

proof fn lemma_pieces_sep(s: Seq<char>, t: Seq<char>, cur: Seq<char>)
    requires
        forall|i: int| 0 <= i < s.len() ==> #[trigger] s[i] != ',',
    ensures
        crate::text::pieces_scan(s + seq![','] + t, ',', cur) == seq![cur + s] + crate::text::pieces_scan(
            t,
            ',',
            Seq::empty(),
        ),
    decreases s.len(),
{
    let whole = s + seq![','] + t;
    if s.len() == 0 {
        assert(whole =~= seq![','] + t);
        assert(whole.drop_first() =~= t);
        assert(cur + s =~= cur);
    } else {
        assert(whole[0] == s[0]);
        assert(whole.drop_first() =~= s.drop_first() + seq![','] + t);
        assert forall|i: int| 0 <= i < s.drop_first().len() implies #[trigger] s.drop_first()[i] != ',' by {
            assert(s.drop_first()[i] == s[i + 1]);
        }
        lemma_pieces_sep(s.drop_first(), t, cur.push(s[0]));
        assert(cur.push(s[0]) + s.drop_first() =~= cur + s);
    }
}

proof fn lemma_join_front(items: Seq<Seq<char>>)
    requires
        items.len() >= 2,
    ensures
        join_with(items, ","@) == items[0] + ","@ + join_with(items.drop_first(), ","@),
    decreases items.len(),
{
    if items.len() == 2 {
        assert(items.drop_first().len() == 1);
        assert(join_with(items.drop_first(), ","@) == items[1]);
        assert(items.drop_last().len() == 1);
        assert(join_with(items.drop_last(), ","@) == items[0]);
    } else {
        lemma_join_front(items.drop_last());
        assert(items.drop_last().drop_first() =~= items.drop_first().drop_last());
        assert(items.drop_first().last() == items.last());
        assert(items.drop_last()[0] == items[0]);
    }
}

proof fn lemma_pieces_join(items: Seq<Seq<char>>)
    requires
        items.len() >= 1,
        forall|k: int, i: int| 0 <= k < items.len() && 0 <= i < items[k].len() ==> #[trigger] items[k][i] != ',',
    ensures
        pieces(join_with(items, ","@), ',') == items,
    decreases items.len(),
{
    reveal_strlit(",");
    let e = Seq::<char>::empty();
    if items.len() == 1 {
        assert(forall|i: int| 0 <= i < items[0].len() ==> #[trigger] items[0][i] != ',');
        lemma_pieces_plain(items[0], e);
        assert(e + items[0] =~= items[0]);
        assert(seq![items[0]] =~= items);
    } else {
        lemma_join_front(items);
        let rest = items.drop_first();
        assert forall|k: int, i: int| 0 <= k < rest.len() && 0 <= i < rest[k].len() implies #[trigger] rest[k][i]
            != ',' by {
            assert(rest[k] == items[k + 1]);
        }
        lemma_pieces_join(rest);
        assert(forall|i: int| 0 <= i < items[0].len() ==> #[trigger] items[0][i] != ',');
        assert(items[0] + ","@ + join_with(rest, ","@) =~= items[0] + seq![','] + join_with(rest, ","@));
        lemma_pieces_sep(items[0], join_with(rest, ","@), e);
        assert(e + items[0] =~= items[0]);
        assert(seq![items[0]] + rest =~= items);
    }
}

proof fn lemma_ints_of_texts(xs: Seq<i64>)
    ensures
        ints_of(xs.map_values(|v: i64| int_text(v as int))) == xs,
    decreases xs.len(),
{
    let ts = xs.map_values(|v: i64| int_text(v as int));
    if xs.len() > 0 {
        lemma_ints_of_texts(xs.drop_last());
        assert(ts.drop_last() =~= xs.drop_last().map_values(|v: i64| int_text(v as int)));
        lemma_int_text_reads(xs.last());
        assert(ts.last() == int_text(xs.last() as int));
        assert(xs.drop_last().push(xs.last()) =~= xs);
    } else {
        assert(ts =~= Seq::<Seq<char>>::empty());
    }
}

/// Integers written as a rule writes a list part read back as themselves.
proof fn lemma_ints_text_reads(xs: Seq<i64>)
    ensures
        ints_of(pieces(ints_text(xs), ',')) == xs,
{
    let ts = xs.map_values(|v: i64| int_text(v as int));
    if xs.len() == 0 {
        assert(ts =~= Seq::<Seq<char>>::empty());
        assert(ints_text(xs) == Seq::<char>::empty());
        assert(pieces(Seq::<char>::empty(), ',') == seq![Seq::<char>::empty()]);
        assert(seq![Seq::<char>::empty()].drop_last() =~= Seq::<Seq<char>>::empty());
        assert(trimmed(Seq::<char>::empty()) =~= Seq::<char>::empty());
        assert(spec_parse_i64(Seq::<char>::empty()) is None);
        let one = seq![Seq::<char>::empty()];
        assert(one.last() == Seq::<char>::empty());
        assert(ints_of(one.drop_last()) == Seq::<i64>::empty());
        assert(ints_of(one) == Seq::<i64>::empty());
        assert(xs =~= Seq::<i64>::empty());
    } else {
        assert forall|k: int, i: int| 0 <= k < ts.len() && 0 <= i < ts[k].len() implies #[trigger] ts[k][i] != ',' by {
            lemma_int_text_reads(xs[k]);
        }
        lemma_pieces_join(ts);
        lemma_ints_of_texts(xs);
    }
}

/// A modelled rule projects each part to the key that stands for it, and a
/// part written the way tcal writes it reads back as it was: a rule whose
/// `BYMONTH` part is the integers `xs` joined on commas shows
/// `<prefix>.by-month = ` and the array of `xs`, and likewise `BYMONTHDAY`
/// on `by-month-day` and `BYSETPOS` on `by-position`; a rule whose
/// `INTERVAL` or `COUNT` part is an integer written in decimal shows it on
/// `interval` or `count`; `FREQ` and `WKST` show lowercased on `frequency`
/// and `week-start`, and the days of `BYDAY` on `by-day`. With [`law_rule_holds_every_part`], folding those
/// keys back writes the same parts.
pub proof fn law_parts_show_on_their_keys(rule: Seq<char>, prefix: Seq<char>, xs: Seq<i64>, n: i64, word: Seq<char>)
    requires
        rule.len() > 0,
        all_modelled(rrule_parts(rule)),
    ensures
        ({
            let parts = rrule_parts(rule);
            let lines = spec_recur_lines(Some(rule), prefix);
            &&& part_value(parts, "BYMONTH"@) == Some(ints_text(xs)) ==> lines[5].0 == prefix + ".by-month = "@
                + toml_integer_array(xs)
            &&& part_value(parts, "BYMONTHDAY"@) == Some(ints_text(xs)) ==> lines[6].0 == prefix
                + ".by-month-day = "@ + toml_integer_array(xs)
            &&& part_value(parts, "BYSETPOS"@) == Some(ints_text(xs)) ==> lines[7].0 == prefix + ".by-position = "@
                + toml_integer_array(xs)
            &&& part_value(parts, "INTERVAL"@) == Some(int_text(n as int)) ==> lines[1].0 == prefix
                + ".interval = "@ + int_text(n as int)
            &&& part_value(parts, "COUNT"@) == Some(int_text(n as int)) ==> lines[2].0 == prefix + ".count = "@
                + int_text(n as int)
            &&& part_value(parts, "FREQ"@) == Some(word) ==> lines[0].0 == prefix + ".frequency = "@
                + toml_quoted(unicode_lower(word))
            &&& part_value(parts, "WKST"@) == Some(word) ==> lines[8].0 == prefix + ".week-start = "@
                + toml_quoted(unicode_lower(word))
            &&& part_value(parts, "BYDAY"@) == Some(word) ==> lines[4].0 == prefix + ".by-day = "@
                + toml_text_array(pieces(word, ',').map_values(|p: Seq<char>| unicode_lower(p)))
            &&& lines.len() == 9
            &&& part_value(parts, "BYMONTH"@) is None ==> lines[5].0 == prefix + ".by-month = "@
                + toml_integer_array(Seq::empty())
            &&& part_value(parts, "BYMONTHDAY"@) is None ==> lines[6].0 == prefix + ".by-month-day = "@
                + toml_integer_array(Seq::empty())
            &&& part_value(parts, "BYSETPOS"@) is None ==> lines[7].0 == prefix + ".by-position = "@
                + toml_integer_array(Seq::empty())
        }),
{
    reveal_strlit(" = ");
    reveal_strlit(".interval");
    reveal_strlit(".count");
    reveal_strlit(".interval = ");
    reveal_strlit(".count = ");
    lemma_ints_text_reads(xs);
    lemma_int_text_reads(n);
    let parts = rrule_parts(rule);
    let lines = spec_recur_lines(Some(rule), prefix);
    if part_value(parts, "INTERVAL"@) == Some(int_text(n as int)) {
        assert(part_int(parts, "INTERVAL"@) == Some(n));
        assert(lines[1].0 =~= prefix + ".interval = "@ + int_text(n as int));
    }
    if part_value(parts, "COUNT"@) == Some(int_text(n as int)) {
        assert(part_int(parts, "COUNT"@) == Some(n));
        assert(lines[2].0 =~= prefix + ".count = "@ + int_text(n as int));
    }
}

} // verus!
