//! Durations (`DURATION`, an alarm `TRIGGER` offset) as dotted
//! `<key>.{week,day,hour,min,sec}` magnitude keys, the sign implied.

use vstd::prelude::*;

use crate::edit::{find_char, index_of_char, lemma_index_of_char_bounds};
use crate::line::{
    int_chars, int_chars_wide, int_line_chars, int_line_lhs, int_text, lines_view, make_line, Line,
};
use crate::number::{
    all_digits, is_digit, parse_i64, spec_parse_i64, spec_table_int, spec_table_text, table_int, table_text,
};
use crate::recurrence::{lemma_digits_round, lemma_int_text_reads};
use crate::text::{chars_of, copy_chars, lead, push_all, slice_chars, trail, trim, trimmed, unicode_space};
use crate::toml::{toml_quoted, toml_str, Toml};

verus! {

/// A duration segment (`1D`, `2H30M`) as `(number, unit)` pairs, `digits`
/// being the number begun before `s`. `None` when a number has no unit or a
/// unit has no number.
pub open spec fn units_scan(s: Seq<char>, digits: Seq<char>) -> Option<Seq<(i64, char)>>
    decreases s.len(),
{
    if s.len() == 0 {
        if digits.len() == 0 {
            Some(Seq::empty())
        } else {
            None
        }
    } else if is_digit(s[0]) {
        units_scan(s.drop_first(), digits.push(s[0]))
    } else if digits.len() == 0 {
        None
    } else {
        match spec_parse_i64(digits) {
            None => None,
            Some(n) => match units_scan(s.drop_first(), Seq::empty()) {
                Some(rest) => Some(seq![(n, s[0])] + rest),
                None => None,
            },
        }
    }
}

/// Split a duration segment into `(number, unit)` pairs.
fn scan_units(segment: &[char]) -> (r: Option<Vec<(i64, char)>>)
    ensures
        match r {
            Some(v) => units_scan(segment@, Seq::empty()) == Some(v@),
            None => units_scan(segment@, Seq::empty()) is None,
        },
{
    let mut pairs: Vec<(i64, char)> = Vec::new();
    let mut digits: Vec<char> = Vec::new();
    let mut i: usize = 0;
    proof {
        assert(segment@.skip(0) =~= segment@);
    }
    while i < segment.len()
        invariant
            i <= segment.len(),
            match units_scan(segment@, Seq::empty()) {
                Some(all) => units_scan(segment@.skip(i as int), digits@) matches Some(rest)
                    && all == pairs@ + rest,
                None => units_scan(segment@.skip(i as int), digits@) is None,
            },
        decreases segment.len() - i,
    {
        let ch = segment[i];
        let ghost rest = segment@.skip(i as int);
        proof {
            assert(rest[0] == ch);
            assert(rest.drop_first() =~= segment@.skip(i + 1));
        }
        if '0' <= ch && ch <= '9' {
            digits.push(ch);
        } else {
            if digits.len() == 0 {
                return None;
            }
            match parse_i64(&digits) {
                None => return None,
                Some(n) => {
                    let ghost before = pairs@;
                    pairs.push((n, ch));
                    digits = Vec::new();
                    proof {
                        assert(digits@ =~= Seq::<char>::empty());
                        match units_scan(segment@, Seq::empty()) {
                            Some(all) => {
                                let tail = units_scan(segment@.skip(i + 1), Seq::empty()).unwrap();
                                assert(all == before + (seq![(n, ch)] + tail));
                                assert(all =~= pairs@ + tail);
                            },
                            None => {},
                        }
                    }
                },
            }
        }
        i = i + 1;
    }
    proof {
        assert(segment@.skip(i as int) =~= Seq::<char>::empty());
    }
    if digits.len() == 0 {
        proof {
            assert(pairs@ + Seq::<(i64, char)>::empty() =~= pairs@);
        }
        Some(pairs)
    } else {
        None
    }
}

/// The week and day a date segment's units set, the last of a unit winning.
pub open spec fn date_units(units: Seq<(i64, char)>, week: i64, day: i64) -> Option<(i64, i64)>
    decreases units.len(),
{
    if units.len() == 0 {
        Some((week, day))
    } else if units[0].1 == 'W' {
        date_units(units.drop_first(), units[0].0, day)
    } else if units[0].1 == 'D' {
        date_units(units.drop_first(), week, units[0].0)
    } else {
        None
    }
}

/// The hour, minute and second a time segment's units set.
pub open spec fn time_units(units: Seq<(i64, char)>, hour: i64, minute: i64, second: i64) -> Option<
    (i64, i64, i64),
>
    decreases units.len(),
{
    if units.len() == 0 {
        Some((hour, minute, second))
    } else if units[0].1 == 'H' {
        time_units(units.drop_first(), units[0].0, minute, second)
    } else if units[0].1 == 'M' {
        time_units(units.drop_first(), hour, units[0].0, second)
    } else if units[0].1 == 'S' {
        time_units(units.drop_first(), hour, minute, units[0].0)
    } else {
        None
    }
}

/// The body of a duration once trimmed and stripped of its sign.
pub open spec fn unsigned(value: Seq<char>) -> Seq<char> {
    let v = trimmed(value);
    if v.len() > 0 && (v[0] == '+' || v[0] == '-') {
        v.drop_first()
    } else {
        v
    }
}

/// An iCalendar duration (`P1DT2H30M`, `PT15M`, `P2W`, optionally signed) as
/// unsigned magnitudes `(week, day, hour, minute, second)`; `None` when it is
/// not a duration or sets no part.
pub open spec fn spec_parse_duration(value: Seq<char>) -> Option<(i64, i64, i64, i64, i64)> {
    let v = unsigned(value);
    if v.len() == 0 || v[0] != 'P' {
        None
    } else {
        let body = v.drop_first();
        let t = index_of_char(body, 'T');
        let date = if t >= 0 {
            body.take(t)
        } else {
            body
        };
        match units_scan(date, Seq::empty()) {
            None => None,
            Some(du) => match date_units(du, 0, 0) {
                None => None,
                Some((week, day)) => {
                    let hms = if t >= 0 {
                        match units_scan(body.skip(t + 1), Seq::empty()) {
                            None => None,
                            Some(tu) => if tu.len() == 0 {
                                None
                            } else {
                                time_units(tu, 0, 0, 0)
                            },
                        }
                    } else {
                        Some((0i64, 0i64, 0i64))
                    };
                    match hms {
                        None => None,
                        Some((hour, minute, second)) => if week == 0 && day == 0 && hour == 0
                            && minute == 0 && second == 0 {
                            None
                        } else {
                            Some((week, day, hour, minute, second))
                        },
                    }
                },
            },
        }
    }
}

fn fold_date_units(units: &Vec<(i64, char)>) -> (r: Option<(i64, i64)>)
    ensures
        r == date_units(units@, 0, 0),
{
    let mut week: i64 = 0;
    let mut day: i64 = 0;
    let mut i: usize = 0;
    proof {
        assert(units@.skip(0) =~= units@);
    }
    while i < units.len()
        invariant
            i <= units.len(),
            date_units(units@, 0, 0) == date_units(units@.skip(i as int), week, day),
        decreases units.len() - i,
    {
        let (n, unit) = units[i];
        proof {
            assert(units@.skip(i as int)[0] == units@[i as int]);
            assert(units@.skip(i as int).drop_first() =~= units@.skip(i + 1));
        }
        if unit == 'W' {
            week = n;
        } else if unit == 'D' {
            day = n;
        } else {
            return None;
        }
        i = i + 1;
    }
    proof {
        assert(units@.skip(i as int) =~= Seq::<(i64, char)>::empty());
    }
    Some((week, day))
}

fn fold_time_units(units: &Vec<(i64, char)>) -> (r: Option<(i64, i64, i64)>)
    ensures
        r == time_units(units@, 0, 0, 0),
{
    let mut hour: i64 = 0;
    let mut minute: i64 = 0;
    let mut second: i64 = 0;
    let mut i: usize = 0;
    proof {
        assert(units@.skip(0) =~= units@);
    }
    while i < units.len()
        invariant
            i <= units.len(),
            time_units(units@, 0, 0, 0) == time_units(units@.skip(i as int), hour, minute, second),
        decreases units.len() - i,
    {
        let (n, unit) = units[i];
        proof {
            assert(units@.skip(i as int)[0] == units@[i as int]);
            assert(units@.skip(i as int).drop_first() =~= units@.skip(i + 1));
        }
        if unit == 'H' {
            hour = n;
        } else if unit == 'M' {
            minute = n;
        } else if unit == 'S' {
            second = n;
        } else {
            return None;
        }
        i = i + 1;
    }
    proof {
        assert(units@.skip(i as int) =~= Seq::<(i64, char)>::empty());
    }
    Some((hour, minute, second))
}

/// Parse an iCalendar duration into unsigned magnitudes.
pub fn parse_duration(value: &[char]) -> (r: Option<(i64, i64, i64, i64, i64)>)
    ensures
        r == spec_parse_duration(value@),
{
    let v = trim(value);
    let v = if v.len() > 0 && (v[0] == '+' || v[0] == '-') {
        slice_chars(&v, 1, v.len())
    } else {
        v
    };
    proof {
        assert(v@ == unsigned(value@));
    }
    if v.len() == 0 || v[0] != 'P' {
        return None;
    }
    let body = slice_chars(&v, 1, v.len());
    proof {
        assert(body@ =~= v@.drop_first());
        lemma_index_of_char_bounds(body@, 'T');
    }
    let t = find_char(&body, 'T');
    let date = match t {
        Some(t) => slice_chars(&body, 0, t),
        None => copy_chars(&body),
    };
    let du = match scan_units(&date) {
        Some(du) => du,
        None => return None,
    };
    let (week, day) = match fold_date_units(&du) {
        Some(wd) => wd,
        None => return None,
    };
    let (hour, minute, second) = match t {
        Some(t) => {
            let time = slice_chars(&body, t + 1, body.len());
            let tu = match scan_units(&time) {
                Some(tu) => tu,
                None => return None,
            };
            if tu.len() == 0 {
                return None;
            }
            match fold_time_units(&tu) {
                Some(hms) => hms,
                None => return None,
            }
        },
        None => (0, 0, 0),
    };
    if week == 0 && day == 0 && hour == 0 && minute == 0 && second == 0 {
        return None;
    }
    Some((week, day, hour, minute, second))
}

/// A part of a parsed duration, shown where it is not zero.
pub open spec fn set_part(v: i64) -> Option<i64> {
    if v != 0 {
        Some(v)
    } else {
        None
    }
}

/// The dotted keys a duration projects to.
pub open spec fn spec_duration_lines(text: Option<Seq<char>>, prefix: Seq<char>, hint: Option<Seq<char>>) -> Seq<
    (Seq<char>, Option<Seq<char>>),
> {
    let value = match text {
        Some(t) => if t.len() > 0 {
            Some(t)
        } else {
            None
        },
        None => None,
    };
    let parts = match value {
        Some(v) => spec_parse_duration(v),
        None => None,
    };
    if value is Some && parts is None {
        seq![
            (
                prefix + ".raw = "@ + toml_quoted(value.unwrap()),
                Some("raw duration; tcal could not break it into parts"@),
            ),
        ]
    } else {
        let (w, d, h, m, s) = match parts {
            Some(p) => p,
            None => (0i64, 0i64, 0i64, 0i64, 0i64),
        };
        seq![
            (int_line_lhs(prefix + ".week"@, set_part(w)), hint),
            (int_line_lhs(prefix + ".day"@, set_part(d)), None),
            (int_line_lhs(prefix + ".hour"@, set_part(h)), None),
            (int_line_lhs(prefix + ".min"@, set_part(m)), None),
            (int_line_lhs(prefix + ".sec"@, set_part(s)), None),
        ]
    }
}

fn set_of(v: i64) -> (r: Option<i64>)
    ensures
        r == set_part(v),
{
    if v != 0 {
        Some(v)
    } else {
        None
    }
}

/// `prefix` followed by a literal suffix.
pub fn joined(prefix: &[char], suffix: &str) -> (out: Vec<char>)
    ensures
        out@ == prefix@ + suffix@,
{
    let mut out = copy_chars(prefix);
    push_all(&mut out, &chars_of(suffix));
    out
}

/// Project a duration value as dotted magnitude keys, the field's hint on
/// the leading line. A value that is not a plain duration (an absolute
/// date-time trigger) is shown raw as `<prefix>.raw`, round-tripping intact.
pub fn duration_lines(text: Option<&[char]>, prefix: &[char], hint: Option<Vec<char>>) -> (lines: Vec<Line>)
    ensures
        lines_view(lines@) == spec_duration_lines(
            match text {
                Some(t) => Some(t@),
                None => None,
            },
            prefix@,
            match hint {
                Some(h) => Some(h@),
                None => None,
            },
        ),
{
    let value: Option<&[char]> = match text {
        Some(t) => if t.len() > 0 {
            Some(t)
        } else {
            None
        },
        None => None,
    };
    let parts = match value {
        Some(v) => parse_duration(v),
        None => None,
    };
    if value.is_some() && parts.is_none() {
        let v = value.unwrap();
        let mut lhs = joined(prefix, ".raw = ");
        push_all(&mut lhs, &chars_of(toml_str(crate::text::string_of(v).as_str()).as_str()));
        let line = make_line(&lhs, Some(chars_of("raw duration; tcal could not break it into parts")));
        let mut lines = Vec::new();
        lines.push(line);
        proof {
            assert(lines_view(lines@) =~= spec_duration_lines(Some(v@), prefix@, match hint {
                Some(h) => Some(h@),
                None => None,
            }));
        }
        return lines;
    }
    let (w, d, h, m, s) = match parts {
        Some(p) => p,
        None => (0, 0, 0, 0, 0),
    };
    let mut lines = Vec::new();
    lines.push(make_line(&int_line_chars(&joined(prefix, ".week"), set_of(w)), hint));
    lines.push(make_line(&int_line_chars(&joined(prefix, ".day"), set_of(d)), None));
    lines.push(make_line(&int_line_chars(&joined(prefix, ".hour"), set_of(h)), None));
    lines.push(make_line(&int_line_chars(&joined(prefix, ".min"), set_of(m)), None));
    lines.push(make_line(&int_line_chars(&joined(prefix, ".sec"), set_of(s)), None));
    proof {
        assert(lines_view(lines@) =~= spec_duration_lines(
            match text {
                Some(t) => Some(t@),
                None => None,
            },
            prefix@,
            match hint {
                Some(h) => Some(h@),
                None => None,
            },
        ));
    }
    lines
}

pub open spec fn or_zero(v: Option<i64>) -> i64 {
    match v {
        Some(x) => x,
        None => 0,
    }
}

/// A number and its unit letter, where the number is not zero.
pub open spec fn unit_part(v: int, unit: Seq<char>) -> Seq<char> {
    if v != 0 {
        int_text(v) + unit
    } else {
        Seq::empty()
    }
}

/// The duration some parts assemble to, `-` in front when `negative`. A lone
/// week stays `P<n>W`; weeks otherwise fold into days. `None` when no part is
/// set.
pub open spec fn assembled(w: int, d: int, h: int, m: int, s: int, negative: bool) -> Option<Seq<char>> {
    let sign = if negative {
        "-"@
    } else {
        Seq::empty()
    };
    if w == 0 && d == 0 && h == 0 && m == 0 && s == 0 {
        None
    } else if w != 0 && d == 0 && h == 0 && m == 0 && s == 0 {
        Some(sign + "P"@ + int_text(w) + "W"@)
    } else {
        Some(
            sign + "P"@ + unit_part(d + 7 * w, "D"@) + (if h != 0 || m != 0 || s != 0 {
                "T"@ + unit_part(h, "H"@) + unit_part(m, "M"@) + unit_part(s, "S"@)
            } else {
                Seq::empty()
            }),
        )
    }
}

/// The duration a table's `week/day/hour/min/sec` parts (or its raw `raw`
/// escape hatch) assemble to.
pub open spec fn spec_duration_value(table: Seq<(String, Toml)>, negative: bool) -> Option<Seq<char>> {
    match spec_table_text(table, "raw"@) {
        Some(raw) => Some(raw),
        None => assembled(
            or_zero(spec_table_int(table, "week"@)) as int,
            or_zero(spec_table_int(table, "day"@)) as int,
            or_zero(spec_table_int(table, "hour"@)) as int,
            or_zero(spec_table_int(table, "min"@)) as int,
            or_zero(spec_table_int(table, "sec"@)) as int,
            negative,
        ),
    }
}

fn push_unit(out: &mut Vec<char>, v: i64, unit: &str)
    ensures
        final(out)@ == old(out)@ + unit_part(v as int, unit@),
{
    if v != 0 {
        push_all(out, &int_chars(v));
        push_all(out, &chars_of(unit));
        proof {
            assert(final(out)@ =~= old(out)@ + (int_text(v as int) + unit@));
        }
    } else {
        proof {
            assert(out@ =~= old(out)@ + Seq::<char>::empty());
        }
    }
}

fn time_part(h: i64, m: i64, s: i64) -> (out: Vec<char>)
    ensures
        out@ == (if h != 0 || m != 0 || s != 0 {
            "T"@ + unit_part(h as int, "H"@) + unit_part(m as int, "M"@) + unit_part(s as int, "S"@)
        } else {
            Seq::empty()
        }),
{
    let mut out: Vec<char> = Vec::new();
    if h != 0 || m != 0 || s != 0 {
        push_all(&mut out, &chars_of("T"));
        push_unit(&mut out, h, "H");
        push_unit(&mut out, m, "M");
        push_unit(&mut out, s, "S");
        proof {
            assert(out@ =~= "T"@ + unit_part(h as int, "H"@) + unit_part(m as int, "M"@) + unit_part(
                s as int,
                "S"@,
            ));
        }
    }
    out
}

/// Assemble a duration from its parts.
fn assemble(w: i64, d: i64, h: i64, m: i64, s: i64, negative: bool) -> (r: Option<Vec<char>>)
    ensures
        match r {
            Some(v) => assembled(w as int, d as int, h as int, m as int, s as int, negative) == Some(
                v@,
            ),
            None => assembled(w as int, d as int, h as int, m as int, s as int, negative) is None,
        },
{
    if w == 0 && d == 0 && h == 0 && m == 0 && s == 0 {
        return None;
    }
    let mut out: Vec<char> = Vec::new();
    if negative {
        push_all(&mut out, &chars_of("-"));
    }
    push_all(&mut out, &chars_of("P"));
    let ghost sign: Seq<char> = if negative {
        "-"@
    } else {
        Seq::empty()
    };
    proof {
        assert(out@ =~= sign + "P"@);
    }
    if w != 0 && d == 0 && h == 0 && m == 0 && s == 0 {
        push_all(&mut out, &int_chars(w));
        push_all(&mut out, &chars_of("W"));
        proof {
            assert(out@ =~= sign + "P"@ + int_text(w as int) + "W"@);
        }
        return Some(out);
    }
    let days: i128 = (d as i128) + 7 * (w as i128);
    let ghost before = out@;
    if days != 0 {
        push_all(&mut out, &int_chars_wide(days));
        push_all(&mut out, &chars_of("D"));
    }
    proof {
        assert(out@ =~= before + unit_part(d + 7 * w, "D"@));
    }
    let ghost mid = out@;
    push_all(&mut out, &time_part(h, m, s));
    Some(out)
}

/// Assemble an iCalendar duration from a table's parts, prefixing `-` when
/// `negative`.
pub fn duration_value(table: &Vec<(String, Toml)>, negative: bool) -> (r: Option<Vec<char>>)
    ensures
        match r {
            Some(v) => spec_duration_value(table@, negative) == Some(v@),
            None => spec_duration_value(table@, negative) is None,
        },
{
    if let Some(raw) = table_text(table, &chars_of("raw")) {
        return Some(raw);
    }
    let w = match table_int(table, &chars_of("week")) {
        Some(x) => x,
        None => 0,
    };
    let d = match table_int(table, &chars_of("day")) {
        Some(x) => x,
        None => 0,
    };
    let h = match table_int(table, &chars_of("hour")) {
        Some(x) => x,
        None => 0,
    };
    let m = match table_int(table, &chars_of("min")) {
        Some(x) => x,
        None => 0,
    };
    let s = match table_int(table, &chars_of("sec")) {
        Some(x) => x,
        None => 0,
    };
    assemble(w, d, h, m, s, negative)
}


/// The `(number, unit)` pair a part shows, nothing where the part is zero.
pub open spec fn unit_list(v: int, u: char) -> Seq<(i64, char)> {
    if v == 0 {
        Seq::empty()
    } else {
        seq![(v as i64, u)]
    }
}

proof fn lemma_scan_number(ds: Seq<char>, u: char, rest: Seq<char>, pre: Seq<char>)
    requires
        all_digits(ds),
        !is_digit(u),
        pre.len() + ds.len() > 0,
    ensures
        units_scan(ds + seq![u] + rest, pre) == match spec_parse_i64(pre + ds) {
            None => None,
            Some(n) => match units_scan(rest, Seq::empty()) {
                Some(r) => Some(seq![(n, u)] + r),
                None => None,
            },
        },
    decreases ds.len(),
{
    let whole = ds + seq![u] + rest;
    if ds.len() == 0 {
        assert(whole[0] == u);
        assert(whole.drop_first() =~= rest);
        assert(pre + ds =~= pre);
    } else {
        assert(whole[0] == ds[0]);
        assert(is_digit(ds[0]));
        assert(whole.drop_first() =~= ds.drop_first() + seq![u] + rest);
        assert forall|i: int| 0 <= i < ds.drop_first().len() implies is_digit(#[trigger] ds.drop_first()[i]) by {
            assert(ds.drop_first()[i] == ds[i + 1]);
        }
        lemma_scan_number(ds.drop_first(), u, rest, pre.push(ds[0]));
        assert(pre.push(ds[0]) + ds.drop_first() =~= pre + ds);
    }
}

/// A part, written the way a duration writes it, scans back to its pair.
proof fn lemma_unit_scan(v: int, u: char, rest: Seq<char>)
    requires
        0 <= v <= i64::MAX,
        !is_digit(u),
        u != 'T',
        !unicode_space(u),
    ensures
        units_scan(unit_part(v, seq![u]) + rest, Seq::empty()) == match units_scan(rest, Seq::empty()) {
            Some(r) => Some(unit_list(v, u) + r),
            None => None,
        },
        forall|i: int| 0 <= i < unit_part(v, seq![u]).len() ==> {
            let c = #[trigger] unit_part(v, seq![u])[i];
            c != 'T' && !unicode_space(c)
        },
{
    if v == 0 {
        assert(unit_part(v, seq![u]) + rest =~= rest);
        match units_scan(rest, Seq::empty()) {
            Some(r) => {
                assert(unit_list(v, u) + r =~= r);
            },
            None => {},
        }
    } else {
        let n: nat = v as nat;
        lemma_int_text_reads(v as i64);
        lemma_digits_round(n);
        let ds = crate::line::digits(n);
        assert(int_text(v) == ds);
        assert(unit_part(v, seq![u]) + rest =~= ds + seq![u] + rest);
        lemma_scan_number(ds, u, rest, Seq::empty());
        assert(Seq::<char>::empty() + ds =~= ds);
        assert(spec_parse_i64(ds) == Some(v as i64));
        assert forall|i: int| 0 <= i < unit_part(v, seq![u]).len() implies {
            let c = #[trigger] unit_part(v, seq![u])[i];
            c != 'T' && !unicode_space(c)
        } by {
            if i < ds.len() {
                assert(unit_part(v, seq![u])[i] == ds[i]);
                assert(is_digit(ds[i]));
                assert(int_text(v as i64 as int)[i] == ds[i]);
            } else {
                assert(unit_part(v, seq![u])[i] == u);
            }
        }
    }
}


proof fn lemma_time_front(v: int, u: char, r: Seq<(i64, char)>, a: i64, b: i64, c: i64)
    requires
        u == 'H' || u == 'M' || u == 'S',
    ensures
        time_units(unit_list(v, u) + r, a, b, c) == (if v == 0 {
            time_units(r, a, b, c)
        } else if u == 'H' {
            time_units(r, v as i64, b, c)
        } else if u == 'M' {
            time_units(r, a, v as i64, c)
        } else {
            time_units(r, a, b, v as i64)
        }),
{
    let whole = unit_list(v, u) + r;
    if v == 0 {
        assert(whole =~= r);
    } else {
        assert(whole[0] == (v as i64, u));
        assert(whole.drop_first() =~= r);
    }
}

/// The time segment a duration writes scans back to its hour, minute and
/// second.
proof fn lemma_time_scan(h: int, m: int, s: int)
    requires
        0 <= h <= i64::MAX,
        0 <= m <= i64::MAX,
        0 <= s <= i64::MAX,
    ensures
        ({
            let text = unit_part(h, "H"@) + unit_part(m, "M"@) + unit_part(s, "S"@);
            &&& units_scan(text, Seq::empty()) matches Some(tu)
            &&& (tu.len() == 0) == (h == 0 && m == 0 && s == 0)
            &&& time_units(tu, 0, 0, 0) == Some((h as i64, m as i64, s as i64))
            &&& forall|i: int| 0 <= i < text.len() ==> #[trigger] text[i] != 'T' && !unicode_space(text[i])
        }),
{
    reveal_strlit("H");
    reveal_strlit("M");
    reveal_strlit("S");
    assert("H"@ =~= seq!['H']);
    assert("M"@ =~= seq!['M']);
    assert("S"@ =~= seq!['S']);
    let e = Seq::<char>::empty();
    let hp = unit_part(h, "H"@);
    let mp = unit_part(m, "M"@);
    let sp = unit_part(s, "S"@);
    assert(units_scan(e, e) == Some(Seq::<(i64, char)>::empty()));
    lemma_unit_scan(s, 'S', e);
    assert(sp + e =~= sp);
    let sl = unit_list(s, 'S') + Seq::<(i64, char)>::empty();
    assert(sl =~= unit_list(s, 'S'));
    lemma_unit_scan(m, 'M', sp);
    lemma_unit_scan(h, 'H', mp + sp);
    let text = hp + mp + sp;
    assert(text =~= hp + (mp + sp));
    let tu = unit_list(h, 'H') + (unit_list(m, 'M') + unit_list(s, 'S'));
    assert(units_scan(text, e) == Some(tu));
    let z = Seq::<(i64, char)>::empty();
    lemma_time_front(h, 'H', unit_list(m, 'M') + unit_list(s, 'S'), 0, 0, 0);
    let h1: i64 = if h == 0 { 0 } else { h as i64 };
    lemma_time_front(m, 'M', unit_list(s, 'S'), h1, 0, 0);
    let m1: i64 = if m == 0 { 0 } else { m as i64 };
    assert(unit_list(s, 'S') + z =~= unit_list(s, 'S'));
    lemma_time_front(s, 'S', z, h1, m1, 0);
    assert forall|i: int| 0 <= i < text.len() implies #[trigger] text[i] != 'T' && !unicode_space(text[i]) by {
        if i < hp.len() {
            assert(text[i] == hp[i]);
        } else if i < hp.len() + mp.len() {
            assert(text[i] == mp[i - hp.len()]);
        } else {
            assert(text[i] == sp[i - hp.len() - mp.len()]);
        }
    }
}

/// The first `c` after a run that holds none lies past that run.
proof fn lemma_index_past(x: Seq<char>, y: Seq<char>, c: char)
    requires
        forall|i: int| 0 <= i < x.len() ==> #[trigger] x[i] != c,
    ensures
        index_of_char(x + y, c) == (if index_of_char(y, c) < 0 {
            -1
        } else {
            x.len() + index_of_char(y, c)
        }),
    decreases x.len(),
{
    if x.len() == 0 {
        assert(x + y =~= y);
    } else {
        assert((x + y)[0] == x[0]);
        assert((x + y).drop_first() =~= x.drop_first() + y);
        assert forall|i: int| 0 <= i < x.drop_first().len() implies #[trigger] x.drop_first()[i] != c by {
            assert(x.drop_first()[i] == x[i + 1]);
        }
        lemma_index_past(x.drop_first(), y, c);
        lemma_index_of_char_bounds(y, c);
    }
}

proof fn lemma_no_space_trimmed(s: Seq<char>)
    requires
        forall|i: int| 0 <= i < s.len() ==> !unicode_space(#[trigger] s[i]),
    ensures
        trimmed(s) == s,
{
    crate::text::lemma_lead_bounds(s);
    crate::text::lemma_trail_bounds(s);
    if s.len() > 0 {
        assert(lead(s) == 0) by {
            assert(!unicode_space(s[0]));
        }
        assert(trail(s) == s.len()) by {
            assert(!unicode_space(s[s.len() - 1]));
        }
    }
    assert(trimmed(s) =~= s);
}


/// Parts that `assembled` writes parse back: a lone week as itself, anything
/// else with the weeks folded into the days.
#[verifier::spinoff_prover]
#[verifier::rlimit(60)]
proof fn lemma_assembled_reads(w: int, d: int, h: int, m: int, s: int, negative: bool)
    requires
        0 <= w,
        0 <= d,
        d + 7 * w <= i64::MAX,
        0 <= h <= i64::MAX,
        0 <= m <= i64::MAX,
        0 <= s <= i64::MAX,
        !(w == 0 && d == 0 && h == 0 && m == 0 && s == 0),
    ensures
        assembled(w, d, h, m, s, negative) matches Some(a) && a.len() > 0 && (a[0] == '-') == negative
            && spec_parse_duration(a) == Some(
            if w != 0 && d == 0 && h == 0 && m == 0 && s == 0 {
                (w as i64, 0i64, 0i64, 0i64, 0i64)
            } else {
                (0i64, (d + 7 * w) as i64, h as i64, m as i64, s as i64)
            },
        ),
{
    reveal_strlit("-");
    reveal_strlit("P");
    reveal_strlit("W");
    reveal_strlit("D");
    reveal_strlit("T");
    assert("W"@ =~= seq!['W']);
    assert("D"@ =~= seq!['D']);
    assert("T"@ =~= seq!['T']);
    let e = Seq::<char>::empty();
    let z = Seq::<(i64, char)>::empty();
    let sign: Seq<char> = if negative {
        "-"@
    } else {
        e
    };
    let a = assembled(w, d, h, m, s, negative).unwrap();
    let lone = w != 0 && d == 0 && h == 0 && m == 0 && s == 0;
    let body: Seq<char> = if lone {
        int_text(w) + "W"@
    } else {
        unit_part(d + 7 * w, "D"@) + (if h != 0 || m != 0 || s != 0 {
            "T"@ + unit_part(h, "H"@) + unit_part(m, "M"@) + unit_part(s, "S"@)
        } else {
            e
        })
    };
    let core = "P"@ + body;
    assert(a =~= sign + core);
    assert(units_scan(e, e) == Some(z));
    // every character of the body is neither white space nor, before the
    // time segment, a `T`
    let dp: Seq<char> = if lone {
        unit_part(w, seq!['W'])
    } else {
        unit_part(d + 7 * w, seq!['D'])
    };
    let u: char = if lone {
        'W'
    } else {
        'D'
    };
    lemma_unit_scan(if lone {
        w
    } else {
        d + 7 * w
    }, u, e);
    assert(dp + e =~= dp);
    lemma_time_scan(h, m, s);
    let tt = unit_part(h, "H"@) + unit_part(m, "M"@) + unit_part(s, "S"@);
    let tp: Seq<char> = if !lone && (h != 0 || m != 0 || s != 0) {
        seq!['T'] + tt
    } else {
        e
    };
    if lone {
        assert(unit_part(w, seq!['W']) == int_text(w) + "W"@);
    }
    assert(body =~= dp + tp);
    assert forall|i: int| 0 <= i < a.len() implies !unicode_space(#[trigger] a[i]) by {
        if i < sign.len() {
            assert(a[i] == '-');
        } else if i == sign.len() {
            assert(a[i] == 'P');
        } else if i < sign.len() + 1 + dp.len() {
            assert(a[i] == dp[i - sign.len() - 1]);
        } else if i == sign.len() + 1 + dp.len() {
            assert(a[i] == 'T');
        } else {
            assert(a[i] == tt[i - sign.len() - 2 - dp.len()]);
        }
    }
    lemma_no_space_trimmed(a);
    assert(unsigned(a) == core) by {
        if negative {
            assert(a[0] == '-');
            assert(a.drop_first() =~= core);
        } else {
            assert(a =~= core);
            assert(a[0] == 'P');
        }
    }
    assert(core[0] == 'P');
    assert(core.drop_first() =~= body);
    // where the time segment starts
    lemma_index_past(dp, tp, 'T');
    if tp.len() > 0 {
        assert(tp[0] == 'T');
        assert(index_of_char(tp, 'T') == 0);
        assert(body.take(dp.len() as int) =~= dp);
        assert(body.skip(dp.len() as int + 1) =~= tt);
    } else {
        lemma_index_past(e, e, 'T');
        assert(index_of_char(e, 'T') == -1);
        assert(body =~= dp);
    }
    // the date segment
    let dl = unit_list(if lone {
        w
    } else {
        d + 7 * w
    }, u);
    assert(dl + z =~= dl);
    assert(units_scan(dp, e) == Some(dl));
    if lone {
        assert(dl[0] == (w as i64, 'W'));
        assert(dl.drop_first() =~= z);
        assert(date_units(dl, 0, 0) == date_units(z, w as i64, 0));
    } else if d + 7 * w != 0 {
        assert(dl[0] == ((d + 7 * w) as i64, 'D'));
        assert(dl.drop_first() =~= z);
        assert(date_units(dl, 0, 0) == date_units(z, 0, (d + 7 * w) as i64));
    } else {
        assert(dl =~= z);
    }
}


proof fn lemma_scan_nonneg(s: Seq<char>, digits: Seq<char>)
    requires
        all_digits(digits),
    ensures
        units_scan(s, digits) matches Some(r) ==> forall|k: int| 0 <= k < r.len() ==> #[trigger] r[k].0 >= 0,
    decreases s.len(),
{
    if s.len() > 0 {
        if is_digit(s[0]) {
            assert forall|i: int| 0 <= i < digits.push(s[0]).len() implies is_digit(
                #[trigger] digits.push(s[0])[i],
            ) by {
                if i < digits.len() {
                    assert(digits.push(s[0])[i] == digits[i]);
                }
            }
            lemma_scan_nonneg(s.drop_first(), digits.push(s[0]));
        } else if digits.len() > 0 {
            assert(is_digit(digits[0]));
            crate::number::lemma_digits_value_nonneg(digits);
            lemma_scan_nonneg(s.drop_first(), Seq::empty());
            match units_scan(s, digits) {
                Some(r) => {
                    let n = spec_parse_i64(digits).unwrap();
                    let rest = units_scan(s.drop_first(), Seq::empty()).unwrap();
                    assert(r == seq![(n, s[0])] + rest);
                    assert forall|k: int| 0 <= k < r.len() implies #[trigger] r[k].0 >= 0 by {
                        if k > 0 {
                            assert(r[k] == rest[k - 1]);
                        }
                    }
                },
                None => {},
            }
        }
    }
}

proof fn lemma_date_nonneg(units: Seq<(i64, char)>, week: i64, day: i64)
    requires
        forall|k: int| 0 <= k < units.len() ==> #[trigger] units[k].0 >= 0,
        week >= 0,
        day >= 0,
    ensures
        date_units(units, week, day) matches Some((a, b)) ==> a >= 0 && b >= 0,
    decreases units.len(),
{
    if units.len() > 0 {
        assert(units[0].0 >= 0);
        assert forall|k: int| 0 <= k < units.drop_first().len() implies #[trigger] units.drop_first()[k].0 >= 0 by {
            assert(units.drop_first()[k] == units[k + 1]);
        }
        lemma_date_nonneg(units.drop_first(), units[0].0, day);
        lemma_date_nonneg(units.drop_first(), week, units[0].0);
    }
}

proof fn lemma_time_nonneg(units: Seq<(i64, char)>, hour: i64, minute: i64, second: i64)
    requires
        forall|k: int| 0 <= k < units.len() ==> #[trigger] units[k].0 >= 0,
        hour >= 0,
        minute >= 0,
        second >= 0,
    ensures
        time_units(units, hour, minute, second) matches Some((a, b, c)) ==> a >= 0 && b >= 0 && c >= 0,
    decreases units.len(),
{
    if units.len() > 0 {
        assert(units[0].0 >= 0);
        assert forall|k: int| 0 <= k < units.drop_first().len() implies #[trigger] units.drop_first()[k].0 >= 0 by {
            assert(units.drop_first()[k] == units[k + 1]);
        }
        lemma_time_nonneg(units.drop_first(), units[0].0, minute, second);
        lemma_time_nonneg(units.drop_first(), hour, units[0].0, second);
        lemma_time_nonneg(units.drop_first(), hour, minute, units[0].0);
    }
}

/// The parts of a duration are magnitudes.
proof fn lemma_parts_nonneg(value: Seq<char>)
    ensures
        spec_parse_duration(value) matches Some((w, d, h, m, s)) ==> w >= 0 && d >= 0 && h >= 0 && m >= 0 && s
            >= 0,
{
    let v = unsigned(value);
    if v.len() > 0 && v[0] == 'P' {
        let body = v.drop_first();
        let t = index_of_char(body, 'T');
        let date = if t >= 0 {
            body.take(t)
        } else {
            body
        };
        let e = Seq::<char>::empty();
        lemma_scan_nonneg(date, e);
        match units_scan(date, e) {
            Some(du) => {
                lemma_date_nonneg(du, 0, 0);
                if t >= 0 {
                    lemma_scan_nonneg(body.skip(t + 1), e);
                    match units_scan(body.skip(t + 1), e) {
                        Some(tu) => {
                            lemma_time_nonneg(tu, 0, 0, 0);
                        },
                        None => {},
                    }
                }
            },
            None => {},
        }
    }
}

/// A duration's projected parts assemble back to the same duration: with
/// the same sign, a lone week count as itself, and otherwise the same days
/// (weeks counted as seven days each), hours, minutes and seconds. It holds
/// wherever the days fit a 64-bit integer.
pub proof fn law_duration_parts_assemble_back(text: Seq<char>, negative: bool)
    requires
        spec_parse_duration(text) matches Some((w, d, h, m, s)) && d + 7 * w <= i64::MAX,
    ensures
        ({
            let (w, d, h, m, s) = spec_parse_duration(text).unwrap();
            &&& assembled(w as int, d as int, h as int, m as int, s as int, negative) matches Some(a)
            &&& a[0] == '-' <==> negative
            &&& spec_parse_duration(a) == Some(
                if d == 0 && h == 0 && m == 0 && s == 0 {
                    (w, 0i64, 0i64, 0i64, 0i64)
                } else {
                    (0i64, (d + 7 * w) as i64, h, m, s)
                },
            )
        }),
{
    lemma_parts_nonneg(text);
    let (w, d, h, m, s) = spec_parse_duration(text).unwrap();
    lemma_assembled_reads(w as int, d as int, h as int, m as int, s as int, negative);
}

/// The line a duration part shows under a key: the part's integer where it
/// is set, an empty string where it is zero.
pub open spec fn part_shown(key: Seq<char>, v: i64) -> Seq<char> {
    if v != 0 {
        key + " = "@ + int_text(v as int)
    } else {
        key + " = \"\""@
    }
}

/// A duration that breaks into parts projects one line per part, in the
/// order week, day, hour, minute, second, each under its own key and showing
/// that part: the week count on `<prefix>.week`, the day count on
/// `<prefix>.day`, and so on, a zero part shown empty; the field's hint goes
/// on the first line.
pub proof fn law_duration_shows_its_parts(text: Seq<char>, prefix: Seq<char>, hint: Option<Seq<char>>)
    requires
        text.len() > 0,
        spec_parse_duration(text) is Some,
    ensures
        ({
            let (w, d, h, m, s) = spec_parse_duration(text).unwrap();
            let lines = spec_duration_lines(Some(text), prefix, hint);
            &&& lines.len() == 5
            &&& lines[0] == (part_shown(prefix + ".week"@, w), hint)
            &&& lines[1] == (part_shown(prefix + ".day"@, d), None::<Seq<char>>)
            &&& lines[2] == (part_shown(prefix + ".hour"@, h), None::<Seq<char>>)
            &&& lines[3] == (part_shown(prefix + ".min"@, m), None::<Seq<char>>)
            &&& lines[4] == (part_shown(prefix + ".sec"@, s), None::<Seq<char>>)
        }),
{
    reveal_strlit(" = ");
    reveal_strlit(" = \"\"");
    let (w, d, h, m, s) = spec_parse_duration(text).unwrap();
    let lines = spec_duration_lines(Some(text), prefix, hint);
    assert forall|k: Seq<char>, v: i64| #[trigger] int_line_lhs(k, set_part(v)) == part_shown(k, v) by {
        if v != 0 {
            assert(int_line_lhs(k, set_part(v)) =~= part_shown(k, v));
        } else {
            assert(int_line_lhs(k, set_part(v)) =~= part_shown(k, v));
        }
    }
    assert(lines[0].0 == int_line_lhs(prefix + ".week"@, set_part(w)));
    assert(lines[1].0 == int_line_lhs(prefix + ".day"@, set_part(d)));
    assert(lines[2].0 == int_line_lhs(prefix + ".hour"@, set_part(h)));
    assert(lines[3].0 == int_line_lhs(prefix + ".min"@, set_part(m)));
    assert(lines[4].0 == int_line_lhs(prefix + ".sec"@, set_part(s)));
}

} // verus!
