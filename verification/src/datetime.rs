//! # Dates
//!
//! Conversions between iCalendar digit forms and native TOML date-times.
//!
//! The projection emits a native TOML `date` or `datetime` read from the
//! value as the calendar writes it; apply reads one back, and still accepts
//! the older friendly `YYYY-MM-DD[ HH:MM[:SS]][ UTC]` string form.

use vstd::prelude::*;

use crate::duration::joined;
use crate::edit::{find_char, index_of_char, lemma_index_of_char_bounds};
use crate::line::{digit_char, digits, padded, padded_chars};
use crate::number::{
    all_digits, digit_value, digits_value, is_digit, lemma_digits_value_nonneg, parse_unsigned, spec_parse_unsigned,
};
use crate::text::{
    chars_eq, chars_of, copy_chars, end_of_text, push_all, slice_chars, split_on, split_words, string_of,
    pieces, trim, trim_end, trimmed, words,
};
use crate::toml::{toml_datetime_text, datetime_string, writable, TomlDate, TomlDatetime, TomlOffset, TomlTime};

verus! {

/// Shared hint for the date keys: a concrete example native TOML date-time.
pub const DATE_HINT: &'static str = "2026-06-13T14:30:00";

/// Whether a date-time is written as UTC, which iCalendar marks with a
/// trailing `Z`.
pub open spec fn spec_is_utc(dtm: TomlDatetime) -> bool {
    dtm.offset == Some(TomlOffset::Z)
}

pub fn is_utc(dtm: &TomlDatetime) -> (r: bool)
    ensures
        r == spec_is_utc(*dtm),
{
    match dtm.offset {
        Some(TomlOffset::Z) => true,
        _ => false,
    }
}

/// The `YYYYMMDD` digits of a date.
pub open spec fn date_digits(date: TomlDate) -> Seq<char> {
    padded(date.year as nat, 4) + padded(date.month as nat, 2) + padded(date.day as nat, 2)
}

/// The `HHMMSS` digits of a time, a missing second read as `00`.
pub open spec fn time_digits(time: TomlTime) -> Seq<char> {
    padded(time.hour as nat, 2) + padded(time.minute as nat, 2) + padded(
        match time.second {
            Some(s) => s as nat,
            None => 0,
        },
        2,
    )
}

fn date_digits_chars(date: &TomlDate) -> (out: Vec<char>)
    ensures
        out@ == date_digits(*date),
{
    let mut out = padded_chars(date.year as u64, 4);
    push_all(&mut out, &padded_chars(date.month as u64, 2));
    push_all(&mut out, &padded_chars(date.day as u64, 2));
    out
}

fn time_digits_chars(time: &TomlTime) -> (out: Vec<char>)
    ensures
        out@ == time_digits(*time),
{
    let second: u64 = match time.second {
        Some(s) => s as u64,
        None => 0,
    };
    let mut out = padded_chars(time.hour as u64, 2);
    push_all(&mut out, &padded_chars(time.minute as u64, 2));
    push_all(&mut out, &padded_chars(second, 2));
    out
}

pub open spec fn opt_text(o: Option<&[char]>) -> Option<Seq<char>> {
    match o {
        Some(s) => Some(s@),
        None => None,
    }
}

/// The iCalendar date line a native TOML date-time and optional named zone
/// build: a bare date becomes a `VALUE=DATE` property, a UTC value keeps its
/// `Z`, and a named zone becomes a `TZID` parameter. A numeric offset other
/// than `Z` is treated as floating, as iCalendar has no offset form.
pub open spec fn spec_toml_date_line(name: Seq<char>, dtm: TomlDatetime, tz: Option<Seq<char>>) -> Seq<
    char,
> {
    match dtm.date {
        None => name + ":"@ + toml_datetime_text(dtm),
        Some(date) => match dtm.time {
            None => name + ";VALUE=DATE:"@ + date_digits(date),
            Some(time) => if spec_is_utc(dtm) {
                name + ":"@ + date_digits(date) + "T"@ + time_digits(time) + "Z"@
            } else {
                match tz {
                    Some(zone) => name + ";TZID="@ + zone + ":"@ + date_digits(date) + "T"@
                        + time_digits(time),
                    None => name + ":"@ + date_digits(date) + "T"@ + time_digits(time),
                }
            },
        },
    }
}

/// Build an iCalendar date line from a native TOML date-time and optional
/// named zone.
pub fn toml_date_line(name: &[char], dtm: &TomlDatetime, tz: Option<&[char]>) -> (out: Vec<char>)
    requires
        dtm.date is Some || writable(*dtm),
    ensures
        out@ == spec_toml_date_line(name@, *dtm, opt_text(tz)),
{
    let date = match &dtm.date {
        None => {
            let mut out = joined(name, ":");
            push_all(&mut out, &chars_of(datetime_string(dtm).as_str()));
            return out;
        },
        Some(date) => date_digits_chars(date),
    };
    let time = match &dtm.time {
        None => {
            let mut out = joined(name, ";VALUE=DATE:");
            push_all(&mut out, &date);
            return out;
        },
        Some(time) => time_digits_chars(time),
    };
    let mut out = if is_utc(dtm) {
        joined(name, ":")
    } else {
        match tz {
            Some(zone) => {
                let mut out = joined(name, ";TZID=");
                push_all(&mut out, zone);
                push_all(&mut out, &chars_of(":"));
                out
            },
            None => joined(name, ":"),
        }
    };
    push_all(&mut out, &date);
    push_all(&mut out, &chars_of("T"));
    push_all(&mut out, &time);
    if is_utc(dtm) {
        push_all(&mut out, &chars_of("Z"));
    }
    out
}

/// The value of a run of at most four digits.
fn small_value(s: &[char]) -> (v: u16)
    requires
        all_digits(s@),
        s.len() <= 4,
    ensures
        v as int == digits_value(s@),
{
    let mut v: u16 = 0;
    let mut i: usize = 0;
    while i < s.len()
        invariant
            i <= s.len(),
            s.len() <= 4,
            all_digits(s@),
            v as int == digits_value(s@.take(i as int)),
            v < (if i == 0 {
                1int
            } else if i == 1 {
                10int
            } else if i == 2 {
                100int
            } else if i == 3 {
                1000int
            } else {
                10000int
            }),
        decreases s.len() - i,
    {
        proof {
            assert(s@.take(i + 1).drop_last() =~= s@.take(i as int));
            assert(s@.take(i + 1).last() == s@[i as int]);
            assert(is_digit(s@[i as int]));
        }
        let d = (s[i] as u32 - '0' as u32) as u16;
        v = v * 10 + d;
        i = i + 1;
    }
    proof {
        assert(s@.take(i as int) =~= s@);
    }
    v
}

fn all_digits_exec(s: &[char]) -> (r: bool)
    ensures
        r == all_digits(s@),
{
    let mut i: usize = 0;
    while i < s.len()
        invariant
            i <= s.len(),
            forall|j: int| 0 <= j < i ==> is_digit(#[trigger] s@[j]),
        decreases s.len() - i,
    {
        if !('0' <= s[i] && s[i] <= '9') {
            proof {
                assert(!is_digit(s@[i as int]));
            }
            return false;
        }
        i = i + 1;
    }
    true
}

/// What an iCalendar date or date-time value (`20261231T235900Z`) reads as
/// natively: eight digits, or eight digits, `T`, six digits and an optional
/// `Z`; `None` for anything not in that digit form, so that what is read
/// writes back whole.
pub open spec fn spec_toml_date(raw: Seq<char>) -> Option<TomlDatetime> {
    let r = trimmed(raw);
    let utc = r.len() > 0 && r.last() == 'Z';
    let body = if utc {
        r.drop_last()
    } else {
        r
    };
    let t = index_of_char(body, 'T');
    let date = if t >= 0 {
        body.take(t)
    } else {
        body
    };
    if date.len() != 8 || !all_digits(date) {
        None
    } else {
        let d = TomlDate {
            year: digits_value(date.take(4)) as u16,
            month: digits_value(date.subrange(4, 6)) as u8,
            day: digits_value(date.subrange(6, 8)) as u8,
        };
        if t < 0 {
            if utc {
                None
            } else {
                Some(TomlDatetime { date: Some(d), time: None, offset: None })
            }
        } else {
            let time = body.skip(t + 1);
            if time.len() != 6 || !all_digits(time) {
                None
            } else {
                Some(
                    TomlDatetime {
                        date: Some(d),
                        time: Some(
                            TomlTime {
                                hour: digits_value(time.take(2)) as u8,
                                minute: digits_value(time.subrange(2, 4)) as u8,
                                second: Some(digits_value(time.subrange(4, 6)) as u8),
                                nanosecond: None,
                            },
                        ),
                        offset: if utc {
                            Some(TomlOffset::Z)
                        } else {
                            None
                        },
                    },
                )
            }
        }
    }
}

pub proof fn lemma_all_digits_sub(s: Seq<char>, a: int, b: int)
    requires
        all_digits(s),
        0 <= a <= b <= s.len(),
    ensures
        all_digits(s.subrange(a, b)),
{
    assert forall|i: int| 0 <= i < b - a implies is_digit(#[trigger] s.subrange(a, b)[i]) by {
        assert(s.subrange(a, b)[i] == s[a + i]);
    }
}

/// Read an iCalendar date or date-time value as a native TOML one.
pub fn toml_date(raw: &[char]) -> (r: Option<TomlDatetime>)
    ensures
        r == spec_toml_date(raw@),
{
    let r = trim(raw);
    let utc = r.len() > 0 && r[r.len() - 1] == 'Z';
    let body = if utc {
        slice_chars(&r, 0, r.len() - 1)
    } else {
        copy_chars(&r)
    };
    proof {
        if utc {
            assert(body@ =~= r@.drop_last());
        }
        lemma_index_of_char_bounds(body@, 'T');
    }
    let t = find_char(&body, 'T');
    let date = match t {
        Some(t) => slice_chars(&body, 0, t),
        None => copy_chars(&body),
    };
    if date.len() != 8 || !all_digits_exec(&date) {
        return None;
    }
    proof {
        lemma_all_digits_sub(date@, 0, 4);
        lemma_all_digits_sub(date@, 4, 6);
        lemma_all_digits_sub(date@, 6, 8);
        assert(date@.take(4) =~= date@.subrange(0, 4));
    }
    let d = TomlDate {
        year: small_value(&slice_chars(&date, 0, 4)),
        month: small_value(&slice_chars(&date, 4, 6)) as u8,
        day: small_value(&slice_chars(&date, 6, 8)) as u8,
    };
    let t = match t {
        None => {
            if utc {
                return None;
            }
            return Some(TomlDatetime { date: Some(d), time: None, offset: None });
        },
        Some(t) => t,
    };
    let time = slice_chars(&body, t + 1, body.len());
    if time.len() != 6 || !all_digits_exec(&time) {
        return None;
    }
    proof {
        lemma_all_digits_sub(time@, 0, 2);
        lemma_all_digits_sub(time@, 2, 4);
        lemma_all_digits_sub(time@, 4, 6);
        assert(time@.take(2) =~= time@.subrange(0, 2));
    }
    let tm = TomlTime {
        hour: small_value(&slice_chars(&time, 0, 2)) as u8,
        minute: small_value(&slice_chars(&time, 2, 4)) as u8,
        second: Some(small_value(&slice_chars(&time, 4, 6)) as u8),
        nanosecond: None,
    };
    Some(
        TomlDatetime {
            date: Some(d),
            time: Some(tm),
            offset: if utc {
                Some(TomlOffset::Z)
            } else {
                None
            },
        },
    )
}

/// The `RRULE` `UNTIL` digit value a native TOML date-time writes back to.
pub open spec fn spec_until_to_ical(dtm: TomlDatetime) -> Seq<char> {
    match dtm.date {
        None => toml_datetime_text(dtm),
        Some(date) => match dtm.time {
            None => date_digits(date),
            Some(time) => date_digits(date) + "T"@ + time_digits(time) + (if spec_is_utc(dtm) {
                "Z"@
            } else {
                Seq::empty()
            }),
        },
    }
}

/// Render a native TOML date-time back to an `RRULE` `UNTIL` digit value.
pub fn until_to_ical(dtm: &TomlDatetime) -> (out: Vec<char>)
    requires
        dtm.date is Some || writable(*dtm),
    ensures
        out@ == spec_until_to_ical(*dtm),
{
    let date = match &dtm.date {
        None => return chars_of(datetime_string(dtm).as_str()),
        Some(date) => date_digits_chars(date),
    };
    match &dtm.time {
        None => date,
        Some(time) => {
            let mut out = date;
            push_all(&mut out, &chars_of("T"));
            push_all(&mut out, &time_digits_chars(time));
            if is_utc(dtm) {
                push_all(&mut out, &chars_of("Z"));
            } else {
                proof {
                    assert(out@ =~= out@ + Seq::<char>::empty());
                }
            }
            out
        },
    }
}


/// Whether a trimmed value ends in the ` UTC` (or ` utc`) marker of the
/// friendly form.
pub open spec fn utc_tail(v: Seq<char>) -> bool {
    v.len() >= 4 && (v.skip(v.len() - 4) == " UTC"@ || v.skip(v.len() - 4) == " utc"@)
}

/// The `YYYYMMDD` digits a friendly `Y-M-D` date writes, each part read as
/// the unsigned integer type the friendly form allows (`u16`, `u8`, `u8`).
pub open spec fn spec_friendly_date(d: Seq<char>) -> Option<Seq<char>> {
    let ymd = pieces(d, '-');
    if ymd.len() != 3 {
        None
    } else {
        match (
            spec_parse_unsigned(ymd[0], 65535),
            spec_parse_unsigned(ymd[1], 255),
            spec_parse_unsigned(ymd[2], 255),
        ) {
            (Some(y), Some(m), Some(day)) => Some(padded(y, 4) + padded(m, 2) + padded(day, 2)),
            _ => None,
        }
    }
}

/// The `HHMMSS` digits a friendly `H:M[:S]` time writes, a missing second
/// read as zero.
pub open spec fn spec_friendly_time(t: Seq<char>) -> Option<Seq<char>> {
    let hms = pieces(t, ':');
    if hms.len() < 2 || hms.len() > 3 {
        None
    } else {
        let second = if hms.len() == 3 {
            spec_parse_unsigned(hms[2], 255)
        } else {
            Some(0nat)
        };
        match (spec_parse_unsigned(hms[0], 255), spec_parse_unsigned(hms[1], 255), second) {
            (Some(h), Some(m), Some(sec)) => Some(padded(h, 2) + padded(m, 2) + padded(sec, 2)),
            _ => None,
        }
    }
}

/// The iCalendar digit parts of a friendly `YYYY-MM-DD[ HH:MM[:SS]][ UTC]`
/// value: the date, the time where one is given, and whether it is UTC.
pub open spec fn spec_parse_friendly_date(value: Seq<char>) -> Option<
    (Seq<char>, Option<Seq<char>>, bool),
> {
    let v = trimmed(value);
    let utc = utc_tail(v);
    let rest = if utc {
        v.take(v.len() - 4).take(end_of_text(v.take(v.len() - 4)))
    } else {
        v
    };
    let ws = words(rest);
    if ws.len() == 0 || ws.len() > 2 {
        None
    } else {
        match spec_friendly_date(ws[0]) {
            None => None,
            Some(date) => if ws.len() == 1 {
                Some((date, None, utc))
            } else {
                match spec_friendly_time(ws[1]) {
                    Some(time) => Some((date, Some(time), utc)),
                    None => None,
                }
            },
        }
    }
}

fn friendly_date_digits(d: &[char]) -> (r: Option<Vec<char>>)
    ensures
        opt_chars_of(r) == spec_friendly_date(d@),
{
    let ymd = split_on(d, '-');
    if ymd.len() != 3 {
        return None;
    }
    proof {
        assert(ymd@.map_values(|w: Vec<char>| w@)[0] == ymd@[0]@);
        assert(ymd@.map_values(|w: Vec<char>| w@)[1] == ymd@[1]@);
        assert(ymd@.map_values(|w: Vec<char>| w@)[2] == ymd@[2]@);
    }
    let y = match parse_unsigned(&ymd[0], 65535) {
        Some(y) => y,
        None => return None,
    };
    let m = match parse_unsigned(&ymd[1], 255) {
        Some(m) => m,
        None => return None,
    };
    let day = match parse_unsigned(&ymd[2], 255) {
        Some(day) => day,
        None => return None,
    };
    let mut out = padded_chars(y, 4);
    push_all(&mut out, &padded_chars(m, 2));
    push_all(&mut out, &padded_chars(day, 2));
    Some(out)
}

fn friendly_time_digits(t: &[char]) -> (r: Option<Vec<char>>)
    ensures
        opt_chars_of(r) == spec_friendly_time(t@),
{
    let hms = split_on(t, ':');
    if hms.len() < 2 || hms.len() > 3 {
        return None;
    }
    proof {
        assert(hms@.map_values(|w: Vec<char>| w@)[0] == hms@[0]@);
        assert(hms@.map_values(|w: Vec<char>| w@)[1] == hms@[1]@);
        if hms.len() == 3 {
            assert(hms@.map_values(|w: Vec<char>| w@)[2] == hms@[2]@);
        }
    }
    let h = match parse_unsigned(&hms[0], 255) {
        Some(h) => h,
        None => return None,
    };
    let m = match parse_unsigned(&hms[1], 255) {
        Some(m) => m,
        None => return None,
    };
    let sec: u64 = if hms.len() == 3 {
        match parse_unsigned(&hms[2], 255) {
            Some(sec) => sec,
            None => return None,
        }
    } else {
        0
    };
    let mut out = padded_chars(h, 2);
    push_all(&mut out, &padded_chars(m, 2));
    push_all(&mut out, &padded_chars(sec, 2));
    Some(out)
}

pub open spec fn opt_chars_of(o: Option<Vec<char>>) -> Option<Seq<char>> {
    match o {
        Some(v) => Some(v@),
        None => None,
    }
}

pub open spec fn parts_view(r: Option<(Vec<char>, Option<Vec<char>>, bool)>) -> Option<
    (Seq<char>, Option<Seq<char>>, bool),
> {
    match r {
        Some((date, time, utc)) => Some((date@, opt_chars_of(time), utc)),
        None => None,
    }
}

/// Parse a friendly date-time into its iCalendar digit parts.
pub fn friendly_parts(value: &[char]) -> (r: Option<(Vec<char>, Option<Vec<char>>, bool)>)
    ensures
        parts_view(r) == spec_parse_friendly_date(value@),
{
    let v = trim(value);
    let n = v.len();
    let utc = n >= 4 && {
        let tail = slice_chars(&v, n - 4, n);
        let upper = chars_of(" UTC");
        let lower = chars_of(" utc");
        proof {
            assert(tail@ =~= v@.skip(n - 4));
        }
        chars_eq(&tail, &upper) || chars_eq(&tail, &lower)
    };
    let rest = if utc {
        trim_end(&slice_chars(&v, 0, n - 4))
    } else {
        v
    };
    let ws = split_words(&rest);
    if ws.len() == 0 || ws.len() > 2 {
        return None;
    }
    proof {
        assert(ws@.map_values(|w: Vec<char>| w@)[0] == ws@[0]@);
        if ws.len() == 2 {
            assert(ws@.map_values(|w: Vec<char>| w@)[1] == ws@[1]@);
        }
    }
    let date = match friendly_date_digits(&ws[0]) {
        Some(date) => date,
        None => return None,
    };
    if ws.len() == 1 {
        return Some((date, None, utc));
    }
    match friendly_time_digits(&ws[1]) {
        Some(time) => Some((date, Some(time), utc)),
        None => None,
    }
}

pub open spec fn str_parts_view(r: Option<(String, Option<String>, bool)>) -> Option<
    (Seq<char>, Option<Seq<char>>, bool),
> {
    match r {
        Some((date, time, utc)) => Some(
            (
                date@,
                match time {
                    Some(t) => Some(t@),
                    None => None,
                },
                utc,
            ),
        ),
        None => None,
    }
}

/// Parse a friendly date-time into its iCalendar digit parts: the date
/// (`YYYYMMDD`), an optional time (`HHMMSS`, `None` for an all-day date),
/// and whether it is UTC.
pub fn parse_friendly_date(value: &str) -> (r: Option<(String, Option<String>, bool)>)
    ensures
        str_parts_view(r) == spec_parse_friendly_date(value@),
{
    match friendly_parts(&chars_of(value)) {
        Some((date, time, utc)) => {
            let time = match time {
                Some(t) => Some(string_of(&t)),
                None => None,
            };
            Some((string_of(&date), time, utc))
        },
        None => None,
    }
}

/// The iCalendar line a friendly value and optional time zone build, the
/// value passed verbatim when it is not in the friendly form.
pub open spec fn spec_date_line(name: Seq<char>, value: Seq<char>, tz: Option<Seq<char>>) -> Seq<char> {
    match spec_parse_friendly_date(value) {
        Some((date, None, _)) => name + ";VALUE=DATE:"@ + date,
        Some((date, Some(time), true)) => name + ":"@ + date + "T"@ + time + "Z"@,
        Some((date, Some(time), false)) => match tz {
            Some(zone) => name + ";TZID="@ + zone + ":"@ + date + "T"@ + time,
            None => name + ":"@ + date + "T"@ + time,
        },
        None => match tz {
            Some(zone) => name + ";TZID="@ + zone + ":"@ + value,
            None => name + ":"@ + value,
        },
    }
}

/// Build an iCalendar date line from a friendly value and optional zone.
pub fn date_line_chars(name: &[char], value: &[char], tz: Option<&[char]>) -> (out: Vec<char>)
    ensures
        out@ == spec_date_line(name@, value@, opt_text(tz)),
{
    match friendly_parts(value) {
        Some((date, None, _)) => {
            let mut out = joined(name, ";VALUE=DATE:");
            push_all(&mut out, &date);
            out
        },
        Some((date, Some(time), utc)) => {
            let mut out = if utc {
                joined(name, ":")
            } else {
                match tz {
                    Some(zone) => {
                        let mut out = joined(name, ";TZID=");
                        push_all(&mut out, zone);
                        push_all(&mut out, &chars_of(":"));
                        out
                    },
                    None => joined(name, ":"),
                }
            };
            push_all(&mut out, &date);
            push_all(&mut out, &chars_of("T"));
            push_all(&mut out, &time);
            if utc {
                push_all(&mut out, &chars_of("Z"));
            }
            out
        },
        None => {
            let mut out = match tz {
                Some(zone) => {
                    let mut out = joined(name, ";TZID=");
                    push_all(&mut out, zone);
                    push_all(&mut out, &chars_of(":"));
                    out
                },
                None => joined(name, ":"),
            };
            push_all(&mut out, value);
            out
        },
    }
}

/// Build an iCalendar date line from a friendly value and optional time
/// zone, passing the value verbatim when it is not in the friendly form.
pub fn date_line(name: &str, value: &str, tz: Option<&str>) -> (out: String)
    ensures
        out@ == spec_date_line(
            name@,
            value@,
            match tz {
                Some(z) => Some(z@),
                None => None,
            },
        ),
{
    let zone = match tz {
        Some(z) => Some(chars_of(z)),
        None => None,
    };
    let line = match &zone {
        Some(z) => date_line_chars(&chars_of(name), &chars_of(value), Some(z.as_slice())),
        None => date_line_chars(&chars_of(name), &chars_of(value), None),
    };
    string_of(&line)
}

/// The `RRULE` `UNTIL` digit form of a friendly date, the value itself when
/// it is not friendly.
pub open spec fn spec_friendly_to_ical(value: Seq<char>) -> Seq<char> {
    match spec_parse_friendly_date(value) {
        Some((date, None, _)) => date,
        Some((date, Some(time), true)) => date + "T"@ + time + "Z"@,
        Some((date, Some(time), false)) => date + "T"@ + time,
        None => value,
    }
}

pub fn friendly_to_ical_chars(value: &[char]) -> (out: Vec<char>)
    ensures
        out@ == spec_friendly_to_ical(value@),
{
    match friendly_parts(value) {
        Some((date, None, _)) => date,
        Some((date, Some(time), utc)) => {
            let mut out = date;
            push_all(&mut out, &chars_of("T"));
            push_all(&mut out, &time);
            if utc {
                push_all(&mut out, &chars_of("Z"));
            }
            out
        },
        None => copy_chars(value),
    }
}

/// Convert a friendly date back to the `RRULE` `UNTIL` digit form, passing
/// it through verbatim when it is not friendly.
pub fn friendly_to_ical(value: &str) -> (out: String)
    ensures
        out@ == spec_friendly_to_ical(value@),
{
    string_of(&friendly_to_ical_chars(&chars_of(value)))
}


/// A digit's character, read back, is the digit.
proof fn lemma_digit_char_value(c: char)
    requires
        is_digit(c),
    ensures
        digit_char(digit_value(c)) == c,
        0 <= digit_value(c) < 10,
{
    assert(('0' as u32) + ((c as u32) - ('0' as u32)) == c as u32);
}

/// Padding a number ten times another plus a digit is padding the other,
/// one place narrower, then writing the digit.
proof fn lemma_padded_step(q: nat, r: nat, w: nat)
    requires
        w >= 1,
        r < 10,
    ensures
        padded(q * 10 + r, w + 1) == padded(q, w).push(digit_char(r as int)),
{
    let n = q * 10 + r;
    if q == 0 {
        assert(n == r);
        assert(digits(n) == seq![digit_char(r as int)]);
        assert(digits(0) == seq![digit_char(0)]);
        assert(digit_char(0) == '0');
        assert(padded(n, w + 1) =~= padded(q, w).push(digit_char(r as int)));
    } else {
        assert(n >= 10);
        assert(n / 10 == q) by (nonlinear_arith)
            requires
                n == q * 10 + r,
                r < 10,
        ;
        assert(n % 10 == r) by (nonlinear_arith)
            requires
                n == q * 10 + r,
                r < 10,
        ;
        assert(digits(n) == digits(q).push(digit_char(r as int)));
        assert(padded(n, w + 1) =~= padded(q, w).push(digit_char(r as int)));
    }
}

/// A run of digits is the padding of its own value to its own width.
proof fn lemma_padded_digits(s: Seq<char>)
    requires
        all_digits(s),
        s.len() >= 1,
    ensures
        padded(digits_value(s) as nat, s.len()) == s,
        0 <= digits_value(s),
    decreases s.len(),
{
    lemma_digits_value_nonneg(s);
    lemma_digit_char_value(s.last());
    if s.len() == 1 {
        assert(s.drop_last() =~= Seq::<char>::empty());
        assert(digits_value(s.drop_last()) == 0);
        assert(digits_value(s) == digit_value(s.last()));
        assert(digits(digits_value(s) as nat) == seq![s.last()]);
        assert(padded(digits_value(s) as nat, 1) =~= s);
    } else {
        let init = s.drop_last();
        assert forall|i: int| 0 <= i < init.len() implies is_digit(#[trigger] init[i]) by {
            assert(init[i] == s[i]);
        }
        lemma_padded_digits(init);
        lemma_padded_step(digits_value(init) as nat, digit_value(s.last()) as nat, init.len());
        assert(init.push(s.last()) =~= s);
    }
}

/// A run of digits is worth less than ten to its width.
proof fn lemma_digits_value_below(s: Seq<char>, bound: int)
    requires
        all_digits(s),
        bound == (if s.len() == 2 {
            100int
        } else {
            10000int
        }),
        s.len() == 2 || s.len() == 4,
    ensures
        0 <= digits_value(s) < bound,
{
    lemma_digits_value_nonneg(s);
    let a = s.drop_last();
    lemma_digits_value_nonneg(a);
    lemma_digit_char_value(s.last());
    let b = a.drop_last();
    lemma_digits_value_nonneg(b);
    assert(is_digit(a.last()));
    lemma_digit_char_value(a.last());
    assert(digits_value(s) == digits_value(a) * 10 + digit_value(s.last()));
    assert(digits_value(a) == digits_value(b) * 10 + digit_value(a.last()));
    if s.len() == 2 {
        assert(b =~= Seq::<char>::empty());
        assert(digits_value(b) == 0);
    } else {
        let c = b.drop_last();
        assert(is_digit(b.last()));
        lemma_digit_char_value(b.last());
        assert(is_digit(c.last()));
        lemma_digit_char_value(c.last());
        assert(c.drop_last() =~= Seq::<char>::empty());
        assert(digits_value(c.drop_last()) == 0);
        assert(digits_value(c) == digits_value(c.drop_last()) * 10 + digit_value(c.last()));
        assert(digits_value(b) == digits_value(c) * 10 + digit_value(b.last()));
    }
}

/// A value read natively writes back to exactly the text it was read from,
/// its surrounding white space aside: nothing in the digit form is lost.
pub proof fn law_toml_date_round_trip(raw: Seq<char>)
    ensures
        spec_toml_date(raw) matches Some(d) ==> spec_until_to_ical(d) == trimmed(raw),
{
    reveal_strlit("T");
    reveal_strlit("Z");
    if let Some(d) = spec_toml_date(raw) {
        let r = trimmed(raw);
        let utc = r.len() > 0 && r.last() == 'Z';
        let body = if utc {
            r.drop_last()
        } else {
            r
        };
        lemma_index_of_char_bounds(body, 'T');
        let t = index_of_char(body, 'T');
        let date = if t >= 0 {
            body.take(t)
        } else {
            body
        };
        lemma_all_digits_sub(date, 0, 4);
        lemma_all_digits_sub(date, 4, 6);
        lemma_all_digits_sub(date, 6, 8);
        assert(date.take(4) =~= date.subrange(0, 4));
        lemma_padded_digits(date.subrange(0, 4));
        lemma_padded_digits(date.subrange(4, 6));
        lemma_padded_digits(date.subrange(6, 8));
        lemma_digits_value_below(date.subrange(0, 4), 10000);
        lemma_digits_value_below(date.subrange(4, 6), 100);
        lemma_digits_value_below(date.subrange(6, 8), 100);
        let dd = d.date.unwrap();
        assert(dd.year as nat == digits_value(date.subrange(0, 4)) as nat);
        assert(dd.month as nat == digits_value(date.subrange(4, 6)) as nat);
        assert(dd.day as nat == digits_value(date.subrange(6, 8)) as nat);
        assert(date_digits(dd) =~= date);
        if t < 0 {
            assert(body =~= date);
        } else {
            let time = body.skip(t + 1);
            lemma_all_digits_sub(time, 0, 2);
            lemma_all_digits_sub(time, 2, 4);
            lemma_all_digits_sub(time, 4, 6);
            assert(time.take(2) =~= time.subrange(0, 2));
            lemma_padded_digits(time.subrange(0, 2));
            lemma_padded_digits(time.subrange(2, 4));
            lemma_padded_digits(time.subrange(4, 6));
            lemma_digits_value_below(time.subrange(0, 2), 100);
            lemma_digits_value_below(time.subrange(2, 4), 100);
            lemma_digits_value_below(time.subrange(4, 6), 100);
            let tt = d.time.unwrap();
            assert(tt.hour as nat == digits_value(time.subrange(0, 2)) as nat);
            assert(tt.minute as nat == digits_value(time.subrange(2, 4)) as nat);
            assert(tt.second == Some(digits_value(time.subrange(4, 6)) as u8));
            assert(time_digits(tt) =~= time);
            assert(body =~= date + "T"@ + time) by {
                assert(body[t] == 'T');
                assert forall|i: int| 0 <= i < body.len() implies #[trigger] body[i] == (date + "T"@ + time)[i] by {
                    if i < t {
                    } else if i == t {
                    } else {
                        assert(time[i - t - 1] == body[i]);
                    }
                }
            }
            if utc {
                assert(r =~= body.push('Z'));
            }
        }
    }
}

} // verus!
