//! Projected lines and their tab-aligned inline comments.

use vstd::prelude::*;

use crate::edit::utf8_len;
use crate::text::{chars_of, push_all, string_of};

verus! {

/// Tab width assumed when aligning comments; their column is a multiple.
pub const TAB_WIDTH: usize = 8;

/// A projected line: a left side and an optional inline hint.
pub struct Line {
    pub lhs: String,
    pub hint: Option<String>,
}

/// A line as plain values: its left side and its hint.
pub open spec fn line_view(line: Line) -> (Seq<char>, Option<Seq<char>>) {
    (line.lhs@, opt_view(line.hint))
}

pub open spec fn opt_view(o: Option<String>) -> Option<Seq<char>> {
    match o {
        Some(s) => Some(s@),
        None => None,
    }
}

pub open spec fn opt_chars(o: Option<Vec<char>>) -> Option<Seq<char>> {
    match o {
        Some(s) => Some(s@),
        None => None,
    }
}

pub open spec fn lines_view(lines: Seq<Line>) -> Seq<(Seq<char>, Option<Seq<char>>)> {
    lines.map_values(|line: Line| line_view(line))
}

/// A line from its left side and hint.
pub fn make_line(lhs: &[char], hint: Option<Vec<char>>) -> (line: Line)
    ensures
        line_view(line) == (lhs@, opt_chars(hint)),
{
    let hint = match hint {
        Some(h) => Some(string_of(&h)),
        None => None,
    };
    Line { lhs: string_of(lhs), hint }
}

/// The character of a decimal digit.
pub open spec fn digit_char(d: int) -> char {
    (('0' as u32) + d) as char
}

/// The decimal digits of a natural number, most significant first.
pub open spec fn digits(n: nat) -> Seq<char>
    decreases n,
{
    if n < 10 {
        seq![digit_char(n as int)]
    } else {
        digits(n / 10).push(digit_char((n % 10) as int))
    }
}

/// An integer written in decimal, a `-` before a negative one.
pub open spec fn int_text(i: int) -> Seq<char> {
    if i < 0 {
        seq!['-'] + digits((-i) as nat)
    } else {
        digits(i as nat)
    }
}

pub fn digits_of(n: u128) -> (out: Vec<char>)
    ensures
        out@ == digits(n as nat),
    decreases n,
{
    let d = (n % 10) as u8;
    let ch = ((48u8 + d) as char);
    proof {
        assert(ch == digit_char((n % 10) as int));
    }
    if n < 10 {
        let v = vec![ch];
        proof {
            assert(v@ =~= seq![ch]);
        }
        v
    } else {
        let mut v = digits_of(n / 10);
        v.push(ch);
        v
    }
}

/// A natural number in decimal, zero-padded on the left to `width` digits.
pub open spec fn padded(n: nat, width: nat) -> Seq<char> {
    if digits(n).len() < width {
        Seq::new((width - digits(n).len()) as nat, |i: int| '0') + digits(n)
    } else {
        digits(n)
    }
}

/// Write a natural number zero-padded to `width` digits, as `{:0width}` does.
pub fn padded_chars(n: u64, width: usize) -> (out: Vec<char>)
    ensures
        out@ == padded(n as nat, width as nat),
{
    let d = digits_of(n as u128);
    let mut out: Vec<char> = Vec::new();
    if d.len() < width {
        let mut k: usize = 0;
        while k < width - d.len()
            invariant
                d.len() < width,
                k <= width - d.len(),
                out@ == Seq::new(k as nat, |i: int| '0'),
            decreases width - d.len() - k,
        {
            out.push('0');
            k = k + 1;
            proof {
                assert(out@ =~= Seq::new(k as nat, |i: int| '0'));
            }
        }
    }
    push_all(&mut out, &d);
    proof {
        if d@.len() >= width {
            assert(out@ =~= digits(n as nat));
        }
    }
    out
}

/// Write an integer in decimal.
pub fn int_chars(i: i64) -> (out: Vec<char>)
    ensures
        out@ == int_text(i as int),
{
    if i < 0 {
        let magnitude: u128 = ((-(i + 1)) as u128) + 1;
        let mut out = vec!['-'];
        let d = digits_of(magnitude);
        proof {
            assert(magnitude == -(i as int));
        }
        push_all(&mut out, &d);
        proof {
            assert(out@ =~= seq!['-'] + digits((-(i as int)) as nat));
        }
        out
    } else {
        digits_of(i as u128)
    }
}

/// Write a wide integer in decimal.
pub fn int_chars_wide(i: i128) -> (out: Vec<char>)
    requires
        i > i128::MIN,
    ensures
        out@ == int_text(i as int),
{
    if i < 0 {
        let magnitude: u128 = (-i) as u128;
        let mut out = vec!['-'];
        let d = digits_of(magnitude);
        push_all(&mut out, &d);
        proof {
            assert(out@ =~= seq!['-'] + digits((-(i as int)) as nat));
        }
        out
    } else {
        digits_of(i as u128)
    }
}

/// The spelling of a dotted integer key (a recurrence or duration part): a
/// bare number when set, an empty string (ignored on apply) otherwise.
pub open spec fn int_line_lhs(key: Seq<char>, value: Option<i64>) -> Seq<char> {
    match value {
        Some(v) => key + seq![' ', '=', ' '] + int_text(v as int),
        None => key + seq![' ', '=', ' ', '"', '"'],
    }
}

/// A dotted integer key (a recurrence or duration part): a bare number when
/// set, an empty string (ignored on apply) otherwise, with an optional hint.
pub fn int_line(key: &str, value: Option<i64>, hint: Option<&str>) -> (line: Line)
    ensures
        line.lhs@ == int_line_lhs(key@, value),
        match hint {
            Some(h) => line.hint matches Some(lh) && lh@ == h@,
            None => line.hint is None,
        },
{
    let lhs = int_line_chars(&chars_of(key), value);
    let hint = match hint {
        Some(h) => Some(string_of(&chars_of(h))),
        None => None,
    };
    Line { lhs: string_of(&lhs), hint }
}

/// The left side of a dotted integer key.
pub fn int_line_chars(key: &[char], value: Option<i64>) -> (lhs: Vec<char>)
    ensures
        lhs@ == int_line_lhs(key@, value),
{
    let mut lhs: Vec<char> = Vec::new();
    push_all(&mut lhs, key);
    lhs.push(' ');
    lhs.push('=');
    lhs.push(' ');
    match value {
        Some(v) => {
            let ghost before = lhs@;
            push_all(&mut lhs, &int_chars(v));
            proof {
                assert(lhs@ =~= key@ + seq![' ', '=', ' '] + int_text(v as int));
            }
        },
        None => {
            lhs.push('"');
            lhs.push('"');
            proof {
                assert(lhs@ =~= key@ + seq![' ', '=', ' ', '"', '"']);
            }
        },
    }
    lhs
}

/// How many UTF-8 octets a text takes.
pub open spec fn octets(s: Seq<char>) -> int
    decreases s.len(),
{
    if s.len() == 0 {
        0
    } else {
        octets(s.drop_last()) + utf8_len(s.last())
    }
}

pub proof fn lemma_octets_bound(s: Seq<char>)
    ensures
        s.len() <= octets(s) <= 4 * s.len(),
    decreases s.len(),
{
    if s.len() > 0 {
        lemma_octets_bound(s.drop_last());
    }
}

/// The octet length of a text, as `str::len` counts it. It is counted in
/// 128 bits, which no text's length can overflow.
pub fn octet_len(s: &[char]) -> (n: u128)
    ensures
        n as int == octets(s@),
{
    let mut n: u128 = 0;
    let mut i: usize = 0;
    while i < s.len()
        invariant
            i <= s.len(),
            n as int == octets(s@.take(i as int)),
            n <= 4 * i,
        decreases s.len() - i,
    {
        proof {
            assert(s@.take(i + 1).drop_last() =~= s@.take(i as int));
            lemma_octets_bound(s@.take(i as int));
        }
        let c = s[i];
        let k: u128 = if (c as u32) < 0x80 {
            1
        } else if (c as u32) < 0x800 {
            2
        } else if (c as u32) < 0x10000 {
            3
        } else {
            4
        };
        n = n + k;
        i = i + 1;
    }
    proof {
        assert(s@.take(i as int) =~= s@);
    }
    n
}

/// A line as plain values: its left side and its optional hint.
pub type LineView = (Seq<char>, Option<Seq<char>>);

/// The widest hinted left side of some lines, in octets; 0 when none is
/// hinted.
pub open spec fn widest(lines: Seq<(Seq<char>, Option<Seq<char>>)>) -> int
    decreases lines.len(),
{
    if lines.len() == 0 {
        0
    } else {
        let rest = widest(lines.drop_last());
        let last = lines.last();
        if last.1 is Some && octets(last.0) > rest {
            octets(last.0)
        } else {
            rest
        }
    }
}

/// The first tab stop strictly past the widest hinted left side.
pub open spec fn spec_comment_column(lines: Seq<(Seq<char>, Option<Seq<char>>)>) -> int {
    next_stop(widest(lines))
}

pub proof fn lemma_widest_bound(lines: Seq<(Seq<char>, Option<Seq<char>>)>, cap: int)
    requires
        forall|j: int| 0 <= j < lines.len() ==> octets(#[trigger] lines[j].0) <= cap,
        cap >= 0,
    ensures
        0 <= widest(lines) <= cap,
    decreases lines.len(),
{
    if lines.len() > 0 {
        assert forall|j: int| 0 <= j < lines.drop_last().len() implies octets(
            #[trigger] lines.drop_last()[j].0,
        ) <= cap by {
            assert(lines.drop_last()[j] == lines[j]);
        }
        lemma_widest_bound(lines.drop_last(), cap);
    }
}

/// The shared column at which a component's inline `#` comments align: the
/// first tab stop past the widest hinted left side, so every hinted line
/// reaches it with at least one tab (one too many is fine, one short would
/// break the column). Widths are counted in 128 bits, which no text's
/// length can overflow.
pub fn comment_column(lines: &[Line]) -> (column: u128)
    ensures
        column as int == spec_comment_column(lines_view(lines@)),
        column as int <= 4 * (usize::MAX as int) + 8,
{
    let ghost lv = lines_view(lines@);
    let mut widest_now: u128 = 0;
    let mut i: usize = 0;
    proof {
        assert(lv.take(0) =~= Seq::<(Seq<char>, Option<Seq<char>>)>::empty());
    }
    while i < lines.len()
        invariant
            i <= lines.len(),
            lv == lines_view(lines@),
            widest_now as int == widest(lv.take(i as int)),
            widest_now <= 4 * (usize::MAX as int),
        decreases lines.len() - i,
    {
        let line = &lines[i];
        proof {
            assert(lv.take(i + 1).drop_last() =~= lv.take(i as int));
            assert(lv.take(i + 1).last() == lv[i as int]);
            assert(lv[i as int] == line_view(*line));
        }
        if line.hint.is_some() {
            let chars = chars_of(line.lhs.as_str());
            let count = chars.len();
            let width = octet_len(&chars);
            proof {
                lemma_octets_bound(chars@);
                assert(count as int == chars@.len());
            }
            if width > widest_now {
                widest_now = width;
            }
        }
        i = i + 1;
    }
    proof {
        assert(lv.take(i as int) =~= lv);
        lemma_next_stop(widest_now as int);
    }
    (widest_now / 8 + 1) * 8
}

/// The tab stop after column `at`.
pub open spec fn next_stop(at: int) -> int {
    (at / 8 + 1) * 8
}

pub proof fn lemma_next_stop(at: int)
    requires
        at >= 0,
    ensures
        at < next_stop(at) <= at + 8,
{
    assert(at < (at / 8 + 1) * 8 <= at + 8) by (nonlinear_arith)
        requires
            at >= 0,
    ;
}

/// The tabs that take a line from column `at` to `column`, each jumping to
/// the next tab stop.
pub open spec fn tabs_to(at: int, column: int) -> Seq<char>
    decreases (if at < column {
        column - at
    } else {
        0
    }),
{
    if 0 <= at < column {
        proof {
            lemma_next_stop(at);
        }
        seq!['\t'] + tabs_to(next_stop(at), column)
    } else {
        Seq::empty()
    }
}

/// One line as emitted: its left side, then for a hinted line the tabs to
/// `column` and the hint as a comment.
pub open spec fn line_text(line: (Seq<char>, Option<Seq<char>>), column: int) -> Seq<char> {
    match line.1 {
        Some(hint) => line.0 + tabs_to(octets(line.0), column) + seq!['#', ' '] + hint + seq!['\n'],
        None => line.0 + seq!['\n'],
    }
}

/// Lines as emitted, one after the other.
pub open spec fn lines_text(lines: Seq<(Seq<char>, Option<Seq<char>>)>, column: int) -> Seq<char>
    decreases lines.len(),
{
    if lines.len() == 0 {
        Seq::empty()
    } else {
        lines_text(lines.drop_last(), column) + line_text(lines.last(), column)
    }
}

/// Emit lines into `out`, padding a hinted line with tabs so its `#` lands on
/// `column`. A line with an empty left side is a blank group separator.
pub fn emit_line_chars(out: &mut Vec<char>, lines: &[Line], column: u128)
    requires
        column <= 4 * (usize::MAX as int) + 8,
    ensures
        final(out)@ == old(out)@ + lines_text(lines_view(lines@), column as int),
{
    let ghost lv = lines_view(lines@);
    let mut i: usize = 0;
    proof {
        assert(lv.take(0) =~= Seq::<(Seq<char>, Option<Seq<char>>)>::empty());
    }
    while i < lines.len()
        invariant
            i <= lines.len(),
            lv == lines_view(lines@),
            column <= 4 * (usize::MAX as int) + 8,
            out@ == old(out)@ + lines_text(lv.take(i as int), column as int),
        decreases lines.len() - i,
    {
        let line = &lines[i];
        let ghost before = out@;
        proof {
            assert(lv.take(i + 1).drop_last() =~= lv.take(i as int));
            assert(lv.take(i + 1).last() == lv[i as int]);
            assert(lv[i as int] == line_view(*line));
        }
        let lhs = chars_of(line.lhs.as_str());
        push_all(out, &lhs);
        match &line.hint {
            Some(hint) => {
                let count = lhs.len();
                let mut at = octet_len(&lhs);
                proof {
                    lemma_octets_bound(lhs@);
                    assert(count as int == lhs@.len());
                }
                let ghost start = at as int;
                proof {
                    assert(tabs_to(start, column as int) =~= Seq::<char>::empty() + tabs_to(
                        start,
                        column as int,
                    ));
                }
                let ghost mut pad: Seq<char> = Seq::empty();
                while at < column
                    invariant
                        column <= 4 * (usize::MAX as int) + 8,
                        at <= 4 * (usize::MAX as int) + 16,
                        pad + tabs_to(at as int, column as int) == tabs_to(start, column as int),
                        out@ == before + lhs@ + pad,
                    decreases (if at < column {
                        column - at
                    } else {
                        0
                    }),
                {
                    out.push('\t');
                    proof {
                        lemma_next_stop(at as int);
                        assert(seq!['\t'] + tabs_to(next_stop(at as int), column as int)
                            == tabs_to(at as int, column as int));
                        assert(pad + seq!['\t'] + tabs_to(next_stop(at as int), column as int)
                            =~= pad + (seq!['\t'] + tabs_to(next_stop(at as int), column as int)));
                        pad = pad + seq!['\t'];
                    }
                    at = (at / 8 + 1) * 8;
                }
                proof {
                    assert(tabs_to(at as int, column as int) =~= Seq::<char>::empty());
                    assert(pad =~= tabs_to(start, column as int));
                }
                out.push('#');
                out.push(' ');
                push_all(out, &chars_of(hint.as_str()));
                out.push('\n');
                proof {
                    assert(out@ =~= before + line_text(lv[i as int], column as int));
                }
            },
            None => {
                out.push('\n');
                proof {
                    assert(out@ =~= before + line_text(lv[i as int], column as int));
                }
            },
        }
        i = i + 1;
    }
    proof {
        assert(lv.take(i as int) =~= lv);
    }
}

/// Emit lines, padding a hinted line with tabs so its `#` lands on `column`.
/// A line with an empty left side is a blank group separator.
pub fn emit_lines(out: &mut String, lines: &[Line], column: u128)
    requires
        column <= 4 * (usize::MAX as int) + 8,
    ensures
        final(out)@ == old(out)@ + lines_text(lines_view(lines@), column as int),
{
    let mut buf = chars_of(out.as_str());
    emit_line_chars(&mut buf, lines, column);
    *out = string_of(&buf);
}

/// The padding before a hint: from a left side `at` octets wide, one tab
/// per tab stop up to `column`, `(column + 7) / 8 - at / 8` of them (the
/// difference of the eighths when `column` is a multiple of 8), and none at or
/// past the column.
pub proof fn law_tab_count(at: int, column: int)
    requires
        0 <= at,
    ensures
        tabs_to(at, column) == Seq::new(
            (if at < column {
                (column + 7) / 8 - at / 8
            } else {
                0
            }) as nat,
            |i: int| '\t',
        ),
        at < column ==> (column + 7) / 8 - at / 8 >= 1,
    decreases (if at < column {
        column - at
    } else {
        0
    }),
{
    if at < column {
        lemma_next_stop(at);
        let next = next_stop(at);
        assert(next / 8 == at / 8 + 1) by (nonlinear_arith)
            requires
                next == (at / 8 + 1) * 8,
                at >= 0,
        ;
        assert(at / 8 * 8 <= at) by (nonlinear_arith)
            requires
                at >= 0,
        ;
        law_tab_count(next, column);
        if next >= column {
            assert((column + 7) / 8 == at / 8 + 1) by (nonlinear_arith)
                requires
                    at < column,
                    column <= (at / 8 + 1) * 8,
                    at / 8 * 8 <= at,
                    at >= 0,
            ;
        } else {
            assert((column + 7) / 8 >= next / 8 + 1) by (nonlinear_arith)
                requires
                    next < column,
                    next >= 0,
            ;
        }
        assert(tabs_to(at, column) =~= Seq::new(((column + 7) / 8 - at / 8) as nat, |i: int| '\t'));
    } else {
        assert(tabs_to(at, column) =~= Seq::<char>::empty());
    }
}

} // verus!
