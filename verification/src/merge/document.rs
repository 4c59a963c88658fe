//! # Decorated document
//!
//! The projected TOML document, with what the merge could not settle written
//! into it.
//!
//! An undecided collision replaces the lines it contests, so the same key
//! appears twice and the document stops parsing. Everything else the merge did
//! on its own is said in the header comment.

use vstd::prelude::*;

use crate::line::{digits_of, int_text, lemma_octets_bound, octet_len, octets};
use crate::merge::choice::{texts_view, Choice};
use crate::text::{
    chars_eq, chars_of, copy_chars, pieces, push_all, slice_chars, split_on, split_words, string_of,
    trim, trimmed, words, words_scan,
};

verus! {

/// The column a header comment wraps at, its `# ` prefix included.
pub const WRAP: usize = 66;

/// A line without the carriage return ending it, if any.
pub open spec fn strip_cr(p: Seq<char>) -> Seq<char> {
    if p.len() > 0 && p.last() == '\r' {
        p.drop_last()
    } else {
        p
    }
}

/// The lines of a text as `str::lines` yields them: split at each `\n`, a
/// `\r` before it dropped, and no empty line after a final one.
pub open spec fn text_lines(s: Seq<char>) -> Seq<Seq<char>> {
    let ps = pieces(s, '\n');
    let n = ps.len() - 1;
    Seq::new(n as nat, |i: int| strip_cr(ps[i])) + if ps[n].len() > 0 {
        seq![ps[n]]
    } else {
        Seq::empty()
    }
}

pub proof fn lemma_pieces_nonempty(s: Seq<char>, sep: char, cur: Seq<char>)
    ensures
        crate::text::pieces_scan(s, sep, cur).len() >= 1,
    decreases s.len(),
{
    if s.len() > 0 {
        if s[0] == sep {
            lemma_pieces_nonempty(s.drop_first(), sep, Seq::empty());
        } else {
            lemma_pieces_nonempty(s.drop_first(), sep, cur.push(s[0]));
        }
    }
}

/// The lines of a text, as `str::lines` yields them.
pub fn lines_of(s: &[char]) -> (out: Vec<Vec<char>>)
    ensures
        out@.map_values(|l: Vec<char>| l@) == text_lines(s@),
{
    let ps = split_on(s, '\n');
    let ghost pv = ps@.map_values(|w: Vec<char>| w@);
    let n = ps.len() - 1;
    let mut out: Vec<Vec<char>> = Vec::new();
    let mut i: usize = 0;
    while i < n
        invariant
            i <= n,
            n == ps.len() - 1,
            pv == ps@.map_values(|w: Vec<char>| w@),
            pv == pieces(s@, '\n'),
            out@.len() == i,
            forall|j: int| 0 <= j < i ==> (#[trigger] out@[j])@ == strip_cr(pv[j]),
        decreases n - i,
    {
        let p = &ps[i];
        proof {
            assert(pv[i as int] == p@);
        }
        let line = if p.len() > 0 && p[p.len() - 1] == '\r' {
            let l = slice_chars(p, 0, p.len() - 1);
            proof {
                assert(l@ =~= p@.drop_last());
            }
            l
        } else {
            copy_chars(p)
        };
        out.push(line);
        i = i + 1;
    }
    let ghost before = out@;
    proof {
        assert(pv[n as int] == ps@[n as int]@);
    }
    if ps[n].len() > 0 {
        out.push(copy_chars(&ps[n]));
    }
    proof {
        assert(out@.map_values(|l: Vec<char>| l@) =~= text_lines(s@));
    }
    out
}

/// The wrapped state after some words: the comment lines written so far and
/// the line being filled.
pub open spec fn wrapped(ws: Seq<Seq<char>>, indent: Seq<char>) -> (Seq<char>, Seq<char>)
    decreases ws.len(),
{
    if ws.len() == 0 {
        (Seq::empty(), Seq::empty())
    } else {
        let (out, line) = wrapped(ws.drop_last(), indent);
        let word = ws.last();
        let (out, line) = if line.len() > 0 && octets(line) + octets(word) + 1 > WRAP {
            (out + "# "@ + line + "\n"@, indent)
        } else {
            (out, line)
        };
        let line = if line.len() > 0 && line.last() != ' ' {
            line.push(' ')
        } else {
            line
        };
        (out, line + word)
    }
}

/// One comment paragraph, wrapped at [`WRAP`]: a line is closed before a
/// word that would take it past the column, and a continuation line of a
/// bullet is indented under its text.
pub open spec fn comment_text(text: Seq<char>) -> Seq<char> {
    let indent = if text.len() >= 2 && text.take(2) == "- "@ {
        "  "@
    } else {
        Seq::empty()
    };
    let (out, line) = wrapped(words(text), indent);
    out + if trimmed(line).len() > 0 {
        "# "@ + line + "\n"@
    } else {
        Seq::empty()
    }
}

/// Write one comment paragraph, wrapped at [`WRAP`].
fn comment(out: &mut Vec<char>, text: &[char])
    ensures
        final(out)@ == old(out)@ + comment_text(text@),
{
    let bullet = text.len() >= 2 && text[0] == '-' && text[1] == ' ';
    proof {
        if text@.len() >= 2 {
            assert(("- "@).len() == 2 && ("- "@)[0] == '-' && ("- "@)[1] == ' ') by {
                reveal_strlit("- ");
            }
            assert(bullet == (text@.take(2) == "- "@)) by {
                if bullet {
                    assert(text@.take(2) =~= "- "@);
                }
            }
        }
    }
    let indent = if bullet {
        chars_of("  ")
    } else {
        Vec::new()
    };
    let ws = split_words(text);
    let ghost wv = ws@.map_values(|w: Vec<char>| w@);
    let ghost start = out@;
    let mut line: Vec<char> = Vec::new();
    let mut i: usize = 0;
    proof {
        assert(wv.take(0) =~= Seq::<Seq<char>>::empty());
    }
    while i < ws.len()
        invariant
            i <= ws.len(),
            wv == ws@.map_values(|w: Vec<char>| w@),
            wv == words(text@),
            indent@ == (if text@.len() >= 2 && text@.take(2) == "- "@ {
                "  "@
            } else {
                Seq::<char>::empty()
            }),
            out@ == start + wrapped(wv.take(i as int), indent@).0,
            line@ == wrapped(wv.take(i as int), indent@).1,
        decreases ws.len() - i,
    {
        let word = &ws[i];
        proof {
            assert(wv.take(i + 1).drop_last() =~= wv.take(i as int));
            assert(wv.take(i + 1).last() == word@);
        }
        let line_chars = line.len();
        let word_chars = word.len();
        let line_octets = octet_len(&line);
        let word_octets = octet_len(word);
        proof {
            lemma_octets_bound(line@);
            lemma_octets_bound(word@);
            assert(line_chars as int == line@.len() && word_chars as int == word@.len());
        }
        if line.len() > 0 && line_octets + word_octets + 1 > 66 {
            push_all(out, &chars_of("# "));
            push_all(out, &line);
            push_all(out, &chars_of("\n"));
            line = copy_chars(&indent);
        }
        if line.len() > 0 && line[line.len() - 1] != ' ' {
            line.push(' ');
        }
        push_all(&mut line, word);
        i = i + 1;
    }
    proof {
        assert(wv.take(i as int) =~= wv);
    }
    if trim(&line).len() > 0 {
        push_all(out, &chars_of("# "));
        push_all(out, &line);
        push_all(out, &chars_of("\n"));
    }
}

/// The sentence announcing how many contests the document holds.
pub open spec fn contest_sentence(contests: int) -> Seq<char> {
    int_text(contests) + " conflict"@ + (if contests == 1 {
        Seq::empty()
    } else {
        "s"@
    }) + " below "@ + (if contests == 1 {
        "is"@
    } else {
        "are"@
    })
        + " yours to decide, written as the same key once per side. Keep one line of each and delete the others, or replace them with a value of your own: TOML forbids duplicate keys, so this document cannot be applied until every one is decided."@
}

/// The notes as bullets, each its own wrapped paragraph.
pub open spec fn notes_text(notes: Seq<Seq<char>>) -> Seq<char>
    decreases notes.len(),
{
    if notes.len() == 0 {
        Seq::empty()
    } else {
        notes_text(notes.drop_last()) + comment_text("- "@ + notes.last())
    }
}

/// What the reader is asked, then what the merge settled without asking,
/// both as comments under the projection's own header; nothing where there
/// is neither.
pub open spec fn preamble_text(notes: Seq<Seq<char>>, contests: int) -> Seq<char> {
    if contests == 0 && notes.len() == 0 {
        Seq::empty()
    } else {
        "#\n"@ + (if contests > 0 {
            comment_text(contest_sentence(contests))
        } else {
            Seq::empty()
        }) + (if notes.len() > 0 {
            (if contests > 0 {
                "#\n"@
            } else {
                Seq::empty()
            }) + comment_text("The merge settled these on its own:"@) + "#\n"@ + notes_text(notes)
        } else {
            Seq::empty()
        }) + "#\n"@
    }
}

/// Write what the reader is asked, then what the merge settled without
/// asking.
fn preamble(out: &mut Vec<char>, notes: &Vec<Vec<char>>, contests: usize)
    ensures
        final(out)@ == old(out)@ + preamble_text(notes@.map_values(|n: Vec<char>| n@), contests as int),
{
    let ghost nv = notes@.map_values(|n: Vec<char>| n@);
    if contests == 0 && notes.len() == 0 {
        return;
    }
    let ghost start = out@;
    push_all(out, &chars_of("#\n"));
    let ghost a = out@;
    if contests > 0 {
        let mut sentence = digits_of(contests as u128);
        push_all(&mut sentence, &chars_of(" conflict"));
        if contests != 1 {
            push_all(&mut sentence, &chars_of("s"));
        }
        push_all(&mut sentence, &chars_of(" below "));
        if contests == 1 {
            push_all(&mut sentence, &chars_of("is"));
        } else {
            push_all(&mut sentence, &chars_of("are"));
        }
        push_all(
            &mut sentence,
            &chars_of(
                " yours to decide, written as the same key once per side. Keep one line of each and delete the others, or replace them with a value of your own: TOML forbids duplicate keys, so this document cannot be applied until every one is decided.",
            ),
        );
        proof {
            assert(sentence@ =~= contest_sentence(contests as int));
        }
        comment(out, &sentence);
    }
    let ghost b = out@;
    if notes.len() > 0 {
        if contests > 0 {
            push_all(out, &chars_of("#\n"));
        }
        comment(out, &chars_of("The merge settled these on its own:"));
        push_all(out, &chars_of("#\n"));
        let ghost c = out@;
        let mut i: usize = 0;
        proof {
            assert(nv.take(0) =~= Seq::<Seq<char>>::empty());
        }
        while i < notes.len()
            invariant
                i <= notes.len(),
                nv == notes@.map_values(|n: Vec<char>| n@),
                out@ == c + notes_text(nv.take(i as int)),
            decreases notes.len() - i,
        {
            let mut bullet = chars_of("- ");
            push_all(&mut bullet, &notes[i]);
            comment(out, &bullet);
            proof {
                assert(nv.take(i + 1).drop_last() =~= nv.take(i as int));
                assert(nv.take(i + 1).last() == notes@[i as int]@);
            }
            i = i + 1;
        }
        proof {
            assert(nv.take(i as int) =~= nv);
        }
    }
    push_all(out, &chars_of("#\n"));
    proof {
        assert(out@ =~= start + preamble_text(nv, contests as int));
    }
}


/// The dotted key of an array of tables header, for a line that is one.
pub open spec fn spec_block_header(line: Seq<char>) -> Option<Seq<char>> {
    if line.len() >= 4 && line.take(2) == "[["@ && line.skip(line.len() - 2) == "]]"@ {
        Some(line.subrange(2, line.len() - 2))
    } else {
        None
    }
}

/// The dotted key of an array of tables header, for a line that is one.
fn block_header(line: &[char]) -> (r: Option<Vec<char>>)
    ensures
        match r {
            Some(b) => spec_block_header(line@) == Some(b@),
            None => spec_block_header(line@) is None,
        },
{
    let n = line.len();
    proof {
        reveal_strlit("[[");
        reveal_strlit("]]");
    }
    if n >= 4 && line[0] == '[' && line[1] == '[' && line[n - 2] == ']' && line[n - 1] == ']' {
        proof {
            assert(line@.take(2) =~= "[["@);
            assert(line@.skip(n - 2) =~= "]]"@);
        }
        Some(slice_chars(line, 2, n - 2))
    } else {
        proof {
            if n >= 4 && line@.take(2) == "[["@ && line@.skip(n - 2) == "]]"@ {
                assert(line@.take(2)[0] == '[' && line@.take(2)[1] == '[');
                assert(line@.skip(n - 2)[0] == ']' && line@.skip(n - 2)[1] == ']');
            }
        }
        None
    }
}

/// Whether a held block key is nested under `header`.
pub open spec fn nested_under(held: Seq<char>, header: Seq<char>) -> bool {
    held.len() > header.len() && held.take(header.len() as int) == header && held[header.len() as int]
        == '.'
}

/// The counters not nested under `header`, in order.
pub open spec fn retained(counts: Seq<(Seq<char>, int)>, header: Seq<char>) -> Seq<(Seq<char>, int)>
    decreases counts.len(),
{
    if counts.len() == 0 {
        Seq::empty()
    } else if nested_under(counts.last().0, header) {
        retained(counts.drop_last(), header)
    } else {
        retained(counts.drop_last(), header).push(counts.last())
    }
}

/// The index of the counter of that block key, or -1.
pub open spec fn count_index(counts: Seq<(Seq<char>, int)>, header: Seq<char>) -> int
    decreases counts.len(),
{
    if counts.len() == 0 {
        -1
    } else if counts[0].0 == header {
        0
    } else {
        let rest = count_index(counts.drop_first(), header);
        if rest < 0 {
            -1
        } else {
            rest + 1
        }
    }
}

pub proof fn lemma_count_index(counts: Seq<(Seq<char>, int)>, header: Seq<char>)
    ensures
        -1 <= count_index(counts, header) < counts.len(),
        count_index(counts, header) >= 0 ==> counts[count_index(counts, header)].0 == header,
        count_index(counts, header) < 0 ==> forall|j: int| 0 <= j < counts.len() ==> #[trigger] counts[j].0 != header,
        forall|j: int| 0 <= j < count_index(counts, header) ==> #[trigger] counts[j].0 != header,
    decreases counts.len(),
{
    if counts.len() > 0 && counts[0].0 != header {
        lemma_count_index(counts.drop_first(), header);
        assert forall|j: int|
            0 <= j < counts.len() && (count_index(counts, header) < 0 || j < count_index(counts, header))
                implies #[trigger] counts[j].0 != header by {
            if j > 0 {
                assert(counts[j] == counts.drop_first()[j - 1]);
            }
        }
    }
}

/// The open blocks and the counters once a block is opened at the depth its
/// header names: the last step of that header becomes the current block
/// there, numbered among its siblings, and every counter nested under it
/// starts again, since those blocks belong to the one just opened.
pub open spec fn spec_open(here: Seq<(Seq<char>, int)>, counts: Seq<(Seq<char>, int)>, header: Seq<char>) -> (
    Seq<(Seq<char>, int)>,
    Seq<(Seq<char>, int)>,
) {
    let steps = pieces(header, '.');
    let depth = steps.len() as int;
    let found = count_index(counts, header);
    let index = if found >= 0 {
        counts[found].1 + 1
    } else {
        0
    };
    let counted = if found >= 0 {
        counts.update(found, (header, index))
    } else {
        counts.push((header, 0))
    };
    let kept = if depth - 1 <= here.len() {
        here.take(depth - 1)
    } else {
        here
    };
    (kept.push((steps.last(), index)), retained(counted, header))
}

/// Pairs of a key and a number, as plain values.
pub open spec fn pairs_view(v: Seq<(Vec<char>, usize)>) -> Seq<(Seq<char>, int)> {
    v.map_values(|p: (Vec<char>, usize)| (p.0@, p.1 as int))
}

/// Open a block at the depth its header names.
fn open(here: &mut Vec<(Vec<char>, usize)>, counts: &mut Vec<(Vec<char>, usize)>, header: &[char], bound: usize)
    requires
        forall|j: int| 0 <= j < old(counts)@.len() ==> (#[trigger] old(counts)@[j]).1 <= bound,
        bound < usize::MAX,
    ensures
        (pairs_view(final(here)@), pairs_view(final(counts)@)) == spec_open(
            pairs_view(old(here)@),
            pairs_view(old(counts)@),
            header@,
        ),
        forall|j: int| 0 <= j < final(counts)@.len() ==> (#[trigger] final(counts)@[j]).1 <= bound + 1,
{
    let steps = split_on(header, '.');
    let ghost sv = steps@.map_values(|w: Vec<char>| w@);
    let depth = steps.len();
    let ghost cv = pairs_view(counts@);
    proof {
        lemma_count_index(cv, header@);
    }
    let mut found: Option<usize> = None;
    let mut j: usize = 0;
    while j < counts.len()
        invariant
            j <= counts.len(),
            cv == pairs_view(counts@),
            -1 <= count_index(cv, header@) < cv.len(),
            count_index(cv, header@) >= 0 ==> cv[count_index(cv, header@)].0 == header@,
            count_index(cv, header@) < 0 ==> forall|k: int| 0 <= k < cv.len() ==> #[trigger] cv[k].0 != header@,
            match found {
                Some(f) => f as int == count_index(cv, header@),
                None => count_index(cv, header@) < 0 || j <= count_index(cv, header@),
            },
            found is Some ==> j == counts.len(),
        decreases counts.len() - j,
    {
        proof {
            assert(cv[j as int] == (counts@[j as int].0@, counts@[j as int].1 as int));
        }
        if chars_eq(&counts[j].0, header) {
            proof {
                lemma_count_index_first(cv, header@, j as int);
            }
            found = Some(j);
            j = counts.len();
        } else {
            j = j + 1;
        }
    }
    let index: usize = match found {
        Some(f) => {
            let next = counts[f].1 + 1;
            counts.set(f, (copy_chars(header), next));
            next
        },
        None => {
            counts.push((copy_chars(header), 0));
            0
        },
    };
    let ghost counted = pairs_view(counts@);
    proof {
        if found is Some {
            assert(counted =~= cv.update(count_index(cv, header@), (header@, index as int)));
        } else {
            assert(counted =~= cv.push((header@, 0)));
        }
    }
    let mut kept: Vec<(Vec<char>, usize)> = Vec::new();
    let mut k: usize = 0;
    proof {
        assert(counted.take(0) =~= Seq::<(Seq<char>, int)>::empty());
        assert(pairs_view(kept@) =~= Seq::<(Seq<char>, int)>::empty());
    }
    while k < counts.len()
        invariant
            k <= counts.len(),
            counted == pairs_view(counts@),
            pairs_view(kept@) == retained(counted.take(k as int), header@),
            forall|m: int| 0 <= m < counts@.len() ==> (#[trigger] counts@[m]).1 <= bound + 1,
            forall|m: int| 0 <= m < kept@.len() ==> (#[trigger] kept@[m]).1 <= bound + 1,
        decreases counts.len() - k,
    {
        let held = &counts[k].0;
        proof {
            assert(counted.take(k + 1).drop_last() =~= counted.take(k as int));
            assert(counted.take(k + 1).last() == (held@, counts@[k as int].1 as int));
        }
        let nested = held.len() > header.len() && {
            let lead = slice_chars(held, 0, header.len());
            proof {
                assert(lead@ =~= held@.take(header@.len() as int));
            }
            chars_eq(&lead, header) && held[header.len()] == '.'
        };
        if !nested {
            let ghost prev = kept@;
            kept.push((copy_chars(held), counts[k].1));
            proof {
                assert(pairs_view(kept@) =~= pairs_view(prev).push((held@, counts@[k as int].1 as int)));
            }
        }
        k = k + 1;
    }
    proof {
        assert(counted.take(k as int) =~= counted);
    }
    *counts = kept;
    let ghost hv = pairs_view(here@);
    if depth - 1 <= here.len() {
        here.truncate(depth - 1);
    }
    proof {
        assert(pairs_view(here@) =~= (if depth - 1 <= hv.len() {
            hv.take(depth - 1)
        } else {
            hv
        }));
        assert(sv.last() == steps@[steps@.len() - 1]@);
    }
    let last = copy_chars(&steps[steps.len() - 1]);
    let ghost before = here@;
    here.push((last, index));
    proof {
        assert(pairs_view(here@) =~= pairs_view(before).push((sv.last(), index as int)));
    }
}

pub proof fn lemma_count_index_first(counts: Seq<(Seq<char>, int)>, header: Seq<char>, j: int)
    requires
        0 <= j < counts.len(),
        counts[j].0 == header,
        count_index(counts, header) < 0 || j <= count_index(counts, header),
    ensures
        count_index(counts, header) == j,
{
    lemma_count_index(counts, header);
}

/// Whether a choice's address is the block currently open.
pub open spec fn spec_addresses(at: Seq<(&'static str, usize)>, here: Seq<(Seq<char>, int)>) -> bool {
    at.len() == here.len() && forall|i: int|
        0 <= i < at.len() ==> (#[trigger] at[i]).0@ == here[i].0 && at[i].1 as int == here[i].1
}

/// Whether a choice's address is the block currently open.
fn addresses(at: &Vec<(&'static str, usize)>, here: &Vec<(Vec<char>, usize)>) -> (r: bool)
    ensures
        r == spec_addresses(at@, pairs_view(here@)),
{
    if at.len() != here.len() {
        return false;
    }
    let mut i: usize = 0;
    while i < at.len()
        invariant
            i <= at.len(),
            at.len() == here.len(),
            forall|k: int|
                0 <= k < i ==> (#[trigger] at@[k]).0@ == pairs_view(here@)[k].0 && at@[k].1 as int == pairs_view(
                    here@,
                )[k].1,
        decreases at.len() - i,
    {
        if !(chars_eq(&chars_of(at[i].0), &here[i].0) && at[i].1 == here[i].1) {
            return false;
        }
        i = i + 1;
    }
    true
}


/// The first choice addressing the open block that contests a line, or -1.
pub open spec fn first_contested(choices: Seq<Choice>, here: Seq<(Seq<char>, int)>, line: Seq<char>) -> int
    decreases choices.len(),
{
    if choices.len() == 0 {
        -1
    } else if spec_addresses(choices[0].at@, here) && choices[0].spec_contests(line) {
        0
    } else {
        let rest = first_contested(choices.drop_first(), here, line);
        if rest < 0 {
            -1
        } else {
            rest + 1
        }
    }
}

pub proof fn lemma_first_contested(choices: Seq<Choice>, here: Seq<(Seq<char>, int)>, line: Seq<char>)
    ensures
        -1 <= first_contested(choices, here, line) < choices.len(),
        first_contested(choices, here, line) >= 0 ==> ({
            let c = choices[first_contested(choices, here, line)];
            spec_addresses(c.at@, here) && c.spec_contests(line)
        }),
        forall|j: int|
            0 <= j < choices.len() && (first_contested(choices, here, line) < 0 || j < first_contested(
                choices,
                here,
                line,
            )) ==> !(spec_addresses((#[trigger] choices[j]).at@, here) && choices[j].spec_contests(line)),
    decreases choices.len(),
{
    if choices.len() > 0 && !(spec_addresses(choices[0].at@, here) && choices[0].spec_contests(line)) {
        lemma_first_contested(choices.drop_first(), here, line);
        assert forall|j: int|
            0 <= j < choices.len() && (first_contested(choices, here, line) < 0 || j < first_contested(
                choices,
                here,
                line,
            )) implies !(spec_addresses((#[trigger] choices[j]).at@, here) && choices[j].spec_contests(line)) by {
            if j > 0 {
                assert(choices[j] == choices.drop_first()[j - 1]);
            }
        }
    }
}

/// The state of a decoration: the header so far, the body so far, the open
/// blocks, the block counters, and which choices were written.
pub type DecorState = (Seq<char>, Seq<char>, Seq<(Seq<char>, int)>, Seq<(Seq<char>, int)>, Seq<bool>);

/// One line of the projection taken into the decoration: a comment the
/// document opens with joins the header; a block header opens its block; a
/// line a choice contests is replaced by the choice's contest the first
/// time and dropped after; any other line is kept.
pub open spec fn decor_step(choices: Seq<Choice>, st: DecorState, line: Seq<char>) -> DecorState {
    let (header, body, here, counts, written) = st;
    if body.len() == 0 && line.len() > 0 && line[0] == '#' {
        (header + line + "\n"@, body, here, counts, written)
    } else {
        match spec_block_header(line) {
            Some(block) => {
                let (h, c) = spec_open(here, counts, block);
                (header, body + line + "\n"@, h, c, written)
            },
            None => {
                let at = first_contested(choices, here, line);
                if at >= 0 {
                    if !written[at] {
                        (header, body + choices[at].rendered(), here, counts, written.update(at, true))
                    } else {
                        st
                    }
                } else {
                    (header, body + line + "\n"@, here, counts, written)
                }
            },
        }
    }
}

/// The decoration after some lines.
pub open spec fn decor_state(choices: Seq<Choice>, lines: Seq<Seq<char>>) -> DecorState
    decreases lines.len(),
{
    if lines.len() == 0 {
        (Seq::empty(), Seq::empty(), Seq::empty(), Seq::empty(), Seq::new(choices.len(), |i: int| false))
    } else {
        decor_step(choices, decor_state(choices, lines.drop_last()), lines.last())
    }
}

/// The kept comments of the first `n` choices that were not written.
pub open spec fn kept_of(choices: Seq<Choice>, written: Seq<bool>, n: int) -> Seq<Seq<char>>
    decreases n,
{
    if n <= 0 {
        Seq::empty()
    } else {
        kept_of(choices, written, n - 1) + if !written[n - 1] {
            seq![choices[n - 1].kept@]
        } else {
            Seq::empty()
        }
    }
}

/// How many choices were written.
pub open spec fn count_written(written: Seq<bool>) -> int
    decreases written.len(),
{
    if written.len() == 0 {
        0
    } else {
        count_written(written.drop_last()) + if written.last() {
            1int
        } else {
            0
        }
    }
}

/// The decorated document: the projection's header, the preamble saying
/// what the reader is asked and what the merge settled (a choice the body
/// found no line for falling back to its comment), then the body.
pub open spec fn spec_decorate(toml: Seq<char>, notes: Seq<Seq<char>>, choices: Seq<Choice>) -> Seq<char> {
    let st = decor_state(choices, text_lines(toml));
    st.0 + preamble_text(notes + kept_of(choices, st.4, choices.len() as int), count_written(st.4)) + st.1
}

/// A projection, and what a merge has to write into it.
pub struct Document<'a> {
    /// The projection of the merged calendar.
    pub toml: &'a str,
    /// What the merge settled on its own, said in the header.
    pub notes: Vec<String>,
    /// What only a reader can settle, written over the lines it contests.
    pub choices: Vec<Choice>,
}

fn contested_by(choices: &Vec<Choice>, here: &Vec<(Vec<char>, usize)>, line: &[char]) -> (r: Option<usize>)
    ensures
        match r {
            Some(at) => at as int == first_contested(choices@, pairs_view(here@), line@),
            None => first_contested(choices@, pairs_view(here@), line@) < 0,
        },
{
    let text = string_of(line);
    proof {
        lemma_first_contested(choices@, pairs_view(here@), line@);
    }
    let mut c: usize = 0;
    while c < choices.len()
        invariant
            c <= choices.len(),
            text@ == line@,
            -1 <= first_contested(choices@, pairs_view(here@), line@) < choices@.len(),
            first_contested(choices@, pairs_view(here@), line@) >= 0 ==> ({
                let ch = choices@[first_contested(choices@, pairs_view(here@), line@)];
                spec_addresses(ch.at@, pairs_view(here@)) && ch.spec_contests(line@)
            }),
            forall|j: int|
                0 <= j < choices@.len() && (first_contested(choices@, pairs_view(here@), line@) < 0 || j
                    < first_contested(choices@, pairs_view(here@), line@)) ==> !(spec_addresses(
                    (#[trigger] choices@[j]).at@,
                    pairs_view(here@),
                ) && choices@[j].spec_contests(line@)),
            first_contested(choices@, pairs_view(here@), line@) < 0 || c <= first_contested(
                choices@,
                pairs_view(here@),
                line@,
            ),
        decreases choices.len() - c,
    {
        if addresses(&choices[c].at, here) && choices[c].contests(text.as_str()) {
            return Some(c);
        }
        c = c + 1;
    }
    None
}

impl Document<'_> {
    /// Write the choices over the lines they contest, then the notes above
    /// them.
    ///
    /// The body is written first so the header can announce the contests
    /// the document holds rather than the ones the merge reported: a choice
    /// the body found no line for falls back to the note it would have been.
    pub fn decorate(&self) -> (out: String)
        ensures
            out@ == spec_decorate(self.toml@, texts_view(self.notes@), self.choices@),
    {
        let lines = lines_of(&chars_of(self.toml));
        let ghost lv = lines@.map_values(|l: Vec<char>| l@);
        let ghost cs = self.choices@;
        let mut header: Vec<char> = Vec::new();
        let mut body: Vec<char> = Vec::new();
        let mut here: Vec<(Vec<char>, usize)> = Vec::new();
        let mut counts: Vec<(Vec<char>, usize)> = Vec::new();
        let mut written: Vec<bool> = Vec::new();
        let mut k: usize = 0;
        while k < self.choices.len()
            invariant
                k <= self.choices.len(),
                written@ == Seq::new(k as nat, |i: int| false),
            decreases self.choices.len() - k,
        {
            written.push(false);
            proof {
                assert(written@ =~= Seq::new((k + 1) as nat, |i: int| false));
            }
            k = k + 1;
        }
        let mut i: usize = 0;
        proof {
            assert(lv.take(0) =~= Seq::<Seq<char>>::empty());
            assert(pairs_view(here@) =~= Seq::<(Seq<char>, int)>::empty());
            assert(pairs_view(counts@) =~= Seq::<(Seq<char>, int)>::empty());
        }
        while i < lines.len()
            invariant
                i <= lines.len(),
                lv == lines@.map_values(|l: Vec<char>| l@),
                cs == self.choices@,
                written@.len() == cs.len(),
                (header@, body@, pairs_view(here@), pairs_view(counts@), written@) == decor_state(
                    cs,
                    lv.take(i as int),
                ),
                forall|j: int| 0 <= j < counts@.len() ==> (#[trigger] counts@[j]).1 <= i,
            decreases lines.len() - i,
        {
            let line = &lines[i];
            proof {
                assert(lv.take(i + 1).drop_last() =~= lv.take(i as int));
                assert(lv.take(i + 1).last() == line@);
            }
            if body.len() == 0 && line.len() > 0 && line[0] == '#' {
                push_all(&mut header, line);
                push_all(&mut header, &chars_of("\n"));
            } else {
                match block_header(line) {
                    Some(block) => {
                        open(&mut here, &mut counts, &block, i);
                        push_all(&mut body, line);
                        push_all(&mut body, &chars_of("\n"));
                    },
                    None => {
                        let found = contested_by(&self.choices, &here, line);
                        proof {
                            lemma_first_contested(cs, pairs_view(here@), line@);
                        }
                        match found {
                            Some(at) => {
                                if !written[at] {
                                    let mut rendered = string_of(&body);
                                    self.choices[at].render(&mut rendered);
                                    body = chars_of(rendered.as_str());
                                    written.set(at, true);
                                }
                            },
                            None => {
                                push_all(&mut body, line);
                                push_all(&mut body, &chars_of("\n"));
                            },
                        }
                    },
                }
            }
            i = i + 1;
        }
        proof {
            assert(lv.take(i as int) =~= lv);
        }
        let mut said: Vec<Vec<char>> = Vec::new();
        let mut n: usize = 0;
        while n < self.notes.len()
            invariant
                n <= self.notes.len(),
                said@.map_values(|s: Vec<char>| s@) == texts_view(self.notes@).take(n as int),
            decreases self.notes.len() - n,
        {
            let ghost prev = said@;
            said.push(chars_of(self.notes[n].as_str()));
            proof {
                assert(said@.map_values(|s: Vec<char>| s@) =~= prev.map_values(|s: Vec<char>| s@).push(
                    self.notes@[n as int]@,
                ));
                assert(texts_view(self.notes@).take(n + 1) =~= texts_view(self.notes@).take(n as int).push(
                    self.notes@[n as int]@,
                ));
            }
            n = n + 1;
        }
        proof {
            assert(texts_view(self.notes@).take(n as int) =~= texts_view(self.notes@));
        }
        let ghost notes_v = texts_view(self.notes@);
        let mut contests: usize = 0;
        let mut c: usize = 0;
        proof {
            assert(written@.take(0) =~= Seq::<bool>::empty());
            assert(notes_v + kept_of(cs, written@, 0) =~= notes_v);
        }
        while c < self.choices.len()
            invariant
                c <= self.choices.len(),
                written@.len() == cs.len(),
                cs == self.choices@,
                said@.map_values(|s: Vec<char>| s@) == notes_v + kept_of(cs, written@, c as int),
                contests as int == count_written(written@.take(c as int)),
                contests <= c,
            decreases self.choices.len() - c,
        {
            proof {
                assert(written@.take(c + 1).drop_last() =~= written@.take(c as int));
                assert(written@.take(c + 1).last() == written@[c as int]);
            }
            if !written[c] {
                let ghost prev = said@;
                said.push(chars_of(self.choices[c].kept.as_str()));
                proof {
                    assert(said@.map_values(|s: Vec<char>| s@) =~= prev.map_values(|s: Vec<char>| s@).push(
                        cs[c as int].kept@,
                    ));
                }
            } else {
                contests = contests + 1;
            }
            c = c + 1;
        }
        proof {
            assert(written@.take(c as int) =~= written@);
        }
        let mut out = header;
        preamble(&mut out, &said, contests);
        push_all(&mut out, &body);
        string_of(&out)
    }
}

/// Comment lines, each written `# `, its text, then a newline.
pub open spec fn comment_block(ls: Seq<Seq<char>>) -> Seq<char>
    decreases ls.len(),
{
    if ls.len() == 0 {
        Seq::empty()
    } else {
        comment_block(ls.drop_last()) + "# "@ + ls.last() + "\n"@
    }
}

/// Whether every line of some comment lines stays within [`WRAP`] octets
/// once its `# ` is written.
pub open spec fn lines_fit(ls: Seq<Seq<char>>) -> bool {
    forall|i: int| 0 <= i < ls.len() ==> octets(#[trigger] ls[i]) + 2 <= WRAP + 2
}

/// Whether no word of a text is wider than [`WRAP`] leaves room for under a
/// bullet's indent.
pub open spec fn words_fit(text: Seq<char>) -> bool {
    forall|i: int| 0 <= i < words(text).len() ==> octets(#[trigger] words(text)[i]) <= WRAP - 2
}

proof fn lemma_octets_append(a: Seq<char>, b: Seq<char>)
    ensures
        octets(a + b) == octets(a) + octets(b),
    decreases b.len(),
{
    if b.len() == 0 {
        assert(a + b =~= a);
    } else {
        lemma_octets_append(a, b.drop_last());
        assert((a + b).drop_last() =~= a + b.drop_last());
        assert((a + b).last() == b.last());
    }
}

proof fn lemma_comment_block_append(a: Seq<Seq<char>>, b: Seq<Seq<char>>)
    ensures
        comment_block(a + b) == comment_block(a) + comment_block(b),
    decreases b.len(),
{
    if b.len() == 0 {
        assert(a + b =~= a);
        assert(comment_block(a) + Seq::<char>::empty() =~= comment_block(a));
    } else {
        lemma_comment_block_append(a, b.drop_last());
        assert((a + b).drop_last() =~= a + b.drop_last());
        assert((a + b).last() == b.last());
        assert(comment_block(a) + comment_block(b.drop_last()) + "# "@ + b.last() + "\n"@ =~= comment_block(a) + (
        comment_block(b.drop_last()) + "# "@ + b.last() + "\n"@));
    }
}

proof fn lemma_wrapped_fits(ws: Seq<Seq<char>>, indent: Seq<char>)
    requires
        indent == "  "@ || indent == Seq::<char>::empty(),
        forall|i: int| 0 <= i < ws.len() ==> octets(#[trigger] ws[i]) <= WRAP - 2,
    ensures
        octets(wrapped(ws, indent).1) <= WRAP,
        exists|ls: Seq<Seq<char>>| lines_fit(ls) && wrapped(ws, indent).0 == comment_block(ls),
    decreases ws.len(),
{
    reveal_strlit("  ");
    if ws.len() == 0 {
        let ls = Seq::<Seq<char>>::empty();
        assert(lines_fit(ls) && wrapped(ws, indent).0 == comment_block(ls));
    } else {
        let init = ws.drop_last();
        assert forall|i: int| 0 <= i < init.len() implies octets(#[trigger] init[i]) <= WRAP - 2 by {
            assert(init[i] == ws[i]);
        }
        lemma_wrapped_fits(init, indent);
        let (out, line) = wrapped(init, indent);
        let ls = choose|ls: Seq<Seq<char>>| lines_fit(ls) && out == comment_block(ls);
        let word = ws.last();
        assert(octets(word) <= WRAP - 2);
        let closes = line.len() > 0 && octets(line) + octets(word) + 1 > WRAP;
        let (out2, line2) = if closes {
            (out + "# "@ + line + "\n"@, indent)
        } else {
            (out, line)
        };
        let line3 = if line2.len() > 0 && line2.last() != ' ' {
            line2.push(' ')
        } else {
            line2
        };
        assert(wrapped(ws, indent) == (out2, line3 + word));
        lemma_octets_append(line3, word);
        if closes {
            let ls2 = ls.push(line);
            assert(ls2.drop_last() =~= ls);
            assert(comment_block(ls2) == out2);
            assert(lines_fit(ls2)) by {
                assert forall|i: int| 0 <= i < ls2.len() implies octets(#[trigger] ls2[i]) + 2 <= WRAP + 2 by {
                    if i < ls.len() {
                        assert(ls2[i] == ls[i]);
                    }
                }
            }
            if indent.len() > 0 {
                assert(indent == "  "@);
                assert(indent.len() == 2 && indent[0] == ' ' && indent[1] == ' ');
                assert(indent.drop_last().drop_last() =~= Seq::<char>::empty());
                assert(octets(indent.drop_last().drop_last()) == 0);
                assert(octets(indent.drop_last()) == 1);
                assert(octets(indent) == 2);
                assert(line3 == indent);
            } else {
                assert(line3 == indent);
                assert(octets(indent) == 0);
            }
        } else {
            assert(lines_fit(ls) && out2 == comment_block(ls));
            if line2.len() > 0 && line2.last() != ' ' {
                assert(line3.drop_last() =~= line2);
                assert(octets(line3) == octets(line2) + 1);
            } else if line2.len() == 0 {
                assert(octets(line3) == 0);
            }
        }
    }
}

/// A comment paragraph whose words leave room for a bullet's indent is
/// wrapped into comment lines none of which passes [`WRAP`] octets after its
/// `# `: `WRAP + 2` octets in all.
pub proof fn law_comment_lines_fit(text: Seq<char>)
    requires
        words_fit(text),
    ensures
        exists|ls: Seq<Seq<char>>| lines_fit(ls) && comment_text(text) == comment_block(ls),
{
    reveal_strlit("  ");
    let indent = if text.len() >= 2 && text.take(2) == "- "@ {
        "  "@
    } else {
        Seq::empty()
    };
    lemma_wrapped_fits(words(text), indent);
    let (out, line) = wrapped(words(text), indent);
    let ls = choose|ls: Seq<Seq<char>>| lines_fit(ls) && out == comment_block(ls);
    if trimmed(line).len() > 0 {
        let ls2 = ls.push(line);
        assert(ls2.drop_last() =~= ls);
        assert(lines_fit(ls2)) by {
            assert forall|i: int| 0 <= i < ls2.len() implies octets(#[trigger] ls2[i]) + 2 <= WRAP + 2 by {
                if i < ls.len() {
                    assert(ls2[i] == ls[i]);
                }
            }
        }
        assert(comment_text(text) == comment_block(ls2));
    } else {
        assert(comment_text(text) =~= comment_block(ls));
    }
}

/// The notes written as bullets keep to the same width when their words do.
pub proof fn law_notes_fit(notes: Seq<Seq<char>>)
    requires
        forall|i: int| 0 <= i < notes.len() ==> words_fit("- "@ + #[trigger] notes[i]),
    ensures
        exists|ls: Seq<Seq<char>>| lines_fit(ls) && notes_text(notes) == comment_block(ls),
    decreases notes.len(),
{
    if notes.len() == 0 {
        assert(lines_fit(Seq::<Seq<char>>::empty()) && notes_text(notes) == comment_block(Seq::empty()));
    } else {
        let init = notes.drop_last();
        assert forall|i: int| 0 <= i < init.len() implies words_fit("- "@ + #[trigger] init[i]) by {
            assert(init[i] == notes[i]);
        }
        law_notes_fit(init);
        let a = choose|ls: Seq<Seq<char>>| lines_fit(ls) && notes_text(init) == comment_block(ls);
        assert(words_fit("- "@ + notes[notes.len() - 1]));
        law_comment_lines_fit("- "@ + notes.last());
        let b = choose|ls: Seq<Seq<char>>| lines_fit(ls) && comment_text("- "@ + notes.last()) == comment_block(ls);
        lemma_comment_block_append(a, b);
        assert(lines_fit(a + b)) by {
            assert forall|i: int| 0 <= i < (a + b).len() implies octets(#[trigger] (a + b)[i]) + 2 <= WRAP + 2 by {
                if i < a.len() {
                    assert((a + b)[i] == a[i]);
                } else {
                    assert((a + b)[i] == b[i - a.len()]);
                }
            }
        }
    }
}

/// The choice a line renders, given the decoration so far: the first choice
/// addressing the open block that contests it, where it was not yet written.
pub open spec fn renders(choices: Seq<Choice>, st: DecorState, line: Seq<char>) -> Option<int> {
    let (header, body, here, counts, written) = st;
    if body.len() == 0 && line.len() > 0 && line[0] == '#' {
        None
    } else if spec_block_header(line) is Some {
        None
    } else {
        let at = first_contested(choices, here, line);
        if at >= 0 && !written[at] {
            Some(at)
        } else {
            None
        }
    }
}

/// The choices a decoration renders into the body, in the order it renders
/// them.
pub open spec fn rendered_choices(choices: Seq<Choice>, lines: Seq<Seq<char>>) -> Seq<int>
    decreases lines.len(),
{
    if lines.len() == 0 {
        Seq::empty()
    } else {
        let before = rendered_choices(choices, lines.drop_last());
        match renders(choices, decor_state(choices, lines.drop_last()), lines.last()) {
            Some(at) => before.push(at),
            None => before,
        }
    }
}

proof fn lemma_count_written_update(w: Seq<bool>, at: int)
    requires
        0 <= at < w.len(),
        !w[at],
    ensures
        count_written(w.update(at, true)) == count_written(w) + 1,
    decreases w.len(),
{
    let u = w.update(at, true);
    if at == w.len() - 1 {
        assert(u.drop_last() =~= w.drop_last());
    } else {
        lemma_count_written_update(w.drop_last(), at);
        assert(u.drop_last() =~= w.drop_last().update(at, true));
    }
}

proof fn lemma_count_written_none(n: nat)
    ensures
        count_written(Seq::new(n, |i: int| false)) == 0,
    decreases n,
{
    if n > 0 {
        lemma_count_written_none((n - 1) as nat);
        assert(Seq::new(n, |i: int| false).drop_last() =~= Seq::new((n - 1) as nat, |i: int| false));
    }
}

proof fn lemma_rendered_choices(choices: Seq<Choice>, lines: Seq<Seq<char>>)
    ensures
        decor_state(choices, lines).4.len() == choices.len(),
        rendered_choices(choices, lines).no_duplicates(),
        rendered_choices(choices, lines).len() == count_written(decor_state(choices, lines).4),
        forall|i: int|
            0 <= i < choices.len() ==> (#[trigger] decor_state(choices, lines).4[i] <==> rendered_choices(
                choices,
                lines,
            ).contains(i)),
        forall|k: int|
            0 <= k < rendered_choices(choices, lines).len() ==> 0 <= #[trigger] rendered_choices(choices, lines)[k]
                < choices.len(),
    decreases lines.len(),
{
    if lines.len() == 0 {
        lemma_count_written_none(choices.len());
        assert(rendered_choices(choices, lines) =~= Seq::<int>::empty());
    } else {
        let init = lines.drop_last();
        lemma_rendered_choices(choices, init);
        let st = decor_state(choices, init);
        let line = lines.last();
        let r = rendered_choices(choices, init);
        lemma_first_contested(choices, st.2, line);
        match renders(choices, st, line) {
            Some(at) => {
                assert(!st.4[at]);
                assert(!r.contains(at));
                lemma_count_written_update(st.4, at);
                let r2 = r.push(at);
                assert forall|i: int| 0 <= i < choices.len() implies (#[trigger] decor_state(choices, lines).4[i]
                    <==> r2.contains(i)) by {
                    if i == at {
                        assert(r2[r.len() as int] == at);
                    } else {
                        if r2.contains(i) {
                            let k = choose|k: int| 0 <= k < r2.len() && r2[k] == i;
                            assert(k < r.len());
                            assert(r[k] == i);
                        }
                        if r.contains(i) {
                            let k = choose|k: int| 0 <= k < r.len() && r[k] == i;
                            assert(r2[k] == i);
                        }
                    }
                }
                assert forall|k: int| 0 <= k < r2.len() implies 0 <= #[trigger] r2[k] < choices.len() by {
                    if k < r.len() {
                        assert(r2[k] == r[k]);
                    }
                }
                assert(r2.no_duplicates()) by {
                    assert forall|a: int, b: int| 0 <= a < r2.len() && 0 <= b < r2.len() && a != b implies r2[a]
                        != r2[b] by {
                        if a < r.len() && b < r.len() {
                        } else if a < r.len() {
                            assert(r2[a] == r[a]);
                        } else if b < r.len() {
                            assert(r2[b] == r[b]);
                        }
                    }
                }
            },
            None => {
                assert forall|i: int| 0 <= i < choices.len() implies (#[trigger] decor_state(choices, lines).4[i]
                    <==> r.contains(i)) by {
                    assert(decor_state(choices, lines).4 == st.4);
                }
            },
        }
    }
}

/// A decoration writes each choice over the lines it contests at most once,
/// and the header announces exactly as many conflicts as it wrote: the
/// choices rendered into the body are distinct, a choice is rendered just
/// when it is marked written, the count the preamble is given is their
/// number, and each is rendered in place of a line it contests in the very
/// block its address names.
pub proof fn law_each_choice_written_once(toml: Seq<char>, notes: Seq<Seq<char>>, choices: Seq<Choice>)
    ensures
        ({
            let lines = text_lines(toml);
            let st = decor_state(choices, lines);
            let shown = rendered_choices(choices, lines);
            &&& shown.no_duplicates()
            &&& forall|i: int| 0 <= i < choices.len() ==> (#[trigger] st.4[i] <==> shown.contains(i))
            &&& spec_decorate(toml, notes, choices) == st.0 + preamble_text(
                notes + kept_of(choices, st.4, choices.len() as int),
                shown.len() as int,
            ) + st.1
            &&& forall|n: int|
                1 <= n <= lines.len() ==> (#[trigger] renders(choices, decor_state(choices, lines.take(n - 1)), lines[n
                    - 1]) matches Some(at) ==> decor_state(choices, lines.take(n)).1 == decor_state(
                    choices,
                    lines.take(n - 1),
                ).1 + choices[at].rendered() && spec_addresses(
                    choices[at].at@,
                    decor_state(choices, lines.take(n - 1)).2,
                ) && choices[at].spec_contests(lines[n - 1]))
        }),
{
    let lines = text_lines(toml);
    lemma_rendered_choices(choices, lines);
    assert forall|n: int|
        1 <= n <= lines.len() implies (#[trigger] renders(choices, decor_state(choices, lines.take(n - 1)), lines[n
        - 1]) matches Some(at) ==> decor_state(choices, lines.take(n)).1 == decor_state(choices, lines.take(n - 1)).1
        + choices[at].rendered() && spec_addresses(choices[at].at@, decor_state(choices, lines.take(n - 1)).2)
        && choices[at].spec_contests(lines[n - 1])) by {
        assert(lines.take(n).drop_last() =~= lines.take(n - 1));
        assert(lines.take(n).last() == lines[n - 1]);
        lemma_first_contested(choices, decor_state(choices, lines.take(n - 1)).2, lines[n - 1]);
    }
}

proof fn lemma_octets_one(c: char)
    ensures
        octets(seq![c]) == crate::edit::utf8_len(c),
{
    assert(seq![c].drop_last() =~= Seq::<char>::empty());
    assert(octets(Seq::<char>::empty()) == 0);
    assert(seq![c].last() == c);
}

proof fn lemma_words_scan_narrow(s: Seq<char>, cur: Seq<char>)
    ensures
        forall|k: int|
            0 <= k < words_scan(s, cur).len() ==> octets(#[trigger] words_scan(s, cur)[k]) <= octets(cur) + octets(
                s,
            ),
    decreases s.len(),
{
    lemma_octets_bound(s);
    lemma_octets_bound(cur);
    assert(octets(Seq::<char>::empty()) == 0);
    if s.len() == 0 {
        if cur.len() > 0 {
            assert(words_scan(s, cur) == seq![cur]);
        } else {
            assert(words_scan(s, cur) =~= Seq::<Seq<char>>::empty());
        }
    } else {
        let rest = s.drop_first();
        lemma_octets_append(seq![s[0]], rest);
        assert(seq![s[0]] + rest =~= s);
        lemma_octets_one(s[0]);
        lemma_octets_bound(rest);
        if crate::text::unicode_space(s[0]) {
            lemma_words_scan_narrow(rest, Seq::empty());
            assert(octets(Seq::<char>::empty()) == 0);
            if cur.len() > 0 {
                let ws = words_scan(s, cur);
                assert forall|k: int| 0 <= k < ws.len() implies octets(#[trigger] ws[k]) <= octets(cur) + octets(s) by {
                    if k > 0 {
                        assert(ws[k] == words_scan(rest, Seq::empty())[k - 1]);
                    }
                }
            } else {
                assert(words_scan(s, cur) == words_scan(rest, Seq::empty()));
            }
        } else {
            lemma_words_scan_narrow(rest, cur.push(s[0]));
            assert(cur.push(s[0]).drop_last() =~= cur);
            assert(octets(cur.push(s[0])) == octets(cur) + crate::edit::utf8_len(s[0]));
            assert(words_scan(s, cur) == words_scan(rest, cur.push(s[0])));
        }
    }
}

proof fn lemma_words_split(a: Seq<char>, b: Seq<char>, cur: Seq<char>)
    requires
        b.len() > 0,
        crate::text::unicode_space(b[0]),
    ensures
        words_scan(a + b, cur) == words_scan(a, cur) + words_scan(b, Seq::empty()),
    decreases a.len(),
{
    let e = Seq::<char>::empty();
    if a.len() == 0 {
        assert(a + b =~= b);
        if cur.len() > 0 {
            assert(words_scan(a, cur) == seq![cur]);
        } else {
            assert(words_scan(a, cur) =~= Seq::<Seq<char>>::empty());
            assert(Seq::<Seq<char>>::empty() + words_scan(b, e) =~= words_scan(b, e));
        }
    } else {
        assert((a + b)[0] == a[0]);
        assert((a + b).drop_first() =~= a.drop_first() + b);
        if crate::text::unicode_space(a[0]) {
            lemma_words_split(a.drop_first(), b, e);
            if cur.len() > 0 {
                assert(seq![cur] + (words_scan(a.drop_first(), e) + words_scan(b, e)) =~= seq![cur] + words_scan(
                    a.drop_first(),
                    e,
                ) + words_scan(b, e));
            }
        } else {
            lemma_words_split(a.drop_first(), b, cur.push(a[0]));
        }
    }
}

/// Whether every word of a text is narrow enough to sit under a bullet.
proof fn lemma_words_fit_narrow(s: Seq<char>)
    requires
        octets(s) <= WRAP - 2,
    ensures
        words_fit(s),
{
    lemma_words_scan_narrow(s, Seq::empty());
    assert(octets(Seq::<char>::empty()) == 0);
}

proof fn lemma_words_fit_join(a: Seq<char>, b: Seq<char>)
    requires
        words_fit(a),
        b.len() > 0,
        crate::text::unicode_space(b[0]),
        octets(b) <= WRAP - 2,
    ensures
        words_fit(a + b),
{
    let e = Seq::<char>::empty();
    lemma_words_split(a, b, e);
    lemma_words_scan_narrow(b, e);
    assert(octets(e) == 0);
    let ws = words(a + b);
    assert forall|i: int| 0 <= i < ws.len() implies octets(#[trigger] ws[i]) <= WRAP - 2 by {
        if i < words(a).len() {
            assert(ws[i] == words(a)[i]);
        } else {
            assert(ws[i] == words_scan(b, e)[i - words(a).len()]);
        }
    }
}

/// A text of ASCII characters is as many octets as characters.
proof fn lemma_ascii_octets(s: Seq<char>)
    requires
        forall|i: int| 0 <= i < s.len() ==> (#[trigger] s[i] as u32) < 0x80,
    ensures
        octets(s) == s.len(),
    decreases s.len(),
{
    if s.len() > 0 {
        assert forall|i: int| 0 <= i < s.drop_last().len() implies (#[trigger] s.drop_last()[i] as u32) < 0x80 by {
            assert(s.drop_last()[i] == s[i]);
        }
        lemma_ascii_octets(s.drop_last());
        assert((s[s.len() - 1] as u32) < 0x80);
    }
}

/// Ten to a power.
pub open spec fn ten_to(k: nat) -> nat
    decreases k,
{
    if k == 0 {
        1
    } else {
        10 * ten_to((k - 1) as nat)
    }
}

proof fn lemma_digits_short(n: nat, k: nat)
    requires
        k >= 1,
        n < ten_to(k),
    ensures
        crate::line::digits(n).len() <= k,
        forall|i: int|
            0 <= i < crate::line::digits(n).len() ==> (#[trigger] crate::line::digits(n)[i] as u32) < 0x80,
    decreases k,
{
    let ds = crate::line::digits(n);
    if n < 10 {
        assert(ds == seq![crate::line::digit_char(n as int)]);
        assert((crate::line::digit_char(n as int) as u32) == 48 + n);
    } else {
        assert(ten_to(0) == 1);
        assert(ten_to(1) == 10 * ten_to(0));
        assert(k >= 2);
        let m = (k - 1) as nat;
        assert(ten_to(k) == 10 * ten_to(m));
        assert(n / 10 < ten_to(m)) by (nonlinear_arith)
            requires
                n < 10 * ten_to(m),
        ;
        lemma_digits_short(n / 10, m);
        let last = crate::line::digit_char((n % 10) as int);
        assert(ds == crate::line::digits(n / 10).push(last));
        assert((last as u32) == 48 + n % 10);
        assert forall|i: int| 0 <= i < ds.len() implies (#[trigger] ds[i] as u32) < 0x80 by {
            if i < ds.len() - 1 {
                assert(ds[i] == crate::line::digits(n / 10)[i]);
            }
        }
    }
}

proof fn lemma_ascii_chunk(c: Seq<char>)
    requires
        forall|i: int| 0 <= i < c.len() ==> (#[trigger] c[i] as u32) < 0x80,
        c.len() <= WRAP - 2,
    ensures
        octets(c) <= WRAP - 2,
{
    lemma_ascii_octets(c);
}

/// The sentence announcing the conflicts has no word too wide for a bullet.
proof fn lemma_contest_sentence_fits(n: int)
    requires
        0 <= n <= usize::MAX,
    ensures
        words_fit(contest_sentence(n)),
{
    reveal_strlit(" conflict");
    reveal_strlit("s");
    reveal_strlit(" below ");
    reveal_strlit("is");
    reveal_strlit("are");
    reveal_strlit(
        " yours to decide, written as the same key once per side. Keep one line of each and delete the others, or replace them with a value of your own: TOML forbids duplicate keys, so this document cannot be applied until every one is decided.",
    );
    reveal_strlit(" yours to decide, written as the same key once per side.");
    reveal_strlit(" Keep one line of each and delete the others, or replace");
    reveal_strlit(" them with a value of your own: TOML forbids duplicate keys,");
    reveal_strlit(" so this document cannot be applied until every one is decided.");
    let a0 = crate::line::int_text(n);
    reveal_with_fuel(ten_to, 21);
    assert(ten_to(20) == 100000000000000000000nat);
    assert(usize::MAX <= 0xffff_ffff_ffff_ffff);
    lemma_digits_short(n as nat, 20);
    assert(a0 == crate::line::digits(n as nat));
    lemma_ascii_chunk(a0);
    lemma_words_fit_narrow(a0);
    let b1 = " conflict"@ + if n == 1 {
        Seq::<char>::empty()
    } else {
        "s"@
    };
    assert forall|i: int| 0 <= i < b1.len() implies (#[trigger] b1[i] as u32) < 0x80 by {}
    lemma_ascii_chunk(b1);
    lemma_words_fit_join(a0, b1);
    let b2 = " below "@ + if n == 1 {
        "is"@
    } else {
        "are"@
    };
    assert forall|i: int| 0 <= i < b2.len() implies (#[trigger] b2[i] as u32) < 0x80 by {}
    lemma_ascii_chunk(b2);
    lemma_words_fit_join(a0 + b1, b2);
    let c1 = " yours to decide, written as the same key once per side."@;
    let c2 = " Keep one line of each and delete the others, or replace"@;
    let c3 = " them with a value of your own: TOML forbids duplicate keys,"@;
    let c4 = " so this document cannot be applied until every one is decided."@;
    assert forall|i: int| 0 <= i < c1.len() implies (#[trigger] c1[i] as u32) < 0x80 by {}
    assert forall|i: int| 0 <= i < c2.len() implies (#[trigger] c2[i] as u32) < 0x80 by {}
    assert forall|i: int| 0 <= i < c3.len() implies (#[trigger] c3[i] as u32) < 0x80 by {}
    assert forall|i: int| 0 <= i < c4.len() implies (#[trigger] c4[i] as u32) < 0x80 by {}
    lemma_ascii_chunk(c1);
    lemma_ascii_chunk(c2);
    lemma_ascii_chunk(c3);
    lemma_ascii_chunk(c4);
    lemma_words_fit_join(a0 + b1 + b2, c1);
    lemma_words_fit_join(a0 + b1 + b2 + c1, c2);
    lemma_words_fit_join(a0 + b1 + b2 + c1 + c2, c3);
    lemma_words_fit_join(a0 + b1 + b2 + c1 + c2 + c3, c4);
    assert(" yours to decide, written as the same key once per side. Keep one line of each and delete the others, or replace them with a value of your own: TOML forbids duplicate keys, so this document cannot be applied until every one is decided."@
        =~= c1 + c2 + c3 + c4);
    assert(contest_sentence(n) =~= a0 + b1 + b2 + c1 + c2 + c3 + c4);
}

/// Lines written one after another, each ended with a newline.
pub open spec fn lines_text(ls: Seq<Seq<char>>) -> Seq<char>
    decreases ls.len(),
{
    if ls.len() == 0 {
        Seq::empty()
    } else {
        lines_text(ls.drop_last()) + ls.last() + "\n"@
    }
}

/// Whether a text is comment lines, each opening with `#` and at most
/// [`WRAP`] octets, and so characters, past its `# `.
pub open spec fn comments_fit(t: Seq<char>) -> bool {
    exists|ls: Seq<Seq<char>>|
        t == lines_text(ls) && forall|i: int|
            0 <= i < ls.len() ==> (#[trigger] ls[i]).len() > 0 && ls[i][0] == '#' && octets(ls[i]) <= WRAP + 2 && ls[i].len() <= WRAP + 2
}

proof fn lemma_lines_text_append(a: Seq<Seq<char>>, b: Seq<Seq<char>>)
    ensures
        lines_text(a + b) == lines_text(a) + lines_text(b),
    decreases b.len(),
{
    if b.len() == 0 {
        assert(a + b =~= a);
        assert(lines_text(a) + Seq::<char>::empty() =~= lines_text(a));
    } else {
        lemma_lines_text_append(a, b.drop_last());
        assert((a + b).drop_last() =~= a + b.drop_last());
        assert((a + b).last() == b.last());
        assert(lines_text(a) + lines_text(b.drop_last()) + b.last() + "\n"@ =~= lines_text(a) + (lines_text(
            b.drop_last(),
        ) + b.last() + "\n"@));
    }
}

proof fn lemma_comments_fit_concat(a: Seq<char>, b: Seq<char>)
    requires
        comments_fit(a),
        comments_fit(b),
    ensures
        comments_fit(a + b),
{
    let la = choose|ls: Seq<Seq<char>>|
        a == lines_text(ls) && forall|i: int|
            0 <= i < ls.len() ==> (#[trigger] ls[i]).len() > 0 && ls[i][0] == '#' && octets(ls[i]) <= WRAP + 2 && ls[i].len() <= WRAP + 2;
    let lb = choose|ls: Seq<Seq<char>>|
        b == lines_text(ls) && forall|i: int|
            0 <= i < ls.len() ==> (#[trigger] ls[i]).len() > 0 && ls[i][0] == '#' && octets(ls[i]) <= WRAP + 2 && ls[i].len() <= WRAP + 2;
    lemma_lines_text_append(la, lb);
    let l = la + lb;
    assert forall|i: int| 0 <= i < l.len() implies (#[trigger] l[i]).len() > 0 && l[i][0] == '#' && octets(l[i])
        <= WRAP + 2 && l[i].len() <= WRAP + 2 by {
        if i < la.len() {
            assert(l[i] == la[i]);
        } else {
            assert(l[i] == lb[i - la.len()]);
        }
    }
}

proof fn lemma_comments_fit_empty()
    ensures
        comments_fit(Seq::empty()),
{
    let ls = Seq::<Seq<char>>::empty();
    assert(Seq::<char>::empty() == lines_text(ls));
}

proof fn lemma_comments_fit_hash()
    ensures
        comments_fit("#\n"@),
{
    reveal_strlit("#\n");
    reveal_strlit("\n");
    let ls = seq![seq!['#']];
    assert(ls.drop_last() =~= Seq::<Seq<char>>::empty());
    assert(lines_text(Seq::<Seq<char>>::empty()) == Seq::<char>::empty());
    assert(ls.last() == seq!['#']);
    assert(lines_text(ls) == Seq::<char>::empty() + seq!['#'] + "\n"@);
    assert(lines_text(ls) =~= "#\n"@);
    assert(seq!['#'].drop_last() =~= Seq::<char>::empty());
    assert(octets(Seq::<char>::empty()) == 0);
    assert(octets(seq!['#']) == 1);
    assert(ls[0].len() > 0 && ls[0][0] == '#' && octets(ls[0]) <= WRAP + 2 && ls[0].len() <= WRAP + 2);
}

proof fn lemma_comment_block_fits(ls: Seq<Seq<char>>)
    requires
        lines_fit(ls),
    ensures
        comments_fit(comment_block(ls)),
    decreases ls.len(),
{
    if ls.len() == 0 {
        lemma_comments_fit_empty();
    } else {
        let init = ls.drop_last();
        assert(lines_fit(init)) by {
            assert forall|i: int| 0 <= i < init.len() implies octets(#[trigger] init[i]) + 2 <= WRAP + 2 by {
                assert(init[i] == ls[i]);
            }
        }
        lemma_comment_block_fits(init);
        reveal_strlit("# ");
        reveal_strlit("\n");
        let line = "# "@ + ls.last();
        let one = seq![line];
        assert(one.drop_last() =~= Seq::<Seq<char>>::empty());
        assert(lines_text(Seq::<Seq<char>>::empty()) == Seq::<char>::empty());
        assert(one.last() == line);
        assert(lines_text(one) == Seq::<char>::empty() + line + "\n"@);
        assert(lines_text(one) =~= "# "@ + ls.last() + "\n"@);
        assert(forall|i: int| 0 <= i < 2 ==> (#[trigger] "# "@[i] as u32) < 0x80);
        lemma_ascii_octets("# "@);
        lemma_octets_append("# "@, ls.last());
        assert(octets(ls.last()) + 2 <= WRAP + 2);
        lemma_octets_bound(ls.last());
        assert(one[0] == line && line[0] == '#');
        assert(comments_fit("# "@ + ls.last() + "\n"@));
        lemma_comments_fit_concat(comment_block(init), "# "@ + ls.last() + "\n"@);
        assert(comment_block(ls) =~= comment_block(init) + ("# "@ + ls.last() + "\n"@));
    }
}

/// Every comment line the header of a decorated document writes, between
/// the projection's own leading comments and the body, opens with `#` and
/// stays within [`WRAP`] octets past its `# ` (`WRAP + 2` in all) when no word
/// of a note is too wide to sit under a bullet: the fixed sentences keep to
/// that width on their own.
pub proof fn law_preamble_lines_fit(notes: Seq<Seq<char>>, contests: int)
    requires
        0 <= contests <= usize::MAX,
        forall|i: int| 0 <= i < notes.len() ==> words_fit("- "@ + #[trigger] notes[i]),
    ensures
        comments_fit(preamble_text(notes, contests)),
{
    if contests == 0 && notes.len() == 0 {
        lemma_comments_fit_empty();
    } else {
        lemma_comments_fit_hash();
        let first = if contests > 0 {
            comment_text(contest_sentence(contests))
        } else {
            Seq::empty()
        };
        if contests > 0 {
            lemma_contest_sentence_fits(contests);
            law_comment_lines_fit(contest_sentence(contests));
            let ls = choose|ls: Seq<Seq<char>>| lines_fit(ls) && comment_text(contest_sentence(contests)) == comment_block(ls);
            lemma_comment_block_fits(ls);
        } else {
            lemma_comments_fit_empty();
        }
        let second = if notes.len() > 0 {
            (if contests > 0 {
                "#\n"@
            } else {
                Seq::empty()
            }) + comment_text("The merge settled these on its own:"@) + "#\n"@ + notes_text(notes)
        } else {
            Seq::empty()
        };
        if notes.len() > 0 {
            reveal_strlit("The merge settled these on its own:");
            let settled = "The merge settled these on its own:"@;
            assert forall|i: int| 0 <= i < settled.len() implies (#[trigger] settled[i] as u32) < 0x80 by {}
            lemma_ascii_chunk(settled);
            lemma_words_fit_narrow(settled);
            law_comment_lines_fit(settled);
            let ls = choose|ls: Seq<Seq<char>>| lines_fit(ls) && comment_text(settled) == comment_block(ls);
            lemma_comment_block_fits(ls);
            law_notes_fit(notes);
            let ns = choose|ls: Seq<Seq<char>>| lines_fit(ls) && notes_text(notes) == comment_block(ls);
            lemma_comment_block_fits(ns);
            let lead = if contests > 0 {
                "#\n"@
            } else {
                Seq::empty()
            };
            if contests > 0 {
                lemma_comments_fit_hash();
            } else {
                lemma_comments_fit_empty();
            }
            lemma_comments_fit_concat(lead, comment_text(settled));
            lemma_comments_fit_concat(lead + comment_text(settled), "#\n"@);
            lemma_comments_fit_concat(lead + comment_text(settled) + "#\n"@, notes_text(notes));
        } else {
            lemma_comments_fit_empty();
        }
        lemma_comments_fit_concat("#\n"@, first);
        lemma_comments_fit_concat("#\n"@ + first, second);
        lemma_comments_fit_concat("#\n"@ + first + second, "#\n"@);
        assert(preamble_text(notes, contests) == "#\n"@ + first + second + "#\n"@);
    }
}

proof fn lemma_count_written_bound(w: Seq<bool>)
    ensures
        0 <= count_written(w) <= w.len(),
    decreases w.len(),
{
    if w.len() > 0 {
        lemma_count_written_bound(w.drop_last());
    }
}

/// The header a decoration writes between the projection's own leading
/// comments and its body is comment lines within [`WRAP`] octets past their
/// `# ` when no word of a note, nor of the kept text of a choice left
/// unwritten, is too wide to sit under a bullet.
pub proof fn law_decorated_header_fits(toml: Seq<char>, notes: Seq<Seq<char>>, choices: Seq<Choice>)
    requires
        choices.len() <= usize::MAX,
        ({
            let said = notes + kept_of(
                choices,
                decor_state(choices, text_lines(toml)).4,
                choices.len() as int,
            );
            forall|i: int| 0 <= i < said.len() ==> words_fit("- "@ + #[trigger] said[i])
        }),
    ensures
        ({
            let st = decor_state(choices, text_lines(toml));
            exists|header: Seq<char>|
                comments_fit(header) && spec_decorate(toml, notes, choices) == st.0 + header + st.1
        }),
{
    let st = decor_state(choices, text_lines(toml));
    lemma_rendered_choices(choices, text_lines(toml));
    lemma_count_written_bound(st.4);
    let said = notes + kept_of(choices, st.4, choices.len() as int);
    law_preamble_lines_fit(said, count_written(st.4));
    let header = preamble_text(said, count_written(st.4));
    assert(spec_decorate(toml, notes, choices) == st.0 + header + st.1);
}

proof fn lemma_undecorated(lines: Seq<Seq<char>>)
    ensures
        decor_state(Seq::<Choice>::empty(), lines).0 + decor_state(Seq::<Choice>::empty(), lines).1 == lines_text(
            lines,
        ),
        decor_state(Seq::<Choice>::empty(), lines).4 == Seq::<bool>::empty(),
    decreases lines.len(),
{
    let none = Seq::<Choice>::empty();
    if lines.len() == 0 {
        assert(Seq::new(0, |i: int| false) =~= Seq::<bool>::empty());
        assert(Seq::<char>::empty() + Seq::<char>::empty() =~= Seq::<char>::empty());
    } else {
        lemma_undecorated(lines.drop_last());
        let st = decor_state(none, lines.drop_last());
        let line = lines.last();
        assert(first_contested(none, st.2, line) == -1);
        let next = decor_state(none, lines);
        assert(lines_text(lines) == lines_text(lines.drop_last()) + line + "\n"@);
        if st.1.len() == 0 && line.len() > 0 && line[0] == '#' {
            assert(next.0 == st.0 + line + "\n"@ && next.1 == st.1);
            assert(st.1 =~= Seq::<char>::empty());
            assert(st.0 + line + "\n"@ + st.1 =~= st.0 + st.1 + line + "\n"@);
        } else {
            assert(next.0 == st.0 && next.1 == st.1 + line + "\n"@);
            assert(st.0 + (st.1 + line + "\n"@) =~= st.0 + st.1 + line + "\n"@);
        }
    }
}

/// With no note and no choice, decorating a projection writes its lines
/// back as they were, in order, each ended with a newline: nothing is added
/// and nothing is dropped.
pub proof fn law_nothing_to_say_changes_nothing(toml: Seq<char>)
    ensures
        spec_decorate(toml, Seq::empty(), Seq::empty()) == lines_text(text_lines(toml)),
{
    let lines = text_lines(toml);
    lemma_undecorated(lines);
    let st = decor_state(Seq::<Choice>::empty(), lines);
    assert(kept_of(Seq::<Choice>::empty(), st.4, 0) =~= Seq::<Seq<char>>::empty());
    assert(count_written(st.4) == 0);
    assert(Seq::<Seq<char>>::empty() + Seq::<Seq<char>>::empty() =~= Seq::<Seq<char>>::empty());
    assert(preamble_text(Seq::empty(), 0) == Seq::<char>::empty());
    assert(st.0 + Seq::<char>::empty() + st.1 =~= st.0 + st.1);
}

/// What a decorated document's header says: with `w` the number of choices
/// rendered into the body, a count of `w` conflicts opens it when `w > 0`,
/// and there is no count when `w == 0`; the notes, then the kept text of
/// every choice not rendered, in order, follow, each as its own `- ` bullet.
pub proof fn law_decorated_header_says(toml: Seq<char>, notes: Seq<Seq<char>>, choices: Seq<Choice>)
    ensures
        ({
            let lines = text_lines(toml);
            let st = decor_state(choices, lines);
            let w = rendered_choices(choices, lines).len() as int;
            let said = notes + kept_of(choices, st.4, choices.len() as int);
            &&& spec_decorate(toml, notes, choices) == st.0 + preamble_text(said, w) + st.1
            &&& w > 0 ==> ("#\n"@ + comment_text(
                    crate::line::int_text(w) + " conflict"@ + (if w == 1 {
                        Seq::<char>::empty()
                    } else {
                        "s"@
                    }) + " below "@ + (if w == 1 {
                        "is"@
                    } else {
                        "are"@
                    }) + " yours to decide, written as the same key once per side. Keep one line of each and delete the others, or replace them with a value of your own: TOML forbids duplicate keys, so this document cannot be applied until every one is decided."@,
                )).is_prefix_of(preamble_text(said, w))
            &&& w == 0 ==> preamble_text(said, w) == if said.len() == 0 {
                Seq::<char>::empty()
            } else {
                "#\n"@ + comment_text("The merge settled these on its own:"@) + "#\n"@ + notes_text(said) + "#\n"@
            }
            &&& forall|i: int|
                0 <= i < said.len() ==> #[trigger] notes_text(said.take(i + 1)) == notes_text(said.take(i))
                    + comment_text("- "@ + said[i])
        }),
{
    let lines = text_lines(toml);
    lemma_rendered_choices(choices, lines);
    let st = decor_state(choices, lines);
    let w = rendered_choices(choices, lines).len() as int;
    let said = notes + kept_of(choices, st.4, choices.len() as int);
    if w > 0 {
        let rest = (if said.len() > 0 {
            "#\n"@ + comment_text("The merge settled these on its own:"@) + "#\n"@ + notes_text(said)
        } else {
            Seq::<char>::empty()
        }) + "#\n"@;
        let head = "#\n"@ + comment_text(contest_sentence(w));
        assert(preamble_text(said, w) =~= head + rest);
        assert((head + rest).subrange(0, head.len() as int) =~= head);
    }
    assert forall|i: int| 0 <= i < said.len() implies #[trigger] notes_text(said.take(i + 1)) == notes_text(
        said.take(i),
    ) + comment_text("- "@ + said[i]) by {
        assert(said.take(i + 1).drop_last() =~= said.take(i));
        assert(said.take(i + 1).last() == said[i]);
    }
}

/// Every line of a projection is taken into its decoration once, in order:
/// a comment it opens with joins the header; every other line that no
/// choice addressing the open block contests is written to the body as it
/// is; a contested line is replaced by the first choice contesting it the
/// first time that choice is met, and dropped after.
pub proof fn law_each_line_taken_once(toml: Seq<char>, choices: Seq<Choice>, n: int)
    requires
        1 <= n <= text_lines(toml).len(),
    ensures
        ({
            let lines = text_lines(toml);
            let before = decor_state(choices, lines.take(n - 1));
            let after = decor_state(choices, lines.take(n));
            let line = lines[n - 1];
            let leading = before.1.len() == 0 && line.len() > 0 && line[0] == '#';
            let at = first_contested(choices, before.2, line);
            &&& leading ==> after.0 == before.0 + line + "\n"@ && after.1 == before.1
            &&& !leading && (spec_block_header(line) is Some || at < 0) ==> after.0 == before.0 && after.1
                == before.1 + line + "\n"@
            &&& !leading && spec_block_header(line) is None && at >= 0 ==> after.0 == before.0 && (if before.4[at] {
                after.1 == before.1
            } else {
                after.1 == before.1 + choices[at].rendered()
            }) && spec_addresses(choices[at].at@, before.2) && choices[at].spec_contests(line)
        }),
{
    let lines = text_lines(toml);
    assert(lines.take(n).drop_last() =~= lines.take(n - 1));
    assert(lines.take(n).last() == lines[n - 1]);
    lemma_first_contested(choices, decor_state(choices, lines.take(n - 1)).2, lines[n - 1]);
}

proof fn lemma_wrapped_shape(ws: Seq<Seq<char>>, indent: Seq<char>)
    requires
        indent == "  "@ || indent == Seq::<char>::empty(),
        forall|i: int| 0 <= i < ws.len() ==> (#[trigger] ws[i]).len() <= WRAP - 2,
    ensures
        wrapped(ws, indent).1.len() <= WRAP,
        exists|ls: Seq<Seq<char>>|
            {
                &&& wrapped(ws, indent).0 == comment_block(ls)
                &&& forall|i: int| 0 <= i < ls.len() ==> (#[trigger] ls[i]).len() <= WRAP
                &&& forall|i: int| 1 <= i < ls.len() ==> indent.is_prefix_of(#[trigger] ls[i])
                &&& ls.len() >= 1 ==> indent.is_prefix_of(wrapped(ws, indent).1)
            },
    decreases ws.len(),
{
    reveal_strlit("  ");
    if ws.len() == 0 {
        let ls = Seq::<Seq<char>>::empty();
        assert(wrapped(ws, indent).0 == comment_block(ls));
    } else {
        let init = ws.drop_last();
        assert forall|i: int| 0 <= i < init.len() implies (#[trigger] init[i]).len() <= WRAP - 2 by {
            assert(init[i] == ws[i]);
        }
        lemma_wrapped_shape(init, indent);
        let (out, line) = wrapped(init, indent);
        let ls = choose|ls: Seq<Seq<char>>|
            {
                &&& out == comment_block(ls)
                &&& forall|i: int| 0 <= i < ls.len() ==> (#[trigger] ls[i]).len() <= WRAP
                &&& forall|i: int| 1 <= i < ls.len() ==> indent.is_prefix_of(#[trigger] ls[i])
                &&& ls.len() >= 1 ==> indent.is_prefix_of(line)
            };
        let word = ws.last();
        assert(word.len() <= WRAP - 2);
        lemma_octets_bound(line);
        lemma_octets_bound(word);
        let closes = line.len() > 0 && octets(line) + octets(word) + 1 > WRAP;
        let (out2, line2) = if closes {
            (out + "# "@ + line + "\n"@, indent)
        } else {
            (out, line)
        };
        let line3 = if line2.len() > 0 && line2.last() != ' ' {
            line2.push(' ')
        } else {
            line2
        };
        assert(wrapped(ws, indent) == (out2, line3 + word));
        if closes {
            let ls2 = ls.push(line);
            assert(ls2.drop_last() =~= ls);
            assert(comment_block(ls2) == out2);
            assert(line.len() <= WRAP);
            assert forall|i: int| 0 <= i < ls2.len() implies (#[trigger] ls2[i]).len() <= WRAP by {
                if i < ls.len() {
                    assert(ls2[i] == ls[i]);
                }
            }
            assert forall|i: int| 1 <= i < ls2.len() implies indent.is_prefix_of(#[trigger] ls2[i]) by {
                if i < ls.len() {
                    assert(ls2[i] == ls[i]);
                } else {
                    assert(ls2[i] == line);
                }
            }
            if indent.len() > 0 {
                assert(indent.last() == ' ');
            }
            assert(line3 == indent);
            assert((line3 + word).subrange(0, indent.len() as int) =~= indent);
        } else {
            if line2.len() > 0 && line2.last() != ' ' {
                assert(line3.len() == line2.len() + 1);
            }
            if ls.len() >= 1 {
                assert(indent.is_prefix_of(line));
                assert((line3 + word).subrange(0, indent.len() as int) =~= line.subrange(0, indent.len() as int));
            }
        }
    }
}

/// A paragraph whose words are at most `WRAP - 2` characters is wrapped
/// into comment lines of at most `WRAP + 2` characters each, `# ` included;
/// a bullet's lines after its first continue under its text, opening with
/// `#   `.
pub proof fn law_paragraph_shape(text: Seq<char>)
    requires
        forall|i: int| 0 <= i < words(text).len() ==> (#[trigger] words(text)[i]).len() <= WRAP - 2,
    ensures
        exists|ls: Seq<Seq<char>>|
            {
                &&& comment_text(text) == comment_block(ls)
                &&& forall|i: int| 0 <= i < ls.len() ==> ("# "@ + #[trigger] ls[i]).len() <= WRAP + 2
                &&& text.len() >= 2 && text.take(2) == "- "@ ==> forall|i: int|
                    1 <= i < ls.len() ==> "#   "@.is_prefix_of("# "@ + #[trigger] ls[i])
            },
{
    reveal_strlit("  ");
    reveal_strlit("# ");
    reveal_strlit("#   ");
    let bullet = text.len() >= 2 && text.take(2) == "- "@;
    let indent = if bullet {
        "  "@
    } else {
        Seq::empty()
    };
    lemma_wrapped_shape(words(text), indent);
    let (out, line) = wrapped(words(text), indent);
    let ls = choose|ls: Seq<Seq<char>>|
        {
            &&& out == comment_block(ls)
            &&& forall|i: int| 0 <= i < ls.len() ==> (#[trigger] ls[i]).len() <= WRAP
            &&& forall|i: int| 1 <= i < ls.len() ==> indent.is_prefix_of(#[trigger] ls[i])
            &&& ls.len() >= 1 ==> indent.is_prefix_of(line)
        };
    let all = if trimmed(line).len() > 0 {
        ls.push(line)
    } else {
        ls
    };
    if trimmed(line).len() > 0 {
        assert(all.drop_last() =~= ls);
        assert(comment_text(text) == comment_block(all));
    } else {
        assert(comment_text(text) =~= comment_block(all));
    }
    assert forall|i: int| 0 <= i < all.len() implies ("# "@ + #[trigger] all[i]).len() <= WRAP + 2 by {
        if i < ls.len() {
            assert(all[i] == ls[i]);
        }
    }
    if bullet {
        assert forall|i: int| 1 <= i < all.len() implies "#   "@.is_prefix_of("# "@ + #[trigger] all[i]) by {
            let l = all[i];
            if i < ls.len() {
                assert(all[i] == ls[i]);
            }
            assert(indent.is_prefix_of(l));
            assert(indent == "  "@);
            assert(l.len() >= 2);
            assert(l.subrange(0, 2) == indent);
            assert(l[0] == l.subrange(0, 2)[0] && l[1] == l.subrange(0, 2)[1]);
            assert(l[0] == ' ' && l[1] == ' ');
            assert(("# "@ + l).subrange(0, 4) =~= "#   "@);
        }
    }
}

/// Whether a text is comment lines, each opening with `#` and at most
/// `WRAP + 2` characters long.
pub open spec fn comments_short(t: Seq<char>) -> bool {
    exists|ls: Seq<Seq<char>>|
        t == lines_text(ls) && forall|i: int|
            0 <= i < ls.len() ==> (#[trigger] ls[i]).len() > 0 && ls[i][0] == '#' && ls[i].len() <= WRAP + 2
}

/// Whether no word of a text is more than `WRAP - 2` characters long.
pub open spec fn words_short(text: Seq<char>) -> bool {
    forall|i: int| 0 <= i < words(text).len() ==> (#[trigger] words(text)[i]).len() <= WRAP - 2
}

proof fn lemma_comments_short_concat(a: Seq<char>, b: Seq<char>)
    requires
        comments_short(a),
        comments_short(b),
    ensures
        comments_short(a + b),
{
    let la = choose|ls: Seq<Seq<char>>|
        a == lines_text(ls) && forall|i: int|
            0 <= i < ls.len() ==> (#[trigger] ls[i]).len() > 0 && ls[i][0] == '#' && ls[i].len() <= WRAP + 2;
    let lb = choose|ls: Seq<Seq<char>>|
        b == lines_text(ls) && forall|i: int|
            0 <= i < ls.len() ==> (#[trigger] ls[i]).len() > 0 && ls[i][0] == '#' && ls[i].len() <= WRAP + 2;
    lemma_lines_text_append(la, lb);
    let l = la + lb;
    assert forall|i: int| 0 <= i < l.len() implies (#[trigger] l[i]).len() > 0 && l[i][0] == '#' && l[i].len()
        <= WRAP + 2 by {
        if i < la.len() {
            assert(l[i] == la[i]);
        } else {
            assert(l[i] == lb[i - la.len()]);
        }
    }
}

proof fn lemma_comments_short_of_fit(t: Seq<char>)
    requires
        comments_fit(t),
    ensures
        comments_short(t),
{
    let ls = choose|ls: Seq<Seq<char>>|
        t == lines_text(ls) && forall|i: int|
            0 <= i < ls.len() ==> (#[trigger] ls[i]).len() > 0 && ls[i][0] == '#' && octets(ls[i]) <= WRAP + 2
                && ls[i].len() <= WRAP + 2;
    assert forall|i: int| 0 <= i < ls.len() implies (#[trigger] ls[i]).len() > 0 && ls[i][0] == '#' && ls[i].len()
        <= WRAP + 2 by {}
}

proof fn lemma_comment_block_short(ls: Seq<Seq<char>>)
    requires
        forall|i: int| 0 <= i < ls.len() ==> ("# "@ + #[trigger] ls[i]).len() <= WRAP + 2,
    ensures
        comments_short(comment_block(ls)),
    decreases ls.len(),
{
    reveal_strlit("# ");
    reveal_strlit("\n");
    if ls.len() == 0 {
        lemma_comments_fit_empty();
        lemma_comments_short_of_fit(Seq::empty());
        assert(comment_block(ls) == Seq::<char>::empty());
    } else {
        let init = ls.drop_last();
        assert forall|i: int| 0 <= i < init.len() implies ("# "@ + #[trigger] init[i]).len() <= WRAP + 2 by {
            assert(init[i] == ls[i]);
        }
        lemma_comment_block_short(init);
        let line = "# "@ + ls.last();
        let one = seq![line];
        assert(one.drop_last() =~= Seq::<Seq<char>>::empty());
        assert(lines_text(Seq::<Seq<char>>::empty()) == Seq::<char>::empty());
        assert(one.last() == line);
        assert(lines_text(one) == Seq::<char>::empty() + line + "\n"@);
        assert(lines_text(one) =~= "# "@ + ls.last() + "\n"@);
        assert(("# "@ + ls[ls.len() - 1]).len() <= WRAP + 2);
        assert(one[0] == line && line[0] == '#');
        assert(comments_short("# "@ + ls.last() + "\n"@));
        lemma_comments_short_concat(comment_block(init), "# "@ + ls.last() + "\n"@);
        assert(comment_block(ls) =~= comment_block(init) + ("# "@ + ls.last() + "\n"@));
    }
}

proof fn lemma_short_of_fit_words(text: Seq<char>)
    requires
        words_fit(text),
    ensures
        words_short(text),
{
    assert forall|i: int| 0 <= i < words(text).len() implies (#[trigger] words(text)[i]).len() <= WRAP - 2 by {
        lemma_octets_bound(words(text)[i]);
    }
}

proof fn lemma_paragraph_short(text: Seq<char>)
    requires
        words_short(text),
    ensures
        comments_short(comment_text(text)),
{
    law_paragraph_shape(text);
    let ls = choose|ls: Seq<Seq<char>>|
        {
            &&& comment_text(text) == comment_block(ls)
            &&& forall|i: int| 0 <= i < ls.len() ==> ("# "@ + #[trigger] ls[i]).len() <= WRAP + 2
            &&& text.len() >= 2 && text.take(2) == "- "@ ==> forall|i: int|
                1 <= i < ls.len() ==> "#   "@.is_prefix_of("# "@ + #[trigger] ls[i])
        };
    lemma_comment_block_short(ls);
}

proof fn lemma_notes_short(notes: Seq<Seq<char>>)
    requires
        forall|i: int| 0 <= i < notes.len() ==> words_short("- "@ + #[trigger] notes[i]),
    ensures
        comments_short(notes_text(notes)),
    decreases notes.len(),
{
    if notes.len() == 0 {
        lemma_comments_fit_empty();
        lemma_comments_short_of_fit(Seq::empty());
        assert(notes_text(notes) == Seq::<char>::empty());
    } else {
        let init = notes.drop_last();
        assert forall|i: int| 0 <= i < init.len() implies words_short("- "@ + #[trigger] init[i]) by {
            assert(init[i] == notes[i]);
        }
        lemma_notes_short(init);
        assert(words_short("- "@ + notes[notes.len() - 1]));
        lemma_paragraph_short("- "@ + notes.last());
        lemma_comments_short_concat(notes_text(init), comment_text("- "@ + notes.last()));
    }
}

/// In characters: every comment line of a decorated document's header
/// opens with `#` and is at most `WRAP + 2` (68) characters long when no word
/// of a note, nor of the kept text of a choice left unwritten, is more than
/// `WRAP - 2` (64) characters long; a bullet's continuation lines open with
/// `#   ` ([`law_paragraph_shape`]).
pub proof fn law_decorated_header_is_short(toml: Seq<char>, notes: Seq<Seq<char>>, choices: Seq<Choice>)
    requires
        choices.len() <= usize::MAX,
        ({
            let said = notes + kept_of(
                choices,
                decor_state(choices, text_lines(toml)).4,
                choices.len() as int,
            );
            forall|i: int| 0 <= i < said.len() ==> words_short("- "@ + #[trigger] said[i])
        }),
    ensures
        ({
            let st = decor_state(choices, text_lines(toml));
            exists|header: Seq<char>|
                comments_short(header) && spec_decorate(toml, notes, choices) == st.0 + header + st.1
        }),
{
    let st = decor_state(choices, text_lines(toml));
    lemma_rendered_choices(choices, text_lines(toml));
    lemma_count_written_bound(st.4);
    let said = notes + kept_of(choices, st.4, choices.len() as int);
    let contests = count_written(st.4);
    let header = preamble_text(said, contests);
    if contests == 0 && said.len() == 0 {
        lemma_comments_fit_empty();
        lemma_comments_short_of_fit(Seq::empty());
    } else {
        lemma_comments_fit_hash();
        lemma_comments_short_of_fit("#\n"@);
        let first = if contests > 0 {
            comment_text(contest_sentence(contests))
        } else {
            Seq::empty()
        };
        if contests > 0 {
            lemma_contest_sentence_fits(contests);
            lemma_short_of_fit_words(contest_sentence(contests));
            lemma_paragraph_short(contest_sentence(contests));
        } else {
            lemma_comments_fit_empty();
            lemma_comments_short_of_fit(Seq::empty());
        }
        let second = if said.len() > 0 {
            (if contests > 0 {
                "#\n"@
            } else {
                Seq::empty()
            }) + comment_text("The merge settled these on its own:"@) + "#\n"@ + notes_text(said)
        } else {
            Seq::empty()
        };
        if said.len() > 0 {
            reveal_strlit("The merge settled these on its own:");
            let settled = "The merge settled these on its own:"@;
            assert forall|i: int| 0 <= i < settled.len() implies (#[trigger] settled[i] as u32) < 0x80 by {}
            lemma_ascii_chunk(settled);
            lemma_words_fit_narrow(settled);
            lemma_short_of_fit_words(settled);
            lemma_paragraph_short(settled);
            lemma_notes_short(said);
            let lead = if contests > 0 {
                "#\n"@
            } else {
                Seq::empty()
            };
            if contests == 0 {
                lemma_comments_fit_empty();
                lemma_comments_short_of_fit(Seq::empty());
            }
            lemma_comments_short_concat(lead, comment_text(settled));
            lemma_comments_short_concat(lead + comment_text(settled), "#\n"@);
            lemma_comments_short_concat(lead + comment_text(settled) + "#\n"@, notes_text(said));
        } else {
            lemma_comments_fit_empty();
            lemma_comments_short_of_fit(Seq::empty());
        }
        lemma_comments_short_concat("#\n"@, first);
        lemma_comments_short_concat("#\n"@ + first, second);
        lemma_comments_short_concat("#\n"@ + first + second, "#\n"@);
        assert(header == "#\n"@ + first + second + "#\n"@);
    }
    assert(spec_decorate(toml, notes, choices) == st.0 + header + st.1);
}

} // verus!
