//! Character-level text helpers shared by every module.
//!
//! Text is processed as sequences of `char`s; `String` and `&str` only appear
//! at the edges of the public API.

use vstd::prelude::*;

verus! {

/// The characters of a string slice, in order.
#[verifier::external_body]
pub(crate) fn chars_of(s: &str) -> (res: Vec<char>)
    ensures
        res@ == s@,
{
    s.chars().collect()
}

/// The string made of the given characters.
#[verifier::external_body]
pub(crate) fn string_of(v: &[char]) -> (res: String)
    ensures
        res@ == v@,
{
    v.iter().collect()
}

/// ASCII lowercase of one character, every other character unchanged.
pub open spec fn lower_char(c: char) -> char {
    if 'A' <= c && c <= 'Z' {
        ((c as u32) + 32) as char
    } else {
        c
    }
}

/// ASCII uppercase of one character, every other character unchanged.
pub open spec fn upper_char(c: char) -> char {
    if 'a' <= c && c <= 'z' {
        ((c as u32) - 32) as char
    } else {
        c
    }
}

/// ASCII uppercase of a text, every other character unchanged: the form in
/// which names compare when ASCII case is ignored.
pub open spec fn ascii_upper(s: Seq<char>) -> Seq<char> {
    Seq::new(s.len(), |i: int| upper_char(s[i]))
}

/// Uppercase the ASCII letters of a text.
pub fn to_ascii_upper(s: &[char]) -> (out: Vec<char>)
    ensures
        out@ == ascii_upper(s@),
{
    let mut out: Vec<char> = Vec::new();
    let mut i: usize = 0;
    while i < s.len()
        invariant
            i <= s.len(),
            out@.len() == i,
            forall|j: int| 0 <= j < i ==> out@[j] == upper_char(#[trigger] s@[j]),
        decreases s.len() - i,
    {
        let c = s[i];
        let u = if 'a' <= c && c <= 'z' {
            ((c as u8) - 32) as char
        } else {
            c
        };
        out.push(u);
        i = i + 1;
    }
    proof {
        assert(out@ =~= ascii_upper(s@));
    }
    out
}

/// Whether two texts are equal once ASCII letters are folded to one case.
pub open spec fn same_ignoring_ascii_case(a: Seq<char>, b: Seq<char>) -> bool {
    a.len() == b.len() && forall|i: int| 0 <= i < a.len() ==> lower_char(#[trigger] a[i]) == lower_char(b[i])
}

pub fn to_lower_char(c: char) -> (r: char)
    ensures
        r == lower_char(c),
{
    if 'A' <= c && c <= 'Z' {
        ((c as u8) + 32) as char
    } else {
        c
    }
}

pub fn eq_ignore_ascii_case(a: &[char], b: &[char]) -> (r: bool)
    ensures
        r == same_ignoring_ascii_case(a@, b@),
{
    if a.len() != b.len() {
        return false;
    }
    let mut i: usize = 0;
    while i < a.len()
        invariant
            a.len() == b.len(),
            i <= a.len(),
            forall|j: int| 0 <= j < i ==> lower_char(#[trigger] a@[j]) == lower_char(b@[j]),
        decreases a.len() - i,
    {
        if to_lower_char(a[i]) != to_lower_char(b[i]) {
            return false;
        }
        i = i + 1;
    }
    true
}


/// Whether two character sequences are equal.
pub fn chars_eq(a: &[char], b: &[char]) -> (r: bool)
    ensures
        r == (a@ == b@),
{
    if a.len() != b.len() {
        return false;
    }
    let mut i: usize = 0;
    while i < a.len()
        invariant
            a.len() == b.len(),
            i <= a.len(),
            forall|j: int| 0 <= j < i ==> a@[j] == b@[j],
        decreases a.len() - i,
    {
        if a[i] != b[i] {
            return false;
        }
        i = i + 1;
    }
    proof {
        assert(a@ =~= b@);
    }
    true
}

/// A copy of a character slice.
pub fn copy_chars(a: &[char]) -> (r: Vec<char>)
    ensures
        r@ == a@,
{
    let mut out: Vec<char> = Vec::new();
    let mut i: usize = 0;
    while i < a.len()
        invariant
            i <= a.len(),
            out@ == a@.take(i as int),
        decreases a.len() - i,
    {
        out.push(a[i]);
        i = i + 1;
        proof {
            assert(out@ =~= a@.take(i as int));
        }
    }
    proof {
        assert(a@.take(a@.len() as int) =~= a@);
    }
    out
}

/// Append every character of `b` to `out`.
pub fn push_all(out: &mut Vec<char>, b: &[char])
    ensures
        final(out)@ == old(out)@ + b@,
{
    let mut i: usize = 0;
    while i < b.len()
        invariant
            i <= b.len(),
            out@ == old(out)@ + b@.take(i as int),
        decreases b.len() - i,
    {
        out.push(b[i]);
        i = i + 1;
        proof {
            assert(out@ =~= old(out)@ + b@.take(i as int));
        }
    }
    proof {
        assert(b@.take(b@.len() as int) =~= b@);
    }
}

/// The characters of `a` from `from` up to, excluding, `to`.
pub fn slice_chars(a: &[char], from: usize, to: usize) -> (r: Vec<char>)
    requires
        from <= to <= a.len(),
    ensures
        r@ == a@.subrange(from as int, to as int),
{
    let mut out: Vec<char> = Vec::new();
    let mut i: usize = from;
    while i < to
        invariant
            from <= i <= to,
            to <= a.len(),
            out@ == a@.subrange(from as int, i as int),
        decreases to - i,
    {
        out.push(a[i]);
        i = i + 1;
        proof {
            assert(out@ =~= a@.subrange(from as int, i as int));
        }
    }
    out
}

/// The case mapping `str::to_uppercase` applies to a text.
pub uninterp spec fn unicode_upper(s: Seq<char>) -> Seq<char>;

/// The case mapping `str::to_lowercase` applies to a text.
pub uninterp spec fn unicode_lower(s: Seq<char>) -> Seq<char>;

/// Whether `char::is_whitespace` holds of a character: whether it has the
/// Unicode `White_Space` property, which these code points have.
pub open spec fn unicode_space(c: char) -> bool {
    let u = c as u32;
    ||| 0x09 <= u <= 0x0d
    ||| u == 0x20
    ||| u == 0x85
    ||| u == 0xa0
    ||| u == 0x1680
    ||| 0x2000 <= u <= 0x200a
    ||| u == 0x2028
    ||| u == 0x2029
    ||| u == 0x202f
    ||| u == 0x205f
    ||| u == 0x3000
}

/// Uppercase a text as `str::to_uppercase` does: every character is replaced
/// by its Unicode uppercase mapping, which a few characters expand.
#[verifier::external_body]
pub(crate) fn to_upper(s: &[char]) -> (res: Vec<char>)
    ensures
        res@ == unicode_upper(s@),
{
    s.iter().collect::<String>().to_uppercase().chars().collect()
}

/// Lowercase a text as `str::to_lowercase` does.
#[verifier::external_body]
pub(crate) fn to_lower(s: &[char]) -> (res: Vec<char>)
    ensures
        res@ == unicode_lower(s@),
{
    s.iter().collect::<String>().to_lowercase().chars().collect()
}

/// Whether a character is white space by `char::is_whitespace`, the class
/// `str::trim` and `str::split_whitespace` go by: the Unicode `White_Space`
/// property, as [`unicode_space`] lists it.
pub(crate) fn is_space(c: char) -> (res: bool)
    ensures
        res == unicode_space(c),
{
    let u = c as u32;
    (0x09 <= u && u <= 0x0d) || u == 0x20 || u == 0x85 || u == 0xa0 || u == 0x1680 || (0x2000 <= u && u <= 0x200a)
        || u == 0x2028 || u == 0x2029 || u == 0x202f || u == 0x205f || u == 0x3000
}

/// A text with its leading and trailing white space removed.
pub open spec fn trimmed(s: Seq<char>) -> Seq<char> {
    s.subrange(lead(s), trail(s))
}

/// How many white space characters a text opens with.
pub open spec fn lead(s: Seq<char>) -> int
    decreases s.len(),
{
    if s.len() == 0 {
        0
    } else if unicode_space(s[0]) {
        1 + lead(s.drop_first())
    } else {
        0
    }
}

/// Where a text's trailing white space starts, never before its leading run
/// ends.
pub open spec fn trail(s: Seq<char>) -> int
    decreases s.len(),
{
    if s.len() == lead(s) {
        s.len() as int
    } else if unicode_space(s.last()) {
        trail(s.drop_last())
    } else {
        s.len() as int
    }
}

pub proof fn lemma_lead_bounds(s: Seq<char>)
    ensures
        0 <= lead(s) <= s.len(),
        forall|i: int| 0 <= i < lead(s) ==> unicode_space(#[trigger] s[i]),
        lead(s) < s.len() ==> !unicode_space(s[lead(s)]),
    decreases s.len(),
{
    if s.len() > 0 && unicode_space(s[0]) {
        lemma_lead_bounds(s.drop_first());
        assert forall|i: int| 0 <= i < lead(s) implies unicode_space(#[trigger] s[i]) by {
            if i > 0 {
                assert(s[i] == s.drop_first()[i - 1]);
            }
        }
    }
}

pub proof fn lemma_trail_bounds(s: Seq<char>)
    ensures
        lead(s) <= trail(s) <= s.len(),
        forall|i: int| trail(s) <= i < s.len() ==> unicode_space(#[trigger] s[i]),
        trail(s) > lead(s) ==> !unicode_space(s[trail(s) - 1]),
    decreases s.len(),
{
    lemma_lead_bounds(s);
    if s.len() == lead(s) {
    } else if unicode_space(s.last()) {
        let t = s.drop_last();
        lemma_lead_prefix(s);
        lemma_trail_bounds(t);
        assert forall|i: int| trail(s) <= i < s.len() implies unicode_space(#[trigger] s[i]) by {
            if i < s.len() - 1 {
                assert(s[i] == t[i]);
            }
        }
        if trail(s) > lead(s) {
            assert(s[trail(s) - 1] == t[trail(t) - 1]);
        }
    } else {
    }
}

/// Dropping a last character that is not part of the leading run keeps it.
pub proof fn lemma_lead_prefix(s: Seq<char>)
    requires
        lead(s) < s.len(),
    ensures
        lead(s.drop_last()) == lead(s),
    decreases s.len(),
{
    if s.len() > 0 && unicode_space(s[0]) {
        lemma_lead_bounds(s);
        assert(s.drop_last().drop_first() =~= s.drop_first().drop_last());
        if s.len() > 1 {
            lemma_lead_prefix(s.drop_first());
        }
    }
}

/// Where a text's trailing white space starts.
pub open spec fn end_of_text(s: Seq<char>) -> int
    decreases s.len(),
{
    if s.len() == 0 {
        0
    } else if unicode_space(s.last()) {
        end_of_text(s.drop_last())
    } else {
        s.len() as int
    }
}

pub proof fn lemma_end_of_text(s: Seq<char>)
    ensures
        0 <= end_of_text(s) <= s.len(),
        forall|i: int| end_of_text(s) <= i < s.len() ==> unicode_space(#[trigger] s[i]),
        end_of_text(s) > 0 ==> !unicode_space(s[end_of_text(s) - 1]),
    decreases s.len(),
{
    if s.len() > 0 && unicode_space(s.last()) {
        lemma_end_of_text(s.drop_last());
        assert forall|i: int| end_of_text(s) <= i < s.len() implies unicode_space(#[trigger] s[i]) by {
            if i < s.len() - 1 {
                assert(s[i] == s.drop_last()[i]);
            }
        }
        if end_of_text(s) > 0 {
            assert(s[end_of_text(s) - 1] == s.drop_last()[end_of_text(s) - 1]);
        }
    }
}

/// Trim trailing white space, as `str::trim_end` does.
pub fn trim_end(s: &[char]) -> (r: Vec<char>)
    ensures
        r@ == s@.take(end_of_text(s@)),
{
    proof {
        lemma_end_of_text(s@);
    }
    let mut end: usize = s.len();
    while end > 0 && is_space(s[end - 1])
        invariant
            end <= s.len(),
            end_of_text(s@) <= end,
            0 <= end_of_text(s@) <= s@.len(),
            forall|i: int| end_of_text(s@) <= i < s@.len() ==> unicode_space(#[trigger] s@[i]),
            end_of_text(s@) > 0 ==> !unicode_space(s@[end_of_text(s@) - 1]),
        decreases end,
    {
        end = end - 1;
    }
    slice_chars(s, 0, end)
}

/// The white-space-separated words of a text, as `str::split_whitespace`
/// yields them, `cur` being the word begun before `s`.
pub open spec fn words_scan(s: Seq<char>, cur: Seq<char>) -> Seq<Seq<char>>
    decreases s.len(),
{
    if s.len() == 0 {
        if cur.len() > 0 {
            seq![cur]
        } else {
            Seq::empty()
        }
    } else if unicode_space(s[0]) {
        if cur.len() > 0 {
            seq![cur] + words_scan(s.drop_first(), Seq::empty())
        } else {
            words_scan(s.drop_first(), Seq::empty())
        }
    } else {
        words_scan(s.drop_first(), cur.push(s[0]))
    }
}

pub open spec fn words(s: Seq<char>) -> Seq<Seq<char>> {
    words_scan(s, Seq::empty())
}

/// Split a text into its white-space-separated words.
pub fn split_words(s: &[char]) -> (out: Vec<Vec<char>>)
    ensures
        out@.map_values(|w: Vec<char>| w@) == words(s@),
{
    let mut out: Vec<Vec<char>> = Vec::new();
    let mut cur: Vec<char> = Vec::new();
    let mut i: usize = 0;
    proof {
        assert(s@.skip(0) =~= s@);
        assert(out@.map_values(|w: Vec<char>| w@) + words(s@) =~= words(s@));
    }
    while i < s.len()
        invariant
            i <= s.len(),
            out@.map_values(|w: Vec<char>| w@) + words_scan(s@.skip(i as int), cur@) == words(s@),
        decreases s.len() - i,
    {
        let ch = s[i];
        proof {
            assert(s@.skip(i as int)[0] == ch);
            assert(s@.skip(i as int).drop_first() =~= s@.skip(i + 1));
        }
        if is_space(ch) {
            if cur.len() > 0 {
                let ghost before = out@.map_values(|w: Vec<char>| w@);
                let word = cur;
                out.push(word);
                cur = Vec::new();
                proof {
                    assert(out@.map_values(|w: Vec<char>| w@) =~= before.push(word@));
                    assert(before + (seq![word@] + words_scan(s@.skip(i + 1), cur@)) =~= before.push(
                        word@,
                    ) + words_scan(s@.skip(i + 1), cur@));
                }
            } else {
                proof {
                    assert(cur@ =~= Seq::<char>::empty());
                }
            }
        } else {
            cur.push(ch);
        }
        i = i + 1;
    }
    proof {
        assert(s@.skip(i as int) =~= Seq::<char>::empty());
    }
    if cur.len() > 0 {
        let ghost before = out@.map_values(|w: Vec<char>| w@);
        let word = cur;
        out.push(word);
        proof {
            assert(out@.map_values(|w: Vec<char>| w@) =~= before.push(word@));
            assert(before + seq![word@] =~= before.push(word@));
        }
    } else {
        proof {
            assert(out@.map_values(|w: Vec<char>| w@) + Seq::<Seq<char>>::empty() =~= out@.map_values(
                |w: Vec<char>| w@,
            ));
        }
    }
    out
}

/// The pieces of a text between every `sep`, as `str::split` yields them,
/// `cur` being the piece begun before `s`.
pub open spec fn pieces_scan(s: Seq<char>, sep: char, cur: Seq<char>) -> Seq<Seq<char>>
    decreases s.len(),
{
    if s.len() == 0 {
        seq![cur]
    } else if s[0] == sep {
        seq![cur] + pieces_scan(s.drop_first(), sep, Seq::empty())
    } else {
        pieces_scan(s.drop_first(), sep, cur.push(s[0]))
    }
}

pub open spec fn pieces(s: Seq<char>, sep: char) -> Seq<Seq<char>> {
    pieces_scan(s, sep, Seq::empty())
}

/// Split a text on every `sep`.
pub fn split_on(s: &[char], sep: char) -> (out: Vec<Vec<char>>)
    ensures
        out@.map_values(|w: Vec<char>| w@) == pieces(s@, sep),
        out@.len() >= 1,
{
    let mut out: Vec<Vec<char>> = Vec::new();
    let mut cur: Vec<char> = Vec::new();
    let mut i: usize = 0;
    proof {
        assert(s@.skip(0) =~= s@);
        assert(out@.map_values(|w: Vec<char>| w@) + pieces(s@, sep) =~= pieces(s@, sep));
    }
    while i < s.len()
        invariant
            i <= s.len(),
            out@.map_values(|w: Vec<char>| w@) + pieces_scan(s@.skip(i as int), sep, cur@) == pieces(
                s@,
                sep,
            ),
        decreases s.len() - i,
    {
        let ch = s[i];
        proof {
            assert(s@.skip(i as int)[0] == ch);
            assert(s@.skip(i as int).drop_first() =~= s@.skip(i + 1));
        }
        if ch == sep {
            let ghost before = out@.map_values(|w: Vec<char>| w@);
            let word = cur;
            out.push(word);
            cur = Vec::new();
            proof {
                assert(out@.map_values(|w: Vec<char>| w@) =~= before.push(word@));
                assert(before + (seq![word@] + pieces_scan(s@.skip(i + 1), sep, cur@)) =~= before.push(
                    word@,
                ) + pieces_scan(s@.skip(i + 1), sep, cur@));
            }
        } else {
            cur.push(ch);
        }
        i = i + 1;
    }
    proof {
        assert(s@.skip(i as int) =~= Seq::<char>::empty());
    }
    let ghost before = out@.map_values(|w: Vec<char>| w@);
    let word = cur;
    out.push(word);
    proof {
        assert(out@.map_values(|w: Vec<char>| w@) =~= before.push(word@));
        assert(before + seq![word@] =~= before.push(word@));
    }
    out
}

/// Trim leading and trailing white space, as `str::trim` does.
pub fn trim(s: &[char]) -> (r: Vec<char>)
    ensures
        r@ == trimmed(s@),
{
    proof {
        lemma_lead_bounds(s@);
        lemma_trail_bounds(s@);
    }
    let mut start: usize = 0;
    while start < s.len() && is_space(s[start])
        invariant
            start <= s.len(),
            start <= lead(s@),
            lead(s@) <= s@.len(),
            forall|i: int| 0 <= i < lead(s@) ==> unicode_space(#[trigger] s@[i]),
            lead(s@) < s@.len() ==> !unicode_space(s@[lead(s@)]),
        decreases s.len() - start,
    {
        start = start + 1;
    }
    assert(start == lead(s@));
    let mut end: usize = s.len();
    while end > start && is_space(s[end - 1])
        invariant
            start == lead(s@),
            start <= end <= s.len(),
            trail(s@) <= end,
            lead(s@) <= trail(s@) <= s@.len(),
            forall|i: int| trail(s@) <= i < s@.len() ==> unicode_space(#[trigger] s@[i]),
            trail(s@) > lead(s@) ==> !unicode_space(s@[trail(s@) - 1]),
        decreases end - start,
    {
        end = end - 1;
    }
    assert(end == trail(s@));
    slice_chars(s, start, end)
}


/// Texts joined with a separator between each two.
pub open spec fn join_with(items: Seq<Seq<char>>, sep: Seq<char>) -> Seq<char>
    decreases items.len(),
{
    if items.len() == 0 {
        Seq::empty()
    } else if items.len() == 1 {
        items[0]
    } else {
        join_with(items.drop_last(), sep) + sep + items.last()
    }
}

/// Join texts with a separator, as `[String]::join` does.
pub fn join_chars(items: &Vec<Vec<char>>, sep: &str) -> (out: Vec<char>)
    ensures
        out@ == join_with(items@.map_values(|w: Vec<char>| w@), sep@),
{
    let ghost all = items@.map_values(|w: Vec<char>| w@);
    if items.len() == 0 {
        return Vec::new();
    }
    let sep = chars_of(sep);
    let mut out = copy_chars(&items[0]);
    let mut i: usize = 1;
    proof {
        assert(all.take(1) =~= seq![all[0]]);
    }
    while i < items.len()
        invariant
            1 <= i <= items.len(),
            all == items@.map_values(|w: Vec<char>| w@),
            out@ == join_with(all.take(i as int), sep@),
        decreases items.len() - i,
    {
        push_all(&mut out, &sep);
        push_all(&mut out, &items[i]);
        proof {
            assert(all.take(i + 1).drop_last() =~= all.take(i as int));
            assert(all.take(i + 1).last() == items@[i as int]@);
        }
        i = i + 1;
    }
    proof {
        assert(all.take(i as int) =~= all);
    }
    out
}

} // verus!
