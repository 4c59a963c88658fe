//! # Choices
//!
//! One contested key: where it sits in the document, and how each side spells
//! it.
//!
//! A collision the merge already settled, and one on a part the projection
//! does not show, make no choice: they have no line to contest and are said in
//! the document's header instead.

use vstd::prelude::*;

use crate::edit::{find_char, index_of_char, lemma_index_of_char_bounds};
use crate::text::{chars_eq, chars_of, push_all, slice_chars, string_of, trim, trimmed};

verus! {

/// The views of some strings.
pub open spec fn texts_view(v: Seq<String>) -> Seq<Seq<char>> {
    v.map_values(|s: String| s@)
}

/// The key a projected line writes: its text up to the first `=`, trimmed;
/// the whole line, trimmed, where it has none.
pub open spec fn spec_key_of(line: Seq<char>) -> Seq<char> {
    let eq = index_of_char(line, '=');
    trimmed(
        if eq >= 0 {
            line.take(eq)
        } else {
            line
        },
    )
}

pub fn key_of_chars(line: &[char]) -> (key: Vec<char>)
    ensures
        key@ == spec_key_of(line@),
{
    proof {
        lemma_index_of_char_bounds(line@, '=');
    }
    match find_char(line, '=') {
        Some(eq) => {
            let head = slice_chars(line, 0, eq);
            proof {
                assert(head@ =~= line@.take(eq as int));
            }
            trim(&head)
        },
        None => trim(line),
    }
}

/// The key a projected line writes, which is its text up to the `=`.
pub fn key_of(line: &str) -> (key: String)
    ensures
        key@ == spec_key_of(line@),
{
    string_of(&key_of_chars(&chars_of(line)))
}

/// The line one side writes for a key, the first whose key it is.
pub open spec fn spec_line_for(lines: Seq<Seq<char>>, key: Seq<char>) -> Option<Seq<char>>
    decreases lines.len(),
{
    if lines.len() == 0 {
        None
    } else if spec_key_of(lines[0]) == key {
        Some(lines[0])
    } else {
        spec_line_for(lines.drop_first(), key)
    }
}

/// The line one side writes for a key, absent where that side writes none.
fn line_for(lines: &Vec<String>, key: &[char]) -> (r: Option<Vec<char>>)
    ensures
        match r {
            Some(l) => spec_line_for(texts_view(lines@), key@) == Some(l@),
            None => spec_line_for(texts_view(lines@), key@) is None,
        },
{
    let ghost all = texts_view(lines@);
    let mut i: usize = 0;
    proof {
        assert(all.skip(0) =~= all);
    }
    while i < lines.len()
        invariant
            i <= lines.len(),
            all == texts_view(lines@),
            spec_line_for(all, key@) == spec_line_for(all.skip(i as int), key@),
        decreases lines.len() - i,
    {
        let line = chars_of(lines[i].as_str());
        proof {
            assert(all.skip(i as int)[0] == line@);
            assert(all.skip(i as int).drop_first() =~= all.skip(i + 1));
        }
        if chars_eq(&key_of_chars(&line), key) {
            return Some(line);
        }
        i = i + 1;
    }
    proof {
        assert(all.skip(i as int) =~= Seq::<Seq<char>>::empty());
    }
    None
}

/// The keys some lines write, each once, in the order they first appear.
pub open spec fn distinct_keys(lines: Seq<Seq<char>>) -> Seq<Seq<char>>
    decreases lines.len(),
{
    if lines.len() == 0 {
        Seq::empty()
    } else {
        let before = distinct_keys(lines.drop_last());
        let key = spec_key_of(lines.last());
        if before.contains(key) {
            before
        } else {
            before.push(key)
        }
    }
}

/// The keys two sides spell differently.
pub open spec fn differing(keys: Seq<Seq<char>>, local: Seq<Seq<char>>, remote: Seq<Seq<char>>) -> Seq<
    Seq<char>,
>
    decreases keys.len(),
{
    if keys.len() == 0 {
        Seq::empty()
    } else {
        let before = differing(keys.drop_last(), local, remote);
        if spec_line_for(local, keys.last()) != spec_line_for(remote, keys.last()) {
            before.push(keys.last())
        } else {
            before
        }
    }
}

/// A side's line for a key with a suffix, nothing where it writes none.
pub open spec fn side_text(line: Option<Seq<char>>, before: Seq<char>, after: Seq<char>) -> Seq<char> {
    match line {
        Some(l) => before + l + after,
        None => Seq::empty(),
    }
}

/// What a contest writes for one key: the line once where the sides agree,
/// else the ancestor's as a comment then each side's, naming the side.
pub open spec fn key_text(
    key: Seq<char>,
    contested: Seq<Seq<char>>,
    base: Seq<Seq<char>>,
    local: Seq<Seq<char>>,
    remote: Seq<Seq<char>>,
) -> Seq<char> {
    if !contested.contains(key) {
        side_text(spec_line_for(local, key), Seq::empty(), "\n"@)
    } else {
        side_text(spec_line_for(base, key), "# "@, " # base\n"@) + side_text(
            spec_line_for(local, key),
            Seq::empty(),
            " # local\n"@,
        ) + side_text(spec_line_for(remote, key), Seq::empty(), " # remote\n"@)
    }
}

/// What a contest writes for some keys, one after the other.
pub open spec fn keys_text(
    keys: Seq<Seq<char>>,
    contested: Seq<Seq<char>>,
    base: Seq<Seq<char>>,
    local: Seq<Seq<char>>,
    remote: Seq<Seq<char>>,
) -> Seq<char>
    decreases keys.len(),
{
    if keys.len() == 0 {
        Seq::empty()
    } else {
        keys_text(keys.drop_last(), contested, base, local, remote) + key_text(
            keys.last(),
            contested,
            base,
            local,
            remote,
        )
    }
}

fn add_key(keys: &mut Vec<Vec<char>>, line: &[char], all: Ghost<Seq<Seq<char>>>, at: Ghost<int>)
    requires
        0 <= at@ < all@.len(),
        all@[at@] == line@,
        old(keys)@.map_values(|k: Vec<char>| k@) == distinct_keys(all@.take(at@)),
    ensures
        final(keys)@.map_values(|k: Vec<char>| k@) == distinct_keys(all@.take(at@ + 1)),
{
    proof {
        assert(all@.take(at@ + 1).drop_last() =~= all@.take(at@));
        assert(all@.take(at@ + 1).last() == line@);
    }
    let key = key_of_chars(line);
    let ghost kv = keys@.map_values(|k: Vec<char>| k@);
    let mut seen = false;
    let mut j: usize = 0;
    while j < keys.len()
        invariant
            j <= keys.len(),
            kv == keys@.map_values(|k: Vec<char>| k@),
            seen == exists|m: int| 0 <= m < j && kv[m] == key@,
        decreases keys.len() - j,
    {
        if chars_eq(&keys[j], &key) {
            seen = true;
        }
        proof {
            assert(kv[j as int] == keys@[j as int]@);
        }
        j = j + 1;
    }
    proof {
        assert(seen == kv.contains(key@));
    }
    if !seen {
        keys.push(key);
        proof {
            assert(keys@.map_values(|k: Vec<char>| k@) =~= kv.push(key@));
        }
    }
}

/// One contested key.
///
/// It carries where it sits in the document, and how each side spells it.
pub struct Choice {
    /// The block the contested lines sit in, one step per array of tables:
    /// the TOML key and the index of the block among its siblings.
    pub at: Vec<(&'static str, usize)>,
    /// The field key whose lines are contested; every key of the block for
    /// an attendee, which the projection writes as a table of its own.
    pub key: Option<&'static str>,
    /// The comment this becomes where the document holds no line to
    /// contest: a collision with nowhere to go is still said.
    pub kept: String,
    /// The ancestor's lines, commented above the choice.
    pub base: Vec<String>,
    /// The local side's lines.
    pub local: Vec<String>,
    /// The remote side's lines.
    pub remote: Vec<String>,
}

impl Choice {
    /// Whether a line writes this choice's key: its key is the field key,
    /// or a dotted key or zone key under it; any key for a whole block.
    pub open spec fn spec_contests(&self, line: Seq<char>) -> bool {
        let eq = index_of_char(line, '=');
        eq >= 0 && {
            let key = trimmed(line.take(eq));
            match self.key {
                None => key.len() > 0,
                Some(field) => key == field@ || (key.len() >= field@.len() && key.take(field@.len() as int)
                    == field@ && {
                    let rest = key.skip(field@.len() as int);
                    (rest.len() > 0 && rest[0] == '.') || rest == "-tz"@
                }),
            }
        }
    }

    /// Every key the two sides write between them, in the order the local
    /// side writes them, a key only the remote side has last.
    pub open spec fn spec_keys(&self) -> Seq<Seq<char>> {
        distinct_keys(texts_view(self.local@) + texts_view(self.remote@))
    }

    /// The keys the two sides spell differently.
    pub open spec fn spec_contested(&self) -> Seq<Seq<char>> {
        differing(self.spec_keys(), texts_view(self.local@), texts_view(self.remote@))
    }

    /// What the contest writes.
    pub open spec fn rendered(&self) -> Seq<char> {
        (if self.spec_contested().len() < 2 {
            "# conflict, keep one line\n"@
        } else {
            "# conflict, keep one side\n"@
        }) + keys_text(
            self.spec_keys(),
            self.spec_contested(),
            texts_view(self.base@),
            texts_view(self.local@),
            texts_view(self.remote@),
        )
    }

    /// Whether a projected line writes this choice's contested key.
    pub fn contests(&self, line: &str) -> (r: bool)
        ensures
            r == self.spec_contests(line@),
    {
        let line = chars_of(line);
        proof {
            lemma_index_of_char_bounds(line@, '=');
        }
        let eq = match find_char(&line, '=') {
            Some(eq) => eq,
            None => return false,
        };
        let head = slice_chars(&line, 0, eq);
        proof {
            assert(head@ =~= line@.take(eq as int));
        }
        let key = trim(&head);
        match self.key {
            None => key.len() > 0,
            Some(field) => {
                let field = chars_of(field);
                if chars_eq(&key, &field) {
                    return true;
                }
                if key.len() < field.len() {
                    return false;
                }
                let lead = slice_chars(&key, 0, field.len());
                proof {
                    assert(lead@ =~= key@.take(field@.len() as int));
                }
                if !chars_eq(&lead, &field) {
                    return false;
                }
                let rest = slice_chars(&key, field.len(), key.len());
                proof {
                    assert(rest@ =~= key@.skip(field@.len() as int));
                }
                (rest.len() > 0 && rest[0] == '.') || chars_eq(&rest, &chars_of("-tz"))
            },
        }
    }

    /// Every key the two sides write between them.
    fn keys(&self) -> (keys: Vec<Vec<char>>)
        ensures
            keys@.map_values(|k: Vec<char>| k@) == self.spec_keys(),
    {
        let ghost all = texts_view(self.local@) + texts_view(self.remote@);
        let mut keys: Vec<Vec<char>> = Vec::new();
        proof {
            assert(all.take(0) =~= Seq::<Seq<char>>::empty());
            assert(keys@.map_values(|k: Vec<char>| k@) =~= Seq::<Seq<char>>::empty());
        }
        let mut i: usize = 0;
        while i < self.local.len()
            invariant
                i <= self.local.len(),
                all == texts_view(self.local@) + texts_view(self.remote@),
                keys@.map_values(|k: Vec<char>| k@) == distinct_keys(all.take(i as int)),
            decreases self.local.len() - i,
        {
            let line = chars_of(self.local[i].as_str());
            proof {
                assert(all[i as int] == line@);
            }
            add_key(&mut keys, &line, Ghost(all), Ghost(i as int));
            i = i + 1;
        }
        let mut j: usize = 0;
        while j < self.remote.len()
            invariant
                j <= self.remote.len(),
                i == self.local.len(),
                all == texts_view(self.local@) + texts_view(self.remote@),
                keys@.map_values(|k: Vec<char>| k@) == distinct_keys(all.take(i + j)),
            decreases self.remote.len() - j,
        {
            let line = chars_of(self.remote[j].as_str());
            proof {
                assert(all[i + j] == line@);
            }
            add_key(&mut keys, &line, Ghost(all), Ghost(i + j));
            j = j + 1;
        }
        proof {
            assert(all.take(i + j) =~= all);
        }
        keys
    }

    /// The keys the two sides spell differently: the ones only a reader can
    /// settle.
    pub fn contested(&self) -> (keys: Vec<String>)
        ensures
            texts_view(keys@) == self.spec_contested(),
    {
        let all = self.keys();
        let ghost kv = all@.map_values(|k: Vec<char>| k@);
        let mut out: Vec<String> = Vec::new();
        let mut i: usize = 0;
        proof {
            assert(kv.take(0) =~= Seq::<Seq<char>>::empty());
            assert(texts_view(out@) =~= Seq::<Seq<char>>::empty());
        }
        while i < all.len()
            invariant
                i <= all.len(),
                kv == all@.map_values(|k: Vec<char>| k@),
                kv == self.spec_keys(),
                texts_view(out@) == differing(kv.take(i as int), texts_view(self.local@), texts_view(self.remote@)),
            decreases all.len() - i,
        {
            proof {
                assert(kv.take(i + 1).drop_last() =~= kv.take(i as int));
                assert(kv.take(i + 1).last() == all@[i as int]@);
            }
            let l = line_for(&self.local, &all[i]);
            let r = line_for(&self.remote, &all[i]);
            let same = match (&l, &r) {
                (Some(a), Some(b)) => chars_eq(a, b),
                (None, None) => true,
                _ => false,
            };
            if !same {
                let ghost prev = out@;
                out.push(string_of(&all[i]));
                proof {
                    assert(texts_view(out@) =~= texts_view(prev).push(all@[i as int]@));
                }
            }
            i = i + 1;
        }
        proof {
            assert(kv.take(i as int) =~= kv);
        }
        out
    }

    /// Write what the contest holds for one key.
    fn write_key(&self, buf: &mut Vec<char>, key: &Vec<char>, contested: &Vec<String>)
        ensures
            final(buf)@ == old(buf)@ + key_text(
                key@,
                texts_view(contested@),
                texts_view(self.base@),
                texts_view(self.local@),
                texts_view(self.remote@),
            ),
    {
        let ghost cv = texts_view(contested@);
        let ghost bv = texts_view(self.base@);
        let ghost lv = texts_view(self.local@);
        let ghost rv = texts_view(self.remote@);
        let mut found = false;
        let mut j: usize = 0;
        while j < contested.len()
            invariant
                j <= contested.len(),
                cv == texts_view(contested@),
                found == exists|m: int| 0 <= m < j && cv[m] == key@,
            decreases contested.len() - j,
        {
            if chars_eq(&chars_of(contested[j].as_str()), key) {
                found = true;
            }
            proof {
                assert(cv[j as int] == contested@[j as int]@);
            }
            j = j + 1;
        }
        proof {
            assert(found == cv.contains(key@));
        }
        let ghost before = buf@;
        if !found {
            if let Some(line) = line_for(&self.local, key) {
                push_all(buf, &line);
                push_all(buf, &chars_of("\n"));
            }
            proof {
                assert(buf@ =~= before + key_text(key@, cv, bv, lv, rv));
            }
        } else {
            if let Some(line) = line_for(&self.base, key) {
                push_all(buf, &chars_of("# "));
                push_all(buf, &line);
                push_all(buf, &chars_of(" # base\n"));
            }
            let ghost mid1 = buf@;
            if let Some(line) = line_for(&self.local, key) {
                push_all(buf, &line);
                push_all(buf, &chars_of(" # local\n"));
            }
            let ghost mid2 = buf@;
            if let Some(line) = line_for(&self.remote, key) {
                push_all(buf, &line);
                push_all(buf, &chars_of(" # remote\n"));
            }
            proof {
                assert(mid1 =~= before + side_text(spec_line_for(bv, key@), "# "@, " # base\n"@));
                assert(mid2 =~= mid1 + side_text(spec_line_for(lv, key@), Seq::empty(), " # local\n"@));
                assert(buf@ =~= mid2 + side_text(spec_line_for(rv, key@), Seq::empty(), " # remote\n"@));
                assert(buf@ =~= before + key_text(key@, cv, bv, lv, rv));
            }
        }
    }

    /// Write the contest over the lines it holds.
    ///
    /// A key the sides differ on becomes the ancestor as a comment then one
    /// live line per side, each naming the side it came from. A key they
    /// agree on is written once, either copy being the other.
    pub fn render(&self, out: &mut String)
        ensures
            final(out)@ == old(out)@ + self.rendered(),
    {
        let contested = self.contested();
        let ghost cv = texts_view(contested@);
        let mut buf = chars_of(out.as_str());
        let ghost start = buf@;
        if contested.len() < 2 {
            push_all(&mut buf, &chars_of("# conflict, keep one line\n"));
        } else {
            push_all(&mut buf, &chars_of("# conflict, keep one side\n"));
        }
        let ghost head = buf@;
        let keys = self.keys();
        let ghost kv = keys@.map_values(|k: Vec<char>| k@);
        let ghost bv = texts_view(self.base@);
        let ghost lv = texts_view(self.local@);
        let ghost rv = texts_view(self.remote@);
        let mut i: usize = 0;
        proof {
            assert(kv.take(0) =~= Seq::<Seq<char>>::empty());
            assert(buf@ =~= head + keys_text(kv.take(0), cv, bv, lv, rv));
        }
        while i < keys.len()
            invariant
                i <= keys.len(),
                kv == keys@.map_values(|k: Vec<char>| k@),
                cv == texts_view(contested@),
                bv == texts_view(self.base@),
                lv == texts_view(self.local@),
                rv == texts_view(self.remote@),
                buf@ == head + keys_text(kv.take(i as int), cv, bv, lv, rv),
            decreases keys.len() - i,
        {
            let key = &keys[i];
            proof {
                assert(kv.take(i + 1).drop_last() =~= kv.take(i as int));
                assert(kv.take(i + 1).last() == key@);
            }
            self.write_key(&mut buf, key, &contested);
            i = i + 1;
        }
        proof {
            assert(kv.take(i as int) =~= kv);
            assert(buf@ =~= start + self.rendered());
        }
        *out = string_of(&buf);
    }
}


/// The line a side writes for a key writes that key.
pub proof fn lemma_line_for_key(lines: Seq<Seq<char>>, key: Seq<char>)
    ensures
        spec_line_for(lines, key) matches Some(l) ==> spec_key_of(l) == key,
    decreases lines.len(),
{
    if lines.len() > 0 && spec_key_of(lines[0]) != key {
        lemma_line_for_key(lines.drop_first(), key);
    }
}

/// The keys two sides spell differently are among the keys.
pub proof fn lemma_differing_among(keys: Seq<Seq<char>>, local: Seq<Seq<char>>, remote: Seq<Seq<char>>, key: Seq<char>)
    requires
        differing(keys, local, remote).contains(key),
    ensures
        keys.contains(key),
    decreases keys.len(),
{
    if keys.len() > 0 {
        let before = differing(keys.drop_last(), local, remote);
        if before.contains(key) {
            lemma_differing_among(keys.drop_last(), local, remote, key);
            let j = choose|j: int| 0 <= j < keys.drop_last().len() && keys.drop_last()[j] == key;
            assert(keys[j] == key);
        } else {
            assert(key == keys.last());
            assert(keys[keys.len() - 1] == key);
        }
    }
}

/// What a contest writes for some keys, run after run.
pub proof fn lemma_keys_text_append(
    a: Seq<Seq<char>>,
    b: Seq<Seq<char>>,
    contested: Seq<Seq<char>>,
    base: Seq<Seq<char>>,
    local: Seq<Seq<char>>,
    remote: Seq<Seq<char>>,
)
    ensures
        keys_text(a + b, contested, base, local, remote) == keys_text(a, contested, base, local, remote)
            + keys_text(b, contested, base, local, remote),
    decreases b.len(),
{
    if b.len() == 0 {
        assert(a + b =~= a);
        assert(keys_text(a, contested, base, local, remote) + Seq::<char>::empty() =~= keys_text(
            a,
            contested,
            base,
            local,
            remote,
        ));
    } else {
        lemma_keys_text_append(a, b.drop_last(), contested, base, local, remote);
        assert((a + b).drop_last() =~= a + b.drop_last());
        assert((a + b).last() == b.last());
        assert(keys_text(a, contested, base, local, remote) + keys_text(b.drop_last(), contested, base, local, remote)
            + key_text(b.last(), contested, base, local, remote) =~= keys_text(a, contested, base, local, remote) + (
        keys_text(b.drop_last(), contested, base, local, remote) + key_text(b.last(), contested, base, local, remote)));
    }
}

/// What a contest writes for a key the sides spell differently: the
/// ancestor's line as a comment, then each side's line naming its side.
pub proof fn lemma_contested_key_text(
    key: Seq<char>,
    contested: Seq<Seq<char>>,
    base: Seq<Seq<char>>,
    local: Seq<Seq<char>>,
    remote: Seq<Seq<char>>,
)
    requires
        contested.contains(key),
        spec_line_for(local, key) is Some,
        spec_line_for(remote, key) is Some,
    ensures
        key_text(key, contested, base, local, remote) == side_text(spec_line_for(base, key), "# "@, " # base\n"@)
            + (spec_line_for(local, key).unwrap() + " # local\n"@ + spec_line_for(remote, key).unwrap()
            + " # remote\n"@),
{
    let l = spec_line_for(local, key).unwrap();
    let r = spec_line_for(remote, key).unwrap();
    assert(side_text(spec_line_for(local, key), Seq::empty(), " # local\n"@) =~= l + " # local\n"@);
    assert(side_text(spec_line_for(remote, key), Seq::empty(), " # remote\n"@) =~= r + " # remote\n"@);
    assert(side_text(spec_line_for(base, key), "# "@, " # base\n"@) + (l + " # local\n"@) + (r + " # remote\n"@)
        =~= side_text(spec_line_for(base, key), "# "@, " # base\n"@) + (l + " # local\n"@ + r + " # remote\n"@));
}

/// What a contest writes for some keys, split around one of them.
pub proof fn lemma_keys_text_at(
    keys: Seq<Seq<char>>,
    i: int,
    contested: Seq<Seq<char>>,
    base: Seq<Seq<char>>,
    local: Seq<Seq<char>>,
    remote: Seq<Seq<char>>,
)
    requires
        0 <= i < keys.len(),
    ensures
        keys_text(keys, contested, base, local, remote) == keys_text(keys.take(i), contested, base, local, remote)
            + key_text(keys[i], contested, base, local, remote) + keys_text(
            keys.skip(i + 1),
            contested,
            base,
            local,
            remote,
        ),
{
    let key = keys[i];
    assert(keys =~= keys.take(i) + seq![key] + keys.skip(i + 1));
    lemma_keys_text_append(keys.take(i), seq![key], contested, base, local, remote);
    lemma_keys_text_append(keys.take(i) + seq![key], keys.skip(i + 1), contested, base, local, remote);
    assert(seq![key].drop_last() =~= Seq::<Seq<char>>::empty());
    assert(seq![key].last() == key);
    assert(keys_text(Seq::<Seq<char>>::empty(), contested, base, local, remote) == Seq::<char>::empty());
    assert(Seq::<char>::empty() + key_text(key, contested, base, local, remote) =~= key_text(
        key,
        contested,
        base,
        local,
        remote,
    ));
}

/// A key the two sides spell differently, where both write it, is written
/// twice under that same key: the local side's line then the remote side's,
/// each naming its side, with the text before and after them returned. A
/// document holding a contest nobody decided therefore repeats a key, which
/// TOML refuses.
pub proof fn law_contested_key_written_per_side(c: Choice, key: Seq<char>) -> (around: (Seq<char>, Seq<char>))
    requires
        c.spec_contested().contains(key),
        spec_line_for(texts_view(c.local@), key) is Some,
        spec_line_for(texts_view(c.remote@), key) is Some,
    ensures
        c.rendered() == around.0 + (spec_line_for(texts_view(c.local@), key).unwrap() + " # local\n"@
            + spec_line_for(texts_view(c.remote@), key).unwrap() + " # remote\n"@) + around.1,
        spec_key_of(spec_line_for(texts_view(c.local@), key).unwrap()) == key,
        spec_key_of(spec_line_for(texts_view(c.remote@), key).unwrap()) == key,
{
    let lv = texts_view(c.local@);
    let rv = texts_view(c.remote@);
    let bv = texts_view(c.base@);
    let keys = c.spec_keys();
    let cv = c.spec_contested();
    lemma_line_for_key(lv, key);
    lemma_line_for_key(rv, key);
    lemma_differing_among(keys, lv, rv, key);
    let i = choose|i: int| 0 <= i < keys.len() && keys[i] == key;
    lemma_keys_text_at(keys, i, cv, bv, lv, rv);
    lemma_contested_key_text(key, cv, bv, lv, rv);
    let middle = spec_line_for(lv, key).unwrap() + " # local\n"@ + spec_line_for(rv, key).unwrap() + " # remote\n"@;
    let b = side_text(spec_line_for(bv, key), "# "@, " # base\n"@);
    let head = if cv.len() < 2 {
        "# conflict, keep one line\n"@
    } else {
        "# conflict, keep one side\n"@
    };
    let before = keys_text(keys.take(i), cv, bv, lv, rv);
    let post = keys_text(keys.skip(i + 1), cv, bv, lv, rv);
    let pre = head + before + b;
    assert(head + (before + (b + middle) + post) =~= pre + middle + post);
    (pre, post)
}


/// A key is among those two sides spell differently exactly when it is one
/// of the keys and the sides' lines for it differ, an absent line counting
/// as a value.
pub proof fn lemma_differing_exactly(keys: Seq<Seq<char>>, local: Seq<Seq<char>>, remote: Seq<Seq<char>>, key: Seq<char>)
    ensures
        differing(keys, local, remote).contains(key) <==> (keys.contains(key) && spec_line_for(local, key)
            != spec_line_for(remote, key)),
    decreases keys.len(),
{
    if keys.len() > 0 {
        lemma_differing_exactly(keys.drop_last(), local, remote, key);
        let before = differing(keys.drop_last(), local, remote);
        if keys.contains(key) && key != keys.last() {
            let j = choose|j: int| 0 <= j < keys.len() && keys[j] == key;
            assert(j < keys.len() - 1);
            assert(keys.drop_last()[j] == key);
        }
        if keys.drop_last().contains(key) {
            let j = choose|j: int| 0 <= j < keys.drop_last().len() && keys.drop_last()[j] == key;
            assert(keys[j] == key);
        }
        if spec_line_for(local, keys.last()) != spec_line_for(remote, keys.last()) {
            if before.push(keys.last()).contains(key) && key != keys.last() {
                let j = choose|j: int| 0 <= j < before.push(keys.last()).len() && before.push(keys.last())[j] == key;
                assert(before[j] == key);
            }
            if key == keys.last() {
                assert(before.push(keys.last())[before.len() as int] == key);
            }
            if before.contains(key) {
                let j = choose|j: int| 0 <= j < before.len() && before[j] == key;
                assert(before.push(keys.last())[j] == key);
            }
        }
        assert(keys[keys.len() - 1] == keys.last());
    }
}

/// A choice contests exactly the keys its two sides write (the local
/// side's first, then those only the remote side has) whose first lines
/// differ; so it contests nothing exactly when both sides spell every key
/// the same.
pub proof fn law_contested_is_what_differs(c: Choice)
    ensures
        forall|k: Seq<char>|
            #[trigger] c.spec_contested().contains(k) <==> (c.spec_keys().contains(k) && spec_line_for(
                texts_view(c.local@),
                k,
            ) != spec_line_for(texts_view(c.remote@), k)),
        c.spec_contested().len() == 0 <==> forall|k: Seq<char>|
            #[trigger] c.spec_keys().contains(k) ==> spec_line_for(texts_view(c.local@), k) == spec_line_for(
                texts_view(c.remote@),
                k,
            ),
{
    let lv = texts_view(c.local@);
    let rv = texts_view(c.remote@);
    assert forall|k: Seq<char>| #[trigger] c.spec_contested().contains(k) <==> (c.spec_keys().contains(k)
        && spec_line_for(lv, k) != spec_line_for(rv, k)) by {
        lemma_differing_exactly(c.spec_keys(), lv, rv, k);
    }
    if c.spec_contested().len() > 0 {
        let k = c.spec_contested()[0];
        assert(c.spec_contested().contains(k));
    }
    if c.spec_contested().len() == 0 {
        assert forall|k: Seq<char>| #[trigger] c.spec_keys().contains(k) implies spec_line_for(lv, k)
            == spec_line_for(rv, k) by {
            if spec_line_for(lv, k) != spec_line_for(rv, k) {
                lemma_differing_exactly(c.spec_keys(), lv, rv, k);
                let j = choose|j: int| 0 <= j < c.spec_contested().len() && c.spec_contested()[j] == k;
            }
        }
    }
}

proof fn lemma_distinct_keys(lines: Seq<Seq<char>>)
    ensures
        distinct_keys(lines).no_duplicates(),
        forall|k: Seq<char>|
            #[trigger] distinct_keys(lines).contains(k) <==> exists|i: int|
                0 <= i < lines.len() && spec_key_of(#[trigger] lines[i]) == k,
    decreases lines.len(),
{
    if lines.len() > 0 {
        let init = lines.drop_last();
        lemma_distinct_keys(init);
        let before = distinct_keys(init);
        let key = spec_key_of(lines.last());
        assert forall|k: Seq<char>| #[trigger] distinct_keys(lines).contains(k) <==> exists|i: int|
            0 <= i < lines.len() && spec_key_of(#[trigger] lines[i]) == k by {
            if distinct_keys(lines).contains(k) {
                if before.contains(k) {
                    let i = choose|i: int| 0 <= i < init.len() && spec_key_of(#[trigger] init[i]) == k;
                    assert(lines[i] == init[i]);
                } else {
                    assert(k == key);
                    assert(spec_key_of(lines[lines.len() - 1]) == k);
                }
            }
            if exists|i: int| 0 <= i < lines.len() && spec_key_of(#[trigger] lines[i]) == k {
                let i = choose|i: int| 0 <= i < lines.len() && spec_key_of(#[trigger] lines[i]) == k;
                if i < init.len() {
                    assert(init[i] == lines[i]);
                    assert(before.contains(k));
                    if !before.contains(key) {
                        let j = choose|j: int| 0 <= j < before.len() && before[j] == k;
                        assert(before.push(key)[j] == k);
                    }
                } else {
                    assert(k == key);
                    if !before.contains(key) {
                        assert(before.push(key)[before.len() as int] == k);
                    }
                }
            }
        }
    }
}

proof fn lemma_distinct_keys_prefix(a: Seq<Seq<char>>, b: Seq<Seq<char>>)
    ensures
        distinct_keys(a).is_prefix_of(distinct_keys(a + b)),
    decreases b.len(),
{
    if b.len() == 0 {
        assert(a + b =~= a);
        assert(distinct_keys(a).subrange(0, distinct_keys(a).len() as int) =~= distinct_keys(a));
    } else {
        lemma_distinct_keys_prefix(a, b.drop_last());
        assert((a + b).drop_last() =~= a + b.drop_last());
        let before = distinct_keys(a + b.drop_last());
        let d = distinct_keys(a);
        assert(before.subrange(0, d.len() as int) == d);
        let after = distinct_keys(a + b);
        assert(after.subrange(0, d.len() as int) =~= before.subrange(0, d.len() as int));
    }
}

proof fn lemma_differing_filter(keys: Seq<Seq<char>>, local: Seq<Seq<char>>, remote: Seq<Seq<char>>)
    ensures
        differing(keys, local, remote) == keys.filter(
            |k: Seq<char>| spec_line_for(local, k) != spec_line_for(remote, k),
        ),
    decreases keys.len(),
{
    reveal(Seq::filter);
    if keys.len() > 0 {
        lemma_differing_filter(keys.drop_last(), local, remote);
    }
}

proof fn lemma_filter_from(s: Seq<Seq<char>>, pred: spec_fn(Seq<char>) -> bool, i: int)
    requires
        0 <= i < s.filter(pred).len(),
    ensures
        exists|j: int| 0 <= j < s.len() && s[j] == s.filter(pred)[i],
    decreases s.len(),
{
    reveal(Seq::filter);
    let sub = s.drop_last().filter(pred);
    if pred(s.last()) && i == sub.len() {
        assert(s[s.len() - 1] == s.filter(pred)[i]);
    } else {
        lemma_filter_from(s.drop_last(), pred, i);
        let j = choose|j: int| 0 <= j < s.drop_last().len() && s.drop_last()[j] == sub[i];
        assert(s[j] == s.filter(pred)[i]);
    }
}

/// The contested keys of a choice are listed once each, in the order their
/// first line comes over the local side then the remote one (the local
/// side's keys first), keeping exactly those whose first local line differs
/// from their first remote line, a missing line counting as a value.
pub proof fn law_contested_order(c: Choice)
    ensures
        c.spec_keys().no_duplicates(),
        distinct_keys(texts_view(c.local@)).is_prefix_of(c.spec_keys()),
        forall|k: Seq<char>|
            #[trigger] c.spec_keys().contains(k) <==> exists|i: int|
                0 <= i < (texts_view(c.local@) + texts_view(c.remote@)).len() && spec_key_of(
                    #[trigger] (texts_view(c.local@) + texts_view(c.remote@))[i],
                ) == k,
        c.spec_contested() == c.spec_keys().filter(
            |k: Seq<char>| spec_line_for(texts_view(c.local@), k) != spec_line_for(texts_view(c.remote@), k),
        ),
        c.spec_contested().no_duplicates(),
{
    let lv = texts_view(c.local@);
    let rv = texts_view(c.remote@);
    lemma_distinct_keys(lv + rv);
    lemma_distinct_keys_prefix(lv, rv);
    lemma_differing_filter(c.spec_keys(), lv, rv);
    let pred = |k: Seq<char>| spec_line_for(lv, k) != spec_line_for(rv, k);
    let f = c.spec_keys().filter(pred);
    assert forall|a: int, b: int| 0 <= a < f.len() && 0 <= b < f.len() && a != b implies f[a] != f[b] by {
        lemma_filter_distinct(c.spec_keys(), pred, a, b);
    }
}

proof fn lemma_filter_distinct(s: Seq<Seq<char>>, pred: spec_fn(Seq<char>) -> bool, a: int, b: int)
    requires
        s.no_duplicates(),
        0 <= a < s.filter(pred).len(),
        0 <= b < s.filter(pred).len(),
        a != b,
    ensures
        s.filter(pred)[a] != s.filter(pred)[b],
    decreases s.len(),
{
    reveal(Seq::filter);
    let sub = s.drop_last().filter(pred);
    assert(s.drop_last().no_duplicates()) by {
        assert forall|i: int, j: int|
            0 <= i < s.drop_last().len() && 0 <= j < s.drop_last().len() && i != j implies s.drop_last()[i]
            != s.drop_last()[j] by {
            assert(s.drop_last()[i] == s[i] && s.drop_last()[j] == s[j]);
        }
    }
    if pred(s.last()) && (a == sub.len() || b == sub.len()) {
        let other = if a == sub.len() {
            b
        } else {
            a
        };
        lemma_filter_from(s.drop_last(), pred, other);
        let j = choose|j: int| 0 <= j < s.drop_last().len() && s.drop_last()[j] == sub[other];
        assert(s[j] == sub[other]);
        assert(s.filter(pred)[other] == sub[other]);
        assert(s.filter(pred)[sub.len() as int] == s[s.len() - 1]);
    } else {
        lemma_filter_distinct(s.drop_last(), pred, a, b);
    }
}

} // verus!
