//! CMU Pronouncing Dictionary backed by u8-encoded phonemes.

use vstd::prelude::*;

use crate::lexicon::{
    lemma_pair_map_at, lemma_sorted_unique, pair_map, search, sorted_words, lex_lt,
};
use crate::byte_map::copy_slice;
use crate::phoneme;
use crate::text::{
    alphabetic, chars_of, is_alphabetic, is_ascii_letter, is_ascii_lower, is_ascii_upper, string_from, to_upper_first, upper_first,
    utf8_lossy, lossy_utf8,
};

verus! {

broadcast use {crate::text::lemma_deep_bytes, crate::text::lemma_deep_chars};

// ── Specification ───────────────────────────────────────────────────────

/// A character that can end a word for the g-drop check: a letter or an apostrophe.
pub open spec fn word_char(c: char) -> bool {
    alphabetic(c) || c == '\''
}

/// The position of the last letter or apostrophe of `s`, or -1 if it has none.
pub open spec fn last_word_index(s: Seq<char>) -> int
    decreases s.len(),
{
    if s.len() == 0 {
        -1
    } else if word_char(s.last()) {
        s.len() - 1
    } else {
        last_word_index(s.drop_last())
    }
}

/// Whether `s` ends in a dropped "g": its last letter-or-apostrophe is an
/// apostrophe that follows "in" (either case) and at least one more letter
/// stands before that "in" ("runnin'", but not "in'" or "don't").
pub open spec fn g_drop(s: Seq<char>) -> bool {
    let e = last_word_index(s);
    &&& e >= 2
    &&& s[e] == '\''
    &&& (s[e - 1] == 'n' || s[e - 1] == 'N')
    &&& (s[e - 2] == 'i' || s[e - 2] == 'I')
    &&& exists|k: int| 0 <= k < e - 2 && alphabetic(#[trigger] s[k])
}

/// Letters upper-cased, apostrophes and hyphens kept, everything else dropped.
pub open spec fn norm_chars(s: Seq<char>) -> Seq<char>
    decreases s.len(),
{
    if s.len() == 0 {
        Seq::empty()
    } else {
        let r = norm_chars(s.drop_last());
        let c = s.last();
        if alphabetic(c) {
            r.push(upper_first(c))
        } else if c == '\'' || c == '-' {
            r.push(c)
        } else {
            r
        }
    }
}

/// The dictionary key of a word: `norm_chars`, with a g-drop's closing
/// apostrophe written as the `G` it stands for ("runnin'" → "RUNNING").
pub open spec fn normalized(s: Seq<char>) -> Seq<char> {
    let buf = norm_chars(s);
    if g_drop(s) && buf.len() > 0 && buf.last() == '\'' {
        buf.drop_last().push('G')
    } else {
        buf
    }
}

/// The pronunciation of a g-dropped word: a final NG becomes N, and an IH
/// (unstressed or secondary) just before it becomes the matching AH.
pub open spec fn g_drop_patched(p: Seq<u8>) -> Seq<u8> {
    if p.len() == 0 || p.last() != phoneme::NG {
        p
    } else {
        let q = p.update(p.len() - 1, phoneme::N);
        if p.len() >= 2 && p[p.len() - 2] == phoneme::IH {
            q.update(p.len() - 2, phoneme::AH)
        } else if p.len() >= 2 && p[p.len() - 2] == phoneme::IH + 80 {
            q.update(p.len() - 2, (phoneme::AH + 80) as u8)
        } else {
            q
        }
    }
}

/// What a lookup hands back for stored variants: patched when the query was g-dropped.
pub open spec fn looked_up(vs: Seq<Seq<u8>>, dropped: bool) -> Seq<Seq<u8>> {
    if dropped {
        vs.map_values(|p: Seq<u8>| g_drop_patched(p))
    } else {
        vs
    }
}

/// The phonemes of a word's first pronunciation as a lookup gives them
/// (g-drop patch included); none when the dictionary does not have the word.
pub open spec fn heard(d: Map<Seq<char>, Seq<Seq<u8>>>, w: Seq<char>) -> Seq<u8> {
    if d.contains_key(normalized(w)) {
        looked_up(d[normalized(w)], g_drop(w))[0]
    } else {
        Seq::empty()
    }
}

/// Every word of a word → variants map has at least one pronunciation.
pub open spec fn pronounceable(m: Map<Seq<char>, Seq<Seq<u8>>>) -> bool {
    forall|w: Seq<char>| m.contains_key(w) ==> (#[trigger] m[w]).len() > 0
}

/// A little-endian u16 at `p`.
pub open spec fn u16_at(b: Seq<u8>, p: int) -> int {
    b[p] as int + 256 * (b[p + 1] as int)
}

/// A little-endian u32 at `p`.
pub open spec fn u32_at(b: Seq<u8>, p: int) -> int {
    b[p] as int + 256 * (b[p + 1] as int) + 65536 * (b[p + 2] as int) + 16777216 * (b[p + 3] as int)
}

/// Up to `k` length-prefixed phoneme lists read from `pos`, and the position
/// after them. Reading stops at the end of the blob; a list cut short is dropped.
pub open spec fn parse_variants(b: Seq<u8>, pos: int, k: nat) -> (Seq<Seq<u8>>, int)
    decreases k,
{
    if k == 0 || pos >= b.len() {
        (Seq::empty(), pos)
    } else {
        let n = b[pos] as int;
        if pos + 1 + n > b.len() {
            (Seq::empty(), pos + 1)
        } else {
            let rest = parse_variants(b, pos + 1 + n, (k - 1) as nat);
            (seq![b.subrange(pos + 1, pos + 1 + n)] + rest.0, rest.1)
        }
    }
}

/// Up to `n` dictionary entries read from `pos`: each a u16 word length, the
/// word's bytes, a variant count, and the variants. An entry whose word or
/// count is cut off ends the list.
pub open spec fn parse_entries(b: Seq<u8>, pos: int, n: nat) -> Seq<(Seq<u8>, Seq<Seq<u8>>)>
    decreases n,
{
    if n == 0 || pos + 2 > b.len() {
        Seq::empty()
    } else {
        let wl = u16_at(b, pos);
        let p = pos + 2;
        if p + wl > b.len() {
            Seq::empty()
        } else if p + wl >= b.len() {
            Seq::empty()
        } else {
            let word = b.subrange(p, p + wl);
            let vc = b[p + wl] as nat;
            let vars = parse_variants(b, p + wl + 1, vc);
            seq![(word, vars.0)] + parse_entries(b, vars.1, (n - 1) as nat)
        }
    }
}

/// The entries of a dictionary blob: a u32 entry count, then the entries.
pub open spec fn blob_entries(b: Seq<u8>) -> Seq<(Seq<u8>, Seq<Seq<u8>>)> {
    if b.len() < 4 {
        Seq::empty()
    } else {
        parse_entries(b, 4, u32_at(b, 0) as nat)
    }
}

/// The word → variants map that a list of entries builds, a later entry for
/// a word replacing an earlier one.
pub open spec fn entries_map(es: Seq<(Seq<u8>, Seq<Seq<u8>>)>) -> Map<Seq<char>, Seq<Seq<u8>>>
    decreases es.len(),
{
    if es.len() == 0 {
        Map::empty()
    } else {
        entries_map(es.drop_last()).insert(lossy_utf8(es.last().0), es.last().1)
    }
}

proof fn lemma_last_word_index(s: Seq<char>)
    ensures
        -1 <= last_word_index(s) < s.len(),
        last_word_index(s) >= 0 ==> word_char(s[last_word_index(s)]),
        forall|k: int| last_word_index(s) < k < s.len() ==> !word_char(#[trigger] s[k]),
    decreases s.len(),
{
    if s.len() > 0 && !word_char(s.last()) {
        lemma_last_word_index(s.drop_last());
        assert forall|k: int| last_word_index(s) < k < s.len() implies !word_char(#[trigger] s[k]) by {
            if k < s.len() - 1 {
                assert(s[k] == s.drop_last()[k]);
            }
        }
    }
}

// ── ASCII input ─────────────────────────────────────────────────────────
//
// For ASCII text std's letter test and case mapping are the ASCII ones, so
// normalization can be stated in full there.

/// Text made of ASCII characters only.
pub open spec fn is_ascii(s: Seq<char>) -> bool {
    forall|i: int| 0 <= i < s.len() ==> (#[trigger] s[i] as u32) < 128
}

/// The upper-case form of an ASCII character: a lower-case letter moves up
/// by 32, anything else stays.
pub open spec fn ascii_upper(c: char) -> char {
    if is_ascii_lower(c) {
        ((c as u32) - 32) as char
    } else {
        c
    }
}

/// The lower-case form of an ASCII character: an upper-case letter moves down
/// by 32, anything else stays.
pub open spec fn ascii_lower(c: char) -> char {
    if is_ascii_upper(c) {
        ((c as u32) + 32) as char
    } else {
        c
    }
}

/// A character 32 below an ASCII lower-case letter is its upper-case form,
/// and one 32 above an upper-case letter its lower-case form.
pub proof fn lemma_case_shift(x: char, c: char)
    ensures
        is_ascii_lower(c) && (x as u32) == (c as u32) - 32 ==> x == ascii_upper(c),
        is_ascii_upper(c) && (x as u32) == (c as u32) + 32 ==> x == ascii_lower(c),
{
}

/// Lower-casing forgets an earlier upper- or lower-casing.
pub proof fn lemma_ascii_lower_after(c: char)
    ensures
        ascii_lower(ascii_upper(c)) == ascii_lower(c),
        ascii_lower(ascii_lower(c)) == ascii_lower(c),
{
}

/// `word_char` over ASCII.
pub open spec fn ascii_word_char(c: char) -> bool {
    is_ascii_letter(c) || c == '\''
}

/// `last_word_index` over ASCII.
pub open spec fn ascii_last_word_index(s: Seq<char>) -> int
    decreases s.len(),
{
    if s.len() == 0 {
        -1
    } else if ascii_word_char(s.last()) {
        s.len() - 1
    } else {
        ascii_last_word_index(s.drop_last())
    }
}

/// `g_drop` over ASCII.
pub open spec fn ascii_g_drop(s: Seq<char>) -> bool {
    let e = ascii_last_word_index(s);
    &&& e >= 2
    &&& s[e] == '\''
    &&& (s[e - 1] == 'n' || s[e - 1] == 'N')
    &&& (s[e - 2] == 'i' || s[e - 2] == 'I')
    &&& exists|k: int| 0 <= k < e - 2 && is_ascii_letter(#[trigger] s[k])
}

/// `norm_chars` over ASCII: letters upper-cased, apostrophes and hyphens
/// kept, everything else dropped.
pub open spec fn ascii_norm_chars(s: Seq<char>) -> Seq<char>
    decreases s.len(),
{
    if s.len() == 0 {
        Seq::empty()
    } else {
        let r = ascii_norm_chars(s.drop_last());
        let c = s.last();
        if is_ascii_letter(c) {
            r.push(ascii_upper(c))
        } else if c == '\'' || c == '-' {
            r.push(c)
        } else {
            r
        }
    }
}

/// `normalized` over ASCII.
pub open spec fn ascii_normalized(s: Seq<char>) -> Seq<char> {
    let buf = ascii_norm_chars(s);
    if ascii_g_drop(s) && buf.len() > 0 && buf.last() == '\'' {
        buf.drop_last().push('G')
    } else {
        buf
    }
}

/// std's letter test and upper-casing agree with the ASCII ones on `s`.
pub open spec fn std_agrees(s: Seq<char>) -> bool {
    forall|k: int|
        0 <= k < s.len() ==> alphabetic(#[trigger] s[k]) == is_ascii_letter(s[k]) && (is_ascii_letter(s[k])
            ==> upper_first(s[k]) == ascii_upper(s[k]))
}

proof fn lemma_std_agrees(s: Seq<char>)
    requires
        std_agrees(s),
    ensures
        norm_chars(s) == ascii_norm_chars(s),
        last_word_index(s) == ascii_last_word_index(s),
        g_drop(s) == ascii_g_drop(s),
        normalized(s) == ascii_normalized(s),
    decreases s.len(),
{
    if s.len() > 0 {
        let d = s.drop_last();
        assert forall|k: int| 0 <= k < d.len() implies alphabetic(#[trigger] d[k]) == is_ascii_letter(d[k]) && (
        is_ascii_letter(d[k]) ==> upper_first(d[k]) == ascii_upper(d[k])) by {
            assert(d[k] == s[k]);
        }
        lemma_std_agrees(d);
        assert(alphabetic(s[s.len() - 1]) == is_ascii_letter(s[s.len() - 1]));
    }
    let e = last_word_index(s);
    lemma_last_word_index(s);
    if e >= 2 {
        if exists|k: int| 0 <= k < e - 2 && alphabetic(#[trigger] s[k]) {
            let k = choose|k: int| 0 <= k < e - 2 && alphabetic(#[trigger] s[k]);
            assert(is_ascii_letter(s[k]));
        }
        if exists|k: int| 0 <= k < e - 2 && is_ascii_letter(#[trigger] s[k]) {
            let k = choose|k: int| 0 <= k < e - 2 && is_ascii_letter(#[trigger] s[k]);
            assert(alphabetic(s[k]));
        }
    }
}

proof fn lemma_ascii_upper(c: char)
    ensures
        (c as u32) < 128 ==> (ascii_upper(c) as u32) < 128,
        is_ascii_letter(c) <==> is_ascii_upper(ascii_upper(c)),
        ascii_upper(ascii_upper(c)) == ascii_upper(c),
        !is_ascii_letter(c) ==> ascii_upper(c) == c,
        is_ascii_upper(c) ==> ascii_upper(c) == c,
{
}

/// Two ASCII characters with the same upper-case form are both letters or
/// neither, and equal when they are not letters.
proof fn lemma_same_upper(a: char, b: char)
    requires
        (a as u32) < 128,
        (b as u32) < 128,
        ascii_upper(a) == ascii_upper(b),
    ensures
        is_ascii_letter(a) == is_ascii_letter(b),
        !is_ascii_letter(a) ==> a == b,
        (a == 'n' || a == 'N') == (b == 'n' || b == 'N'),
        (a == 'i' || a == 'I') == (b == 'i' || b == 'I'),
        (a == '\'') == (b == '\''),
{
    lemma_ascii_upper(a);
    lemma_ascii_upper(b);
}

/// Normalizing ASCII text ignores case: texts that agree up to ASCII case
/// normalize alike and drop a g alike.
pub proof fn lemma_ascii_case_blind(s: Seq<char>, t: Seq<char>)
    requires
        is_ascii(s),
        is_ascii(t),
        s.len() == t.len(),
        forall|i: int| 0 <= i < s.len() ==> ascii_upper(#[trigger] s[i]) == ascii_upper(t[i]),
    ensures
        ascii_norm_chars(s) == ascii_norm_chars(t),
        ascii_last_word_index(s) == ascii_last_word_index(t),
        ascii_g_drop(s) == ascii_g_drop(t),
        ascii_normalized(s) == ascii_normalized(t),
    decreases s.len(),
{
    if s.len() > 0 {
        let (ds, dt) = (s.drop_last(), t.drop_last());
        assert forall|i: int| 0 <= i < ds.len() implies ascii_upper(#[trigger] ds[i]) == ascii_upper(dt[i]) by {
            assert(ds[i] == s[i] && dt[i] == t[i]);
        }
        assert forall|i: int| 0 <= i < ds.len() implies (#[trigger] ds[i] as u32) < 128 by {
            assert(ds[i] == s[i]);
        }
        assert forall|i: int| 0 <= i < dt.len() implies (#[trigger] dt[i] as u32) < 128 by {
            assert(dt[i] == t[i]);
        }
        lemma_ascii_case_blind(ds, dt);
        let n = s.len() - 1;
        assert((s[n] as u32) < 128 && (t[n] as u32) < 128);
        lemma_same_upper(s[n], t[n]);
    }
    let e = ascii_last_word_index(s);
    lemma_ascii_last_word_index(s);
    if e >= 2 {
        assert((s[e] as u32) < 128 && (t[e] as u32) < 128);
        lemma_same_upper(s[e], t[e]);
        assert((s[e - 1] as u32) < 128 && (t[e - 1] as u32) < 128);
        lemma_same_upper(s[e - 1], t[e - 1]);
        assert((s[e - 2] as u32) < 128 && (t[e - 2] as u32) < 128);
        lemma_same_upper(s[e - 2], t[e - 2]);
        if exists|k: int| 0 <= k < e - 2 && is_ascii_letter(#[trigger] s[k]) {
            let k = choose|k: int| 0 <= k < e - 2 && is_ascii_letter(#[trigger] s[k]);
            assert((s[k] as u32) < 128 && (t[k] as u32) < 128);
            lemma_same_upper(s[k], t[k]);
            assert(is_ascii_letter(t[k]));
        }
        if exists|k: int| 0 <= k < e - 2 && is_ascii_letter(#[trigger] t[k]) {
            let k = choose|k: int| 0 <= k < e - 2 && is_ascii_letter(#[trigger] t[k]);
            assert((s[k] as u32) < 128 && (t[k] as u32) < 128);
            lemma_same_upper(s[k], t[k]);
            assert(is_ascii_letter(s[k]));
        }
    }
}

proof fn lemma_ascii_last_word_index(s: Seq<char>)
    ensures
        -1 <= ascii_last_word_index(s) < s.len(),
        ascii_last_word_index(s) >= 0 ==> ascii_word_char(s[ascii_last_word_index(s)]),
    decreases s.len(),
{
    if s.len() > 0 && !ascii_word_char(s.last()) {
        lemma_ascii_last_word_index(s.drop_last());
    }
}

/// Normalized ASCII text is made of upper-case letters, apostrophes and
/// hyphens, and is no longer than the text.
pub proof fn lemma_ascii_normalized_shape(s: Seq<char>)
    requires
        is_ascii(s),
    ensures
        ascii_normalized(s).len() <= s.len(),
        forall|i: int|
            0 <= i < ascii_normalized(s).len() ==> is_ascii_upper(#[trigger] ascii_normalized(s)[i]) || ascii_normalized(
                s,
            )[i] == '\'' || ascii_normalized(s)[i] == '-',
{
    lemma_ascii_norm_chars_shape(s);
}

proof fn lemma_ascii_norm_chars_shape(s: Seq<char>)
    requires
        is_ascii(s),
    ensures
        ascii_norm_chars(s).len() <= s.len(),
        forall|i: int|
            0 <= i < ascii_norm_chars(s).len() ==> is_ascii_upper(#[trigger] ascii_norm_chars(s)[i]) || ascii_norm_chars(
                s,
            )[i] == '\'' || ascii_norm_chars(s)[i] == '-',
    decreases s.len(),
{
    if s.len() > 0 {
        let d = s.drop_last();
        assert forall|i: int| 0 <= i < d.len() implies (#[trigger] d[i] as u32) < 128 by {
            assert(d[i] == s[i]);
        }
        lemma_ascii_norm_chars_shape(d);
        lemma_ascii_upper(s.last());
        let r = ascii_norm_chars(s);
        let p = ascii_norm_chars(d);
        assert forall|i: int| 0 <= i < r.len() implies is_ascii_upper(#[trigger] r[i]) || r[i] == '\'' || r[i] == '-' by {
            if i < p.len() {
                assert(r[i] == p[i]);
            }
        }
    }
}

/// Text of letters, apostrophes and hyphens normalizes to its upper-case form.
proof fn lemma_ascii_norm_chars_plain(s: Seq<char>)
    requires
        forall|k: int| 0 <= k < s.len() ==> is_ascii_letter(#[trigger] s[k]) || s[k] == '\'' || s[k] == '-',
    ensures
        ascii_norm_chars(s) == Seq::new(s.len(), |i: int| ascii_upper(s[i])),
    decreases s.len(),
{
    if s.len() > 0 {
        let d = s.drop_last();
        assert forall|k: int| 0 <= k < d.len() implies is_ascii_letter(#[trigger] d[k]) || d[k] == '\'' || d[k] == '-' by {
            assert(d[k] == s[k]);
        }
        lemma_ascii_norm_chars_plain(d);
        lemma_ascii_upper(s.last());
        assert(ascii_norm_chars(s) =~= Seq::new(s.len(), |i: int| ascii_upper(s[i])));
    } else {
        assert(ascii_norm_chars(s) =~= Seq::new(s.len(), |i: int| ascii_upper(s[i])));
    }
}

/// Normalizing a word of letters, apostrophes and hyphens twice changes
/// nothing more than normalizing it once.
pub proof fn lemma_ascii_normalized_idempotent(s: Seq<char>)
    requires
        forall|k: int| 0 <= k < s.len() ==> is_ascii_letter(#[trigger] s[k]) || s[k] == '\'' || s[k] == '-',
    ensures
        ascii_normalized(ascii_normalized(s)) == ascii_normalized(s),
{
    let u = Seq::new(s.len(), |i: int| ascii_upper(s[i]));
    lemma_ascii_norm_chars_plain(s);
    assert forall|i: int| 0 <= i < s.len() implies (#[trigger] s[i] as u32) < 128 by {
        assert(is_ascii_letter(s[i]) || s[i] == '\'' || s[i] == '-');
    }
    assert forall|i: int| 0 <= i < u.len() implies (#[trigger] u[i] as u32) < 128 && ascii_upper(u[i]) == ascii_upper(
        s[i],
    ) && (is_ascii_letter(u[i]) || u[i] == '\'' || u[i] == '-') by {
        lemma_ascii_upper(s[i]);
    }
    lemma_ascii_case_blind(u, s);
    lemma_ascii_norm_chars_plain(u);
    assert(ascii_norm_chars(u) =~= u) by {
        assert forall|i: int| 0 <= i < u.len() implies ascii_upper(u[i]) == u[i] by {
            lemma_ascii_upper(s[i]);
        }
    }
    let r = ascii_normalized(s);
    if ascii_g_drop(s) && u.len() > 0 && u.last() == '\'' {
        assert(r == u.drop_last().push('G'));
        assert forall|k: int| 0 <= k < r.len() implies is_ascii_letter(#[trigger] r[k]) || r[k] == '\'' || r[k] == '-' by {
            if k < r.len() - 1 {
                assert(r[k] == u[k]);
            }
        }
        lemma_ascii_norm_chars_plain(r);
        assert(ascii_norm_chars(r) =~= r) by {
            assert forall|i: int| 0 <= i < r.len() implies ascii_upper(r[i]) == r[i] by {
                if i < r.len() - 1 {
                    assert(r[i] == u[i]);
                    lemma_ascii_upper(s[i]);
                }
            }
        }
        assert(ascii_word_char(r.last()));
        assert(ascii_last_word_index(r) == r.len() - 1);
    }
}

// ── Free functions ──────────────────────────────────────────────────────

/// Whether a word ends in a g-drop apostrophe ("runnin'").
pub fn ends_with_g_drop(input: &str) -> (r: bool)
    ensures
        r == g_drop(input@),
{
    let v = chars_of(input);
    let n = v.len();
    proof {
        lemma_last_word_index(v@);
    }
    if n == 0 {
        return false;
    }
    let mut end = n - 1;
    while !(is_alphabetic(v[end]) || v[end] == '\'')
        invariant
            end < n,
            n == v@.len(),
            v@ == input@,
            -1 <= last_word_index(v@) < n,
            last_word_index(v@) >= 0 ==> word_char(v@[last_word_index(v@)]),
            forall|k: int| last_word_index(v@) < k < n ==> !word_char(#[trigger] v@[k]),
            forall|k: int| end < k < n ==> !word_char(#[trigger] v@[k]),
        decreases end,
    {
        if end == 0 {
            proof {
                if last_word_index(v@) >= 0 {
                    assert(!word_char(v@[0]));
                }
            }
            return false;
        }
        end -= 1;
    }
    proof {
        assert(word_char(v@[end as int]));
        assert(last_word_index(v@) == end);
    }
    if v[end] != '\'' || end < 2 {
        return false;
    }
    let c1 = v[end - 1];
    let c2 = v[end - 2];
    if !(c1 == 'n' || c1 == 'N') || !(c2 == 'i' || c2 == 'I') {
        return false;
    }
    let stop = end - 2;
    let mut k = stop;
    while k > 0
        invariant
            k <= stop,
            stop == end - 2,
            end < n,
            n == v@.len(),
            v@ == input@,
            last_word_index(v@) == end,
            v@[end as int] == '\'',
            (c1 == 'n' || c1 == 'N') && c1 == v@[end - 1],
            (c2 == 'i' || c2 == 'I') && c2 == v@[end - 2],
            forall|j: int| k <= j < stop ==> !alphabetic(#[trigger] v@[j]),
        decreases k,
    {
        k -= 1;
        if is_alphabetic(v[k]) {
            return true;
        }
    }
    false
}

/// Rewrite a pronunciation for a g-dropped word: final NG becomes N, and
/// an IH before it becomes AH (keeping a secondary stress).
pub fn patch_g_drop(phonemes: &mut Vec<u8>)
    ensures
        final(phonemes)@ == g_drop_patched(old(phonemes)@),
{
    if phonemes.len() == 0 {
        return;
    }
    let last = phonemes.len() - 1;
    if phonemes[last] == phoneme::NG {
        phonemes.set(last, phoneme::N);
        if last >= 1 {
            if phonemes[last - 1] == phoneme::IH {
                phonemes.set(last - 1, phoneme::AH);
            } else if phonemes[last - 1] == phoneme::IH + 80 {
                phonemes.set(last - 1, phoneme::AH + 80);
            }
        }
    }
}

/// Put `k` ↦ `v` into a sorted word list with its parallel value list,
/// replacing the value of a word already present.
fn insert_word(keys: &mut Vec<Vec<char>>, vals: &mut Vec<Vec<Vec<u8>>>, k: Vec<char>, v: Vec<Vec<u8>>)
    requires
        sorted_words(old(keys).deep_view()),
        old(keys)@.len() == old(vals)@.len(),
    ensures
        sorted_words(final(keys).deep_view()),
        final(keys)@.len() == final(vals)@.len(),
        pair_map(final(keys).deep_view(), final(vals).deep_view()) == pair_map(
            old(keys).deep_view(),
            old(vals).deep_view(),
        ).insert(k@, v.deep_view()),
{
    let ghost ok = keys.deep_view();
    let ghost ov = vals.deep_view();
    let ghost kq = k@;
    let ghost x = v.deep_view();
    let (found, pos) = search(keys, k.as_slice());
    proof {
        lemma_sorted_unique(ok);
    }
    if found {
        vals.set(pos, v);
        proof {
            let nv = vals.deep_view();
            assert(nv =~= ov.update(pos as int, x));
            assert(keys.deep_view() =~= ok);
            let m1 = pair_map(ok, nv);
            let m2 = pair_map(ok, ov).insert(kq, x);
            assert forall|q: Seq<char>| #[trigger] m1.contains_key(q) == m2.contains_key(q) by {
                if q == kq {
                    assert(ok[pos as int] == kq);
                }
            }
            assert forall|q: Seq<char>| m1.contains_key(q) implies #[trigger] m1[q] == m2[q] by {
                let j = choose|j: int| 0 <= j < ok.len() && ok[j] == q;
                lemma_pair_map_at(ok, nv, j);
                lemma_pair_map_at(ok, ov, j);
            }
            assert(m1 =~= m2);
        }
    } else {
        keys.insert(pos, k);
        vals.insert(pos, v);
        proof {
            let nk = keys.deep_view();
            let nv = vals.deep_view();
            assert(nk =~= ok.insert(pos as int, kq));
            assert(nv =~= ov.insert(pos as int, x));
            assert forall|i: int, j: int| 0 <= i < j < nk.len() implies lex_lt(
                #[trigger] nk[i],
                #[trigger] nk[j],
            ) by {
                if j < pos {
                    assert(lex_lt(ok[i], ok[j]));
                } else if j == pos {
                    assert(lex_lt(ok[i], kq));
                } else if i < pos {
                    assert(lex_lt(ok[i], ok[j - 1]));
                } else if i == pos {
                    assert(lex_lt(kq, ok[j - 1]));
                } else {
                    assert(lex_lt(ok[i - 1], ok[j - 1]));
                }
            }
            lemma_sorted_unique(nk);
            let m1 = pair_map(nk, nv);
            let m2 = pair_map(ok, ov).insert(kq, x);
            assert forall|q: Seq<char>| #[trigger] m1.contains_key(q) == m2.contains_key(q) by {
                if m1.contains_key(q) {
                    let j = choose|j: int| 0 <= j < nk.len() && nk[j] == q;
                    if j < pos {
                        assert(ok[j] == q);
                    } else if j > pos {
                        assert(ok[j - 1] == q);
                    }
                }
                if ok.contains(q) {
                    let j = choose|j: int| 0 <= j < ok.len() && ok[j] == q;
                    if j < pos {
                        assert(nk[j] == q);
                    } else {
                        assert(nk[j + 1] == q);
                    }
                }
                if q == kq {
                    assert(nk[pos as int] == q);
                }
            }
            assert forall|q: Seq<char>| m1.contains_key(q) implies #[trigger] m1[q] == m2[q] by {
                let j = choose|j: int| 0 <= j < nk.len() && nk[j] == q;
                lemma_pair_map_at(nk, nv, j);
                if j < pos {
                    lemma_pair_map_at(ok, ov, j);
                } else if j > pos {
                    lemma_pair_map_at(ok, ov, j - 1);
                }
            }
            assert(m1 =~= m2);
        }
    }
}

// ── The dictionary ──────────────────────────────────────────────────────

/// CMU Pronouncing Dictionary backed by u8-encoded phonemes.
///
/// The words are kept in a sorted list, each with its pronunciation variants.
/// The dictionary is immutable after construction.
pub struct CmuDict {
    keys: Vec<Vec<char>>,
    variants: Vec<Vec<Vec<u8>>>,
}

impl View for CmuDict {
    type V = Map<Seq<char>, Seq<Seq<u8>>>;

    /// Each word, by its characters, with its pronunciation variants.
    closed spec fn view(&self) -> Map<Seq<char>, Seq<Seq<u8>>> {
        pair_map(self.keys.deep_view(), self.variants.deep_view())
    }
}

impl CmuDict {
    #[verifier::type_invariant]
    spec fn well_formed(&self) -> bool {
        &&& self.keys@.len() == self.variants@.len()
        &&& sorted_words(self.keys.deep_view())
    }

    /// Load a dictionary from its binary blob (the format written by the
    /// dictionary compiler: a u32 entry count, then per entry a u16 word
    /// length, the word, a variant count and the length-prefixed variants).
    pub fn load(blob: &[u8]) -> (d: Self)
        ensures
            d@ == entries_map(blob_entries(blob@)),
    {
        let (keys, variants) = Self::load_blob(blob);
        CmuDict { keys, variants }
    }

    /// The words, in increasing order.
    pub closed spec fn words(&self) -> Seq<Seq<char>> {
        self.keys.deep_view()
    }

    /// Number of words in the dictionary.
    pub fn entry_count(&self) -> (r: usize)
        ensures
            r == self@.dom().len(),
            r == self.words().len(),
            sorted_words(self.words()),
            forall|q: Seq<char>| #[trigger] self@.contains_key(q) <==> self.words().contains(q),
    {
        proof {
            use_type_invariant(self);
            self.lemma_dom();
        }
        self.keys.len()
    }

    proof fn lemma_dom(&self)
        requires
            self.keys@.len() == self.variants@.len(),
            sorted_words(self.keys.deep_view()),
        ensures
            self@.dom() == self.keys.deep_view().to_set(),
            self@.dom().len() == self.keys@.len(),
            self@.dom().finite(),
    {
        let ks = self.keys.deep_view();
        lemma_sorted_unique(ks);
        assert(self@.dom() =~= ks.to_set());
        ks.unique_seq_to_set();
    }

    /// The `i`-th word in increasing order, with its pronunciation variants.
    pub fn entry_at(&self, i: usize) -> (r: (&Vec<char>, &Vec<Vec<u8>>))
        requires
            i < self.words().len(),
        ensures
            r.0@ == self.words()[i as int],
            self@.contains_key(r.0@),
            r.1.deep_view() == self@[r.0@],
    {
        proof {
            use_type_invariant(self);
            lemma_sorted_unique(self.keys.deep_view());
            lemma_pair_map_at(self.keys.deep_view(), self.variants.deep_view(), i as int);
        }
        (&self.keys[i], &self.variants[i])
    }

    /// Get all dictionary keys (for index construction at startup), each once.
    pub fn get_keys(&self) -> (r: Vec<String>)
        ensures
            r@.len() == self@.dom().len(),
            forall|i: int| 0 <= i < r@.len() ==> self@.contains_key(#[trigger] r@[i]@),
            forall|i: int, j: int| 0 <= i < j < r@.len() ==> (#[trigger] r@[i])@ != (#[trigger] r@[j])@,
    {
        proof {
            use_type_invariant(self);
            self.lemma_dom();
            lemma_sorted_unique(self.keys.deep_view());
        }
        let ghost ks = self.keys.deep_view();
        let mut r: Vec<String> = Vec::new();
        let mut i: usize = 0;
        while i < self.keys.len()
            invariant
                i <= self.keys@.len(),
                ks == self.keys.deep_view(),
                ks.no_duplicates(),
                r@.len() == i,
                forall|k: int| 0 <= k < i ==> (#[trigger] r@[k])@ == ks[k],
            decreases self.keys@.len() - i,
        {
            r.push(string_from(self.keys[i].as_slice()));
            i += 1;
        }
        proof {
            assert forall|k: int| 0 <= k < r@.len() implies self@.contains_key(#[trigger] r@[k]@) by {
                assert(ks.contains(ks[k]));
            }
        }
        r
    }

    /// Look up a word's phoneme variants. The word is normalized first; for a
    /// g-dropped word ("runnin'") the variants come back patched.
    pub fn lookup(&self, word: &str) -> (r: Option<Vec<Vec<u8>>>)
        ensures
            r.is_none() == !self@.contains_key(normalized(word@)),
            r.is_some() ==> r.unwrap().deep_view() == looked_up(
                self@[normalized(word@)],
                g_drop(word@),
            ),
            is_ascii(word@) ==> normalized(word@) == ascii_normalized(word@) && g_drop(word@) == ascii_g_drop(word@),
    {
        proof {
            use_type_invariant(self);
            lemma_sorted_unique(self.keys.deep_view());
        }
        let normalized = Self::normalize(word);
        let q = chars_of(normalized.as_str());
        let (found, pos) = search(&self.keys, q.as_slice());
        if !found {
            return None;
        }
        proof {
            lemma_pair_map_at(self.keys.deep_view(), self.variants.deep_view(), pos as int);
        }
        let dropped = ends_with_g_drop(word);
        let stored = &self.variants[pos];
        let ghost want = looked_up(self@[normalized@], dropped);
        let mut out: Vec<Vec<u8>> = Vec::new();
        let mut i: usize = 0;
        while i < stored.len()
            invariant
                i <= stored@.len(),
                stored.deep_view() == self@[normalized@],
                want == looked_up(self@[normalized@], dropped),
                out@.len() == i,
                forall|k: int| 0 <= k < i ==> (#[trigger] out@[k])@ == want[k],
            decreases stored@.len() - i,
        {
            let mut p = copy_slice(stored[i].as_slice(), 0, stored[i].len());
            proof {
                assert(stored@[i as int]@.subrange(0, stored@[i as int]@.len() as int) =~= stored@[i as int]@);
            }
            if dropped {
                patch_g_drop(&mut p);
            }
            out.push(p);
            i += 1;
        }
        proof {
            assert(out.deep_view() =~= want);
        }
        Some(out)
    }

    /// The phonemes of a word's first pronunciation, none if it is not in the dictionary.
    pub fn first_phonemes(&self, word: &str) -> (r: Vec<u8>)
        requires
            pronounceable(self@),
        ensures
            r@ == heard(self@, word@),
    {
        match self.lookup(word) {
            Some(l) => {
                proof {
                    assert(l.deep_view().len() == l@.len());
                    assert(l.deep_view()[0] == l@[0]@);
                }
                copy_slice(l[0].as_slice(), 0, l[0].len())
            },
            None => Vec::new(),
        }
    }

    /// Normalize a word for dictionary lookup (uppercase, strip non-alpha except ' and -).
    pub fn normalize(input: &str) -> (r: String)
        ensures
            r@ == normalized(input@),
            is_ascii(input@) ==> r@ == ascii_normalized(input@) && g_drop(input@) == ascii_g_drop(input@),
    {
        let v = chars_of(input);
        let mut buf: Vec<char> = Vec::new();
        let mut i: usize = 0;
        while i < v.len()
            invariant
                i <= v@.len(),
                v@ == input@,
                buf@ == norm_chars(v@.take(i as int)),
                forall|k: int|
                    0 <= k < i && (v@[k] as u32) < 128 ==> alphabetic(#[trigger] v@[k]) == is_ascii_letter(v@[k]) && (
                    is_ascii_letter(v@[k]) ==> upper_first(v@[k]) == ascii_upper(v@[k])),
            decreases v@.len() - i,
        {
            let c = v[i];
            if is_alphabetic(c) {
                let u = to_upper_first(c);
                proof {
                    if (c as u32) < 128 && is_ascii_lower(c) {
                        assert(u as u32 == (c as u32) - 32);
                        assert(u == ascii_upper(c));
                    }
                }
                buf.push(u);
            } else if c == '\'' || c == '-' {
                buf.push(c);
            }
            i += 1;
            proof {
                assert(v@.take(i as int).drop_last() =~= v@.take(i - 1));
            }
        }
        proof {
            assert(v@.take(v@.len() as int) =~= v@);
            if is_ascii(input@) {
                lemma_std_agrees(input@);
            }
        }
        if ends_with_g_drop(input) && buf.len() > 0 && buf[buf.len() - 1] == '\'' {
            buf.pop();
            buf.push('G');
        }
        string_from(buf.as_slice())
    }

    /// Count syllables in an encoded phoneme sequence.
    pub fn count_syllables(phonemes: &[u8]) -> (r: usize)
        ensures
            r == phoneme::vowel_count(phonemes@),
    {
        phoneme::count_syllables(phonemes)
    }

    fn read_u16(blob: &[u8], pos: usize) -> (r: usize)
        requires
            pos + 2 <= blob@.len(),
        ensures
            r == u16_at(blob@, pos as int),
    {
        (blob[pos] as usize) + (blob[pos + 1] as usize) * 256
    }

    /// Deserialize the binary blob into the sorted word list and its variants.
    fn load_blob(blob: &[u8]) -> (r: (Vec<Vec<char>>, Vec<Vec<Vec<u8>>>))
        ensures
            r.0@.len() == r.1@.len(),
            sorted_words(r.0.deep_view()),
            pair_map(r.0.deep_view(), r.1.deep_view()) == entries_map(blob_entries(blob@)),
    {
        let mut keys: Vec<Vec<char>> = Vec::new();
        let mut vals: Vec<Vec<Vec<u8>>> = Vec::new();
        proof {
            assert(pair_map(keys.deep_view(), vals.deep_view()) =~= entries_map(
                Seq::<(Seq<u8>, Seq<Seq<u8>>)>::empty(),
            ));
        }
        if blob.len() < 4 {
            return (keys, vals);
        }
        let entry_count: u64 = (blob[0] as u64) + (blob[1] as u64) * 256 + (blob[2] as u64) * 65536
            + (blob[3] as u64) * 16777216;
        let ghost total = blob_entries(blob@);
        let ghost mut done: Seq<(Seq<u8>, Seq<Seq<u8>>)> = Seq::empty();
        let mut pos: usize = 4;
        let mut e: u64 = 0;
        while e < entry_count
            invariant
                4 <= pos <= blob@.len(),
                e <= entry_count,
                entry_count == u32_at(blob@, 0),
                total == blob_entries(blob@),
                blob@.len() >= 4,
                done + parse_entries(blob@, pos as int, (entry_count - e) as nat) == total,
                keys@.len() == vals@.len(),
                sorted_words(keys.deep_view()),
                pair_map(keys.deep_view(), vals.deep_view()) == entries_map(done),
            ensures
                keys@.len() == vals@.len(),
                sorted_words(keys.deep_view()),
                pair_map(keys.deep_view(), vals.deep_view()) == entries_map(total),
            decreases entry_count - e,
        {
            let ghost rest = parse_entries(blob@, pos as int, (entry_count - e) as nat);
            if blob.len() - pos < 2 {
                proof {
                    assert(rest.len() == 0);
                    assert(done =~= total);
                }
                break;
            }
            let word_len = Self::read_u16(blob, pos);
            let p = pos + 2;
            if blob.len() - p <= word_len {
                proof {
                    assert(rest.len() == 0);
                    assert(done =~= total);
                }
                break;
            }
            let word_bytes = copy_slice(blob, p, p + word_len);
            let word = utf8_lossy(word_bytes.as_slice());
            let key = chars_of(word.as_str());
            let p2 = p + word_len;
            let variant_count = blob[p2] as u64;
            let mut vpos: usize = p2 + 1;
            let mut variants: Vec<Vec<u8>> = Vec::new();
            let ghost whole = parse_variants(blob@, p2 + 1, variant_count as nat);
            let mut k: u64 = 0;
            while k < variant_count
                invariant_except_break
                    variants.deep_view() + parse_variants(blob@, vpos as int, (variant_count - k) as nat).0
                        == whole.0,
                    parse_variants(blob@, vpos as int, (variant_count - k) as nat).1 == whole.1,
                invariant
                    p2 + 1 <= vpos <= blob@.len(),
                    k <= variant_count,
                    whole == parse_variants(blob@, p2 + 1, variant_count as nat),
                ensures
                    variants.deep_view() == whole.0,
                    vpos == whole.1,
                decreases variant_count - k,
            {
                let ghost vrest = parse_variants(blob@, vpos as int, (variant_count - k) as nat);
                if vpos >= blob.len() {
                    proof {
                        assert(variants.deep_view() + vrest.0 =~= variants.deep_view());
                    }
                    break;
                }
                let phoneme_count = blob[vpos] as usize;
                vpos += 1;
                if blob.len() - vpos < phoneme_count {
                    proof {
                        assert(variants.deep_view() + vrest.0 =~= variants.deep_view());
                    }
                    break;
                }
                let ph = copy_slice(blob, vpos, vpos + phoneme_count);
                proof {
                    let tail = parse_variants(blob@, (vpos + phoneme_count) as int, (variant_count - k - 1) as nat);
                    assert(vrest.0 == seq![ph@] + tail.0);
                    let before = variants.deep_view();
                    assert(before + vrest.0 =~= before.push(ph@) + tail.0);
                }
                let ghost before = variants.deep_view();
                variants.push(ph);
                proof {
                    assert(variants.deep_view() =~= before.push(ph@));
                }
                vpos += phoneme_count;
                k += 1;
            }
            proof {
                if k == variant_count {
                    assert(variants.deep_view() + Seq::<Seq<u8>>::empty() =~= variants.deep_view());
                }
                assert(rest == seq![(word_bytes@, whole.0)] + parse_entries(blob@, whole.1, (entry_count - e - 1) as nat));
            }
            insert_word(&mut keys, &mut vals, key, variants);
            proof {
                let ent = (word_bytes@, whole.0);
                let nd = done.push(ent);
                assert(nd.drop_last() =~= done);
                assert(entries_map(nd) == entries_map(done).insert(lossy_utf8(word_bytes@), whole.0));
                assert(nd + parse_entries(blob@, vpos as int, (entry_count - e - 1) as nat) =~= done
                    + rest);
                done = nd;
            }
            pos = vpos;
            e += 1;
        }
        (keys, vals)
    }
}

} // verus!
