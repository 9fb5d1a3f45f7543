//! Phoneme repetition across lines of verse: every word's stress-stripped
//! phonemes are cut into n-grams of one to four phonemes, and the n-grams
//! that recur across enough words become patterns. Scoring and ranking the
//! patterns is fractional and happens outside this module; what is here
//! gathers the words, the patterns and their counts, and links each word to
//! the patterns it takes part in.

use vstd::prelude::*;

use std::sync::Arc;

use crate::byte_map::{copy_slice, ByteMap};
use crate::dict::{heard, normalized, pronounceable, CmuDict};
use crate::phoneme::{self, decode_name, names, strip_seq, vowel_count};
use crate::stress::{line_tokens, scan_words};
use crate::syllable::joined;
use crate::text::{chars_of, string_from, views};

verus! {

broadcast use {crate::text::lemma_deep_bytes, crate::text::lemma_deep_chars};

/// Longest phoneme n-gram considered.
pub const MAX_NGRAM_LEN: usize = 4;

/// Split a line into words, keeping hyphenated words and g-drops whole.
pub fn tokenize(line: &str) -> (r: Vec<String>)
    ensures
        r@.len() == line_tokens(line@, true).len(),
        forall|i: int| 0 <= i < r@.len() ==> (#[trigger] r@[i])@ == line_tokens(line@, true)[i],
{
    scan_words(line, true)
}

/// The first `len` phonemes of a packed n-gram key, spelled out and joined by hyphens.
pub open spec fn ngram_text(key: Seq<u8>, len: nat) -> Seq<char> {
    joined(Seq::new(len, |i: int| decode_name(key[i])), '-')
}

/// Format a packed n-gram key to the hyphen-separated string.
pub fn format_ngram_key(key: &[u8], len: usize) -> (r: String)
    requires
        len <= MAX_NGRAM_LEN,
        len <= key@.len(),
    ensures
        r@ == ngram_text(key@, len as nat),
{
    let ghost parts = Seq::new(len as nat, |i: int| decode_name(key@[i]));
    let mut s = String::new();
    let mut i: usize = 0;
    while i < len
        invariant
            i <= len <= 4,
            len <= key@.len(),
            parts == Seq::new(len as nat, |i: int| decode_name(key@[i])),
            s@ == joined(parts.take(i as int), '-'),
        decreases len - i,
    {
        if i > 0 {
            s.append("-");
            proof {
                reveal_strlit("-");
            }
        }
        s.append(phoneme::decode(key[i]));
        i += 1;
        proof {
            assert(parts.take(i as int).drop_last() =~= parts.take(i - 1));
            if i == 1 {
                assert(s@ =~= parts[0]);
            } else {
                assert(s@ =~= joined(parts.take(i - 1), '-') + seq!['-'] + parts[i - 1]);
            }
        }
    }
    proof {
        assert(parts.take(len as int) =~= parts);
    }
    s
}

/// Default least number of distinct words a pattern must appear in.
pub fn default_min_count() -> (r: usize)
    ensures
        r == 2,
{
    2
}

/// Default shortest pattern, in phonemes.
pub fn default_min_length() -> (r: usize)
    ensures
        r == 2,
{
    2
}

/// Default cap on the patterns reported.
pub fn default_max_patterns() -> (r: usize)
    ensures
        r == 50,
{
    50
}


// ── Words ───────────────────────────────────────────────────────────────

/// Each word of the lines, with the index of its line and its position there.
pub open spec fn placed_words(lines: Seq<Seq<char>>) -> Seq<(Seq<char>, int, int)>
    decreases lines.len(),
{
    if lines.len() == 0 {
        Seq::empty()
    } else {
        let toks = line_tokens(lines.last(), true);
        placed_words(lines.drop_last()) + Seq::new(toks.len(), |i: int| (toks[i], lines.len() - 1, i))
    }
}

/// A word of the analysed lines: its spelling, line and position; its first
/// pronunciation, raw and stress-stripped; whether the dictionary has it; its
/// syllables; and the patterns it takes part in.
pub struct RhymeMapWord {
    pub word: String,
    pub line: usize,
    pub position: usize,
    pub phonemes: Vec<String>,
    pub stripped_phonemes: Vec<String>,
    pub in_dictionary: bool,
    pub syllables: usize,
    pub patterns: Vec<WordPatternRef>,
}

/// A pattern a word takes part in: the pattern's position in the final list
/// and the indices of the word's phonemes it covers.
pub struct WordPatternRef {
    pub pattern_id: usize,
    pub phoneme_indices: Vec<usize>,
}

/// Whether `m` describes the placed word `p` of dictionary `d`, before patterns are linked.
pub open spec fn describes(m: RhymeMapWord, p: (Seq<char>, int, int), d: Map<Seq<char>, Seq<Seq<u8>>>) -> bool {
    &&& m.word@ == p.0
    &&& m.line == p.1
    &&& m.position == p.2
    &&& views(m.phonemes@) == names(heard(d, p.0))
    &&& views(m.stripped_phonemes@) == names(strip_seq(heard(d, p.0)))
    &&& m.in_dictionary == d.contains_key(normalized(p.0))
    &&& m.syllables == vowel_count(heard(d, p.0))
}

/// The stress-stripped first pronunciations of the placed words.
pub open spec fn stripped_words(ps: Seq<(Seq<char>, int, int)>, d: Map<Seq<char>, Seq<Seq<u8>>>) -> Seq<Seq<u8>> {
    ps.map_values(|p: (Seq<char>, int, int)| strip_seq(heard(d, p.0)))
}

/// Phase one: every word of every line, with its phonemes.
fn place_words(dict: &CmuDict, lines: &[String]) -> (r: (Vec<RhymeMapWord>, Vec<Vec<u8>>))
    requires
        pronounceable(dict@),
    ensures
        r.0@.len() == placed_words(views(lines@)).len(),
        forall|k: int| 0 <= k < r.0@.len() ==> describes(#[trigger] r.0@[k], placed_words(views(lines@))[k], dict@),
        forall|k: int| 0 <= k < r.0@.len() ==> (#[trigger] r.0@[k]).patterns@.len() == 0,
        r.1.deep_view() == stripped_words(placed_words(views(lines@)), dict@),
{
    let ghost ls = views(lines@);
    let mut words: Vec<RhymeMapWord> = Vec::new();
    let mut stripped: Vec<Vec<u8>> = Vec::new();
    let mut li: usize = 0;
    while li < lines.len()
        invariant
            li <= lines@.len(),
            ls == views(lines@),
            pronounceable(dict@),
            words@.len() == placed_words(ls.take(li as int)).len(),
            forall|k: int| 0 <= k < words@.len() ==> describes(#[trigger] words@[k], placed_words(ls.take(li as int))[k], dict@),
            forall|k: int| 0 <= k < words@.len() ==> (#[trigger] words@[k]).patterns@.len() == 0,
            stripped.deep_view() == stripped_words(placed_words(ls.take(li as int)), dict@),
        decreases lines@.len() - li,
    {
        let toks = tokenize(lines[li].as_str());
        let ghost before = placed_words(ls.take(li as int));
        let ghost toks_spec = line_tokens(ls[li as int], true);
        let ghost added = Seq::new(toks_spec.len(), |i: int| (toks_spec[i], li as int, i));
        proof {
            assert(ls.take(li + 1).drop_last() =~= ls.take(li as int));
            assert(ls.take(li + 1).last() == ls[li as int]);
            assert(ls[li as int] == lines@[li as int]@);
            assert(placed_words(ls.take(li + 1)) == before + added);
        }
        let mut wi: usize = 0;
        while wi < toks.len()
            invariant
                wi <= toks@.len(),
                toks@.len() == toks_spec.len(),
                forall|i: int| 0 <= i < toks@.len() ==> (#[trigger] toks@[i])@ == toks_spec[i],
                added == Seq::new(toks_spec.len(), |i: int| (toks_spec[i], li as int, i)),
                pronounceable(dict@),
                words@.len() == (before + added.take(wi as int)).len(),
                forall|k: int| 0 <= k < words@.len() ==> describes(#[trigger] words@[k], (before + added.take(wi as int))[k], dict@),
                forall|k: int| 0 <= k < words@.len() ==> (#[trigger] words@[k]).patterns@.len() == 0,
                stripped.deep_view() == stripped_words(before + added.take(wi as int), dict@),
            decreases toks@.len() - wi,
        {
            let tok = &toks[wi];
            let raw = dict.first_phonemes(tok.as_str());
            let st = phoneme::strip_all(raw.as_slice());
            let ghost old_words = words@;
            let ghost old_stripped = stripped.deep_view();
            words.push(RhymeMapWord {
                word: tok.clone(),
                line: li,
                position: wi,
                phonemes: phoneme::decode_to_strings(raw.as_slice()),
                stripped_phonemes: phoneme::decode_to_strings(st.as_slice()),
                in_dictionary: dict.lookup(tok.as_str()).is_some(),
                syllables: phoneme::count_syllables(raw.as_slice()),
                patterns: Vec::new(),
            });
            let ghost sv = st@;
            stripped.push(st);
            proof {
                let nb = before + added.take(wi + 1);
                assert(nb =~= (before + added.take(wi as int)).push((toks_spec[wi as int], li as int, wi as int)));
                assert forall|k: int| 0 <= k < words@.len() implies describes(#[trigger] words@[k], nb[k], dict@) by {
                    if k < old_words.len() {
                        assert(words@[k] == old_words[k]);
                    }
                }
                assert(stripped.deep_view() =~= old_stripped.push(sv));
                assert(stripped_words(nb, dict@) =~= stripped_words(before + added.take(wi as int), dict@).push(sv));
            }
            wi += 1;
        }
        proof {
            assert(added.take(toks@.len() as int) =~= added);
        }
        li += 1;
    }
    proof {
        assert(ls.take(lines@.len() as int) =~= ls);
    }
    (words, stripped)
}


/// Where each placed word sits: on one of the lines, at a position within
/// that line's words.
proof fn lemma_placed_words(lines: Seq<Seq<char>>)
    ensures
        forall|k: int|
            0 <= k < placed_words(lines).len() ==> {
                let p = #[trigger] placed_words(lines)[k];
                &&& 0 <= p.1 < lines.len()
                &&& 0 <= p.2 < line_tokens(lines[p.1], true).len()
                &&& p.0 == line_tokens(lines[p.1], true)[p.2]
            },
    decreases lines.len(),
{
    if lines.len() > 0 {
        lemma_placed_words(lines.drop_last());
        let before = placed_words(lines.drop_last());
        assert forall|k: int| 0 <= k < placed_words(lines).len() implies {
            let p = #[trigger] placed_words(lines)[k];
            &&& 0 <= p.1 < lines.len()
            &&& 0 <= p.2 < line_tokens(lines[p.1], true).len()
            &&& p.0 == line_tokens(lines[p.1], true)[p.2]
        } by {
            if k < before.len() {
                assert(placed_words(lines)[k] == before[k]);
                assert(lines[before[k].1] == lines.drop_last()[before[k].1]);
            }
        }
    }
}

// ── N-grams ─────────────────────────────────────────────────────────────

/// The key of the `len` phonemes of `s` from `start`: those phonemes padded
/// with zeros to `MAX_NGRAM_LEN`.
pub open spec fn ngram_key(s: Seq<u8>, start: int, len: int) -> Seq<u8> {
    s.subrange(start, start + len) + Seq::new((MAX_NGRAM_LEN - len) as nat, |i: int| 0u8)
}

/// The n-grams of word `k` (phonemes `s`) that start at `start`, shortest
/// first, each as its key and its occurrence: the word, the start, the length.
pub open spec fn start_hits(k: usize, s: Seq<u8>, start: int) -> Seq<(Seq<u8>, (usize, usize, usize))> {
    let n: int = if s.len() - start < MAX_NGRAM_LEN {
        s.len() - start
    } else {
        MAX_NGRAM_LEN as int
    };
    Seq::new(n as nat, |i: int| (ngram_key(s, start, i + 1), (k, start as usize, (i + 1) as usize)))
}

/// The n-grams of word `k` that start before `upto`.
pub open spec fn word_hits(k: usize, s: Seq<u8>, upto: nat) -> Seq<(Seq<u8>, (usize, usize, usize))>
    decreases upto,
{
    if upto == 0 {
        Seq::empty()
    } else {
        word_hits(k, s, (upto - 1) as nat) + start_hits(k, s, upto - 1)
    }
}

/// The n-grams of the first `upto` words.
pub open spec fn all_hits(ss: Seq<Seq<u8>>, upto: nat) -> Seq<(Seq<u8>, (usize, usize, usize))>
    decreases upto,
{
    if upto == 0 {
        Seq::empty()
    } else {
        all_hits(ss, (upto - 1) as nat) + word_hits((upto - 1) as usize, ss[upto - 1], ss[upto - 1].len())
    }
}

/// The occurrences of each n-gram key, in order.
pub open spec fn grouped(hs: Seq<(Seq<u8>, (usize, usize, usize))>) -> Map<Seq<u8>, Seq<(usize, usize, usize)>>
    decreases hs.len(),
{
    if hs.len() == 0 {
        Map::empty()
    } else {
        let m = grouped(hs.drop_last());
        let k = hs.last().0;
        m.insert(
            k,
            (if m.contains_key(k) {
                m[k]
            } else {
                Seq::empty()
            }).push(hs.last().1),
        )
    }
}

/// The occurrence lists of a map of n-gram keys.
pub open spec fn hit_lists(m: Map<Seq<u8>, Vec<(usize, usize, usize)>>) -> Map<Seq<u8>, Seq<(usize, usize, usize)>> {
    m.map_values(|v: Vec<(usize, usize, usize)>| v@)
}

/// File one occurrence under its key.
fn file_hit(m: &mut ByteMap<Vec<(usize, usize, usize)>>, key: &Vec<u8>, h: (usize, usize, usize))
    requires
        old(m).wf(),
    ensures
        final(m).wf(),
        hit_lists(final(m)@) == hit_lists(old(m)@).insert(
            key@,
            (if hit_lists(old(m)@).contains_key(key@) {
                hit_lists(old(m)@)[key@]
            } else {
                Seq::empty()
            }).push(h),
        ),
{
    let ghost before = m@;
    let i = m.entry(key.as_slice(), Vec::new());
    let ghost mid = m@;
    proof {
        m.lemma_wf();
    }
    m.push_at(i, h);
    proof {
        let want = hit_lists(before).insert(
            key@,
            (if hit_lists(before).contains_key(key@) {
                hit_lists(before)[key@]
            } else {
                Seq::empty()
            }).push(h),
        );
        assert forall|k: Seq<u8>| #[trigger] hit_lists(m@).contains_key(k) == want.contains_key(k) by {}
        assert forall|k: Seq<u8>| hit_lists(m@).contains_key(k) implies #[trigger] hit_lists(m@)[k] == want[k] by {
            if k == key@ {
                if before.contains_key(k) {
                    assert(mid[k] == before[k]);
                } else {
                    assert(mid[k]@.len() == 0);
                }
                assert(hit_lists(m@)[k] =~= want[k]);
            } else {
                assert(m@[k] == mid[k]);
            }
        }
        assert(hit_lists(m@) =~= want);
    }
}

/// The key of the `len` phonemes of `s` from `start`.
fn make_key(s: &Vec<u8>, start: usize, len: usize) -> (r: Vec<u8>)
    requires
        1 <= len <= MAX_NGRAM_LEN,
        start + len <= s@.len(),
    ensures
        r@ == ngram_key(s@, start as int, len as int),
{
    let total = s.len();
    proof {
        assert(start + len <= total);
    }
    let mut key = copy_slice(s.as_slice(), start, start + len);
    let mut t: usize = len;
    while t < MAX_NGRAM_LEN
        invariant
            len <= t <= MAX_NGRAM_LEN,
            start + len <= s@.len(),
            key@ == s@.subrange(start as int, (start + len) as int) + Seq::new((t - len) as nat, |i: int| 0u8),
        decreases MAX_NGRAM_LEN - t,
    {
        key.push(0);
        t += 1;
        proof {
            assert(key@ =~= s@.subrange(start as int, (start + len) as int) + Seq::new((t - len) as nat, |i: int| 0u8));
        }
    }
    key
}

/// Phase two: every n-gram of every word, filed under its key.
fn count_ngrams(stripped: &Vec<Vec<u8>>) -> (m: ByteMap<Vec<(usize, usize, usize)>>)
    ensures
        m.wf(),
        hit_lists(m@) == grouped(all_hits(stripped.deep_view(), stripped@.len() as nat)),
{
    let ghost ss = stripped.deep_view();
    let mut m: ByteMap<Vec<(usize, usize, usize)>> = ByteMap::new();
    proof {
        assert(hit_lists(m@) =~= grouped(Seq::empty()));
    }
    let mut k: usize = 0;
    while k < stripped.len()
        invariant
            k <= stripped@.len(),
            ss == stripped.deep_view(),
            m.wf(),
            hit_lists(m@) == grouped(all_hits(ss, k as nat)),
        decreases stripped@.len() - k,
    {
        let s = &stripped[k];
        let ghost base = all_hits(ss, k as nat);
        proof {
            assert(ss[k as int] == s@);
            assert(base + word_hits(k, s@, 0) =~= base);
        }
        let mut start: usize = 0;
        while start < s.len()
            invariant
                start <= s@.len(),
                ss == stripped.deep_view(),
                ss[k as int] == s@,
                base == all_hits(ss, k as nat),
                m.wf(),
                hit_lists(m@) == grouped(base + word_hits(k, s@, start as nat)),
            decreases s@.len() - start,
        {
            let n = if s.len() - start < MAX_NGRAM_LEN { s.len() - start } else { MAX_NGRAM_LEN };
            let ghost prefix = base + word_hits(k, s@, start as nat);
            let ghost here = start_hits(k, s@, start as int);
            let mut len: usize = 1;
            while len <= n
                invariant
                    1 <= len <= n + 1,
                    n <= MAX_NGRAM_LEN,
                    start + n <= s@.len(),
                    n == here.len(),
                    here == start_hits(k, s@, start as int),
                    m.wf(),
                    hit_lists(m@) == grouped(prefix + here.take(len - 1)),
                decreases n + 1 - len,
            {
                let key = make_key(s, start, len);
                let ghost before = prefix + here.take(len - 1);
                let ghost after = prefix + here.take(len as int);
                proof {
                    assert(after.drop_last() =~= before);
                    assert(after.last() == here[len - 1]);
                    assert(here[len - 1] == (key@, (k, start, len)));
                }
                file_hit(&mut m, &key, (k, start, len));
                len += 1;
            }
            proof {
                assert(here.take(n as int) =~= here);
                assert(word_hits(k, s@, (start + 1) as nat) == word_hits(k, s@, start as nat) + here);
                assert(prefix + here =~= base + word_hits(k, s@, (start + 1) as nat));
            }
            start += 1;
        }
        proof {
            assert(all_hits(ss, (k + 1) as nat) == base + word_hits(k, ss[k as int], ss[k as int].len()));
        }
        k += 1;
    }
    m
}


// ── Patterns ────────────────────────────────────────────────────────────

/// How many bytes of a key are set: the length of its n-gram.
pub open spec fn filled(k: Seq<u8>) -> nat
    decreases k.len(),
{
    if k.len() == 0 {
        0
    } else {
        filled(k.drop_last()) + if k.last() != 0 {
            1nat
        } else {
            0nat
        }
    }
}

/// How many distinct words the occurrences fall in, by index.
spec fn distinct_indices(hs: Seq<(usize, usize, usize)>) -> nat {
    hs.map_values(|h: (usize, usize, usize)| h.0).to_set().len()
}

/// Where a placed word sits: its line and its position in that line.
pub open spec fn place_of(ps: Seq<(Seq<char>, int, int)>) -> spec_fn(usize) -> (int, int) {
    |k: usize| (ps[k as int].1, ps[k as int].2)
}

/// How many distinct places (line and position) the occurrences fall in.
pub open spec fn distinct_places(hs: Seq<(usize, usize, usize)>, ps: Seq<(Seq<char>, int, int)>) -> nat {
    hs.map_values(|h: (usize, usize, usize)| place_of(ps)(h.0)).to_set().len()
}

/// No two placed words share a line and a position.
pub open spec fn places_unique(ps: Seq<(Seq<char>, int, int)>) -> bool {
    forall|a: int, b: int| 0 <= a < b < ps.len() ==> (#[trigger] ps[a]).1 != (#[trigger] ps[b]).1 || ps[a].2 != ps[b].2
}

/// The words of some lines sit at distinct places.
proof fn lemma_placed_words_unique(lines: Seq<Seq<char>>)
    ensures
        places_unique(placed_words(lines)),
    decreases lines.len(),
{
    if lines.len() > 0 {
        let before = placed_words(lines.drop_last());
        lemma_placed_words_unique(lines.drop_last());
        lemma_placed_words(lines.drop_last());
        let ps = placed_words(lines);
        assert forall|a: int, b: int| 0 <= a < b < ps.len() implies (#[trigger] ps[a]).1 != (#[trigger] ps[b]).1 || ps[a].2 != ps[b].2 by {
            if b < before.len() {
                assert(ps[a] == before[a] && ps[b] == before[b]);
            } else if a < before.len() {
                assert(ps[a] == before[a]);
                assert(before[a].1 < lines.len() - 1);
            }
        }
    }
}

/// Occurrences in distinct words are occurrences at distinct places.
proof fn lemma_places_count(hs: Seq<(usize, usize, usize)>, ps: Seq<(Seq<char>, int, int)>)
    requires
        places_unique(ps),
        forall|j: int| 0 <= j < hs.len() ==> (#[trigger] hs[j]).0 < ps.len(),
    ensures
        distinct_places(hs, ps) == distinct_indices(hs),
{
    let f = place_of(ps);
    let ix = hs.map_values(|h: (usize, usize, usize)| h.0);
    let w = ix.to_set();
    assert(hs.map_values(|h: (usize, usize, usize)| place_of(ps)(h.0)) =~= ix.map_values(f));
    ix.lemma_to_set_map_commutes(f);
    assert forall|x1: usize, x2: usize| w.contains(x1) && w.contains(x2) && #[trigger] f(x1) == #[trigger] f(x2) implies x1 == x2 by {
        let j1 = choose|j: int| 0 <= j < ix.len() && ix[j] == x1;
        let j2 = choose|j: int| 0 <= j < ix.len() && ix[j] == x2;
        assert(hs[j1].0 < ps.len() && hs[j2].0 < ps.len());
        if x1 < x2 {
            assert(ps[x1 as int].1 != ps[x2 as int].1 || ps[x1 as int].2 != ps[x2 as int].2);
        } else if x2 < x1 {
            assert(ps[x2 as int].1 != ps[x1 as int].1 || ps[x2 as int].2 != ps[x1 as int].2);
        }
    }
    vstd::seq_lib::seq_to_set_is_finite(ix);
    vstd::set_lib::lemma_map_size(w, w.map(f), f);
}

/// Whether a placed word is the last word of its line.
pub open spec fn at_line_end(p: (Seq<char>, int, int), lines: Seq<Seq<char>>) -> bool {
    p.2 == line_tokens(lines[p.1], true).len() - 1
}

/// How many occurrences fall on the last word of a line.
pub open spec fn ends_count(hs: Seq<(usize, usize, usize)>, ps: Seq<(Seq<char>, int, int)>, lines: Seq<Seq<char>>) -> nat
    decreases hs.len(),
{
    if hs.len() == 0 {
        0
    } else {
        ends_count(hs.drop_last(), ps, lines) + if at_line_end(ps[hs.last().0 as int], lines) {
            1nat
        } else {
            0nat
        }
    }
}

/// Whether an n-gram occurs often and long enough to be a pattern.
pub open spec fn passes(
    k: Seq<u8>,
    hs: Seq<(usize, usize, usize)>,
    ps: Seq<(Seq<char>, int, int)>,
    min_count: usize,
    min_length: usize,
) -> bool {
    distinct_places(hs, ps) >= min_count && filled(k) >= min_length
}

/// One occurrence of a pattern: the word, its line and position, the indices
/// of its phonemes the pattern covers, and those phonemes.
pub struct PatternMember {
    pub word: String,
    pub line: usize,
    pub position: usize,
    pub phoneme_indices: Vec<usize>,
    pub matched_phonemes: Vec<String>,
}

/// A recurring n-gram, before scoring: its key and spelling, its length, the
/// number of distinct words it occurs in, its occurrences, how many of them
/// end a line, whether it starts with a vowel, and the occurrences themselves.
pub struct PatternCandidate {
    pub key: Vec<u8>,
    pub ngram: String,
    pub length: usize,
    pub count: usize,
    pub hit_count: usize,
    pub end_of_line_count: usize,
    pub is_vowel_anchored: bool,
    pub members: Vec<PatternMember>,
}

/// Whether member `m` shows occurrence `h` among the placed words `ps` with phonemes `ss`.
pub open spec fn shows_member(m: PatternMember, h: (usize, usize, usize), ps: Seq<(Seq<char>, int, int)>, ss: Seq<Seq<u8>>) -> bool {
    &&& m.word@ == ps[h.0 as int].0
    &&& m.line == ps[h.0 as int].1
    &&& m.position == ps[h.0 as int].2
    &&& m.phoneme_indices@ == Seq::new(h.2 as nat, |i: int| (h.1 + i) as usize)
    &&& views(m.matched_phonemes@) == names(ss[h.0 as int].subrange(h.1 as int, h.1 + h.2))
}

/// Whether candidate `p` shows the n-gram of its key with occurrences `hs`.
pub open spec fn shows_pattern(
    p: PatternCandidate,
    hs: Seq<(usize, usize, usize)>,
    ps: Seq<(Seq<char>, int, int)>,
    ss: Seq<Seq<u8>>,
    lines: Seq<Seq<char>>,
) -> bool {
    &&& p.ngram@ == ngram_text(p.key@, filled(p.key@))
    &&& p.length == filled(p.key@)
    &&& p.count == distinct_places(hs, ps)
    &&& p.hit_count == hs.len()
    &&& p.end_of_line_count == ends_count(hs, ps, lines)
    &&& p.is_vowel_anchored == (p.key@.len() > 0 && phoneme::AA <= p.key@[0] <= phoneme::UW)
    &&& p.members@.len() == hs.len()
    &&& forall|i: int| 0 <= i < hs.len() ==> shows_member(#[trigger] p.members@[i], hs[i], ps, ss)
}

/// Whether occurrence `h` under key `k` is an n-gram of the words' phonemes `ss`.
pub open spec fn valid_occurrence(k: Seq<u8>, h: (usize, usize, usize), ss: Seq<Seq<u8>>) -> bool {
    &&& h.0 < ss.len()
    &&& 1 <= h.2 <= MAX_NGRAM_LEN
    &&& h.1 + h.2 <= ss[h.0 as int].len()
    &&& k == ngram_key(ss[h.0 as int], h.1 as int, h.2 as int)
}

/// Filing hits by key keeps every hit under its key.
proof fn lemma_grouped_has(hs: Seq<(Seq<u8>, (usize, usize, usize))>, j: int)
    requires
        0 <= j < hs.len(),
    ensures
        grouped(hs).contains_key(hs[j].0),
        grouped(hs)[hs[j].0].contains(hs[j].1),
    decreases hs.len(),
{
    let d = hs.drop_last();
    let m = grouped(d);
    let k = hs.last().0;
    let prev: Seq<(usize, usize, usize)> = if m.contains_key(k) {
        m[k]
    } else {
        Seq::empty()
    };
    if j < d.len() {
        assert(d[j] == hs[j]);
        lemma_grouped_has(d, j);
        if hs[j].0 == k {
            let x = choose|x: int| 0 <= x < m[k].len() && m[k][x] == hs[j].1;
            assert(prev.push(hs.last().1)[x] == hs[j].1);
        }
    } else {
        assert(prev.push(hs.last().1)[prev.len() as int] == hs[j].1);
    }
}

/// The hits of word `k` up to start `upto` hold every n-gram of one to four
/// phonemes starting before `upto`.
proof fn lemma_word_hits_has(k: usize, s: Seq<u8>, upto: nat, start: int, len: int)
    requires
        0 <= start < upto <= s.len(),
        1 <= len <= 4,
        start + len <= s.len(),
    ensures
        word_hits(k, s, upto).contains((ngram_key(s, start, len), (k, start as usize, len as usize))),
    decreases upto,
{
    let prev = word_hits(k, s, (upto - 1) as nat);
    let sh = start_hits(k, s, upto - 1);
    assert(word_hits(k, s, upto) == prev + sh);
    if start < upto - 1 {
        lemma_word_hits_has(k, s, (upto - 1) as nat, start, len);
        let x = choose|x: int| 0 <= x < prev.len() && prev[x] == (ngram_key(s, start, len), (k, start as usize, len as usize));
        assert((prev + sh)[x] == prev[x]);
    } else {
        assert(sh[len - 1] == (ngram_key(s, start, len), (k, start as usize, len as usize)));
        assert((prev + sh)[prev.len() + len - 1] == sh[len - 1]);
    }
}

/// The hits of the first `upto` words hold every n-gram of one to four
/// phonemes of each of them.
proof fn lemma_all_hits_has(ss: Seq<Seq<u8>>, upto: nat, k: int, start: int, len: int)
    requires
        0 <= k < upto <= ss.len(),
        ss.len() <= usize::MAX,
        0 <= start,
        1 <= len <= 4,
        start + len <= ss[k].len(),
    ensures
        all_hits(ss, upto).contains((ngram_key(ss[k], start, len), (k as usize, start as usize, len as usize))),
    decreases upto,
{
    let prev = all_hits(ss, (upto - 1) as nat);
    let wh = word_hits((upto - 1) as usize, ss[upto - 1], ss[upto - 1].len());
    let h = (ngram_key(ss[k], start, len), (k as usize, start as usize, len as usize));
    assert(all_hits(ss, upto) == prev + wh);
    if k < upto - 1 {
        lemma_all_hits_has(ss, (upto - 1) as nat, k, start, len);
        let x = choose|x: int| 0 <= x < prev.len() && prev[x] == h;
        assert((prev + wh)[x] == prev[x]);
    } else {
        lemma_word_hits_has(k as usize, ss[k], ss[k].len(), start, len);
        let x = choose|x: int| 0 <= x < wh.len() && wh[x] == h;
        assert((prev + wh)[prev.len() + x] == wh[x]);
    }
}

/// Counting set bytes over a concatenation adds up.
proof fn lemma_filled_concat(a: Seq<u8>, b: Seq<u8>)
    ensures
        filled(a + b) == filled(a) + filled(b),
    decreases b.len(),
{
    if b.len() == 0 {
        assert(a + b =~= a);
    } else {
        lemma_filled_concat(a, b.drop_last());
        assert((a + b).drop_last() =~= a + b.drop_last());
    }
}

proof fn lemma_filled_all(s: Seq<u8>, set: bool)
    requires
        forall|i: int| 0 <= i < s.len() ==> (#[trigger] s[i] != 0) == set,
    ensures
        filled(s) == if set { s.len() } else { 0 },
    decreases s.len(),
{
    if s.len() > 0 {
        lemma_filled_all(s.drop_last(), set);
    }
}

/// The key of an n-gram of `len` nonzero phoneme codes is those codes
/// followed by zeros up to `MAX_NGRAM_LEN`, and a pattern under it counts
/// `len` phonemes.
pub proof fn lemma_ngram_key_length(s: Seq<u8>, start: int, len: int)
    requires
        0 <= start,
        1 <= len <= MAX_NGRAM_LEN,
        start + len <= s.len(),
        forall|i: int| 0 <= i < s.len() ==> #[trigger] s[i] != 0,
    ensures
        ngram_key(s, start, len).len() == MAX_NGRAM_LEN,
        forall|i: int| 0 <= i < len ==> #[trigger] ngram_key(s, start, len)[i] == s[start + i],
        forall|i: int| len <= i < MAX_NGRAM_LEN ==> #[trigger] ngram_key(s, start, len)[i] == 0,
        filled(ngram_key(s, start, len)) == len,
{
    let a = s.subrange(start, start + len);
    let b = Seq::new((MAX_NGRAM_LEN - len) as nat, |i: int| 0u8);
    lemma_filled_concat(a, b);
    lemma_filled_all(a, true);
    lemma_filled_all(b, false);
}

/// Counting n-grams misses none: for every word `k` of the stripped words,
/// every start and every length from one to four phonemes that fits, the
/// occurrence (word, start, length) is filed under the key of that n-gram.
pub proof fn lemma_every_ngram_counted(ss: Seq<Seq<u8>>, k: int, start: int, len: int)
    requires
        ss.len() <= usize::MAX,
        0 <= k < ss.len(),
        0 <= start,
        1 <= len <= 4,
        start + len <= ss[k].len(),
    ensures
        grouped(all_hits(ss, ss.len())).contains_key(ngram_key(ss[k], start, len)),
        grouped(all_hits(ss, ss.len()))[ngram_key(ss[k], start, len)].contains(
            (k as usize, start as usize, len as usize),
        ),
{
    let hs = all_hits(ss, ss.len());
    let h = (ngram_key(ss[k], start, len), (k as usize, start as usize, len as usize));
    lemma_all_hits_has(ss, ss.len(), k, start, len);
    let x = choose|x: int| 0 <= x < hs.len() && hs[x] == h;
    lemma_grouped_has(hs, x);
}

proof fn lemma_word_hits_valid(k: usize, ss: Seq<Seq<u8>>, upto: nat)
    requires
        k < ss.len(),
        upto <= ss[k as int].len(),
        ss[k as int].len() <= usize::MAX,
    ensures
        forall|i: int|
            0 <= i < word_hits(k, ss[k as int], upto).len() ==> valid_occurrence(
                (#[trigger] word_hits(k, ss[k as int], upto)[i]).0,
                word_hits(k, ss[k as int], upto)[i].1,
                ss,
            ),
    decreases upto,
{
    if upto > 0 {
        let s = ss[k as int];
        lemma_word_hits_valid(k, ss, (upto - 1) as nat);
        let a = word_hits(k, s, (upto - 1) as nat);
        let b = start_hits(k, s, upto - 1);
        assert forall|i: int| 0 <= i < word_hits(k, s, upto).len() implies valid_occurrence(
            (#[trigger] word_hits(k, s, upto)[i]).0,
            word_hits(k, s, upto)[i].1,
            ss,
        ) by {
            if i < a.len() {
                assert(word_hits(k, s, upto)[i] == a[i]);
            } else {
                let x = i - a.len();
                assert(word_hits(k, s, upto)[i] == b[x]);
                assert(b[x] == (ngram_key(s, upto - 1, x + 1), (k, (upto - 1) as usize, (x + 1) as usize)));
            }
        }
    }
}

proof fn lemma_all_hits_valid(ss: Seq<Seq<u8>>, upto: nat)
    requires
        upto <= ss.len(),
        ss.len() <= usize::MAX,
        forall|j: int| 0 <= j < ss.len() ==> #[trigger] ss[j].len() <= usize::MAX,
    ensures
        forall|i: int|
            0 <= i < all_hits(ss, upto).len() ==> valid_occurrence(
                (#[trigger] all_hits(ss, upto)[i]).0,
                all_hits(ss, upto)[i].1,
                ss,
            ),
    decreases upto,
{
    if upto > 0 {
        lemma_all_hits_valid(ss, (upto - 1) as nat);
        let k = (upto - 1) as usize;
        lemma_word_hits_valid(k, ss, ss[k as int].len());
        let a = all_hits(ss, (upto - 1) as nat);
        let b = word_hits(k, ss[k as int], ss[k as int].len());
        assert forall|i: int| 0 <= i < all_hits(ss, upto).len() implies valid_occurrence(
            (#[trigger] all_hits(ss, upto)[i]).0,
            all_hits(ss, upto)[i].1,
            ss,
        ) by {
            if i < a.len() {
                assert(all_hits(ss, upto)[i] == a[i]);
            } else {
                assert(all_hits(ss, upto)[i] == b[i - a.len()]);
            }
        }
    }
}

proof fn lemma_grouped_valid(hs: Seq<(Seq<u8>, (usize, usize, usize))>, ss: Seq<Seq<u8>>)
    requires
        forall|i: int| 0 <= i < hs.len() ==> valid_occurrence((#[trigger] hs[i]).0, hs[i].1, ss),
    ensures
        forall|k: Seq<u8>, j: int|
            grouped(hs).contains_key(k) && 0 <= j < grouped(hs)[k].len() ==> valid_occurrence(k, #[trigger] grouped(hs)[k][j], ss),
        forall|k: Seq<u8>| #[trigger] grouped(hs).contains_key(k) ==> grouped(hs)[k].len() > 0,
    decreases hs.len(),
{
    if hs.len() > 0 {
        let t = hs.drop_last();
        assert forall|i: int| 0 <= i < t.len() implies valid_occurrence((#[trigger] t[i]).0, t[i].1, ss) by {
            assert(t[i] == hs[i]);
        }
        lemma_grouped_valid(t, ss);
        let m = grouped(t);
        assert(valid_occurrence(hs.last().0, hs.last().1, ss)) by {
            assert(hs.last() == hs[hs.len() - 1]);
        }
        assert forall|k: Seq<u8>, j: int|
            grouped(hs).contains_key(k) && 0 <= j < grouped(hs)[k].len() implies valid_occurrence(k, #[trigger] grouped(hs)[k][j], ss) by {
            if k == hs.last().0 {
                let prev: Seq<(usize, usize, usize)> = if m.contains_key(k) { m[k] } else { Seq::empty() };
                if j < prev.len() {
                    assert(grouped(hs)[k][j] == prev[j]);
                }
            }
        }
    }
}

/// The set of a sequence with one more element is its set with that element.
proof fn lemma_to_set_push(s: Seq<usize>, x: usize)
    ensures
        s.push(x).to_set() == s.to_set().insert(x),
{
    assert forall|y: usize| #[trigger] s.push(x).to_set().contains(y) == s.to_set().insert(x).contains(y) by {
        if s.push(x).contains(y) && y != x {
            let i = choose|i: int| 0 <= i < s.push(x).len() && s.push(x)[i] == y;
            assert(s[i] == y);
        }
        if s.contains(y) {
            let i = choose|i: int| 0 <= i < s.len() && s[i] == y;
            assert(s.push(x)[i] == y);
        }
        if y == x {
            assert(s.push(x)[s.len() as int] == x);
        }
    }
    assert(s.push(x).to_set() =~= s.to_set().insert(x));
}

/// The candidate for one n-gram key, or none if it does not pass.
fn pattern_for(
    key: &Vec<u8>,
    hs: &Vec<(usize, usize, usize)>,
    words: &Vec<RhymeMapWord>,
    stripped: &Vec<Vec<u8>>,
    line_lens: &Vec<usize>,
    min_count: usize,
    min_length: usize,
    Ghost(ps): Ghost<Seq<(Seq<char>, int, int)>>,
    Ghost(ls): Ghost<Seq<Seq<char>>>,
    Ghost(d): Ghost<Map<Seq<char>, Seq<Seq<u8>>>>,
) -> (r: Option<PatternCandidate>)
    requires
        words@.len() == ps.len(),
        forall|k: int| 0 <= k < words@.len() ==> describes(#[trigger] words@[k], ps[k], d),
        stripped.deep_view() == stripped_words(ps, d),
        line_lens@.len() == ls.len(),
        forall|i: int| 0 <= i < ls.len() ==> #[trigger] line_lens@[i] == line_tokens(ls[i], true).len(),
        forall|k: int|
            0 <= k < ps.len() ==> {
                let p = #[trigger] ps[k];
                &&& 0 <= p.1 < ls.len()
                &&& 0 <= p.2 < line_tokens(ls[p.1], true).len()
            },
        forall|j: int| 0 <= j < hs@.len() ==> valid_occurrence(key@, #[trigger] hs@[j], stripped.deep_view()),
        key@.len() == MAX_NGRAM_LEN,
        places_unique(ps),
    ensures
        r is Some <==> passes(key@, hs@, ps, min_count, min_length),
        r matches Some(p) ==> p.key@ == key@ && shows_pattern(p, hs@, ps, stripped.deep_view(), ls),
{
    let ghost ss = stripped.deep_view();
    // length: the set bytes of the key
    let mut length: usize = 0;
    let mut t: usize = 0;
    while t < key.len()
        invariant
            t <= key@.len(),
            length == filled(key@.take(t as int)),
            length <= t,
        decreases key@.len() - t,
    {
        proof {
            assert(key@.take(t + 1).drop_last() =~= key@.take(t as int));
        }
        if key[t] != 0 {
            length += 1;
        }
        t += 1;
    }
    proof {
        assert(key@.take(key@.len() as int) =~= key@);
    }
    // distinct words
    let mut seen: Vec<usize> = Vec::new();
    let mut i: usize = 0;
    while i < hs.len()
        invariant
            i <= hs@.len(),
            seen@.no_duplicates(),
            seen@.to_set() == hs@.take(i as int).map_values(|h: (usize, usize, usize)| h.0).to_set(),
            seen@.len() <= i,
        decreases hs@.len() - i,
    {
        let w = hs[i].0;
        let mut k: usize = 0;
        let mut found = false;
        while k < seen.len()
            invariant
                k <= seen@.len(),
                found == exists|j: int| 0 <= j < k && seen@[j] == w,
            decreases seen@.len() - k,
        {
            if seen[k] == w {
                found = true;
            }
            k += 1;
        }
        let ghost old_seen = seen@;
        let ghost mapped = hs@.take(i as int).map_values(|h: (usize, usize, usize)| h.0);
        proof {
            assert(hs@.take(i + 1).map_values(|h: (usize, usize, usize)| h.0) =~= mapped.push(w));
            lemma_to_set_push(mapped, w);
        }
        if !found {
            seen.push(w);
            proof {
                lemma_to_set_push(old_seen, w);
                assert forall|a: int, b: int| 0 <= a < seen@.len() && 0 <= b < seen@.len() && a != b implies seen@[a] != seen@[b] by {
                    if a < old_seen.len() && b < old_seen.len() {
                        assert(old_seen[a] != old_seen[b]);
                    }
                }
            }
        } else {
            proof {
                assert(old_seen.to_set().contains(w));
                assert(old_seen.to_set().insert(w) =~= old_seen.to_set());
            }
        }
        i += 1;
    }
    proof {
        assert(hs@.take(hs@.len() as int) =~= hs@);
        seen@.unique_seq_to_set();
        assert forall|j: int| 0 <= j < hs@.len() implies (#[trigger] hs@[j]).0 < ps.len() by {
            assert(valid_occurrence(key@, hs@[j], ss));
        }
        lemma_places_count(hs@, ps);
    }
    let count = seen.len();
    if count < min_count || length < min_length {
        return None;
    }
    let anchored = key.len() > 0 && phoneme::is_vowel_base(key[0]);
    let ngram = format_ngram_key(key.as_slice(), length);
    // occurrences on the last word of a line, and the members
    let mut ends: usize = 0;
    let mut members: Vec<PatternMember> = Vec::new();
    let mut j: usize = 0;
    while j < hs.len()
        invariant
            j <= hs@.len(),
            ss == stripped.deep_view(),
            words@.len() == ps.len(),
            forall|k: int| 0 <= k < words@.len() ==> describes(#[trigger] words@[k], ps[k], d),
            ss == stripped_words(ps, d),
            line_lens@.len() == ls.len(),
            forall|i: int| 0 <= i < ls.len() ==> #[trigger] line_lens@[i] == line_tokens(ls[i], true).len(),
            forall|k: int|
                0 <= k < ps.len() ==> {
                    let p = #[trigger] ps[k];
                    &&& 0 <= p.1 < ls.len()
                    &&& 0 <= p.2 < line_tokens(ls[p.1], true).len()
                },
            forall|j: int| 0 <= j < hs@.len() ==> valid_occurrence(key@, #[trigger] hs@[j], ss),
            ends == ends_count(hs@.take(j as int), ps, ls),
            ends <= j,
            members@.len() == j,
            forall|i: int| 0 <= i < j ==> shows_member(#[trigger] members@[i], hs@[i], ps, ss),
        decreases hs@.len() - j,
    {
        let h = hs[j];
        proof {
            assert(valid_occurrence(key@, hs@[j as int], ss));
            assert(ss.len() == ps.len());
            assert(hs@.take(j + 1).drop_last() =~= hs@.take(j as int));
            assert(hs@.take(j + 1).last() == h);
        }
        let w = &words[h.0];
        proof {
            assert(describes(words@[h.0 as int], ps[h.0 as int], d));
            let p = ps[h.0 as int];
            assert(0 <= p.1 < ls.len());
            assert(line_lens@[p.1] == line_tokens(ls[p.1], true).len());
        }
        let plen = stripped[h.0].len();
        proof {
            assert(plen == ss[h.0 as int].len());
        }
        if w.position == line_lens[w.line] - 1 {
            ends += 1;
        }
        let mut indices: Vec<usize> = Vec::new();
        let mut q: usize = 0;
        while q < h.2
            invariant
                q <= h.2,
                h.1 + h.2 <= plen,
                indices@ == Seq::new(q as nat, |i: int| (h.1 + i) as usize),
            decreases h.2 - q,
        {
            indices.push(h.1 + q);
            q += 1;
            proof {
                assert(indices@ =~= Seq::new(q as nat, |i: int| (h.1 + i) as usize));
            }
        }
        let part = copy_slice(stripped[h.0].as_slice(), h.1, h.1 + h.2);
        let ghost old_members = members@;
        members.push(PatternMember {
            word: w.word.clone(),
            line: w.line,
            position: w.position,
            phoneme_indices: indices,
            matched_phonemes: phoneme::decode_to_strings(part.as_slice()),
        });
        proof {
            assert forall|i: int| 0 <= i < j + 1 implies shows_member(#[trigger] members@[i], hs@[i], ps, ss) by {
                if i < j {
                    assert(members@[i] == old_members[i]);
                }
            }
        }
        j += 1;
    }
    proof {
        assert(hs@.take(hs@.len() as int) =~= hs@);
    }
    Some(PatternCandidate {
        key: copy_slice(key.as_slice(), 0, key.len()),
        ngram,
        length,
        count,
        hit_count: hs.len(),
        end_of_line_count: ends,
        is_vowel_anchored: anchored,
        members,
    })
}


/// The keys of a list of candidates.
pub open spec fn pattern_keys(ps: Seq<PatternCandidate>) -> Seq<Seq<u8>> {
    ps.map_values(|p: PatternCandidate| p.key@)
}

/// The number of words on each line.
fn line_lengths(lines: &[String]) -> (r: Vec<usize>)
    ensures
        r@.len() == lines@.len(),
        forall|i: int| 0 <= i < lines@.len() ==> #[trigger] r@[i] == line_tokens(lines@[i]@, true).len(),
{
    let mut r: Vec<usize> = Vec::new();
    let mut i: usize = 0;
    while i < lines.len()
        invariant
            i <= lines@.len(),
            r@.len() == i,
            forall|k: int| 0 <= k < i ==> #[trigger] r@[k] == line_tokens(lines@[k]@, true).len(),
        decreases lines@.len() - i,
    {
        r.push(tokenize(lines[i].as_str()).len());
        i += 1;
    }
    r
}

/// Phase three: over the n-gram keys in increasing order, the candidates of
/// those that pass.
fn collect_patterns(
    m: &ByteMap<Vec<(usize, usize, usize)>>,
    words: &Vec<RhymeMapWord>,
    stripped: &Vec<Vec<u8>>,
    line_lens: &Vec<usize>,
    min_count: usize,
    min_length: usize,
    Ghost(ps): Ghost<Seq<(Seq<char>, int, int)>>,
    Ghost(ls): Ghost<Seq<Seq<char>>>,
    Ghost(d): Ghost<Map<Seq<char>, Seq<Seq<u8>>>>,
) -> (r: Vec<PatternCandidate>)
    requires
        m.wf(),
        hit_lists(m@) == grouped(all_hits(stripped.deep_view(), stripped@.len() as nat)),
        words@.len() == ps.len(),
        forall|k: int| 0 <= k < words@.len() ==> describes(#[trigger] words@[k], ps[k], d),
        stripped.deep_view() == stripped_words(ps, d),
        line_lens@.len() == ls.len(),
        forall|i: int| 0 <= i < ls.len() ==> #[trigger] line_lens@[i] == line_tokens(ls[i], true).len(),
        forall|k: int|
            0 <= k < ps.len() ==> {
                let p = #[trigger] ps[k];
                &&& 0 <= p.1 < ls.len()
                &&& 0 <= p.2 < line_tokens(ls[p.1], true).len()
            },
        places_unique(ps),
    ensures
        ({
            let g = hit_lists(m@);
            &&& crate::byte_map::sorted_keys(pattern_keys(r@))
            &&& forall|k: Seq<u8>|
                g.contains_key(k) && passes(k, g[k], ps, min_count, min_length) <==> #[trigger] pattern_keys(r@).contains(k)
            &&& forall|j: int|
                0 <= j < r@.len() ==> shows_pattern(#[trigger] r@[j], g[r@[j].key@], ps, stripped.deep_view(), ls)
        }),
{
    let ghost ss = stripped.deep_view();
    let ghost g = hit_lists(m@);
    let ghost keys = m.keys();
    proof {
        m.lemma_wf();
        assert(ss.len() == stripped.len());
        assert forall|j: int| 0 <= j < ss.len() implies #[trigger] ss[j].len() <= usize::MAX by {
            assert(ss[j] == stripped@[j]@);
            assert(stripped@[j].len() == stripped@[j]@.len());
        }
        lemma_all_hits_valid(ss, ss.len());
        lemma_grouped_valid(all_hits(ss, ss.len()), ss);
    }
    let total = m.len();
    let mut pats: Vec<PatternCandidate> = Vec::new();
    let ghost mut idxs: Seq<int> = Seq::empty();
    let mut i: usize = 0;
    while i < total
        invariant
            i <= total,
            total == keys.len(),
            keys == m.keys(),
            g == hit_lists(m@),
            ss == stripped.deep_view(),
            m.wf(),
            crate::byte_map::sorted_keys(keys),
            forall|q: int| 0 <= q < keys.len() ==> m@.contains_key(#[trigger] keys[q]) && m@[keys[q]] == m.values()[q],
            forall|k: Seq<u8>, j: int|
                g.contains_key(k) && 0 <= j < g[k].len() ==> valid_occurrence(k, #[trigger] g[k][j], ss),
            forall|k: Seq<u8>| #[trigger] g.contains_key(k) ==> g[k].len() > 0,
            words@.len() == ps.len(),
            forall|k: int| 0 <= k < words@.len() ==> describes(#[trigger] words@[k], ps[k], d),
            ss == stripped_words(ps, d),
            line_lens@.len() == ls.len(),
            forall|q: int| 0 <= q < ls.len() ==> #[trigger] line_lens@[q] == line_tokens(ls[q], true).len(),
            forall|k: int|
                0 <= k < ps.len() ==> {
                    let p = #[trigger] ps[k];
                    &&& 0 <= p.1 < ls.len()
                    &&& 0 <= p.2 < line_tokens(ls[p.1], true).len()
                },
            places_unique(ps),
            idxs.len() == pats@.len(),
            forall|a: int, b: int| 0 <= a < b < idxs.len() ==> #[trigger] idxs[a] < #[trigger] idxs[b],
            forall|j: int| 0 <= j < idxs.len() ==> 0 <= #[trigger] idxs[j] < i && pats@[j].key@ == keys[idxs[j]],
            forall|q: int| 0 <= q < i ==> (passes(keys[q], g[keys[q]], ps, min_count, min_length) <==> #[trigger] idxs.contains(q)),
            forall|j: int| 0 <= j < pats@.len() ==> shows_pattern(#[trigger] pats@[j], g[pats@[j].key@], ps, ss, ls),
        decreases total - i,
    {
        let key = m.key_at(i);
        let hs = m.value_at(i);
        proof {
            assert(m@.contains_key(keys[i as int]));
            assert(g[key@] == hs@);
            assert(g.contains_key(key@));
            assert(valid_occurrence(key@, g[key@][0], ss));
        }
        let found = pattern_for(key, hs, words, stripped, line_lens, min_count, min_length, Ghost(ps), Ghost(ls), Ghost(d));
        let ghost old_idxs = idxs;
        match found {
            Some(p) => {
                pats.push(p);
                proof {
                    idxs = idxs.push(i as int);
                    assert forall|q: int| 0 <= q < i + 1 implies (passes(keys[q], g[keys[q]], ps, min_count, min_length) <==> #[trigger] idxs.contains(q)) by {
                        if q < i {
                            if old_idxs.contains(q) {
                                let j = choose|j: int| 0 <= j < old_idxs.len() && old_idxs[j] == q;
                                assert(idxs[j] == q);
                            }
                            if idxs.contains(q) {
                                let j = choose|j: int| 0 <= j < idxs.len() && idxs[j] == q;
                                if j < old_idxs.len() {
                                    assert(old_idxs[j] == q);
                                }
                            }
                        } else {
                            assert(idxs[old_idxs.len() as int] == q);
                        }
                    }
                }
            },
            None => {
                proof {
                    assert forall|q: int| 0 <= q < i + 1 implies (passes(keys[q], g[keys[q]], ps, min_count, min_length) <==> #[trigger] idxs.contains(q)) by {
                        if q == i && idxs.contains(q) {
                            let j = choose|j: int| 0 <= j < idxs.len() && idxs[j] == q;
                        }
                    }
                }
            },
        }
        i += 1;
    }
    proof {
        let pk = pattern_keys(pats@);
        assert forall|a: int, b: int| 0 <= a < b < pk.len() implies crate::byte_map::bytes_lt(#[trigger] pk[a], #[trigger] pk[b]) by {
            assert(idxs[a] < idxs[b]);
        }
        assert forall|k: Seq<u8>|
            g.contains_key(k) && passes(k, g[k], ps, min_count, min_length) <==> #[trigger] pk.contains(k) by {
            if g.contains_key(k) && passes(k, g[k], ps, min_count, min_length) {
                assert(keys.contains(k));
                let q = choose|q: int| 0 <= q < keys.len() && keys[q] == k;
                assert(idxs.contains(q));
                let j = choose|j: int| 0 <= j < idxs.len() && idxs[j] == q;
                assert(pk[j] == k);
            }
            if pk.contains(k) {
                let j = choose|j: int| 0 <= j < pk.len() && pk[j] == k;
                let q = idxs[j];
                assert(keys[q] == k);
                assert(idxs.contains(q));
            }
        }
    }
    pats
}

/// The words, patterns and counts of the analysed lines, before the patterns
/// are scored: the lines, every word of them, and the n-grams that pass.
pub struct RhymeMapDraft {
    pub lines: Vec<String>,
    pub words: Vec<RhymeMapWord>,
    pub patterns: Vec<PatternCandidate>,
}

/// Phoneme repetition analysis over a dictionary.
pub struct RhymeMapAnalyzer {
    dict: Arc<CmuDict>,
}

impl RhymeMapAnalyzer {
    #[verifier::type_invariant]
    spec fn well_formed(&self) -> bool {
        pronounceable(self.dict@)
    }

    pub closed spec fn dictionary(&self) -> Map<Seq<char>, Seq<Seq<u8>>> {
        self.dict@
    }

    pub fn new(dict: Arc<CmuDict>) -> (r: Self)
        requires
            pronounceable(dict@),
        ensures
            r.dictionary() == dict@,
    {
        RhymeMapAnalyzer { dict }
    }

    /// Find the repeated phoneme n-grams of some lines: every word with its
    /// first pronunciation; every n-gram of one to `MAX_NGRAM_LEN`
    /// stress-stripped phonemes of every word, filed under its key; and, over
    /// the keys in increasing order, those that occur in at least `min_count`
    /// words and have at least `min_length` phonemes, with their counts and
    /// occurrences. Words are not yet linked to patterns.
    pub fn analyze(&self, lines: &[String], min_count: usize, min_length: usize) -> (r: RhymeMapDraft)
        ensures
            views(r.lines@) == views(lines@),
            ({
                let ls = views(lines@);
                let ps = placed_words(ls);
                let d = self.dictionary();
                let ss = stripped_words(ps, d);
                let g = grouped(all_hits(ss, ss.len()));
                &&& r.words@.len() == ps.len()
                &&& forall|k: int| 0 <= k < r.words@.len() ==> describes(#[trigger] r.words@[k], ps[k], d)
                &&& forall|k: int| 0 <= k < r.words@.len() ==> (#[trigger] r.words@[k]).patterns@.len() == 0
                &&& crate::byte_map::sorted_keys(pattern_keys(r.patterns@))
                &&& forall|k: Seq<u8>|
                    g.contains_key(k) && passes(k, g[k], ps, min_count, min_length) <==> #[trigger] pattern_keys(
                        r.patterns@,
                    ).contains(k)
                &&& forall|j: int|
                    0 <= j < r.patterns@.len() ==> shows_pattern(#[trigger] r.patterns@[j], g[r.patterns@[j].key@], ps, ss, ls)
            }),
    {
        proof {
            use_type_invariant(self);
        }
        let ghost ls = views(lines@);
        let ghost ps = placed_words(ls);
        let (words, stripped) = place_words(&*self.dict, lines);
        let line_lens = line_lengths(lines);
        let m = count_ngrams(&stripped);
        proof {
            lemma_placed_words(ls);
            lemma_placed_words_unique(ls);
            assert forall|i: int| 0 <= i < ls.len() implies #[trigger] line_lens@[i] == line_tokens(ls[i], true).len() by {
                assert(ls[i] == lines@[i]@);
            }
            assert(stripped@.len() == ps.len()) by {
                assert(stripped.deep_view().len() == stripped@.len());
            }
        }
        let patterns = collect_patterns(&m, &words, &stripped, &line_lens, min_count, min_length, Ghost(ps), Ghost(ls), Ghost(self.dictionary()));
        let mut copied: Vec<String> = Vec::new();
        let mut i: usize = 0;
        while i < lines.len()
            invariant
                i <= lines@.len(),
                views(copied@) == views(lines@).take(i as int),
            decreases lines@.len() - i,
        {
            let ghost before = views(copied@);
            copied.push(lines[i].clone());
            i += 1;
            proof {
                assert(views(copied@) =~= before.push(lines@[i - 1]@));
                assert(views(lines@).take(i as int) =~= views(lines@).take(i - 1).push(lines@[i - 1]@));
            }
        }
        proof {
            assert(views(lines@).take(lines@.len() as int) =~= views(lines@));
        }
        RhymeMapDraft { lines: copied, words, patterns }
    }
}


// ── Linking words to patterns ───────────────────────────────────────────

/// The references that the members `ms` of pattern `id` give the word at
/// `line` and `position`: one per member there, with its phoneme indices.
pub open spec fn member_refs(ms: Seq<PatternMember>, line: usize, position: usize, id: usize) -> Seq<(usize, Seq<usize>)>
    decreases ms.len(),
{
    if ms.len() == 0 {
        Seq::empty()
    } else {
        let prev = member_refs(ms.drop_last(), line, position, id);
        if ms.last().line == line && ms.last().position == position {
            prev.push((id, ms.last().phoneme_indices@))
        } else {
            prev
        }
    }
}

/// The references of the word at `line` and `position` to the patterns
/// `pats`, pattern by pattern, each pattern identified by its position.
pub open spec fn refs_for(pats: Seq<PatternCandidate>, line: usize, position: usize) -> Seq<(usize, Seq<usize>)>
    decreases pats.len(),
{
    if pats.len() == 0 {
        Seq::empty()
    } else {
        refs_for(pats.drop_last(), line, position) + member_refs(
            pats.last().members@,
            line,
            position,
            (pats.len() - 1) as usize,
        )
    }
}

/// A list of pattern references by pattern and phoneme indices.
pub open spec fn ref_views(rs: Seq<WordPatternRef>) -> Seq<(usize, Seq<usize>)> {
    rs.map_values(|r: WordPatternRef| (r.pattern_id, r.phoneme_indices@))
}

/// Whether no word before the `k`-th stands at its line and position.
pub open spec fn first_at(ws: Seq<RhymeMapWord>, k: int) -> bool {
    forall|j: int| 0 <= j < k ==> !(#[trigger] ws[j].line == ws[k].line && ws[j].position == ws[k].position)
}

fn copy_indices(v: &Vec<usize>) -> (r: Vec<usize>)
    ensures
        r@ == v@,
{
    let mut r: Vec<usize> = Vec::new();
    let mut i: usize = 0;
    while i < v.len()
        invariant
            i <= v@.len(),
            r@ == v@.take(i as int),
        decreases v@.len() - i,
    {
        r.push(v[i]);
        i += 1;
        proof {
            assert(v@.take(i as int) =~= v@.take(i - 1).push(v@[i - 1]));
        }
    }
    proof {
        assert(v@.take(v@.len() as int) =~= v@);
    }
    r
}

/// The references of the word at `line` and `position` to `patterns`.
fn refs_of(patterns: &Vec<PatternCandidate>, line: usize, position: usize) -> (r: Vec<WordPatternRef>)
    ensures
        ref_views(r@) == refs_for(patterns@, line, position),
{
    let mut r: Vec<WordPatternRef> = Vec::new();
    let mut pi: usize = 0;
    while pi < patterns.len()
        invariant
            pi <= patterns@.len(),
            ref_views(r@) == refs_for(patterns@.take(pi as int), line, position),
        decreases patterns@.len() - pi,
    {
        let ms = &patterns[pi].members;
        let ghost base = refs_for(patterns@.take(pi as int), line, position);
        proof {
            assert(patterns@.take(pi + 1).drop_last() =~= patterns@.take(pi as int));
            assert(patterns@.take(pi + 1).last() == patterns@[pi as int]);
            assert(ms@.take(0) =~= Seq::<PatternMember>::empty());
            assert(base + Seq::<(usize, Seq<usize>)>::empty() =~= base);
        }
        let mut mi: usize = 0;
        while mi < ms.len()
            invariant
                mi <= ms@.len(),
                ref_views(r@) == base + member_refs(ms@.take(mi as int), line, position, pi),
            decreases ms@.len() - mi,
        {
            let m = &ms[mi];
            proof {
                assert(ms@.take(mi + 1).drop_last() =~= ms@.take(mi as int));
                assert(ms@.take(mi + 1).last() == ms@[mi as int]);
            }
            if m.line == line && m.position == position {
                let ghost before = ref_views(r@);
                r.push(WordPatternRef { pattern_id: pi, phoneme_indices: copy_indices(&m.phoneme_indices) });
                proof {
                    assert(ref_views(r@) =~= before.push((pi, m.phoneme_indices@)));
                    assert(base + member_refs(ms@.take(mi + 1), line, position, pi) =~= (base + member_refs(ms@.take(mi as int), line, position, pi)).push((pi, m.phoneme_indices@)));
                }
            }
            mi += 1;
        }
        proof {
            assert(ms@.take(ms@.len() as int) =~= ms@);
        }
        pi += 1;
    }
    proof {
        assert(patterns@.take(patterns@.len() as int) =~= patterns@);
    }
    r
}

/// Give each word the references to the patterns it takes part in, in the
/// patterns' order, a pattern identified by its position in `patterns`. A
/// word that shares its line and position with an earlier one gets none.
pub fn link_patterns(words: &mut Vec<RhymeMapWord>, patterns: &Vec<PatternCandidate>)
    ensures
        final(words)@.len() == old(words)@.len(),
        forall|k: int|
            0 <= k < old(words)@.len() ==> {
                let w = #[trigger] final(words)@[k];
                let o = old(words)@[k];
                &&& w.word == o.word
                &&& w.line == o.line
                &&& w.position == o.position
                &&& w.phonemes == o.phonemes
                &&& w.stripped_phonemes == o.stripped_phonemes
                &&& w.in_dictionary == o.in_dictionary
                &&& w.syllables == o.syllables
                &&& ref_views(w.patterns@) == if first_at(old(words)@, k) {
                    refs_for(patterns@, o.line, o.position)
                } else {
                    Seq::empty()
                }
            },
{
    let ghost orig = words@;
    let mut k: usize = 0;
    while k < words.len()
        invariant
            k <= words@.len(),
            words@.len() == orig.len(),
            forall|j: int|
                0 <= j < orig.len() ==> {
                    let w = #[trigger] words@[j];
                    let o = orig[j];
                    &&& w.word == o.word
                    &&& w.line == o.line
                    &&& w.position == o.position
                    &&& w.phonemes == o.phonemes
                    &&& w.stripped_phonemes == o.stripped_phonemes
                    &&& w.in_dictionary == o.in_dictionary
                    &&& w.syllables == o.syllables
                },
            forall|j: int|
                0 <= j < k ==> ref_views((#[trigger] words@[j]).patterns@) == if first_at(orig, j) {
                    refs_for(patterns@, orig[j].line, orig[j].position)
                } else {
                    Seq::empty()
                },
        decreases words@.len() - k,
    {
        let line = words[k].line;
        let position = words[k].position;
        let mut earlier = false;
        let mut j: usize = 0;
        while j < k
            invariant
                j <= k < words@.len(),
                words@.len() == orig.len(),
                line == orig[k as int].line,
                position == orig[k as int].position,
                forall|q: int| 0 <= q < orig.len() ==> (#[trigger] words@[q]).line == orig[q].line && words@[q].position == orig[q].position,
                earlier == exists|q: int| 0 <= q < j && #[trigger] orig[q].line == line && orig[q].position == position,
            decreases k - j,
        {
            if words[j].line == line && words[j].position == position {
                earlier = true;
            }
            j += 1;
        }
        let refs = if earlier {
            Vec::new()
        } else {
            refs_of(patterns, line, position)
        };
        proof {
            if earlier {
                assert(!first_at(orig, k as int));
                assert(ref_views(refs@) =~= Seq::<(usize, Seq<usize>)>::empty());
            } else {
                assert(first_at(orig, k as int));
            }
        }
        let mut w = words.remove(k);
        w.patterns = refs;
        words.insert(k, w);
        k += 1;
    }
}

} // verus!
