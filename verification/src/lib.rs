//! # Phonetik
//!
//! Phonetic analysis for English: syllable counting, stress patterns,
//! rhyme indexes and phoneme lookups over the CMU Pronouncing Dictionary,
//! with every phoneme encoded as a single byte.

use vstd::prelude::*;

pub mod byte_map;
pub mod coda_groups;
pub mod dict;
pub mod distance;
pub mod lexicon;
pub mod meter;
pub mod near_index;
pub mod phoneme;
pub mod rhyme;
pub mod rhyme_index;
pub mod rhymemap;
pub mod slant_index;
pub mod stress;
pub mod syllable;
pub mod text;

use std::sync::Arc;

use crate::byte_map::keyed_map;
use crate::coda_groups::{build, bucket, in_group};
use crate::lexicon::{lemma_lex_irreflexive, lex_lt};
use crate::dict::{
    ascii_normalized, blob_entries, entries_map, g_drop, heard, is_ascii, looked_up, normalized, pronounceable, CmuDict,
};
use crate::near_index::{lemma_near_matches_ranked, near_matches, neighbor_entries, NearIndex};
use crate::rhyme_index::{blob_groups, lemma_perfect_words_sorted, perfect_words, RhymeIndex};
use crate::rhymemap::{
    all_hits, default_min_count, default_min_length, describes, grouped, passes, pattern_keys, placed_words,
    shows_pattern, stripped_words, RhymeMapAnalyzer, RhymeMapDraft,
};
use crate::slant_index::{
    indexes_suffixes, lemma_slant_confidence_range, lemma_slant_matches_ranked, slant_matches, SlantIndex,
    MIN_SUFFIX_CONFIDENCE,
};
use crate::phoneme::{decode_name, lemma_stress_pattern_len, names, stress_pattern, vowel_count};
use crate::stress::{binary_of, first_pronunciation, kept_words, line_analysis, line_pattern, line_tokens, LineStress, StressAnalyzer};
use crate::syllable::{lemma_split_spells_word, split_syllables, stress_shown, SyllableSplitter};
use crate::text::{alphabetic, chars_of, copy_strings, is_alphabetic, string_from, views};

verus! {

// ── Line helpers ────────────────────────────────────────────────────────

/// The mark for one binary stress value: `/` for stressed, `x` otherwise.
pub open spec fn stress_mark(b: i32) -> char {
    if b == 1 {
        '/'
    } else {
        'x'
    }
}

/// Visual stress marks separated by single spaces ("x / x /").
pub open spec fn stress_visual(binary: Seq<i32>) -> Seq<char>
    decreases binary.len(),
{
    if binary.len() == 0 {
        Seq::empty()
    } else if binary.len() == 1 {
        seq![stress_mark(binary[0])]
    } else {
        stress_visual(binary.drop_last()) + seq![' ', stress_mark(binary.last())]
    }
}

/// The stress picture of a line has one mark per syllable, '/' for a
/// stressed one and 'x' for the others, separated by single spaces.
pub proof fn lemma_stress_visual_layout(binary: Seq<i32>)
    ensures
        binary.len() == 0 ==> stress_visual(binary).len() == 0,
        binary.len() > 0 ==> stress_visual(binary).len() == 2 * binary.len() - 1,
        forall|i: int|
            0 <= i < binary.len() ==> #[trigger] stress_visual(binary)[2 * i] == if binary[i] == 1 {
                '/'
            } else {
                'x'
            },
        forall|i: int| 0 <= i < binary.len() - 1 ==> #[trigger] stress_visual(binary)[2 * i + 1] == ' ',
    decreases binary.len(),
{
    if binary.len() > 1 {
        let t = binary.drop_last();
        lemma_stress_visual_layout(t);
        let v = stress_visual(binary);
        let vt = stress_visual(t);
        assert(v == vt + seq![' ', stress_mark(binary.last())]);
        assert forall|i: int| 0 <= i < binary.len() implies #[trigger] v[2 * i] == if binary[i] == 1 {
            '/'
        } else {
            'x'
        } by {
            if i < t.len() {
                assert(v[2 * i] == vt[2 * i]);
                assert(t[i] == binary[i]);
            }
        }
        assert forall|i: int| 0 <= i < binary.len() - 1 implies #[trigger] v[2 * i + 1] == ' ' by {
            if i < t.len() - 1 {
                assert(v[2 * i + 1] == vt[2 * i + 1]);
            }
        }
    }
}

/// A character that belongs to a word when counting syllables per word:
/// a letter, an apostrophe or a hyphen.
pub open spec fn count_token_char(c: char) -> bool {
    alphabetic(c) || c == '\'' || c == '-'
}

/// The words finished so far and the word being read, after reading `s`.
pub open spec fn count_token_state(s: Seq<char>) -> (Seq<Seq<char>>, Seq<char>)
    decreases s.len(),
{
    if s.len() == 0 {
        (Seq::empty(), Seq::empty())
    } else {
        let st = count_token_state(s.drop_last());
        let c = s.last();
        if count_token_char(c) {
            (st.0, st.1.push(c))
        } else if st.1.len() > 0 {
            (st.0.push(st.1), Seq::empty())
        } else {
            st
        }
    }
}

/// The maximal runs of letters, apostrophes and hyphens in `s`, in order.
pub open spec fn count_tokens(s: Seq<char>) -> Seq<Seq<char>> {
    let st = count_token_state(s);
    if st.1.len() > 0 {
        st.0.push(st.1)
    } else {
        st.0
    }
}

/// An ASCII vowel letter (a, e, i, o, u or y) in either case.
pub open spec fn ascii_vowel(c: char) -> bool {
    c == 'a' || c == 'e' || c == 'i' || c == 'o' || c == 'u' || c == 'y' || c == 'A' || c == 'E'
        || c == 'I' || c == 'O' || c == 'U' || c == 'Y'
}

/// The number of maximal runs of ASCII vowels in `s`.
pub open spec fn ascii_vowel_groups(s: Seq<char>) -> nat
    decreases s.len(),
{
    if s.len() == 0 {
        0
    } else {
        ascii_vowel_groups(s.drop_last()) + if ascii_vowel(s.last()) && (s.len() == 1 || !ascii_vowel(
            s[s.len() - 2],
        )) {
            1nat
        } else {
            0nat
        }
    }
}

/// The syllable estimate for a word the dictionary lacks: its vowel groups, at least one.
pub open spec fn estimated_syllables(s: Seq<char>) -> nat {
    if ascii_vowel_groups(s) == 0 {
        1
    } else {
        ascii_vowel_groups(s)
    }
}

/// Visual stress marks for a binary stress pattern: `/` stressed, `x` not,
/// separated by spaces.
pub fn format_stress_visual(binary: &[i32]) -> (r: String)
    ensures
        r@ == stress_visual(binary@),
{
    let mut out: Vec<char> = Vec::new();
    let mut i: usize = 0;
    while i < binary.len()
        invariant
            i <= binary@.len(),
            out@ == stress_visual(binary@.take(i as int)),
        decreases binary@.len() - i,
    {
        if i > 0 {
            out.push(' ');
        }
        out.push(if binary[i] == 1 { '/' } else { 'x' });
        i += 1;
        proof {
            assert(binary@.take(i as int).drop_last() =~= binary@.take(i - 1));
            if i == 1 {
                assert(out@ =~= seq![stress_mark(binary@[0])]);
            } else {
                assert(out@ =~= stress_visual(binary@.take(i - 1)) + seq![' ', stress_mark(binary@[i - 1])]);
            }
        }
    }
    proof {
        assert(binary@.take(binary@.len() as int) =~= binary@);
    }
    string_from(out.as_slice())
}

/// Split a line into words: maximal runs of letters, apostrophes and hyphens.
pub fn tokenize_words(line: &str) -> (r: Vec<String>)
    ensures
        r@.len() == count_tokens(line@).len(),
        forall|i: int| 0 <= i < r@.len() ==> (#[trigger] r@[i])@ == count_tokens(line@)[i],
{
    let v = chars_of(line);
    let mut tokens: Vec<String> = Vec::new();
    let mut current: Vec<char> = Vec::new();
    let mut i: usize = 0;
    while i < v.len()
        invariant
            i <= v@.len(),
            v@ == line@,
            tokens@.len() == count_token_state(v@.take(i as int)).0.len(),
            forall|k: int|
                0 <= k < tokens@.len() ==> (#[trigger] tokens@[k])@ == count_token_state(
                    v@.take(i as int),
                ).0[k],
            current@ == count_token_state(v@.take(i as int)).1,
        decreases v@.len() - i,
    {
        let c = v[i];
        if is_alphabetic(c) || c == '\'' || c == '-' {
            current.push(c);
        } else if current.len() > 0 {
            tokens.push(string_from(current.as_slice()));
            current = Vec::new();
        }
        i += 1;
        proof {
            assert(v@.take(i as int).drop_last() =~= v@.take(i - 1));
        }
    }
    proof {
        assert(v@.take(v@.len() as int) =~= v@);
    }
    if current.len() > 0 {
        tokens.push(string_from(current.as_slice()));
    }
    tokens
}

/// Estimate a word's syllables by counting groups of vowel letters; a word
/// without vowels counts as one syllable.
pub fn estimate_syllable_count(word: &str) -> (r: usize)
    ensures
        r == estimated_syllables(word@),
{
    let v = chars_of(word);
    let mut count: usize = 0;
    let mut in_vowel = false;
    let mut i: usize = 0;
    while i < v.len()
        invariant
            i <= v@.len(),
            v@ == word@,
            count == ascii_vowel_groups(v@.take(i as int)),
            count <= i,
            in_vowel == (i > 0 && ascii_vowel(v@[i - 1])),
        decreases v@.len() - i,
    {
        let c = v[i];
        let is_v = c == 'a' || c == 'e' || c == 'i' || c == 'o' || c == 'u' || c == 'y' || c == 'A'
            || c == 'E' || c == 'I' || c == 'O' || c == 'U' || c == 'Y';
        if is_v && !in_vowel {
            count += 1;
        }
        in_vowel = is_v;
        i += 1;
        proof {
            assert(v@.take(i as int).drop_last() =~= v@.take(i - 1));
        }
    }
    proof {
        assert(v@.take(v@.len() as int) =~= v@);
    }
    if count == 0 {
        1
    } else {
        count
    }
}

// ── The engine ──────────────────────────────────────────────────────────

/// Information about a single word's phonetic properties.
pub struct WordInfo {
    /// Normalized (uppercase) spelling.
    pub word: String,
    /// ARPAbet phoneme sequence (e.g. `["HH", "AH0", "L", "OW1"]`).
    pub phonemes: Vec<String>,
    /// Number of syllables.
    pub syllable_count: usize,
    /// Estimated syllable boundaries (e.g. `["HEL", "LO"]`).
    pub syllables: Vec<String>,
    /// Stress values per syllable: 0=unstressed, 1=primary, 2=secondary.
    pub stress_pattern: Vec<i32>,
    /// Human-readable stress display (e.g. `"hel-LO"`).
    pub stress_display: String,
    /// Number of pronunciation variants in the dictionary.
    pub variant_count: usize,
}

/// Syllable count for a single word.
pub struct WordSyllableCount {
    pub word: String,
    pub syllables: usize,
}

/// Syllable counts for a line of text.
pub struct LineSyllableCount {
    pub words: Vec<WordSyllableCount>,
    pub total: usize,
}

/// Classification of a rhyme relationship.
#[derive(Clone, Copy, PartialEq, Eq, Debug)]
pub enum RhymeType {
    /// Identical sound from last stressed vowel onward (night/fight).
    Perfect,
    /// Same coda consonants, different vowel (love/move).
    Slant,
    /// Same vowel, coda differs by one consonant (night/nice).
    Near,
    /// No meaningful rhyme relationship.
    NoRhyme,
}

/// A word that rhymes with the query.
pub struct RhymeMatch {
    pub word: String,
    pub phonemes: Vec<String>,
    pub syllables: usize,
    pub rhyme_type: RhymeType,
    /// In hundredths: 100 for a perfect rhyme, by vowel distance for a slant
    /// rhyme, 50 for a near rhyme.
    pub confidence_pct: u8,
}

/// A rhyme match by its word, kind and confidence.
pub open spec fn rhyme_entry(m: RhymeMatch) -> (Seq<char>, RhymeType, u8) {
    (m.word@, m.rhyme_type, m.confidence_pct)
}

/// A list of rhyme matches by their words, kinds and confidences.
pub open spec fn rhyme_entries(ms: Seq<RhymeMatch>) -> Seq<(Seq<char>, RhymeType, u8)> {
    ms.map_values(|m: RhymeMatch| rhyme_entry(m))
}

/// Whether a match carries its word's first pronunciation in dictionary `d`.
pub open spec fn pronounced(m: RhymeMatch, d: Map<Seq<char>, Seq<Seq<u8>>>) -> bool {
    &&& views(m.phonemes@) == names(heard(d, m.word@))
    &&& m.syllables == vowel_count(heard(d, m.word@))
}

/// Whether `w` is among the matches `s`.
pub open spec fn has_rhyme(s: Seq<(Seq<char>, RhymeType, u8)>, w: Seq<char>) -> bool {
    exists|k: int| 0 <= k < s.len() && s[k].0 == w
}

/// `acc` with the matches of `xs` whose word it does not hold yet appended, in order.
pub open spec fn merge_new(acc: Seq<(Seq<char>, RhymeType, u8)>, xs: Seq<(Seq<char>, RhymeType, u8)>) -> Seq<(Seq<char>, RhymeType, u8)>
    decreases xs.len(),
{
    if xs.len() == 0 {
        acc
    } else {
        let prev = merge_new(acc, xs.drop_last());
        if has_rhyme(prev, xs.last().0) {
            prev
        } else {
            prev.push(xs.last())
        }
    }
}

/// The most rhymes any lookup returns.
pub const MAX_RHYMES: usize = 500;

/// How many syllables a word counts for: those of its first pronunciation
/// when the dictionary has it, the vowel-group estimate of its spelling otherwise.
pub open spec fn word_syllables(d: Map<Seq<char>, Seq<Seq<u8>>>, w: Seq<char>) -> nat {
    if d.contains_key(normalized(w)) {
        vowel_count(first_pronunciation(d, w))
    } else {
        estimated_syllables(w)
    }
}

/// The sum of the syllables of the words of a line.
pub open spec fn total_syllables(d: Map<Seq<char>, Seq<Seq<u8>>>, ws: Seq<Seq<char>>) -> nat
    decreases ws.len(),
{
    if ws.len() == 0 {
        0
    } else {
        total_syllables(d, ws.drop_last()) + word_syllables(d, ws.last())
    }
}

/// Wraps `Arc::clone`: the clone points to the same value.
#[verifier::external_body]
fn share<T>(a: &Arc<T>) -> (r: Arc<T>)
    ensures
        r == *a,
{
    Arc::clone(a)
}

/// An unknown word is estimated at one syllable at least.
pub proof fn lemma_estimate_at_least_one(w: Seq<char>)
    ensures
        estimated_syllables(w) >= 1,
{
}

/// A word has a vowel group exactly when it has a vowel.
proof fn lemma_vowel_groups_some(w: Seq<char>)
    ensures
        ascii_vowel_groups(w) > 0 <==> exists|i: int| 0 <= i < w.len() && ascii_vowel(#[trigger] w[i]),
    decreases w.len(),
{
    if w.len() > 0 {
        let d = w.drop_last();
        lemma_vowel_groups_some(d);
        if exists|i: int| 0 <= i < d.len() && ascii_vowel(#[trigger] d[i]) {
            let i = choose|i: int| 0 <= i < d.len() && ascii_vowel(#[trigger] d[i]);
            assert(w[i] == d[i]);
        }
        if exists|i: int| 0 <= i < w.len() && ascii_vowel(#[trigger] w[i]) {
            let i = choose|i: int| 0 <= i < w.len() && ascii_vowel(#[trigger] w[i]);
            if i < d.len() {
                assert(d[i] == w[i]);
            } else if w.len() >= 2 && ascii_vowel(w[w.len() - 2]) {
                assert(d[d.len() - 1] == w[w.len() - 2]);
            }
        }
    }
}

/// The estimate counts runs of vowel letters, at least one: a vowel right
/// after a vowel adds nothing, any other letter adds nothing, and a vowel
/// after a non-vowel (or opening the word) starts one more syllable once the
/// word has any vowel ("boat" is one syllable, "groupchat" two).
pub proof fn lemma_estimate_counts_vowel_runs(w: Seq<char>, c: char, v: char)
    ensures
        ascii_vowel(c) && ascii_vowel(v) ==> estimated_syllables(w.push(c).push(v)) == estimated_syllables(w.push(c)),
        !ascii_vowel(c) ==> estimated_syllables(w.push(c)) == estimated_syllables(w),
        ascii_vowel(v) && (w.len() == 0 || !ascii_vowel(w.last())) ==> estimated_syllables(w.push(v)) == if exists|i: int|
            0 <= i < w.len() && ascii_vowel(#[trigger] w[i]) {
            estimated_syllables(w) + 1
        } else {
            1
        },
        estimated_syllables("boat"@) == 1,
        estimated_syllables("groupchat"@) == 2,
{
    assert(w.push(c).push(v).drop_last() == w.push(c));
    assert(w.push(c).drop_last() == w);
    assert(w.push(v).drop_last() == w);
    lemma_vowel_groups_some(w);
    if w.len() > 0 {
        assert(w.push(v)[w.len() - 1] == w.last());
    }
    reveal_strlit("boat");
    reveal_strlit("groupchat");
    let b = "boat"@;
    assert(b.drop_last().drop_last().drop_last().drop_last() =~= Seq::<char>::empty());
    let g = "groupchat"@;
    assert(ascii_vowel_groups(Seq::<char>::empty()) == 0);
    assert(g =~= seq!['g', 'r', 'o', 'u', 'p', 'c', 'h', 'a', 't']);
    assert(b =~= seq!['b', 'o', 'a', 't']);
    assert(ascii_vowel_groups(g.take(1)) == 0) by {
        assert(g.take(1).drop_last() =~= Seq::<char>::empty());
        assert(g.take(1).last() == 'g');
    }
    assert(ascii_vowel_groups(g.take(2)) == 0) by {
        assert(g.take(2).drop_last() =~= g.take(1));
    }
    assert(ascii_vowel_groups(g.take(3)) == 1) by {
        assert(g.take(3).drop_last() =~= g.take(2));
    }
    assert(ascii_vowel_groups(g.take(4)) == 1) by {
        assert(g.take(4).drop_last() =~= g.take(3));
    }
    assert(ascii_vowel_groups(g.take(5)) == 1) by {
        assert(g.take(5).drop_last() =~= g.take(4));
    }
    assert(ascii_vowel_groups(g.take(6)) == 1) by {
        assert(g.take(6).drop_last() =~= g.take(5));
    }
    assert(ascii_vowel_groups(g.take(7)) == 1) by {
        assert(g.take(7).drop_last() =~= g.take(6));
    }
    assert(ascii_vowel_groups(g.take(8)) == 2) by {
        assert(g.take(8).drop_last() =~= g.take(7));
    }
    assert(ascii_vowel_groups(g) == 2) by {
        assert(g.drop_last() =~= g.take(8));
    }
    assert(ascii_vowel_groups(b.take(1)) == 0) by {
        assert(b.take(1).drop_last() =~= Seq::<char>::empty());
        assert(b.take(1).last() == 'b');
    }
    assert(ascii_vowel_groups(b.take(2)) == 1) by {
        assert(b.take(2).drop_last() =~= b.take(1));
    }
    assert(ascii_vowel_groups(b.take(3)) == 1) by {
        assert(b.take(3).drop_last() =~= b.take(2));
    }
    assert(ascii_vowel_groups(b) == 1) by {
        assert(b.drop_last() =~= b.take(3));
    }
}

/// Append the matches of `xs` whose word `out` does not hold yet, in order;
/// `seen` keeps the words of `out`.
fn merge_into(
    out: &mut Vec<RhymeMatch>,
    seen: &mut Vec<Vec<char>>,
    xs: &Vec<RhymeMatch>,
    Ghost(d): Ghost<Map<Seq<char>, Seq<Seq<u8>>>>,
)
    requires
        old(seen)@.len() == old(out)@.len(),
        forall|k: int| 0 <= k < old(out)@.len() ==> (#[trigger] old(seen)@[k])@ == old(out)@[k].word@,
        forall|k: int| 0 <= k < old(out)@.len() ==> pronounced(#[trigger] old(out)@[k], d),
        forall|k: int| 0 <= k < xs@.len() ==> pronounced(#[trigger] xs@[k], d),
    ensures
        final(seen)@.len() == final(out)@.len(),
        forall|k: int| 0 <= k < final(out)@.len() ==> (#[trigger] final(seen)@[k])@ == final(out)@[k].word@,
        forall|k: int| 0 <= k < final(out)@.len() ==> pronounced(#[trigger] final(out)@[k], d),
        rhyme_entries(final(out)@) == merge_new(rhyme_entries(old(out)@), rhyme_entries(xs@)),
{
    let ghost acc = rhyme_entries(out@);
    let ghost xv = rhyme_entries(xs@);
    let mut i: usize = 0;
    while i < xs.len()
        invariant
            i <= xs@.len(),
            xv == rhyme_entries(xs@),
            seen@.len() == out@.len(),
            forall|k: int| 0 <= k < out@.len() ==> (#[trigger] seen@[k])@ == out@[k].word@,
            forall|k: int| 0 <= k < out@.len() ==> pronounced(#[trigger] out@[k], d),
            forall|k: int| 0 <= k < xs@.len() ==> pronounced(#[trigger] xs@[k], d),
            rhyme_entries(out@) == merge_new(acc, xv.take(i as int)),
        decreases xs@.len() - i,
    {
        let m = &xs[i];
        let w = chars_of(m.word.as_str());
        let mut k: usize = 0;
        let mut found = false;
        while k < seen.len()
            invariant
                k <= seen@.len(),
                found ==> exists|j: int| 0 <= j < seen@.len() && (#[trigger] seen@[j])@ == w@,
                !found ==> forall|j: int| 0 <= j < k ==> (#[trigger] seen@[j])@ != w@,
            decreases seen@.len() - k,
        {
            if crate::lexicon::word_order(seen[k].as_slice(), w.as_slice()) == 0 {
                found = true;
            }
            k += 1;
        }
        let ghost prev = rhyme_entries(out@);
        proof {
            assert(xv.take(i + 1).drop_last() =~= xv.take(i as int));
            assert(xv.take(i + 1).last() == xv[i as int]);
            assert(xv[i as int].0 == w@);
            if found {
                let j = choose|j: int| 0 <= j < seen@.len() && (#[trigger] seen@[j])@ == w@;
                assert(prev[j].0 == w@);
            } else {
                if has_rhyme(prev, w@) {
                    let j = choose|j: int| 0 <= j < prev.len() && prev[j].0 == w@;
                    assert(seen@[j]@ == w@);
                }
            }
        }
        if !found {
            out.push(RhymeMatch {
                word: m.word.clone(),
                phonemes: copy_strings(&m.phonemes),
                syllables: m.syllables,
                rhyme_type: m.rhyme_type,
                confidence_pct: m.confidence_pct,
            });
            seen.push(w);
            proof {
                assert(rhyme_entries(out@) =~= prev.push(xv[i as int]));
            }
        }
        i += 1;
    }
    proof {
        assert(xv.take(xs@.len() as int) =~= xv);
    }
}

/// Whether no two matches share a word.
pub open spec fn distinct_words(s: Seq<(Seq<char>, RhymeType, u8)>) -> bool {
    forall|i: int, j: int| 0 <= i < j < s.len() ==> (#[trigger] s[i]).0 != (#[trigger] s[j]).0
}

/// The rank of a kind of rhyme in a merged list: perfect, then slant, then near.
pub open spec fn kind_rank(t: RhymeType) -> int {
    match t {
        RhymeType::Perfect => 0,
        RhymeType::Slant => 1,
        RhymeType::Near => 2,
        RhymeType::NoRhyme => 3,
    }
}

/// Merging keeps what was there, adds each new word once, and adds only
/// matches of the merged list.
proof fn lemma_merge_new(acc: Seq<(Seq<char>, RhymeType, u8)>, xs: Seq<(Seq<char>, RhymeType, u8)>)
    requires
        distinct_words(acc),
    ensures
        distinct_words(merge_new(acc, xs)),
        merge_new(acc, xs).len() >= acc.len(),
        forall|i: int| 0 <= i < acc.len() ==> #[trigger] merge_new(acc, xs)[i] == acc[i],
        forall|i: int| acc.len() <= i < merge_new(acc, xs).len() ==> xs.contains(#[trigger] merge_new(acc, xs)[i]),
    decreases xs.len(),
{
    if xs.len() > 0 {
        let prev = merge_new(acc, xs.drop_last());
        lemma_merge_new(acc, xs.drop_last());
        assert forall|i: int| acc.len() <= i < prev.len() implies xs.contains(#[trigger] prev[i]) by {
            let k = choose|k: int| 0 <= k < xs.drop_last().len() && xs.drop_last()[k] == prev[i];
            assert(xs[k] == prev[i]);
        }
        if !has_rhyme(prev, xs.last().0) {
            let next = prev.push(xs.last());
            assert forall|i: int, j: int| 0 <= i < j < next.len() implies (#[trigger] next[i]).0 != (#[trigger] next[j]).0 by {
                if j == prev.len() {
                    assert(next[i] == prev[i]);
                }
            }
            assert(xs.contains(xs.last())) by {
                assert(xs[xs.len() - 1] == xs.last());
            }
        }
    }
}

/// Merging into nothing a list whose words are distinct gives that list.
proof fn lemma_merge_new_fresh(xs: Seq<(Seq<char>, RhymeType, u8)>)
    requires
        distinct_words(xs),
    ensures
        merge_new(Seq::empty(), xs) == xs,
    decreases xs.len(),
{
    if xs.len() > 0 {
        let d = xs.drop_last();
        assert forall|i: int, j: int| 0 <= i < j < d.len() implies (#[trigger] d[i]).0 != (#[trigger] d[j]).0 by {
            assert(d[i] == xs[i] && d[j] == xs[j]);
        }
        lemma_merge_new_fresh(d);
        if has_rhyme(d, xs.last().0) {
            let k = choose|k: int| 0 <= k < d.len() && d[k].0 == xs.last().0;
            assert(xs[k].0 == xs[xs.len() - 1].0);
        }
        assert(d.push(xs.last()) =~= xs);
    }
}

/// The rhymes of a word, merged across kinds, hold each word once, never
/// the word itself, no more than the limit (and `MAX_RHYMES`), and come
/// perfect first, then slant, then near; the perfect ones are the first of
/// the word's perfect rhymes, in their order; and an unknown word has none.
pub proof fn lemma_rhyme_list(ph: Phonetik, word: Seq<char>, limit: usize)
    ensures
        distinct_words(ph.rhyme_list(word, limit)),
        forall|i: int|
            0 <= i < ph.rhyme_list(word, limit).len() && (#[trigger] ph.rhyme_list(word, limit)[i]).1
                == RhymeType::Perfect ==> i < ph.perfect_entries(word).len() && ph.rhyme_list(word, limit)[i]
                == ph.perfect_entries(word)[i],
        !ph.dictionary().contains_key(normalized(word)) ==> ph.rhyme_list(word, limit).len() == 0,
        forall|i: int| 0 <= i < ph.rhyme_list(word, limit).len() ==> (#[trigger] ph.rhyme_list(word, limit)[i]).0 != normalized(word),
        ph.rhyme_list(word, limit).len() <= limit,
        ph.rhyme_list(word, limit).len() <= MAX_RHYMES,
        forall|i: int, j: int|
            0 <= i < j < ph.rhyme_list(word, limit).len() ==> kind_rank((#[trigger] ph.rhyme_list(word, limit)[i]).1)
                <= kind_rank((#[trigger] ph.rhyme_list(word, limit)[j]).1),
{
    let cap: int = if limit <= MAX_RHYMES { limit as int } else { MAX_RHYMES as int };
    let p = ph.perfect_entries(word);
    let empty = Seq::<(Seq<char>, RhymeType, u8)>::empty();
    lemma_merge_new(empty, p);
    let a = merge_new(empty, p);
    let sl = ph.slant_entries(word, (cap - a.len()) as usize);
    let b = if a.len() < cap { merge_new(a, sl) } else { a };
    if a.len() < cap {
        lemma_merge_new(a, sl);
    }
    let nr = ph.near_entries(word, (cap - b.len()) as usize);
    let c = if b.len() < cap { merge_new(b, nr) } else { b };
    if b.len() < cap {
        lemma_merge_new(b, nr);
    }
    let r = ph.rhyme_list(word, limit);
    assert(r == if c.len() <= cap { c } else { c.take(cap) });
    // kinds: the first `a.len()` are perfect, up to `b.len()` slant, then near
    assert forall|i: int| 0 <= i < c.len() implies kind_rank((#[trigger] c[i]).1) == (if i < a.len() {
        0int
    } else if i < b.len() {
        1int
    } else {
        2int
    }) by {
        if i < a.len() {
            assert(c[i] == a[i]);
            assert(p.contains(a[i]));
        } else if i < b.len() {
            assert(c[i] == b[i]);
            assert(sl.contains(b[i]));
        } else {
            assert(nr.contains(c[i]));
        }
    }
    assert forall|i: int, j: int| 0 <= i < j < r.len() implies kind_rank((#[trigger] r[i]).1) <= kind_rank((#[trigger] r[j]).1) by {
        assert(r[i] == c[i] && r[j] == c[j]);
    }
    assert forall|i: int, j: int| 0 <= i < j < r.len() implies (#[trigger] r[i]).0 != (#[trigger] r[j]).0 by {
        assert(r[i] == c[i] && r[j] == c[j]);
    }
    // no kind of rhyme lists the word itself
    let nw = normalized(word);
    lemma_perfect_words_sorted(ph.perfect_index().groups(), ph.perfect_index().added(), ph.dictionary(), word);
    lemma_slant_matches_ranked(
        ph.slant_index().groups(),
        ph.slant_index().suffixes(),
        ph.slant_index().added(),
        ph.dictionary(),
        word,
        (cap - a.len()) as usize,
    );
    lemma_near_matches_ranked(
        ph.near_index().groups(),
        ph.near_index().neighbors(),
        ph.dictionary(),
        word,
        (cap - b.len()) as usize,
    );
    assert forall|i: int| 0 <= i < r.len() implies (#[trigger] r[i]).0 != nw by {
        assert(r[i] == c[i]);
        if i < a.len() {
            let k = choose|k: int| 0 <= k < p.len() && p[k] == a[i];
        } else if i < b.len() {
            let k = choose|k: int| 0 <= k < sl.len() && sl[k] == b[i];
        } else {
            let k = choose|k: int| 0 <= k < nr.len() && nr[k] == c[i];
        }
    }
    // the perfect rhymes, being in increasing order, merge in unchanged
    let pw = perfect_words(ph.perfect_index().groups(), ph.perfect_index().added(), ph.dictionary(), word);
    assert forall|i: int, j: int| 0 <= i < j < p.len() implies (#[trigger] p[i]).0 != (#[trigger] p[j]).0 by {
        assert(lex_lt(pw[i], pw[j]));
        lemma_lex_irreflexive(pw[i]);
    }
    lemma_merge_new_fresh(p);
    assert forall|i: int|
        0 <= i < r.len() && (#[trigger] r[i]).1 == RhymeType::Perfect implies i < p.len() && r[i] == p[i] by {
        assert(r[i] == c[i]);
        if i >= a.len() {
            if i < b.len() {
                assert(c[i] == b[i]);
                let k = choose|k: int| 0 <= k < sl.len() && sl[k] == b[i];
            } else {
                let k = choose|k: int| 0 <= k < nr.len() && nr[k] == c[i];
            }
        }
    }
    if !ph.dictionary().contains_key(nw) {
        assert(p.len() == 0);
        assert(sl.len() == 0);
        assert(nr.len() == 0);
        assert(a.len() == 0);
        assert(b.len() == 0);
        assert(c.len() == 0);
    }
}

/// Over a valid slant index, the merged rhymes of a word carry the
/// confidence of their kind: 100 for a perfect rhyme, 50 for a near one, and
/// between `MIN_SUFFIX_CONFIDENCE` and 90 for a slant one.
pub proof fn lemma_rhyme_confidences(ph: Phonetik, word: Seq<char>, limit: usize)
    requires
        indexes_suffixes(ph.slant_index().suffixes(), ph.slant_index().groups().codas()),
    ensures
        forall|i: int|
            0 <= i < ph.rhyme_list(word, limit).len() ==> {
                let e = #[trigger] ph.rhyme_list(word, limit)[i];
                &&& e.1 == RhymeType::Perfect ==> e.2 == 100
                &&& e.1 == RhymeType::Near ==> e.2 == 50
                &&& e.1 == RhymeType::Slant ==> MIN_SUFFIX_CONFIDENCE <= e.2 <= 90
                &&& e.1 != RhymeType::NoRhyme
            },
{
    let cap: int = if limit <= MAX_RHYMES { limit as int } else { MAX_RHYMES as int };
    let p = ph.perfect_entries(word);
    let empty = Seq::<(Seq<char>, RhymeType, u8)>::empty();
    lemma_merge_new(empty, p);
    let a = merge_new(empty, p);
    let sl = ph.slant_entries(word, (cap - a.len()) as usize);
    let b = if a.len() < cap { merge_new(a, sl) } else { a };
    if a.len() < cap {
        lemma_merge_new(a, sl);
    }
    let nr = ph.near_entries(word, (cap - b.len()) as usize);
    let c = if b.len() < cap { merge_new(b, nr) } else { b };
    if b.len() < cap {
        lemma_merge_new(b, nr);
    }
    let r = ph.rhyme_list(word, limit);
    lemma_slant_confidence_range(
        ph.slant_index().groups(),
        ph.slant_index().suffixes(),
        ph.slant_index().added(),
        ph.dictionary(),
        word,
        (cap - a.len()) as usize,
    );
    assert forall|i: int| 0 <= i < r.len() implies {
        let e = #[trigger] r[i];
        &&& e.1 == RhymeType::Perfect ==> e.2 == 100
        &&& e.1 == RhymeType::Near ==> e.2 == 50
        &&& e.1 == RhymeType::Slant ==> MIN_SUFFIX_CONFIDENCE <= e.2 <= 90
        &&& e.1 != RhymeType::NoRhyme
    } by {
        assert(r[i] == c[i]);
        if i < a.len() {
            let k = choose|k: int| 0 <= k < p.len() && p[k] == a[i];
        } else if i < b.len() {
            assert(c[i] == b[i]);
            let k = choose|k: int| 0 <= k < sl.len() && sl[k] == b[i];
        } else {
            let k = choose|k: int| 0 <= k < nr.len() && nr[k] == c[i];
        }
    }
}

impl Clone for Phonetik {
    /// Another handle on the same engine; the dictionary is shared, not copied.
    fn clone(&self) -> (r: Self)
        ensures
            r.dictionary() == self.dictionary(),
            r.perfect_index() == self.perfect_index(),
            r.slant_index() == self.slant_index(),
            r.near_index() == self.near_index(),
    {
        proof {
            use_type_invariant(self);
        }
        Phonetik {
            dict: share(&self.dict),
            rhyme_index: share(&self.rhyme_index),
            slant_index: share(&self.slant_index),
            near_index: share(&self.near_index),
            stress_analyzer: share(&self.stress_analyzer),
            rhyme_mapper: share(&self.rhyme_mapper),
        }
    }
}

/// Adding words one at a time never lowers the running total.
proof fn lemma_total_prefix(d: Map<Seq<char>, Seq<Seq<u8>>>, ws: Seq<Seq<char>>, j: int)
    requires
        0 <= j <= ws.len(),
    ensures
        total_syllables(d, ws.take(j)) <= total_syllables(d, ws),
    decreases ws.len() - j,
{
    if j < ws.len() {
        lemma_total_prefix(d, ws, j + 1);
        assert(ws.take(j + 1).drop_last() =~= ws.take(j));
    } else {
        assert(ws.take(j) =~= ws);
    }
}

/// The phonetic analysis engine over one dictionary. Cloning shares the
/// dictionary rather than copying it.
pub struct Phonetik {
    dict: Arc<CmuDict>,
    rhyme_index: Arc<RhymeIndex>,
    slant_index: Arc<SlantIndex>,
    near_index: Arc<NearIndex>,
    stress_analyzer: Arc<StressAnalyzer>,
    rhyme_mapper: Arc<RhymeMapAnalyzer>,
}

impl Phonetik {
    #[verifier::type_invariant]
    spec fn well_formed(&self) -> bool {
        &&& pronounceable(self.dict@)
        &&& self.stress_analyzer.dictionary() == self.dict@
        &&& self.rhyme_index.dictionary() == self.dict@
        &&& self.slant_index.dictionary() == self.dict@
        &&& self.near_index.dictionary() == self.dict@
        &&& self.rhyme_mapper.dictionary() == self.dict@
        &&& indexes_suffixes(self.slant_index.suffixes(), self.slant_index.groups().codas())
    }

    /// The dictionary the engine reads: each word with its pronunciations.
    pub closed spec fn dictionary(&self) -> Map<Seq<char>, Seq<Seq<u8>>> {
        self.dict@
    }

    /// The perfect rhyme index.
    pub closed spec fn perfect_index(&self) -> RhymeIndex {
        *self.rhyme_index
    }

    /// The slant rhyme index.
    pub closed spec fn slant_index(&self) -> SlantIndex {
        *self.slant_index
    }

    /// The near rhyme index.
    pub closed spec fn near_index(&self) -> NearIndex {
        *self.near_index
    }

    /// The perfect rhymes of `word` by word, kind and confidence.
    pub open spec fn perfect_entries(&self, word: Seq<char>) -> Seq<(Seq<char>, RhymeType, u8)> {
        perfect_words(self.perfect_index().groups(), self.perfect_index().added(), self.dictionary(), word).map_values(
            |w: Seq<char>| (w, RhymeType::Perfect, 100u8),
        )
    }

    /// The slant rhymes of `word` for `limit` matches by word, kind and confidence.
    pub open spec fn slant_entries(&self, word: Seq<char>, limit: usize) -> Seq<(Seq<char>, RhymeType, u8)> {
        slant_matches(
            self.slant_index().groups(),
            self.slant_index().suffixes(),
            self.slant_index().added(),
            self.dictionary(),
            word,
            if limit <= MAX_RHYMES {
                limit
            } else {
                MAX_RHYMES
            },
        ).map_values(|c: (Seq<char>, (u8, u8))| (c.0, RhymeType::Slant, c.1.0))
    }

    /// The near rhymes of `word` for `limit` matches by word, kind and confidence.
    pub open spec fn near_entries(&self, word: Seq<char>, limit: usize) -> Seq<(Seq<char>, RhymeType, u8)> {
        near_matches(
            self.near_index().groups(),
            self.near_index().neighbors(),
            self.dictionary(),
            word,
            if limit <= MAX_RHYMES {
                limit
            } else {
                MAX_RHYMES
            },
        ).map_values(|c: (Seq<char>, Seq<u8>)| (c.0, RhymeType::Near, 50u8))
    }

    /// All the rhymes of `word` for `limit` matches: the perfect ones; then,
    /// while fewer than the cap (`limit`, at most `MAX_RHYMES`), as many slant
    /// ones as are missing; then near ones likewise; a word only the first
    /// time it comes; cut to the cap.
    pub open spec fn rhyme_list(&self, word: Seq<char>, limit: usize) -> Seq<(Seq<char>, RhymeType, u8)> {
        let cap: int = if limit <= MAX_RHYMES {
            limit as int
        } else {
            MAX_RHYMES as int
        };
        let a = merge_new(Seq::empty(), self.perfect_entries(word));
        let b = if a.len() < cap {
            merge_new(a, self.slant_entries(word, (cap - a.len()) as usize))
        } else {
            a
        };
        let c = if b.len() < cap {
            merge_new(b, self.near_entries(word, (cap - b.len()) as usize))
        } else {
            b
        };
        if c.len() <= cap {
            c
        } else {
            c.take(cap)
        }
    }

    /// Create an engine over the dictionary in `dict_blob` (the binary format
    /// `CmuDict::load` reads), in which every word has a pronunciation, with
    /// the perfect rhyme groups of `rhyme_groups_blob` and the coda neighbour
    /// graph of `neighbors_blob`. The coda groups of the slant and near
    /// indexes are built from the dictionary.
    pub fn new(dict_blob: &[u8], rhyme_groups_blob: &[u8], neighbors_blob: &[u8]) -> (r: Self)
        requires
            pronounceable(entries_map(blob_entries(dict_blob@))),
        ensures
            r.dictionary() == entries_map(blob_entries(dict_blob@)),
            r.perfect_index().groups() == blob_groups(rhyme_groups_blob@),
            r.perfect_index().added() == Map::<Seq<u8>, Seq<Seq<char>>>::empty(),
            r.slant_index().groups() == r.near_index().groups(),
            forall|c: Seq<u8>, n: u8, w: Seq<char>|
                #[trigger] r.near_index().groups().members(c, n).contains(w) <==> in_group(r.dictionary(), c, n, w),
            indexes_suffixes(r.slant_index().suffixes(), r.slant_index().groups().codas()),
            forall|c: Seq<u8>, o: u8| bucket(r.slant_index().added(), c, o).len() == 0,
            r.near_index().neighbors() == keyed_map(neighbor_entries(neighbors_blob@)),
    {
        let dict = Arc::new(CmuDict::load(dict_blob));
        let rhyme_index = Arc::new(RhymeIndex::new(share(&dict), rhyme_groups_blob));
        let groups = Arc::new(build(&*dict));
        let slant_index = Arc::new(SlantIndex::new(share(&dict), share(&groups)));
        let near_index = Arc::new(NearIndex::new(share(&dict), groups, neighbors_blob));
        let stress_analyzer = Arc::new(StressAnalyzer::new(share(&dict)));
        let rhyme_mapper = Arc::new(RhymeMapAnalyzer::new(share(&dict)));
        Phonetik { dict, rhyme_index, slant_index, near_index, stress_analyzer, rhyme_mapper }
    }

    /// Look up a word's phonetic information: from its first pronunciation,
    /// the phonemes, syllable count and stresses; the spelling split into that
    /// many syllables; the stress display; and how many pronunciations exist.
    /// `None` if the word is not in the dictionary.
    pub fn lookup(&self, word: &str) -> (r: Option<WordInfo>)
        ensures
            r.is_none() == !self.dictionary().contains_key(normalized(word@)),
            r.is_some() ==> ({
                let info = r.unwrap();
                let d = self.dictionary();
                let n = normalized(word@);
                let p = first_pronunciation(d, word@);
                &&& info.word@ == n
                &&& info.phonemes@.len() == p.len()
                &&& forall|j: int| 0 <= j < p.len() ==> (#[trigger] info.phonemes@[j])@ == decode_name(p[j])
                &&& info.syllable_count == vowel_count(p)
                &&& info.syllables@.len() == split_syllables(n, vowel_count(p)).len()
                &&& forall|j: int|
                    0 <= j < info.syllables@.len() ==> (#[trigger] info.syllables@[j])@ == split_syllables(
                        n,
                        vowel_count(p),
                    )[j]
                &&& info.stress_pattern@ == stress_pattern(p)
                &&& info.stress_display@ == stress_shown(n, stress_pattern(p))
                &&& info.variant_count == d[n].len()
                &&& info.variant_count >= 1
                &&& info.syllable_count == info.stress_pattern@.len()
                &&& views(info.syllables@).flatten() == info.word@
            }),
            is_ascii(word@) ==> normalized(word@) == ascii_normalized(word@),
    {
        proof {
            use_type_invariant(self);
        }
        let normalized = CmuDict::normalize(word);
        let variants = match self.dict.lookup(word) {
            Some(v) => v,
            None => {
                return None;
            },
        };
        proof {
            assert(variants.deep_view().len() == variants@.len());
            assert(variants.deep_view()[0] == variants@[0]@);
        }
        let encoded = &variants[0];
        let count = phoneme::count_syllables(encoded.as_slice());
        let stresses = phoneme::extract_stresses(encoded.as_slice());
        let syllables = SyllableSplitter::split(normalized.as_str(), count);
        let stress_display = SyllableSplitter::stress_display(normalized.as_str(), stresses.as_slice());
        proof {
            lemma_stress_pattern_len(encoded@);
            lemma_split_spells_word(normalized@, count as nat);
            assert(views(syllables@) =~= split_syllables(normalized@, count as nat));
        }
        Some(
            WordInfo {
                word: normalized,
                phonemes: phoneme::decode_to_strings(encoded.as_slice()),
                syllable_count: count,
                syllables,
                stress_pattern: stresses,
                stress_display,
                variant_count: variants.len(),
            },
        )
    }

    /// Count syllables in a word: from the dictionary, or estimated from the
    /// spelling for unknown words.
    pub fn syllable_count(&self, word: &str) -> (r: usize)
        ensures
            r == word_syllables(self.dictionary(), word@),
    {
        proof {
            use_type_invariant(self);
        }
        match self.dict.lookup(word) {
            Some(variants) => {
                proof {
                    assert(variants.deep_view().len() == variants@.len());
                    assert(variants.deep_view()[0] == variants@[0]@);
                }
                phoneme::count_syllables(variants[0].as_slice())
            },
            None => estimate_syllable_count(word),
        }
    }

    /// Count syllables for each word in each line. (Each line's total must
    /// fit in a `usize`.)
    pub fn syllable_counts(&self, lines: &[&str]) -> (r: Vec<LineSyllableCount>)
        requires
            forall|i: int|
                0 <= i < lines@.len() ==> total_syllables(self.dictionary(), count_tokens(#[trigger] lines@[i]@))
                    <= usize::MAX,
        ensures
            r@.len() == lines@.len(),
            forall|i: int|
                0 <= i < lines@.len() ==> {
                    let line = #[trigger] r@[i];
                    let ws = count_tokens(lines@[i]@);
                    &&& line.words@.len() == ws.len()
                    &&& forall|j: int|
                        0 <= j < ws.len() ==> (#[trigger] line.words@[j]).word@ == ws[j]
                            && line.words@[j].syllables == word_syllables(self.dictionary(), ws[j])
                    &&& line.total == total_syllables(self.dictionary(), ws)
                },
    {
        let mut out: Vec<LineSyllableCount> = Vec::new();
        let mut i: usize = 0;
        while i < lines.len()
            invariant
                i <= lines@.len(),
                out@.len() == i,
                forall|k: int|
                    0 <= k < lines@.len() ==> total_syllables(self.dictionary(), count_tokens(#[trigger] lines@[k]@))
                        <= usize::MAX,
                forall|k: int|
                    0 <= k < i ==> {
                        let line = #[trigger] out@[k];
                        let ws = count_tokens(lines@[k]@);
                        &&& line.words@.len() == ws.len()
                        &&& forall|j: int|
                            0 <= j < ws.len() ==> (#[trigger] line.words@[j]).word@ == ws[j]
                                && line.words@[j].syllables == word_syllables(self.dictionary(), ws[j])
                        &&& line.total == total_syllables(self.dictionary(), ws)
                    },
            decreases lines@.len() - i,
        {
            out.push(self.count_line(lines[i]));
            i += 1;
        }
        out
    }

    fn count_line(&self, line: &str) -> (r: LineSyllableCount)
        requires
            total_syllables(self.dictionary(), count_tokens(line@)) <= usize::MAX,
        ensures
            ({
                let ws = count_tokens(line@);
                &&& r.words@.len() == ws.len()
                &&& forall|j: int|
                    0 <= j < ws.len() ==> (#[trigger] r.words@[j]).word@ == ws[j] && r.words@[j].syllables
                        == word_syllables(self.dictionary(), ws[j])
                &&& r.total == total_syllables(self.dictionary(), ws)
            }),
    {
        let tokens = tokenize_words(line);
        let ghost ws = count_tokens(line@);
        let mut words: Vec<WordSyllableCount> = Vec::new();
        let mut total: usize = 0;
        let mut j: usize = 0;
        while j < tokens.len()
            invariant
                j <= tokens@.len(),
                tokens@.len() == ws.len(),
                forall|k: int| 0 <= k < tokens@.len() ==> (#[trigger] tokens@[k])@ == ws[k],
                words@.len() == j,
                forall|k: int|
                    0 <= k < j ==> (#[trigger] words@[k]).word@ == ws[k] && words@[k].syllables
                        == word_syllables(self.dictionary(), ws[k]),
                total == total_syllables(self.dictionary(), ws.take(j as int)),
                total_syllables(self.dictionary(), ws) <= usize::MAX,
            decreases tokens@.len() - j,
        {
            let count = self.syllable_count(tokens[j].as_str());
            proof {
                assert(ws.take(j + 1).drop_last() =~= ws.take(j as int));
                lemma_total_prefix(self.dictionary(), ws, j + 1);
            }
            total = total + count;
            words.push(WordSyllableCount { word: tokens[j].clone(), syllables: count });
            j += 1;
        }
        proof {
            assert(ws.take(ws.len() as int) =~= ws);
        }
        LineSyllableCount { words, total }
    }

    /// Find all rhymes for a word, merged across types: perfect rhymes first
    /// (confidence 100), then slant, then near; each word once, and at most
    /// `limit` (and `MAX_RHYMES`) of them.
    pub fn rhymes(&self, word: &str, limit: usize) -> (r: Vec<RhymeMatch>)
        ensures
            rhyme_entries(r@) == self.rhyme_list(word@, limit),
            forall|i: int| 0 <= i < r@.len() ==> pronounced(#[trigger] r@[i], self.dictionary()),
            forall|i: int|
                0 <= i < r@.len() ==> {
                    let m = #[trigger] r@[i];
                    &&& m.rhyme_type == RhymeType::Perfect ==> m.confidence_pct == 100
                    &&& m.rhyme_type == RhymeType::Near ==> m.confidence_pct == 50
                    &&& m.rhyme_type == RhymeType::Slant ==> MIN_SUFFIX_CONFIDENCE <= m.confidence_pct <= 90
                    &&& m.rhyme_type != RhymeType::NoRhyme
                },
    {
        proof {
            use_type_invariant(self);
            lemma_rhyme_confidences(*self, word@, limit);
        }
        let cap = if limit <= MAX_RHYMES { limit } else { MAX_RHYMES };
        let mut out: Vec<RhymeMatch> = Vec::new();
        let mut seen: Vec<Vec<char>> = Vec::new();
        proof {
            assert(rhyme_entries(out@) =~= Seq::<(Seq<char>, RhymeType, u8)>::empty());
        }
        let perfect = self.perfect_rhymes(word);
        merge_into(&mut out, &mut seen, &perfect, Ghost(self.dictionary()));
        let ghost a = rhyme_entries(out@);
        if out.len() < cap {
            let slant = self.slant_rhymes(word, cap - out.len());
            merge_into(&mut out, &mut seen, &slant, Ghost(self.dictionary()));
        }
        let ghost b = rhyme_entries(out@);
        if out.len() < cap {
            let near = self.near_rhymes(word, cap - out.len());
            merge_into(&mut out, &mut seen, &near, Ghost(self.dictionary()));
        }
        let ghost c = rhyme_entries(out@);
        out.truncate(cap);
        proof {
            if c.len() > cap {
                assert(rhyme_entries(out@) =~= c.take(cap as int));
            } else {
                assert(rhyme_entries(out@) =~= c);
            }
            assert forall|i: int| 0 <= i < out@.len() implies rhyme_entries(out@)[i] == rhyme_entry(
                #[trigger] out@[i],
            ) by {}
        }
        out
    }

    /// Find perfect rhymes only (identical sound from the last stressed vowel
    /// onward): in increasing order, each with confidence 100.
    pub fn perfect_rhymes(&self, word: &str) -> (r: Vec<RhymeMatch>)
        ensures
            rhyme_entries(r@) == self.perfect_entries(word@),
            forall|i: int| 0 <= i < r@.len() ==> pronounced(#[trigger] r@[i], self.dictionary()),
            forall|i: int, j: int| 0 <= i < j < r@.len() ==> lex_lt((#[trigger] r@[i]).word@, (#[trigger] r@[j]).word@),
            forall|i: int| 0 <= i < r@.len() ==> (#[trigger] r@[i]).word@ != normalized(word@),
    {
        proof {
            use_type_invariant(self);
            lemma_perfect_words_sorted(
                self.perfect_index().groups(),
                self.perfect_index().added(),
                self.dictionary(),
                word@,
            );
        }
        let mut out: Vec<RhymeMatch> = Vec::new();
        let ghost want = perfect_words(
            self.perfect_index().groups(),
            self.perfect_index().added(),
            self.dictionary(),
            word@,
        ).map_values(|w: Seq<char>| (w, RhymeType::Perfect, 100u8));
        match self.rhyme_index.lookup(word) {
            Some(res) => {
                let mut i: usize = 0;
                while i < res.matches.len()
                    invariant
                        i <= res.matches@.len(),
                        want.len() == res.matches@.len(),
                        forall|k: int| 0 <= k < res.matches@.len() ==> want[k] == ((#[trigger] res.matches@[k]).word@, RhymeType::Perfect, 100u8),
                        forall|k: int| 0 <= k < res.matches@.len() ==> views((#[trigger] res.matches@[k]).phonemes@) == names(heard(self.dictionary(), res.matches@[k].word@))
                            && res.matches@[k].syllables == vowel_count(heard(self.dictionary(), res.matches@[k].word@)),
                        rhyme_entries(out@) == want.take(i as int),
                        forall|k: int| 0 <= k < out@.len() ==> pronounced(#[trigger] out@[k], self.dictionary()),
                    decreases res.matches@.len() - i,
                {
                    let m = &res.matches[i];
                    let ghost before = rhyme_entries(out@);
                    out.push(RhymeMatch {
                        word: m.word.clone(),
                        phonemes: copy_strings(&m.phonemes),
                        syllables: m.syllables,
                        rhyme_type: RhymeType::Perfect,
                        confidence_pct: 100,
                    });
                    i += 1;
                    proof {
                        assert(rhyme_entries(out@) =~= before.push(want[i - 1]));
                        assert(want.take(i as int) =~= want.take(i - 1).push(want[i - 1]));
                    }
                }
                proof {
                    assert(want.take(res.matches@.len() as int) =~= want);
                }
            },
            None => {
                proof {
                    assert(want =~= Seq::<(Seq<char>, RhymeType, u8)>::empty());
                    assert(rhyme_entries(out@) =~= want);
                }
            },
        }
        proof {
            let pw = perfect_words(self.perfect_index().groups(), self.perfect_index().added(), self.dictionary(), word@);
            assert forall|i: int| 0 <= i < out@.len() implies (#[trigger] out@[i]).word@ == pw[i] by {
                assert(rhyme_entries(out@)[i] == rhyme_entry(out@[i]));
            }
        }
        out
    }

    /// Find slant rhymes (same coda, different vowel; or a coda that ends the
    /// same way): at most `limit` (and `MAX_RHYMES`), highest confidence first.
    pub fn slant_rhymes(&self, word: &str, limit: usize) -> (r: Vec<RhymeMatch>)
        ensures
            rhyme_entries(r@) == self.slant_entries(word@, limit),
            forall|i: int| 0 <= i < r@.len() ==> pronounced(#[trigger] r@[i], self.dictionary()),
    {
        proof {
            use_type_invariant(self);
        }
        let lim = if limit <= MAX_RHYMES { limit } else { MAX_RHYMES };
        let mut out: Vec<RhymeMatch> = Vec::new();
        let ghost want = slant_matches(
            self.slant_index().groups(),
            self.slant_index().suffixes(),
            self.slant_index().added(),
            self.dictionary(),
            word@,
            lim,
        ).map_values(|c: (Seq<char>, (u8, u8))| (c.0, RhymeType::Slant, c.1.0));
        match self.slant_index.lookup(word, lim) {
            Some(res) => {
                let mut i: usize = 0;
                while i < res.matches.len()
                    invariant
                        i <= res.matches@.len(),
                        want.len() == res.matches@.len(),
                        forall|k: int| 0 <= k < res.matches@.len() ==> want[k] == ((#[trigger] res.matches@[k]).word@, RhymeType::Slant, res.matches@[k].confidence_pct),
                        forall|k: int| 0 <= k < res.matches@.len() ==> views((#[trigger] res.matches@[k]).phonemes@) == names(heard(self.dictionary(), res.matches@[k].word@))
                            && res.matches@[k].syllables == vowel_count(heard(self.dictionary(), res.matches@[k].word@)),
                        rhyme_entries(out@) == want.take(i as int),
                        forall|k: int| 0 <= k < out@.len() ==> pronounced(#[trigger] out@[k], self.dictionary()),
                    decreases res.matches@.len() - i,
                {
                    let m = &res.matches[i];
                    let ghost before = rhyme_entries(out@);
                    out.push(RhymeMatch {
                        word: m.word.clone(),
                        phonemes: copy_strings(&m.phonemes),
                        syllables: m.syllables,
                        rhyme_type: RhymeType::Slant,
                        confidence_pct: m.confidence_pct,
                    });
                    i += 1;
                    proof {
                        assert(rhyme_entries(out@) =~= before.push(want[i - 1]));
                        assert(want.take(i as int) =~= want.take(i - 1).push(want[i - 1]));
                    }
                }
                proof {
                    assert(want.take(res.matches@.len() as int) =~= want);
                }
            },
            None => {
                proof {
                    assert(want =~= Seq::<(Seq<char>, RhymeType, u8)>::empty());
                    assert(rhyme_entries(out@) =~= want);
                }
            },
        }
        out
    }

    /// Find near rhymes (same vowel, coda one edit away): at most `limit`
    /// (and `MAX_RHYMES`), each with confidence 50.
    pub fn near_rhymes(&self, word: &str, limit: usize) -> (r: Vec<RhymeMatch>)
        ensures
            rhyme_entries(r@) == self.near_entries(word@, limit),
            forall|i: int| 0 <= i < r@.len() ==> pronounced(#[trigger] r@[i], self.dictionary()),
    {
        proof {
            use_type_invariant(self);
        }
        let lim = if limit <= MAX_RHYMES { limit } else { MAX_RHYMES };
        let mut out: Vec<RhymeMatch> = Vec::new();
        let ghost want = near_matches(
            self.near_index().groups(),
            self.near_index().neighbors(),
            self.dictionary(),
            word@,
            lim,
        ).map_values(|c: (Seq<char>, Seq<u8>)| (c.0, RhymeType::Near, 50u8));
        match self.near_index.lookup(word, lim) {
            Some(res) => {
                let mut i: usize = 0;
                while i < res.matches.len()
                    invariant
                        i <= res.matches@.len(),
                        want.len() == res.matches@.len(),
                        forall|k: int| 0 <= k < res.matches@.len() ==> want[k] == ((#[trigger] res.matches@[k]).word@, RhymeType::Near, 50u8),
                        forall|k: int| 0 <= k < res.matches@.len() ==> views((#[trigger] res.matches@[k]).phonemes@) == names(heard(self.dictionary(), res.matches@[k].word@))
                            && res.matches@[k].syllables == vowel_count(heard(self.dictionary(), res.matches@[k].word@)),
                        rhyme_entries(out@) == want.take(i as int),
                        forall|k: int| 0 <= k < out@.len() ==> pronounced(#[trigger] out@[k], self.dictionary()),
                    decreases res.matches@.len() - i,
                {
                    let m = &res.matches[i];
                    let ghost before = rhyme_entries(out@);
                    out.push(RhymeMatch {
                        word: m.word.clone(),
                        phonemes: copy_strings(&m.phonemes),
                        syllables: m.syllables,
                        rhyme_type: RhymeType::Near,
                        confidence_pct: 50,
                    });
                    i += 1;
                    proof {
                        assert(rhyme_entries(out@) =~= before.push(want[i - 1]));
                        assert(want.take(i as int) =~= want.take(i - 1).push(want[i - 1]));
                    }
                }
                proof {
                    assert(want.take(res.matches@.len() as int) =~= want);
                }
            },
            None => {
                proof {
                    assert(want =~= Seq::<(Seq<char>, RhymeType, u8)>::empty());
                    assert(rhyme_entries(out@) =~= want);
                }
            },
        }
        out
    }

    /// Detect phoneme repetition patterns across lines of verse, with the
    /// default options: n-grams of at least `default_min_length()` phonemes
    /// found in at least `default_min_count()` words. The patterns come
    /// unscored, in the order of their keys.
    pub fn rhyme_map(&self, lines: &[&str]) -> (r: RhymeMapDraft)
        ensures
            r.lines@.len() == lines@.len(),
            forall|i: int| 0 <= i < lines@.len() ==> (#[trigger] r.lines@[i])@ == lines@[i]@,
            ({
                let ls = lines@.map_values(|l: &str| l@);
                let ps = placed_words(ls);
                let d = self.dictionary();
                let ss = stripped_words(ps, d);
                let g = grouped(all_hits(ss, ss.len()));
                &&& r.words@.len() == ps.len()
                &&& forall|k: int| 0 <= k < r.words@.len() ==> describes(#[trigger] r.words@[k], ps[k], d)
                &&& crate::byte_map::sorted_keys(pattern_keys(r.patterns@))
                &&& forall|k: Seq<u8>|
                    g.contains_key(k) && passes(k, g[k], ps, 2, 2) <==> #[trigger] pattern_keys(r.patterns@).contains(k)
                &&& forall|j: int|
                    0 <= j < r.patterns@.len() ==> shows_pattern(#[trigger] r.patterns@[j], g[r.patterns@[j].key@], ps, ss, ls)
            }),
    {
        proof {
            use_type_invariant(self);
        }
        let mut owned: Vec<String> = Vec::new();
        let mut i: usize = 0;
        while i < lines.len()
            invariant
                i <= lines@.len(),
                owned@.len() == i,
                forall|k: int| 0 <= k < i ==> (#[trigger] owned@[k])@ == lines@[k]@,
            decreases lines@.len() - i,
        {
            owned.push(lines[i].to_owned());
            i += 1;
        }
        proof {
            assert(views(owned@) =~= lines@.map_values(|l: &str| l@));
        }
        let r = self.rhyme_mapper.analyze(owned.as_slice(), default_min_count(), default_min_length());
        proof {
            assert forall|i: int| 0 <= i < lines@.len() implies (#[trigger] r.lines@[i])@ == lines@[i]@ by {
                assert(views(r.lines@)[i] == views(owned@)[i]);
            }
        }
        r
    }

    /// The stresses of a line of verse, by the dictionary's citation stress:
    /// each word's stresses (estimated for unknown words), the whole
    /// pattern, its binary form and the stress display.
    pub fn analyze_line(&self, line: &str) -> (r: LineStress)
        ensures
            r.stress_pattern@ == line_pattern(self.dictionary(), kept_words(line_tokens(line@, false))),
            r.binary_pattern@ == binary_of(line_pattern(self.dictionary(), kept_words(line_tokens(line@, false)))),
            r.syllable_count == line_pattern(self.dictionary(), kept_words(line_tokens(line@, false))).len(),
            r.words@.len() == kept_words(line_tokens(line@, false)).len(),
            line_analysis(r, self.dictionary(), line@),
    {
        proof {
            use_type_invariant(self);
        }
        self.stress_analyzer.analyze_line(line)
    }

    /// A word's pronunciations, as a dictionary lookup gives them.
    pub fn pronunciations(&self, word: &str) -> (r: Option<Vec<Vec<u8>>>)
        ensures
            r.is_none() == !self.dictionary().contains_key(normalized(word@)),
            r.is_some() ==> r.unwrap().deep_view() == looked_up(
                self.dictionary()[normalized(word@)],
                g_drop(word@),
            ),
            r.is_some() ==> r.unwrap()@.len() > 0,
    {
        proof {
            use_type_invariant(self);
        }
        let r = self.dict.lookup(word);
        proof {
            if r.is_some() {
                assert(r.unwrap().deep_view().len() == r.unwrap()@.len());
            }
        }
        r
    }

    /// Check if a word is in the dictionary.
    pub fn contains(&self, word: &str) -> (r: bool)
        ensures
            r == self.dictionary().contains_key(normalized(word@)),
    {
        self.dict.lookup(word).is_some()
    }

    /// Number of words in the dictionary.
    pub fn word_count(&self) -> (r: usize)
        ensures
            r == self.dictionary().dom().len(),
    {
        self.dict.entry_count()
    }
}

} // verus!
