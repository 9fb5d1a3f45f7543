//! Stress analysis of a line of text: tokenizing, dictionary stresses, and
//! estimates for words the dictionary lacks.

use std::sync::Arc;

use vstd::prelude::*;

use crate::dict::{g_drop, looked_up, normalized, pronounceable, CmuDict};
use crate::phoneme::{self, decode_name, stress_pattern};
use crate::syllable::{joined, split_vowel, stress_shown, SyllableSplitter};
use crate::text::{alphabetic, chars_of, is_alphabetic, string_from, to_upper_first};

verus! {

// ── Tokenizing ──────────────────────────────────────────────────────────

/// Whether an apostrophe at `apo` closes a g-drop ("runnin'"): the token
/// before it is at least three characters long and ends in "in" (either case).
pub open spec fn g_drop_apostrophe_at(c: Seq<char>, start: int, apo: int) -> bool {
    &&& apo - start >= 3
    &&& (c[apo - 1] == 'n' || c[apo - 1] == 'N')
    &&& (c[apo - 2] == 'i' || c[apo - 2] == 'I')
}

/// Whether position `i` belongs to a word, given where the current word
/// started (if one is open): letters always; an apostrophe inside a word when
/// a letter follows or it closes a g-drop; with `hyphens`, a hyphen inside a
/// word when a letter follows.
pub open spec fn token_char_at(c: Seq<char>, i: int, start: Option<int>, hyphens: bool) -> bool {
    if i >= c.len() {
        false
    } else if alphabetic(c[i]) {
        true
    } else if hyphens && c[i] == '-' && start.is_some() && i + 1 < c.len() && alphabetic(c[i + 1]) {
        true
    } else if c[i] == '\'' && start.is_some() {
        if i + 1 < c.len() && alphabetic(c[i + 1]) {
            true
        } else {
            g_drop_apostrophe_at(c, start.unwrap(), i)
        }
    } else {
        false
    }
}

/// The words read from position `i` on, given the open word and those read so far.
pub open spec fn scan_tokens(
    c: Seq<char>,
    i: int,
    start: Option<int>,
    acc: Seq<Seq<char>>,
    hyphens: bool,
) -> Seq<Seq<char>>
    decreases c.len() + 1 - i,
{
    if i > c.len() || i < 0 {
        acc
    } else if token_char_at(c, i, start, hyphens) {
        scan_tokens(
            c,
            i + 1,
            if start.is_none() {
                Some(i)
            } else {
                start
            },
            acc,
            hyphens,
        )
    } else if start.is_some() {
        scan_tokens(c, i + 1, None, acc.push(c.subrange(start.unwrap(), i)), hyphens)
    } else {
        scan_tokens(c, i + 1, None, acc, hyphens)
    }
}

/// The words of a line.
pub open spec fn line_tokens(c: Seq<char>, hyphens: bool) -> Seq<Seq<char>> {
    scan_tokens(c, 0, None, Seq::empty(), hyphens)
}

/// A word of a line: a non-empty stretch of the line that starts with a
/// letter and holds only letters, apostrophes and, when hyphens are kept,
/// hyphens.
pub open spec fn line_word(c: Seq<char>, t: Seq<char>, hyphens: bool) -> bool {
    &&& t.len() > 0
    &&& alphabetic(t[0])
    &&& forall|j: int| 0 <= j < t.len() ==> alphabetic(#[trigger] t[j]) || t[j] == '\'' || (hyphens && t[j] == '-')
    &&& exists|a: int| 0 <= a && a + t.len() <= c.len() && #[trigger] c.subrange(a, a + t.len()) == t
}

proof fn lemma_scan_tokens_words(c: Seq<char>, i: int, start: Option<int>, acc: Seq<Seq<char>>, hyphens: bool)
    requires
        0 <= i <= c.len() + 1,
        forall|k: int| 0 <= k < acc.len() ==> line_word(c, #[trigger] acc[k], hyphens),
        start matches Some(st) ==> {
            &&& 0 <= st < i <= c.len()
            &&& alphabetic(c[st])
            &&& forall|j: int| st <= j < i ==> alphabetic(#[trigger] c[j]) || c[j] == '\'' || (hyphens && c[j] == '-')
        },
    ensures
        forall|k: int|
            0 <= k < scan_tokens(c, i, start, acc, hyphens).len() ==> line_word(
                c,
                #[trigger] scan_tokens(c, i, start, acc, hyphens)[k],
                hyphens,
            ),
    decreases c.len() + 1 - i,
{
    if i > c.len() || i < 0 {
    } else if token_char_at(c, i, start, hyphens) {
        let ns = if start.is_none() {
            Some(i)
        } else {
            start
        };
        lemma_scan_tokens_words(c, i + 1, ns, acc, hyphens);
        assert(scan_tokens(c, i, start, acc, hyphens) == scan_tokens(c, i + 1, ns, acc, hyphens));
    } else if start.is_some() {
        let st = start.unwrap();
        let t = c.subrange(st, i);
        let na = acc.push(t);
        assert(t[0] == c[st]);
        assert forall|j: int| 0 <= j < t.len() implies alphabetic(#[trigger] t[j]) || t[j] == '\'' || (hyphens && t[j]
            == '-') by {
            assert(t[j] == c[st + j]);
        }
        assert(c.subrange(st, st + t.len()) == t);
        assert forall|k: int| 0 <= k < na.len() implies line_word(c, #[trigger] na[k], hyphens) by {
            if k < acc.len() {
                assert(na[k] == acc[k]);
            }
        }
        lemma_scan_tokens_words(c, i + 1, None, na, hyphens);
        assert(scan_tokens(c, i, start, acc, hyphens) == scan_tokens(c, i + 1, None, na, hyphens));
    } else {
        lemma_scan_tokens_words(c, i + 1, None, acc, hyphens);
        assert(scan_tokens(c, i, start, acc, hyphens) == scan_tokens(c, i + 1, None, acc, hyphens));
    }
}

/// Every word a line is split into is a non-empty stretch of the line that
/// starts with a letter and holds only letters, apostrophes and, when
/// hyphens are kept, hyphens: digits, spaces and punctuation never enter one.
pub proof fn lemma_line_tokens_words(c: Seq<char>, hyphens: bool)
    ensures
        forall|k: int| 0 <= k < line_tokens(c, hyphens).len() ==> line_word(c, #[trigger] line_tokens(c, hyphens)[k], hyphens),
{
    lemma_scan_tokens_words(c, 0, None, Seq::empty(), hyphens);
}

/// Whether the apostrophe at `apo_idx` closes a g-drop word that starts at `token_start`.
pub fn is_g_drop_apostrophe(chars: &[char], token_start: usize, apo_idx: usize) -> (r: bool)
    requires
        token_start <= apo_idx <= chars@.len(),
    ensures
        r == g_drop_apostrophe_at(chars@, token_start as int, apo_idx as int),
{
    let len = apo_idx - token_start;
    if len < 3 {
        return false;
    }
    let n = chars[apo_idx - 1];
    let i = chars[apo_idx - 2];
    (n == 'n' || n == 'N') && (i == 'i' || i == 'I')
}

/// Split a line into words; with `hyphens`, hyphenated words stay whole.
pub fn scan_words(line: &str, hyphens: bool) -> (r: Vec<String>)
    ensures
        r@.len() == line_tokens(line@, hyphens).len(),
        forall|i: int| 0 <= i < r@.len() ==> (#[trigger] r@[i])@ == line_tokens(line@, hyphens)[i],
{
    let chars = chars_of(line);
    let ghost c = chars@;
    let mut tokens: Vec<String> = Vec::new();
    let mut start: Option<usize> = None;
    let mut i: usize = 0;
    proof {
        assert(tokens@.map_values(|t: String| t@) =~= Seq::<Seq<char>>::empty());
    }
    while i < chars.len()
        invariant
            c == chars@,
            c == line@,
            i <= c.len(),
            start.is_some() ==> start.unwrap() < i,
            scan_tokens(
                c,
                i as int,
                match start {
                    Some(s) => Some(s as int),
                    None => None,
                },
                tokens@.map_values(|t: String| t@),
                hyphens,
            ) == line_tokens(c, hyphens),
        decreases c.len() + 1 - i,
    {
        let ghost st = match start {
            Some(s) => Some(s as int),
            None => None::<int>,
        };
        let mut is_word_char = false;
        {
            let ch = chars[i];
            if is_alphabetic(ch) {
                is_word_char = true;
            } else if hyphens && ch == '-' && start.is_some() && i + 1 < chars.len() && is_alphabetic(
                chars[i + 1],
            ) {
                is_word_char = true;
            } else if ch == '\'' && start.is_some() {
                if i + 1 < chars.len() && is_alphabetic(chars[i + 1]) {
                    is_word_char = true;
                } else {
                    match start {
                        Some(s) => {
                            is_word_char = is_g_drop_apostrophe(chars.as_slice(), s, i);
                        },
                        None => {},
                    }
                }
            }
        }
        proof {
            assert(is_word_char == token_char_at(c, i as int, st, hyphens));
        }
        if is_word_char {
            if start.is_none() {
                start = Some(i);
            }
        } else {
            match start {
                Some(s) => {
                    let ghost before = tokens@.map_values(|t: String| t@);
                    let token = string_from(&chars.as_slice()[s..i]);
                    tokens.push(token);
                    proof {
                        assert(tokens@.map_values(|t: String| t@) =~= before.push(c.subrange(s as int, i as int)));
                    }
                    start = None;
                },
                None => {},
            }
        }
        i += 1;
    }
    proof {
        assert(!token_char_at(c, i as int, None, hyphens));
    }
    match start {
        Some(s) => {
            let ghost before = tokens@.map_values(|t: String| t@);
            proof {
                assert(!token_char_at(c, i as int, Some(s as int), hyphens));
                let after = before.push(c.subrange(s as int, i as int));
                assert(scan_tokens(c, i + 1, None, after, hyphens) == after);
                assert(scan_tokens(c, i as int, Some(s as int), before, hyphens) == after);
            }
            let token = string_from(&chars.as_slice()[s..i]);
            tokens.push(token);
            proof {
                assert(tokens@.map_values(|t: String| t@) =~= before.push(c.subrange(s as int, i as int)));
            }
        },
        None => {
            proof {
                let before = tokens@.map_values(|t: String| t@);
                assert(scan_tokens(c, i + 1, None, before, hyphens) == before);
            }
        },
    }
    proof {
        let m = tokens@.map_values(|t: String| t@);
        assert(m == line_tokens(c, hyphens));
        assert forall|k: int| 0 <= k < tokens@.len() implies (#[trigger] tokens@[k])@ == line_tokens(
            c,
            hyphens,
        )[k] by {
            assert(m[k] == tokens@[k]@);
        }
    }
    tokens
}

/// Split a line into words: runs of letters, with apostrophes kept inside
/// contractions and at the end of g-drops ("runnin'").
pub fn tokenize(line: &str) -> (r: Vec<String>)
    ensures
        r@.len() == line_tokens(line@, false).len(),
        forall|i: int| 0 <= i < r@.len() ==> (#[trigger] r@[i])@ == line_tokens(line@, false)[i],
{
    scan_words(line, false)
}

// ── Stress estimation ───────────────────────────────────────────────────

/// The number of maximal runs of vowel letters (by `split_vowel`) in `s`.
pub open spec fn vowel_letter_groups(s: Seq<char>) -> nat
    decreases s.len(),
{
    if s.len() == 0 {
        0
    } else {
        vowel_letter_groups(s.drop_last()) + if split_vowel(s.last()) && (s.len() == 1 || !split_vowel(
            s[s.len() - 2],
        )) {
            1nat
        } else {
            0nat
        }
    }
}

/// Estimated stresses for an unknown word: one per vowel group (at least
/// one), the first stressed and the rest not.
pub open spec fn estimated_stresses(s: Seq<char>) -> Seq<i32> {
    let n = if vowel_letter_groups(s) == 0 {
        1
    } else {
        vowel_letter_groups(s)
    };
    Seq::new(n, |i: int| if i == 0 { 1i32 } else { 0i32 })
}

fn vowel_group_count(word: &str) -> (r: usize)
    ensures
        r == vowel_letter_groups(word@),
{
    let v = chars_of(word);
    let mut groups: usize = 0;
    let mut in_vowel = false;
    let mut i: usize = 0;
    while i < v.len()
        invariant
            i <= v@.len(),
            v@ == word@,
            groups == vowel_letter_groups(v@.take(i as int)),
            groups <= i,
            in_vowel == (i > 0 && split_vowel(v@[i - 1])),
        decreases v@.len() - i,
    {
        let u = to_upper_first(v[i]);
        let is_v = u == 'A' || u == 'E' || u == 'I' || u == 'O' || u == 'U' || u == 'Y';
        if is_v && !in_vowel {
            groups += 1;
        }
        in_vowel = is_v;
        i += 1;
        proof {
            assert(v@.take(i as int).drop_last() =~= v@.take(i - 1));
        }
    }
    proof {
        assert(v@.take(v@.len() as int) =~= v@);
    }
    groups
}

/// Estimate stresses for a word the dictionary lacks.
pub fn estimate_stresses(word: &str) -> (r: Vec<i32>)
    ensures
        r@ == estimated_stresses(word@),
{
    let mut syllables = vowel_group_count(word);
    if syllables == 0 {
        syllables = 1;
    }
    let mut stresses: Vec<i32> = Vec::new();
    stresses.push(1);
    let mut k: usize = 1;
    while k < syllables
        invariant
            1 <= k <= syllables,
            stresses@.len() == k,
            stresses@[0] == 1,
            forall|j: int| 0 < j < k ==> stresses@[j] == 0,
        decreases syllables - k,
    {
        stresses.push(0);
        k += 1;
    }
    proof {
        assert(stresses@ =~= estimated_stresses(word@));
    }
    stresses
}

// ── Line analysis ───────────────────────────────────────────────────────

/// The words of a line that analysis keeps: those whose normalized form is not empty.
pub open spec fn kept_words(toks: Seq<Seq<char>>) -> Seq<Seq<char>>
    decreases toks.len(),
{
    if toks.len() == 0 {
        Seq::empty()
    } else if normalized(toks.last()).len() > 0 {
        kept_words(toks.drop_last()).push(toks.last())
    } else {
        kept_words(toks.drop_last())
    }
}

/// The pronunciation analysis uses for a word in the dictionary: its first variant.
pub open spec fn first_pronunciation(d: Map<Seq<char>, Seq<Seq<u8>>>, w: Seq<char>) -> Seq<u8> {
    looked_up(d[normalized(w)], g_drop(w))[0]
}

/// A word's stresses: from its first pronunciation when the dictionary has
/// it, estimated from its normalized spelling otherwise.
pub open spec fn word_stresses(d: Map<Seq<char>, Seq<Seq<u8>>>, w: Seq<char>) -> Seq<i32> {
    if d.contains_key(normalized(w)) {
        stress_pattern(first_pronunciation(d, w))
    } else {
        estimated_stresses(normalized(w))
    }
}

/// The stresses of a line: those of its words, in order.
pub open spec fn line_pattern(d: Map<Seq<char>, Seq<Seq<u8>>>, ws: Seq<Seq<char>>) -> Seq<i32>
    decreases ws.len(),
{
    if ws.len() == 0 {
        Seq::empty()
    } else {
        line_pattern(d, ws.drop_last()) + word_stresses(d, ws.last())
    }
}

/// 1 for a stressed syllable, 0 for an unstressed one.
pub open spec fn binary_of(p: Seq<i32>) -> Seq<i32> {
    p.map_values(|s: i32| if s > 0 { 1i32 } else { 0i32 })
}

/// A binary pattern has one mark per syllable, each 0 or 1.
pub proof fn lemma_binary_marks(p: Seq<i32>)
    ensures
        binary_of(p).len() == p.len(),
        forall|i: int| 0 <= i < p.len() ==> #[trigger] binary_of(p)[i] == 0 || binary_of(p)[i] == 1,
        forall|i: int| 0 <= i < p.len() ==> (binary_of(p)[i] == 1 <==> #[trigger] p[i] > 0),
{
}

/// An unknown word is estimated one stress mark per run of vowel letters (at
/// least one), the first stressed and the rest unstressed: a vowel right
/// after a vowel adds no syllable, and neither does any other letter.
pub proof fn lemma_estimated_stresses_runs(w: Seq<char>, c: char, v: char)
    ensures
        estimated_stresses(w).len() >= 1,
        estimated_stresses(w)[0] == 1,
        forall|i: int| 1 <= i < estimated_stresses(w).len() ==> #[trigger] estimated_stresses(w)[i] == 0,
        split_vowel(c) && split_vowel(v) ==> estimated_stresses(w.push(c).push(v)).len() == estimated_stresses(
            w.push(c),
        ).len(),
        !split_vowel(c) ==> estimated_stresses(w.push(c)).len() == estimated_stresses(w).len(),
{
    assert(w.push(c).push(v).drop_last() == w.push(c));
    assert(w.push(c).drop_last() == w);
}

pub struct StressAnalyzer {
    dict: Arc<CmuDict>,
}

/// One analysed word of a line.
#[derive(Clone)]
pub struct WordStress {
    pub word: String,
    pub normalized: String,
    pub phonemes: Vec<String>,
    pub stresses: Vec<i32>,
    pub in_dictionary: bool,
    pub display: String,
}

/// A line's stresses, word by word and as a whole.
pub struct LineStress {
    pub words: Vec<WordStress>,
    pub stress_pattern: Vec<i32>,
    pub binary_pattern: Vec<i32>,
    pub syllable_count: usize,
    pub stressed_display: String,
}

/// What the analysis of `line` over dictionary `d` holds: each kept word of
/// the line with its spelling, normalized form, whether the dictionary has
/// it, its stresses, its stress display and its first pronunciation; the
/// line's stress pattern, its binary form, its syllable count, and the
/// words' displays joined by spaces.
pub open spec fn line_analysis(r: LineStress, d: Map<Seq<char>, Seq<Seq<u8>>>, line: Seq<char>) -> bool {
    let ws = kept_words(line_tokens(line, false));
    &&& r.words@.len() == ws.len()
    &&& forall|i: int|
        0 <= i < ws.len() ==> {
            let w = #[trigger] r.words@[i];
            &&& w.word@ == ws[i]
            &&& w.normalized@ == normalized(ws[i])
            &&& w.in_dictionary == d.contains_key(normalized(ws[i]))
            &&& w.stresses@ == word_stresses(d, ws[i])
            &&& w.display@ == stress_shown(ws[i], word_stresses(d, ws[i]))
            &&& w.phonemes@.len() == (if w.in_dictionary {
                first_pronunciation(d, ws[i]).len()
            } else {
                0
            })
            &&& forall|j: int|
                0 <= j < w.phonemes@.len() ==> (#[trigger] w.phonemes@[j])@ == decode_name(
                    first_pronunciation(d, ws[i])[j],
                )
        }
    &&& r.stress_pattern@ == line_pattern(d, ws)
    &&& r.binary_pattern@ == binary_of(line_pattern(d, ws))
    &&& r.syllable_count == line_pattern(d, ws).len()
    &&& r.stressed_display@ == joined(
        Seq::new(ws.len(), |i: int| stress_shown(ws[i], word_stresses(d, ws[i]))),
        ' ',
    )
}

impl StressAnalyzer {
    /// The dictionary this analyzer reads.
    pub closed spec fn dictionary(&self) -> Map<Seq<char>, Seq<Seq<u8>>> {
        self.dict@
    }

    pub fn new(dict: Arc<CmuDict>) -> (r: Self)
        ensures
            r.dictionary() == dict@,
    {
        Self { dict }
    }

    /// Analyse a line: each word's stresses (from the dictionary, or
    /// estimated), the whole line's pattern, its binary form, and a display
    /// with stressed syllables in upper case.
    pub fn analyze_line(&self, line: &str) -> (r: LineStress)
        requires
            pronounceable(self.dictionary()),
        ensures
            line_analysis(r, self.dictionary(), line@),
    {
        let ghost d = self.dictionary();
        let tokens = tokenize(line);
        let ghost toks = line_tokens(line@, false);
        let mut words: Vec<WordStress> = Vec::new();
        let mut full: Vec<i32> = Vec::new();
        let mut t: usize = 0;
        while t < tokens.len()
            invariant
                d == self.dictionary(),
                pronounceable(d),
                t <= tokens@.len(),
                tokens@.len() == toks.len(),
                forall|i: int| 0 <= i < tokens@.len() ==> (#[trigger] tokens@[i])@ == toks[i],
                words@.len() == kept_words(toks.take(t as int)).len(),
                forall|i: int|
                    0 <= i < words@.len() ==> {
                        let w = #[trigger] words@[i];
                        let kw = kept_words(toks.take(t as int));
                        &&& w.word@ == kw[i]
                        &&& w.normalized@ == normalized(kw[i])
                        &&& w.in_dictionary == d.contains_key(normalized(kw[i]))
                        &&& w.stresses@ == word_stresses(d, kw[i])
                        &&& w.display@ == stress_shown(kw[i], word_stresses(d, kw[i]))
                        &&& w.phonemes@.len() == (if w.in_dictionary {
                            first_pronunciation(d, kw[i]).len()
                        } else {
                            0
                        })
                        &&& forall|j: int|
                            0 <= j < w.phonemes@.len() ==> (#[trigger] w.phonemes@[j])@ == decode_name(
                                first_pronunciation(d, kw[i])[j],
                            )
                    },
                full@ == line_pattern(d, kept_words(toks.take(t as int))),
            decreases tokens@.len() - t,
        {
            let token = &tokens[t];
            let ghost tok = toks[t as int];
            let ghost prev = kept_words(toks.take(t as int));
            proof {
                assert(toks.take(t + 1).drop_last() =~= toks.take(t as int));
                assert(toks.take(t + 1).last() == tok);
            }
            let norm = CmuDict::normalize(token.as_str());
            if norm.as_str().is_empty() {
                proof {
                    assert(normalized(tok).len() == 0);
                    assert(kept_words(toks.take(t + 1)) == prev);
                }
                t += 1;
                continue;
            }
            let lookup = self.dict.lookup(token.as_str());
            let entry = match lookup {
                Some(variants) => {
                    proof {
                        assert(d.contains_key(norm@));
                        assert(d[norm@].len() > 0);
                        assert(variants.deep_view().len() == variants@.len());
                        assert(variants.deep_view()[0] == variants@[0]@);
                    }
                    let phonemes = &variants[0];
                    let stresses = phoneme::extract_stresses(phonemes.as_slice());
                    let display = SyllableSplitter::stress_display(token.as_str(), stresses.as_slice());
                    let ghost before = full@;
                    let mut k: usize = 0;
                    while k < stresses.len()
                        invariant
                            k <= stresses@.len(),
                            full@ == before + stresses@.take(k as int),
                        decreases stresses@.len() - k,
                    {
                        full.push(stresses[k]);
                        k += 1;
                        proof {
                            assert(stresses@.take(k as int) =~= stresses@.take(k - 1).push(stresses@[k - 1]));
                        }
                    }
                    proof {
                        assert(stresses@.take(stresses@.len() as int) =~= stresses@);
                    }
                    WordStress {
                        word: token.clone(),
                        normalized: norm,
                        phonemes: phoneme::decode_to_strings(phonemes.as_slice()),
                        stresses,
                        in_dictionary: true,
                        display,
                    }
                },
                None => {
                    let estimated = estimate_stresses(norm.as_str());
                    let display = SyllableSplitter::stress_display(token.as_str(), estimated.as_slice());
                    let ghost before = full@;
                    let mut k: usize = 0;
                    while k < estimated.len()
                        invariant
                            k <= estimated@.len(),
                            full@ == before + estimated@.take(k as int),
                        decreases estimated@.len() - k,
                    {
                        full.push(estimated[k]);
                        k += 1;
                        proof {
                            assert(estimated@.take(k as int) =~= estimated@.take(k - 1).push(estimated@[k - 1]));
                        }
                    }
                    proof {
                        assert(estimated@.take(estimated@.len() as int) =~= estimated@);
                    }
                    WordStress {
                        word: token.clone(),
                        normalized: norm,
                        phonemes: Vec::new(),
                        stresses: estimated,
                        in_dictionary: false,
                        display,
                    }
                },
            };
            words.push(entry);
            proof {
                let kw = kept_words(toks.take(t + 1));
                assert(kw == prev.push(tok));
                assert(kw.drop_last() =~= prev);
                assert(line_pattern(d, kw) == line_pattern(d, prev) + word_stresses(d, tok));
                assert forall|i: int| 0 <= i < words@.len() implies (#[trigger] words@[i]).word@ == kw[i] by {}
            }
            t += 1;
        }
        proof {
            assert(toks.take(toks.len() as int) =~= toks);
        }
        let ghost ws = kept_words(toks);
        let mut binary: Vec<i32> = Vec::new();
        let mut k: usize = 0;
        while k < full.len()
            invariant
                k <= full@.len(),
                binary@ == binary_of(full@.take(k as int)),
            decreases full@.len() - k,
        {
            binary.push(if full[k] > 0 { 1 } else { 0 });
            k += 1;
            proof {
                assert(binary_of(full@.take(k as int)) =~= binary_of(full@.take(k - 1)).push(
                    if full@[k - 1] > 0 { 1i32 } else { 0i32 },
                ));
            }
        }
        proof {
            assert(full@.take(full@.len() as int) =~= full@);
        }
        let syllable_count = full.len();
        let stressed_display = SyllableSplitter::format_line(words.as_slice());
        proof {
            assert(Seq::new(words@.len(), |i: int| stress_shown(words@[i].word@, words@[i].stresses@)) =~= Seq::new(
                ws.len(),
                |i: int| stress_shown(ws[i], word_stresses(d, ws[i])),
            ));
        }
        LineStress { words, stress_pattern: full, binary_pattern: binary, syllable_count, stressed_display }
    }
}

} // verus!
