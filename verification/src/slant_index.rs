//! Slant rhymes: words with the same coda and a nearby vowel (love/move),
//! or whose coda ends the same way. Confidences are kept in hundredths.

use vstd::prelude::*;

use std::sync::Arc;

use crate::byte_map::{copy_slice, ByteMap};
use crate::coda_groups::{bucket, extract_nucleus_coda, lemma_nucleus_base, nucleus_coda, CodaGroups, NUCLEI};
use crate::dict::{g_drop, heard, looked_up, normalized, pronounceable, CmuDict};
use crate::lexicon::{copy_word, lemma_lex_total, lemma_lex_transitive, lex_lt, word_order};
use crate::phoneme::{self, decode_name, names, vowel_count};
use crate::text::{chars_of, string_from, views};

verus! {

broadcast use {crate::text::lemma_deep_bytes, crate::text::lemma_deep_chars};

/// Perceptual distance between the fifteen vowels, indexed AA AE AH AO AW AY
/// EH ER EY IH IY OW OY UH UW.
pub const VOWEL_DISTANCE: [[u8; 15]; 15] = [
    /* AA */ [0, 40, 20, 10, 45, 35, 45, 30, 50, 55, 60, 35, 50, 40, 50],
    /* AE */ [40, 0, 25, 45, 50, 30, 15, 35, 30, 25, 35, 55, 50, 55, 60],
    /* AH */ [20, 25, 0, 25, 40, 35, 25, 20, 35, 30, 40, 35, 45, 30, 40],
    /* AO */ [10, 45, 25, 0, 40, 40, 50, 30, 55, 55, 60, 20, 35, 25, 35],
    /* AW */ [45, 50, 40, 40, 0, 30, 50, 45, 50, 55, 60, 35, 40, 35, 40],
    /* AY */ [35, 30, 35, 40, 30, 0, 35, 40, 30, 30, 35, 50, 40, 50, 55],
    /* EH */ [45, 15, 25, 50, 50, 35, 0, 30, 15, 20, 30, 50, 50, 50, 55],
    /* ER */ [30, 35, 20, 30, 45, 40, 30, 0, 35, 30, 35, 35, 40, 30, 35],
    /* EY */ [50, 30, 35, 55, 50, 30, 15, 35, 0, 20, 15, 50, 45, 55, 55],
    /* IH */ [55, 25, 30, 55, 55, 30, 20, 30, 20, 0, 10, 55, 50, 50, 55],
    /* IY */ [60, 35, 40, 60, 60, 35, 30, 35, 15, 10, 0, 55, 50, 55, 55],
    /* OW */ [35, 55, 35, 20, 35, 50, 50, 35, 50, 55, 55, 0, 30, 20, 15],
    /* OY */ [50, 50, 45, 35, 40, 40, 50, 40, 45, 50, 50, 30, 0, 35, 40],
    /* UH */ [40, 55, 30, 25, 35, 50, 50, 30, 55, 50, 55, 20, 35, 0, 10],
    /* UW */ [50, 60, 40, 35, 40, 55, 55, 35, 55, 55, 55, 15, 40, 10, 0]
];

/// Vowel distances above this are too far apart for a slant rhyme.
pub const SLANT_THRESHOLD: u8 = 50;

/// Shortest coda suffix that two codas may share.
pub const MIN_SUFFIX_LEN: usize = 2;

/// Confidence lost, in hundredths, per phoneme by which two codas differ in length.
pub const SUFFIX_PENALTY_PER_EXTRA: u8 = 6;

/// The lowest confidence, in hundredths, of a suffix match.
pub const MIN_SUFFIX_CONFIDENCE: u8 = 15;

/// The distance between two base vowels by the table, 100 when either is not a base vowel.
pub open spec fn vowel_gap(a: u8, b: u8) -> u8 {
    if 25 <= a <= 39 && 25 <= b <= 39 {
        VOWEL_DISTANCE@[a - 25]@[b - 25]
    } else {
        100
    }
}

/// Distance between two base vowels.
pub fn vowel_distance(a: u8, b: u8) -> (r: u8)
    ensures
        r == vowel_gap(a, b),
{
    if a >= 25 && a <= 39 && b >= 25 && b <= 39 {
        let row = VOWEL_DISTANCE[(a - 25) as usize];
        row[(b - 25) as usize]
    } else {
        100
    }
}


/// Vowel distance is symmetric, and zero from a base vowel to itself.
pub proof fn lemma_vowel_gap_symmetric(a: u8, b: u8)
    ensures
        vowel_gap(a, b) == vowel_gap(b, a),
        25 <= a <= 39 ==> vowel_gap(a, a) == 0,
{
}

// ── The suffix index ────────────────────────────────────────────────────

/// Whether `sfx` ends coda `c`, is shorter than it, and has at least
/// `MIN_SUFFIX_LEN` phonemes.
pub open spec fn proper_suffix(sfx: Seq<u8>, c: Seq<u8>) -> bool {
    &&& MIN_SUFFIX_LEN <= sfx.len() < c.len()
    &&& c.skip(c.len() - sfx.len()) == sfx
}

/// The codas of `cs` that `sfx` properly ends, in order.
pub open spec fn ending_with(cs: Seq<Seq<u8>>, sfx: Seq<u8>) -> Seq<Seq<u8>>
    decreases cs.len(),
{
    if cs.len() == 0 {
        Seq::empty()
    } else if proper_suffix(sfx, cs.last()) {
        ending_with(cs.drop_last(), sfx).push(cs.last())
    } else {
        ending_with(cs.drop_last(), sfx)
    }
}

/// The list a map from byte strings to lists of byte strings keeps for `k`,
/// empty when it has none.
pub open spec fn list_of(m: Map<Seq<u8>, Vec<Vec<u8>>>, k: Seq<u8>) -> Seq<Seq<u8>> {
    if m.contains_key(k) {
        m[k].deep_view()
    } else {
        Seq::empty()
    }
}

/// A suffix index over the codas `cs`: each suffix that properly ends some
/// coda, with the codas it ends in order, and no other key.
pub open spec fn indexes_suffixes(m: Map<Seq<u8>, Vec<Vec<u8>>>, cs: Seq<Seq<u8>>) -> bool {
    forall|sfx: Seq<u8>|
        (#[trigger] m.contains_key(sfx) <==> ending_with(cs, sfx).len() > 0) && list_of(m, sfx)
            == ending_with(cs, sfx)
}

/// Build the index from each coda suffix to the codas it properly ends.
fn suffix_index(g: &CodaGroups) -> (m: ByteMap<Vec<Vec<u8>>>)
    ensures
        m.wf(),
        indexes_suffixes(m@, g.codas()),
{
    let total = g.coda_count();
    let ghost cs = g.codas();
    let mut m: ByteMap<Vec<Vec<u8>>> = ByteMap::new();
    let mut i: usize = 0;
    while i < total
        invariant
            i <= total,
            total == cs.len(),
            cs == g.codas(),
            m.wf(),
            indexes_suffixes(m@, cs.take(i as int)),
        decreases total - i,
    {
        let c = g.coda_at(i);
        let ghost prev = cs.take(i as int);
        let ghost next = cs.take(i + 1);
        proof {
            assert(next.drop_last() =~= prev);
            assert(next.last() == c@);
        }
        let len = c.len();
        let mut start: usize = 1;
        while start < len && start + 1 < len
            invariant
                1 <= start <= len || len < 2,
                start < usize::MAX,
                len == c@.len(),
                m.wf(),
                forall|sfx: Seq<u8>|
                    (#[trigger] m@.contains_key(sfx) <==> list_of(m@, sfx).len() > 0) && list_of(m@, sfx)
                        == ending_with(prev, sfx) + (if proper_suffix(sfx, c@) && sfx.len() > len - start {
                        seq![c@]
                    } else {
                        Seq::<Seq<u8>>::empty()
                    }),
            decreases len - start,
        {
            let sfx = copy_slice(c.as_slice(), start, len);
            let ghost sv = sfx@;
            let ghost before = m@;
            let k = m.entry(sfx.as_slice(), Vec::new());
            let ghost mid = m@;
            proof {
                m.lemma_wf();
            }
            let item = copy_slice(c.as_slice(), 0, len);
            proof {
                assert(c@.subrange(0, len as int) =~= c@);
                assert(c@.skip(c@.len() - sv.len()) =~= sv);
            }
            m.push_at(k, item);
            proof {
                m.lemma_wf();
                assert forall|x: Seq<u8>|
                    (#[trigger] m@.contains_key(x) <==> list_of(m@, x).len() > 0) && list_of(m@, x)
                        == ending_with(prev, x) + (if proper_suffix(x, c@) && x.len() > len - (start + 1) {
                        seq![c@]
                    } else {
                        Seq::<Seq<u8>>::empty()
                    }) by {
                    if x == sv {
                        assert(list_of(m@, x) =~= list_of(before, x).push(c@));
                    } else {
                        if before.contains_key(x) {
                            assert(m@[x] == mid[x]);
                        }
                        if proper_suffix(x, c@) && x.len() == len - start {
                            assert(x =~= sv);
                        }
                    }
                }
            }
            start += 1;
        }
        proof {
            assert forall|sfx: Seq<u8>|
                (#[trigger] m@.contains_key(sfx) <==> ending_with(next, sfx).len() > 0) && list_of(m@, sfx)
                    == ending_with(next, sfx) by {
                if proper_suffix(sfx, c@) {
                    assert(sfx.len() > len - start);
                    assert(ending_with(next, sfx) =~= ending_with(prev, sfx) + seq![c@]);
                } else {
                    assert(ending_with(prev, sfx) + Seq::<Seq<u8>>::empty() =~= ending_with(prev, sfx));
                }
            }
        }
        i += 1;
    }
    proof {
        assert(cs.take(total as int) =~= cs);
    }
    m
}


// ── Scoring ─────────────────────────────────────────────────────────────

/// Confidence, in hundredths, of a slant rhyme at vowel distance `d` whose
/// coda differs by `extra` phonemes: one hundred less the distance, less
/// `SUFFIX_PENALTY_PER_EXTRA` per extra phoneme, and never under
/// `MIN_SUFFIX_CONFIDENCE`.
pub open spec fn slant_confidence(d: int, extra: int) -> int {
    let c = 100 - d - SUFFIX_PENALTY_PER_EXTRA * extra;
    if c >= MIN_SUFFIX_CONFIDENCE {
        c
    } else {
        MIN_SUFFIX_CONFIDENCE as int
    }
}

/// A scored slant candidate: the word, and its confidence and nucleus.
pub open spec fn scored(w: Seq<char>, conf: int, nucleus: u8) -> (Seq<char>, (u8, u8)) {
    (w, (conf as u8, nucleus))
}

/// The candidates of one coda: for each vowel base `o` from AA to the
/// `k`-th, the words that `lists` gives for it, scored by the distance of `o`
/// from the query nucleus `n` (5 when `o` is `n`, which counts only when
/// `same_ok`), those beyond `SLANT_THRESHOLD` left out.
pub open spec fn scored_run(
    lists: spec_fn(u8) -> Seq<Seq<char>>,
    n: u8,
    extra: int,
    same_ok: bool,
    k: nat,
) -> Seq<(Seq<char>, (u8, u8))>
    decreases k,
{
    if k == 0 {
        Seq::empty()
    } else {
        let o = (phoneme::AA + k - 1) as u8;
        let prev = scored_run(lists, n, extra, same_ok, (k - 1) as nat);
        let gap: int = if o == n {
            5
        } else {
            vowel_gap(n, o) as int
        };
        if (o == n && !same_ok) || gap > SLANT_THRESHOLD {
            prev
        } else {
            prev + lists(o).map_values(|w: Seq<char>| scored(w, slant_confidence(gap, extra), o))
        }
    }
}

/// The words of coda `c` under each nucleus, from the coda groups.
pub open spec fn group_words(g: CodaGroups, c: Seq<u8>) -> spec_fn(u8) -> Seq<Seq<char>> {
    |o: u8| g.members(c, o)
}

/// The words of coda `c` under each nucleus, from the words added to an index.
pub open spec fn added_words(added: Map<Seq<u8>, Vec<Vec<Vec<char>>>>, c: Seq<u8>) -> spec_fn(u8) -> Seq<Seq<char>> {
    |o: u8| bucket(added, c, o)
}

/// Whether `w` is already among the scored candidates `s`.
pub open spec fn has_scored(s: Seq<(Seq<char>, (u8, u8))>, w: Seq<char>) -> bool {
    exists|k: int| 0 <= k < s.len() && s[k].0 == w
}

/// `prev` with the candidates of `src` appended in order: each word once,
/// never the query word `skip`, and no more than `lim` in all.
pub open spec fn collect_from(
    prev: Seq<(Seq<char>, (u8, u8))>,
    src: Seq<(Seq<char>, (u8, u8))>,
    skip: Seq<char>,
    lim: nat,
) -> Seq<(Seq<char>, (u8, u8))>
    decreases src.len(),
{
    if src.len() == 0 {
        prev
    } else {
        let before = collect_from(prev, src.drop_last(), skip, lim);
        if src.last().0 == skip || before.len() >= lim || has_scored(before, src.last().0) {
            before
        } else {
            before.push(src.last())
        }
    }
}

/// `prev`, then the candidates of each coda of `longer` that the query coda
/// `c` ends, each penalised by how much longer it is.
pub open spec fn collect_longer(
    prev: Seq<(Seq<char>, (u8, u8))>,
    g: CodaGroups,
    longer: Seq<Seq<u8>>,
    c: Seq<u8>,
    n: u8,
    skip: Seq<char>,
    lim: nat,
) -> Seq<(Seq<char>, (u8, u8))>
    decreases longer.len(),
{
    if longer.len() == 0 {
        prev
    } else {
        let l = longer.last();
        collect_from(
            collect_longer(prev, g, longer.drop_last(), c, n, skip, lim),
            scored_run(group_words(g, l), n, l.len() - c.len(), true, NUCLEI as nat),
            skip,
            lim,
        )
    }
}

/// `prev`, then the candidates of the suffixes of the query coda `c` that
/// drop its first 1 to `k` phonemes, each penalised by how many it drops;
/// only suffixes of at least `MIN_SUFFIX_LEN` phonemes count.
pub open spec fn collect_shorter(
    prev: Seq<(Seq<char>, (u8, u8))>,
    g: CodaGroups,
    c: Seq<u8>,
    n: u8,
    k: nat,
    skip: Seq<char>,
    lim: nat,
) -> Seq<(Seq<char>, (u8, u8))>
    decreases k,
{
    if k == 0 {
        prev
    } else {
        let before = collect_shorter(prev, g, c, n, (k - 1) as nat, skip, lim);
        if c.len() - k < MIN_SUFFIX_LEN {
            before
        } else {
            collect_from(
                before,
                scored_run(group_words(g, c.skip(k as int)), n, k as int, true, NUCLEI as nat),
                skip,
                lim,
            )
        }
    }
}

/// The slant candidates of one pronunciation, by its nucleus `n` and coda
/// `c`: those with the same coda and another nucleus; those of the codas
/// that `c` properly ends; those of the suffixes of `c`; and those added to
/// the index with the same coda and another nucleus.
pub open spec fn slant_candidates(
    g: CodaGroups,
    suffixes: Map<Seq<u8>, Vec<Vec<u8>>>,
    added: Map<Seq<u8>, Vec<Vec<Vec<char>>>>,
    n: u8,
    c: Seq<u8>,
    skip: Seq<char>,
    lim: nat,
) -> Seq<(Seq<char>, (u8, u8))> {
    let exact = collect_from(Seq::empty(), scored_run(group_words(g, c), n, 0, false, NUCLEI as nat), skip, lim);
    let longer = if c.len() >= MIN_SUFFIX_LEN {
        list_of(suffixes, c)
    } else {
        Seq::empty()
    };
    let with_longer = collect_longer(exact, g, longer, c, n, skip, lim);
    let shorter_count: nat = if c.len() >= 1 { (c.len() - 1) as nat } else { 0 };
    let with_shorter = collect_shorter(with_longer, g, c, n, shorter_count, skip, lim);
    collect_from(with_shorter, scored_run(added_words(added, c), n, 0, false, NUCLEI as nat), skip, lim)
}

/// Over the pronunciations `vs`, the first with the most candidates (and at
/// least one): its candidates, nucleus and coda.
pub open spec fn slant_pick(
    g: CodaGroups,
    suffixes: Map<Seq<u8>, Vec<Vec<u8>>>,
    added: Map<Seq<u8>, Vec<Vec<Vec<char>>>>,
    vs: Seq<Seq<u8>>,
    skip: Seq<char>,
    lim: nat,
) -> (Seq<(Seq<char>, (u8, u8))>, u8, Seq<u8>)
    decreases vs.len(),
{
    if vs.len() == 0 {
        (Seq::empty(), 0, Seq::empty())
    } else {
        let prev = slant_pick(g, suffixes, added, vs.drop_last(), skip, lim);
        match nucleus_coda(vs.last()) {
            Some((n, c)) => {
                let cands = slant_candidates(g, suffixes, added, n, c, skip, lim);
                if cands.len() > prev.0.len() {
                    (cands, n, c)
                } else {
                    prev
                }
            },
            None => prev,
        }
    }
}

/// Whether candidate `a` ranks before `b`: higher confidence first, then alphabetical.
pub open spec fn slant_before(a: (Seq<char>, (u8, u8)), b: (Seq<char>, (u8, u8))) -> bool {
    a.1.0 > b.1.0 || (a.1.0 == b.1.0 && lex_lt(a.0, b.0))
}

/// `x` inserted into `s` before the first candidate that does not rank before it.
pub open spec fn insert_slant(s: Seq<(Seq<char>, (u8, u8))>, x: (Seq<char>, (u8, u8))) -> Seq<(Seq<char>, (u8, u8))>
    decreases s.len(),
{
    if s.len() == 0 {
        seq![x]
    } else if slant_before(s[0], x) {
        seq![s[0]] + insert_slant(s.drop_first(), x)
    } else {
        seq![x] + s
    }
}

/// The candidates in rank order.
pub open spec fn ranked_slant(s: Seq<(Seq<char>, (u8, u8))>) -> Seq<(Seq<char>, (u8, u8))>
    decreases s.len(),
{
    if s.len() == 0 {
        Seq::empty()
    } else {
        insert_slant(ranked_slant(s.drop_last()), s.last())
    }
}

/// The slant rhymes a lookup of `word` for `limit` matches gives, in order;
/// none when it gives no result.
pub open spec fn slant_matches(
    g: CodaGroups,
    suffixes: Map<Seq<u8>, Vec<Vec<u8>>>,
    added: Map<Seq<u8>, Vec<Vec<Vec<char>>>>,
    d: Map<Seq<char>, Seq<Seq<u8>>>,
    word: Seq<char>,
    limit: usize,
) -> Seq<(Seq<char>, (u8, u8))> {
    let nw = normalized(word);
    let pick = slant_pick(g, suffixes, added, looked_up(d[nw], g_drop(word)), nw, limit as nat);
    let order = ranked_slant(pick.0);
    if !d.contains_key(nw) {
        Seq::empty()
    } else if order.len() <= limit {
        order
    } else {
        order.take(limit as int)
    }
}

/// Every candidate ranks before every later one.
pub open spec fn slant_strictly_ranked(s: Seq<(Seq<char>, (u8, u8))>) -> bool {
    forall|i: int, j: int| 0 <= i < j < s.len() ==> slant_before(#[trigger] s[i], #[trigger] s[j])
}

/// No word occurs twice among the scored candidates.
pub open spec fn distinct_scored(s: Seq<(Seq<char>, (u8, u8))>) -> bool {
    forall|i: int, j: int| 0 <= i < j < s.len() ==> (#[trigger] s[i]).0 != (#[trigger] s[j]).0
}

/// Each word once, never `skip`, at most `lim` of them.
pub open spec fn scored_well(s: Seq<(Seq<char>, (u8, u8))>, skip: Seq<char>, lim: nat) -> bool {
    &&& s.len() <= lim
    &&& distinct_scored(s)
    &&& forall|i: int| 0 <= i < s.len() ==> (#[trigger] s[i]).0 != skip
}

proof fn lemma_collect_from(
    prev: Seq<(Seq<char>, (u8, u8))>,
    src: Seq<(Seq<char>, (u8, u8))>,
    skip: Seq<char>,
    lim: nat,
)
    requires
        scored_well(prev, skip, lim),
    ensures
        scored_well(collect_from(prev, src, skip, lim), skip, lim),
    decreases src.len(),
{
    if src.len() > 0 {
        let before = collect_from(prev, src.drop_last(), skip, lim);
        lemma_collect_from(prev, src.drop_last(), skip, lim);
        let x = src.last();
        if !(x.0 == skip || before.len() >= lim || has_scored(before, x.0)) {
            let r = before.push(x);
            assert forall|i: int, j: int| 0 <= i < j < r.len() implies (#[trigger] r[i]).0 != (#[trigger] r[j]).0 by {
                if j == r.len() - 1 {
                    assert(r[i] == before[i]);
                    if before[i].0 == x.0 {
                        assert(has_scored(before, x.0));
                    }
                } else {
                    assert(r[i] == before[i] && r[j] == before[j]);
                }
            }
            assert forall|i: int| 0 <= i < r.len() implies (#[trigger] r[i]).0 != skip by {
                if i < before.len() {
                    assert(r[i] == before[i]);
                }
            }
        }
    }
}

proof fn lemma_collect_longer(
    prev: Seq<(Seq<char>, (u8, u8))>,
    g: CodaGroups,
    longer: Seq<Seq<u8>>,
    c: Seq<u8>,
    n: u8,
    skip: Seq<char>,
    lim: nat,
)
    requires
        scored_well(prev, skip, lim),
    ensures
        scored_well(collect_longer(prev, g, longer, c, n, skip, lim), skip, lim),
    decreases longer.len(),
{
    if longer.len() > 0 {
        let l = longer.last();
        lemma_collect_longer(prev, g, longer.drop_last(), c, n, skip, lim);
        lemma_collect_from(
            collect_longer(prev, g, longer.drop_last(), c, n, skip, lim),
            scored_run(group_words(g, l), n, l.len() - c.len(), true, NUCLEI as nat),
            skip,
            lim,
        );
    }
}

proof fn lemma_collect_shorter(
    prev: Seq<(Seq<char>, (u8, u8))>,
    g: CodaGroups,
    c: Seq<u8>,
    n: u8,
    k: nat,
    skip: Seq<char>,
    lim: nat,
)
    requires
        scored_well(prev, skip, lim),
    ensures
        scored_well(collect_shorter(prev, g, c, n, k, skip, lim), skip, lim),
    decreases k,
{
    if k > 0 {
        let before = collect_shorter(prev, g, c, n, (k - 1) as nat, skip, lim);
        lemma_collect_shorter(prev, g, c, n, (k - 1) as nat, skip, lim);
        if c.len() - k >= MIN_SUFFIX_LEN {
            lemma_collect_from(
                before,
                scored_run(group_words(g, c.skip(k as int)), n, k as int, true, NUCLEI as nat),
                skip,
                lim,
            );
        }
    }
}

proof fn lemma_slant_candidates(
    g: CodaGroups,
    suffixes: Map<Seq<u8>, Vec<Vec<u8>>>,
    added: Map<Seq<u8>, Vec<Vec<Vec<char>>>>,
    n: u8,
    c: Seq<u8>,
    skip: Seq<char>,
    lim: nat,
)
    ensures
        scored_well(slant_candidates(g, suffixes, added, n, c, skip, lim), skip, lim),
{
    let empty = Seq::<(Seq<char>, (u8, u8))>::empty();
    lemma_collect_from(empty, scored_run(group_words(g, c), n, 0, false, NUCLEI as nat), skip, lim);
    let exact = collect_from(empty, scored_run(group_words(g, c), n, 0, false, NUCLEI as nat), skip, lim);
    let longer = if c.len() >= MIN_SUFFIX_LEN {
        list_of(suffixes, c)
    } else {
        Seq::empty()
    };
    lemma_collect_longer(exact, g, longer, c, n, skip, lim);
    let with_longer = collect_longer(exact, g, longer, c, n, skip, lim);
    let shorter_count: nat = if c.len() >= 1 { (c.len() - 1) as nat } else { 0 };
    lemma_collect_shorter(with_longer, g, c, n, shorter_count, skip, lim);
    let with_shorter = collect_shorter(with_longer, g, c, n, shorter_count, skip, lim);
    lemma_collect_from(with_shorter, scored_run(added_words(added, c), n, 0, false, NUCLEI as nat), skip, lim);
}

proof fn lemma_slant_pick(
    g: CodaGroups,
    suffixes: Map<Seq<u8>, Vec<Vec<u8>>>,
    added: Map<Seq<u8>, Vec<Vec<Vec<char>>>>,
    vs: Seq<Seq<u8>>,
    skip: Seq<char>,
    lim: nat,
)
    ensures
        scored_well(slant_pick(g, suffixes, added, vs, skip, lim).0, skip, lim),
    decreases vs.len(),
{
    if vs.len() > 0 {
        lemma_slant_pick(g, suffixes, added, vs.drop_last(), skip, lim);
        match nucleus_coda(vs.last()) {
            Some((n, c)) => {
                lemma_slant_candidates(g, suffixes, added, n, c, skip, lim);
            },
            None => {},
        }
    }
}

proof fn lemma_slant_before_transitive(a: (Seq<char>, (u8, u8)), b: (Seq<char>, (u8, u8)), c: (Seq<char>, (u8, u8)))
    requires
        slant_before(a, b),
        slant_before(b, c),
    ensures
        slant_before(a, c),
{
    if a.1.0 == b.1.0 && b.1.0 == c.1.0 {
        lemma_lex_transitive(a.0, b.0, c.0);
    }
}

/// Inserting a candidate whose word is new keeps the candidates strictly
/// ranked and distinct, and adds just that candidate.
proof fn lemma_insert_slant_keeps(s: Seq<(Seq<char>, (u8, u8))>, x: (Seq<char>, (u8, u8)))
    requires
        slant_strictly_ranked(s),
        distinct_scored(s),
        !has_scored(s, x.0),
    ensures
        ({
            let r = insert_slant(s, x);
            &&& r.len() == s.len() + 1
            &&& slant_strictly_ranked(r)
            &&& distinct_scored(r)
            &&& forall|k: int| 0 <= k < r.len() ==> (#[trigger] r[k]) == x || s.contains(r[k])
            &&& forall|w: Seq<char>| has_scored(r, w) <==> (has_scored(s, w) || w == x.0)
        }),
    decreases s.len(),
{
    let r = insert_slant(s, x);
    if s.len() == 0 {
        assert(r =~= seq![x]);
        assert forall|w: Seq<char>| has_scored(r, w) <==> (has_scored(s, w) || w == x.0) by {
            if w == x.0 {
                assert(r[0].0 == w);
            }
        }
    } else if slant_before(s[0], x) {
        let t = s.drop_first();
        assert forall|i: int, j: int| 0 <= i < j < t.len() implies slant_before(#[trigger] t[i], #[trigger] t[j]) by {
            assert(t[i] == s[i + 1] && t[j] == s[j + 1]);
        }
        assert forall|i: int, j: int| 0 <= i < j < t.len() implies (#[trigger] t[i]).0 != (#[trigger] t[j]).0 by {
            assert(t[i] == s[i + 1] && t[j] == s[j + 1]);
        }
        if has_scored(t, x.0) {
            let k = choose|k: int| 0 <= k < t.len() && t[k].0 == x.0;
            assert(s[k + 1].0 == x.0);
        }
        lemma_insert_slant_keeps(t, x);
        let rt = insert_slant(t, x);
        assert(r =~= seq![s[0]] + rt);
        assert forall|k: int| 0 <= k < rt.len() implies slant_before(s[0], #[trigger] rt[k]) && s[0].0 != rt[k].0 by {
            if rt[k] != x {
                assert(t.contains(rt[k]));
                let m = choose|m: int| 0 <= m < t.len() && t[m] == rt[k];
                assert(t[m] == s[m + 1]);
            } else {
                if s[0].0 == x.0 {
                    assert(has_scored(s, x.0));
                }
            }
        }
        assert forall|i: int, j: int| 0 <= i < j < r.len() implies slant_before(#[trigger] r[i], #[trigger] r[j]) by {
            if i == 0 {
                assert(r[j] == rt[j - 1]);
            } else {
                assert(r[i] == rt[i - 1] && r[j] == rt[j - 1]);
            }
        }
        assert forall|i: int, j: int| 0 <= i < j < r.len() implies (#[trigger] r[i]).0 != (#[trigger] r[j]).0 by {
            if i == 0 {
                assert(r[j] == rt[j - 1]);
            } else {
                assert(r[i] == rt[i - 1] && r[j] == rt[j - 1]);
            }
        }
        assert forall|k: int| 0 <= k < r.len() implies (#[trigger] r[k]) == x || s.contains(r[k]) by {
            if k == 0 {
                assert(s[0] == r[0]);
            } else {
                assert(r[k] == rt[k - 1]);
                if rt[k - 1] != x {
                    let m = choose|m: int| 0 <= m < t.len() && t[m] == rt[k - 1];
                    assert(s[m + 1] == r[k]);
                }
            }
        }
        assert forall|w: Seq<char>| has_scored(r, w) <==> (has_scored(s, w) || w == x.0) by {
            if has_scored(r, w) {
                let k = choose|k: int| 0 <= k < r.len() && r[k].0 == w;
                if k == 0 {
                    assert(s[0].0 == w);
                } else {
                    assert(rt[k - 1].0 == w);
                    assert(has_scored(rt, w));
                    if has_scored(t, w) {
                        let m = choose|m: int| 0 <= m < t.len() && t[m].0 == w;
                        assert(s[m + 1].0 == w);
                    }
                }
            }
            if has_scored(s, w) {
                let k = choose|k: int| 0 <= k < s.len() && s[k].0 == w;
                if k == 0 {
                    assert(r[0].0 == w);
                } else {
                    assert(t[k - 1].0 == w);
                    assert(has_scored(t, w));
                    assert(has_scored(rt, w));
                    let m = choose|m: int| 0 <= m < rt.len() && rt[m].0 == w;
                    assert(r[m + 1].0 == w);
                }
            }
            if w == x.0 {
                assert(has_scored(rt, w));
                let m = choose|m: int| 0 <= m < rt.len() && rt[m].0 == w;
                assert(r[m + 1].0 == w);
            }
        }
    } else {
        assert(r =~= seq![x] + s);
        if s[0].0 == x.0 {
            assert(has_scored(s, x.0));
        }
        lemma_lex_total(x.0, s[0].0);
        assert forall|k: int| 0 <= k < s.len() implies slant_before(x, #[trigger] s[k]) && x.0 != s[k].0 by {
            if k > 0 {
                lemma_slant_before_transitive(x, s[0], s[k]);
            }
            if x.0 == s[k].0 {
                assert(has_scored(s, x.0));
            }
        }
        assert forall|i: int, j: int| 0 <= i < j < r.len() implies slant_before(#[trigger] r[i], #[trigger] r[j]) by {
            assert(r[j] == s[j - 1]);
            if i > 0 {
                assert(r[i] == s[i - 1]);
            }
        }
        assert forall|i: int, j: int| 0 <= i < j < r.len() implies (#[trigger] r[i]).0 != (#[trigger] r[j]).0 by {
            assert(r[j] == s[j - 1]);
            if i > 0 {
                assert(r[i] == s[i - 1]);
            }
        }
        assert forall|k: int| 0 <= k < r.len() implies (#[trigger] r[k]) == x || s.contains(r[k]) by {
            if k > 0 {
                assert(r[k] == s[k - 1]);
            }
        }
        assert forall|w: Seq<char>| has_scored(r, w) <==> (has_scored(s, w) || w == x.0) by {
            if has_scored(r, w) {
                let k = choose|k: int| 0 <= k < r.len() && r[k].0 == w;
                if k > 0 {
                    assert(s[k - 1].0 == w);
                }
            }
            if has_scored(s, w) {
                let k = choose|k: int| 0 <= k < s.len() && s[k].0 == w;
                assert(r[k + 1].0 == w);
            }
            if w == x.0 {
                assert(r[0].0 == w);
            }
        }
    }
}

/// Ranking candidates with distinct words orders them strictly and keeps
/// just their words.
proof fn lemma_ranked_slant_keeps(s: Seq<(Seq<char>, (u8, u8))>)
    requires
        distinct_scored(s),
    ensures
        ranked_slant(s).len() == s.len(),
        slant_strictly_ranked(ranked_slant(s)),
        distinct_scored(ranked_slant(s)),
        forall|w: Seq<char>| has_scored(ranked_slant(s), w) <==> has_scored(s, w),
    decreases s.len(),
{
    if s.len() > 0 {
        let d = s.drop_last();
        let x = s.last();
        assert forall|i: int, j: int| 0 <= i < j < d.len() implies (#[trigger] d[i]).0 != (#[trigger] d[j]).0 by {
            assert(d[i] == s[i] && d[j] == s[j]);
        }
        lemma_ranked_slant_keeps(d);
        if has_scored(d, x.0) {
            let k = choose|k: int| 0 <= k < d.len() && d[k].0 == x.0;
            assert(s[k].0 == s[s.len() - 1].0);
        }
        lemma_insert_slant_keeps(ranked_slant(d), x);
        assert forall|w: Seq<char>| has_scored(ranked_slant(s), w) <==> has_scored(s, w) by {
            if has_scored(d, w) {
                let k = choose|k: int| 0 <= k < d.len() && d[k].0 == w;
                assert(s[k].0 == w);
            }
            if w == x.0 {
                assert(s[s.len() - 1].0 == w);
            }
            if has_scored(s, w) {
                let k = choose|k: int| 0 <= k < s.len() && s[k].0 == w;
                if k < s.len() - 1 {
                    assert(d[k].0 == w);
                }
            }
        }
    }
}

/// The slant rhymes a lookup gives are at most `limit`, each word at most
/// once and never the query word itself, each ranked strictly before the
/// next: higher confidence first, then alphabetically.
pub proof fn lemma_slant_matches_ranked(
    g: CodaGroups,
    suffixes: Map<Seq<u8>, Vec<Vec<u8>>>,
    added: Map<Seq<u8>, Vec<Vec<Vec<char>>>>,
    d: Map<Seq<char>, Seq<Seq<u8>>>,
    word: Seq<char>,
    limit: usize,
)
    ensures
        ({
            let nw = normalized(word);
            let m = slant_matches(g, suffixes, added, d, word, limit);
            &&& m.len() <= limit
            &&& distinct_scored(m)
            &&& forall|i: int| 0 <= i < m.len() ==> (#[trigger] m[i]).0 != nw
            &&& slant_strictly_ranked(m)
        }),
{
    let nw = normalized(word);
    let vs = looked_up(d[nw], g_drop(word));
    let pick = slant_pick(g, suffixes, added, vs, nw, limit as nat);
    let order = ranked_slant(pick.0);
    let m = slant_matches(g, suffixes, added, d, word, limit);
    lemma_slant_pick(g, suffixes, added, vs, nw, limit as nat);
    let p0 = pick.0;
    assert(scored_well(p0, nw, limit as nat));
    lemma_ranked_slant_keeps(p0);
    assert forall|i: int| 0 <= i < order.len() implies (#[trigger] order[i]).0 != nw by {
        if order[i].0 == nw {
            assert(has_scored(order, nw));
            assert(has_scored(p0, nw));
            let k = choose|k: int| 0 <= k < p0.len() && p0[k].0 == nw;
            assert(p0[k].0 != nw);
        }
    }
    if d.contains_key(nw) && order.len() > limit {
        assert forall|i: int| 0 <= i < m.len() implies (#[trigger] m[i]).0 != nw by {
            assert(m[i] == order[i]);
        }
        assert forall|i: int, j: int| 0 <= i < j < m.len() implies slant_before(#[trigger] m[i], #[trigger] m[j]) by {
            assert(m[i] == order[i] && m[j] == order[j]);
        }
        assert forall|i: int, j: int| 0 <= i < j < m.len() implies (#[trigger] m[i]).0 != (#[trigger] m[j]).0 by {
            assert(m[i] == order[i] && m[j] == order[j]);
        }
    }
}

/// Collecting only appends; and when it stops short of `lim`, every word of
/// `src` other than `skip` is among the result.
proof fn lemma_collect_from_complete(
    prev: Seq<(Seq<char>, (u8, u8))>,
    src: Seq<(Seq<char>, (u8, u8))>,
    skip: Seq<char>,
    lim: nat,
)
    ensures
        ({
            let r = collect_from(prev, src, skip, lim);
            &&& r.len() >= prev.len()
            &&& forall|w: Seq<char>| has_scored(prev, w) ==> has_scored(r, w)
            &&& r.len() < lim ==> forall|w: Seq<char>| has_scored(src, w) && w != skip ==> has_scored(r, w)
        }),
    decreases src.len(),
{
    if src.len() > 0 {
        let t = src.drop_last();
        let x = src.last();
        let before = collect_from(prev, t, skip, lim);
        lemma_collect_from_complete(prev, t, skip, lim);
        let r = collect_from(prev, src, skip, lim);
        assert forall|w: Seq<char>| has_scored(before, w) implies has_scored(r, w) by {
            if r != before {
                let k = choose|k: int| 0 <= k < before.len() && before[k].0 == w;
                assert(r[k] == before[k]);
            }
        }
        if r.len() < lim {
            assert forall|w: Seq<char>| has_scored(src, w) && w != skip implies has_scored(r, w) by {
                let k = choose|k: int| 0 <= k < src.len() && src[k].0 == w;
                if k < t.len() {
                    assert(t[k].0 == w);
                    assert(has_scored(t, w));
                } else if r != before {
                    assert(r[r.len() - 1] == x);
                }
            }
        }
    }
}

proof fn lemma_collect_longer_grows(
    prev: Seq<(Seq<char>, (u8, u8))>,
    g: CodaGroups,
    longer: Seq<Seq<u8>>,
    c: Seq<u8>,
    n: u8,
    skip: Seq<char>,
    lim: nat,
)
    ensures
        collect_longer(prev, g, longer, c, n, skip, lim).len() >= prev.len(),
        forall|w: Seq<char>| has_scored(prev, w) ==> has_scored(collect_longer(prev, g, longer, c, n, skip, lim), w),
    decreases longer.len(),
{
    if longer.len() > 0 {
        let l = longer.last();
        lemma_collect_longer_grows(prev, g, longer.drop_last(), c, n, skip, lim);
        lemma_collect_from_complete(
            collect_longer(prev, g, longer.drop_last(), c, n, skip, lim),
            scored_run(group_words(g, l), n, l.len() - c.len(), true, NUCLEI as nat),
            skip,
            lim,
        );
    }
}

proof fn lemma_collect_shorter_grows(
    prev: Seq<(Seq<char>, (u8, u8))>,
    g: CodaGroups,
    c: Seq<u8>,
    n: u8,
    k: nat,
    skip: Seq<char>,
    lim: nat,
)
    ensures
        collect_shorter(prev, g, c, n, k, skip, lim).len() >= prev.len(),
        forall|w: Seq<char>| has_scored(prev, w) ==> has_scored(collect_shorter(prev, g, c, n, k, skip, lim), w),
    decreases k,
{
    if k > 0 {
        let before = collect_shorter(prev, g, c, n, (k - 1) as nat, skip, lim);
        lemma_collect_shorter_grows(prev, g, c, n, (k - 1) as nat, skip, lim);
        if c.len() - k >= MIN_SUFFIX_LEN {
            lemma_collect_from_complete(
                before,
                scored_run(group_words(g, c.skip(k as int)), n, k as int, true, NUCLEI as nat),
                skip,
                lim,
            );
        }
    }
}

/// A word listed under a base vowel within reach of the query's nucleus is
/// scored in the run.
proof fn lemma_scored_run_has(
    lists: spec_fn(u8) -> Seq<Seq<char>>,
    n: u8,
    extra: int,
    same_ok: bool,
    k: nat,
    o: u8,
    w: Seq<char>,
)
    requires
        k <= NUCLEI,
        phoneme::AA <= o < phoneme::AA + k,
        lists(o).contains(w),
        o != n || same_ok,
        o != n ==> vowel_gap(n, o) <= SLANT_THRESHOLD,
        o == n ==> 5 <= SLANT_THRESHOLD,
    ensures
        has_scored(scored_run(lists, n, extra, same_ok, k), w),
    decreases k,
{
    let top = (phoneme::AA + k - 1) as u8;
    assert(top == phoneme::AA + k - 1);
    let prev = scored_run(lists, n, extra, same_ok, (k - 1) as nat);
    let r = scored_run(lists, n, extra, same_ok, k);
    if o < top {
        lemma_scored_run_has(lists, n, extra, same_ok, (k - 1) as nat, o, w);
        let j = choose|j: int| 0 <= j < prev.len() && prev[j].0 == w;
        assert(r[j] == prev[j]);
    } else {
        let gap: int = if o == n {
            5
        } else {
            vowel_gap(n, o) as int
        };
        let add = lists(o).map_values(|x: Seq<char>| scored(x, slant_confidence(gap, extra), o));
        assert(r == prev + add);
        let lo = lists(o);
        let j = choose|j: int| 0 <= j < lo.len() && lo[j] == w;
        assert(add[j].0 == w);
        assert(r[prev.len() + j] == add[j]);
    }
}

/// The slant candidates of a pronunciation, when fewer than `lim`: every
/// word other than `skip` filed, in the coda groups or among the added words,
/// under the same coda and another base vowel within `SLANT_THRESHOLD`.
proof fn lemma_slant_candidates_complete(
    g: CodaGroups,
    suffixes: Map<Seq<u8>, Vec<Vec<u8>>>,
    added: Map<Seq<u8>, Vec<Vec<Vec<char>>>>,
    n: u8,
    c: Seq<u8>,
    skip: Seq<char>,
    lim: nat,
    o: u8,
    w: Seq<char>,
)
    requires
        slant_candidates(g, suffixes, added, n, c, skip, lim).len() < lim,
        phoneme::AA <= o <= phoneme::UW,
        o != n,
        vowel_gap(n, o) <= SLANT_THRESHOLD,
        w != skip,
        g.members(c, o).contains(w) || bucket(added, c, o).contains(w),
    ensures
        has_scored(slant_candidates(g, suffixes, added, n, c, skip, lim), w),
{
    let empty = Seq::<(Seq<char>, (u8, u8))>::empty();
    let exact_run = scored_run(group_words(g, c), n, 0, false, NUCLEI as nat);
    let exact = collect_from(empty, exact_run, skip, lim);
    let longer = if c.len() >= MIN_SUFFIX_LEN {
        list_of(suffixes, c)
    } else {
        Seq::empty()
    };
    let with_longer = collect_longer(exact, g, longer, c, n, skip, lim);
    let shorter_count: nat = if c.len() >= 1 { (c.len() - 1) as nat } else { 0 };
    let with_shorter = collect_shorter(with_longer, g, c, n, shorter_count, skip, lim);
    let added_run = scored_run(added_words(added, c), n, 0, false, NUCLEI as nat);
    let r = collect_from(with_shorter, added_run, skip, lim);
    lemma_collect_from_complete(empty, exact_run, skip, lim);
    lemma_collect_longer_grows(exact, g, longer, c, n, skip, lim);
    lemma_collect_shorter_grows(with_longer, g, c, n, shorter_count, skip, lim);
    lemma_collect_from_complete(with_shorter, added_run, skip, lim);
    assert(r == slant_candidates(g, suffixes, added, n, c, skip, lim));
    if g.members(c, o).contains(w) {
        assert(group_words(g, c)(o) == g.members(c, o));
        lemma_scored_run_has(group_words(g, c), n, 0, false, NUCLEI as nat, o, w);
        assert(has_scored(exact, w));
    } else {
        assert(added_words(added, c)(o) == bucket(added, c, o));
        lemma_scored_run_has(added_words(added, c), n, 0, false, NUCLEI as nat, o, w);
    }
}

/// A slant lookup that comes back with fewer matches than asked for holds
/// every word, other than the query, filed in the coda groups or among the
/// added words under the coda of the query's (only) pronunciation and
/// another base vowel within `SLANT_THRESHOLD` of its nucleus: love finds
/// move, and a word added with such a pronunciation is found from then on.
pub proof fn lemma_slant_matches_complete(
    g: CodaGroups,
    suffixes: Map<Seq<u8>, Vec<Vec<u8>>>,
    added: Map<Seq<u8>, Vec<Vec<Vec<char>>>>,
    d: Map<Seq<char>, Seq<Seq<u8>>>,
    word: Seq<char>,
    limit: usize,
    o: u8,
    w: Seq<char>,
)
    requires
        d.contains_key(normalized(word)),
        looked_up(d[normalized(word)], g_drop(word)).len() == 1,
        nucleus_coda(heard(d, word)) is Some,
        slant_matches(g, suffixes, added, d, word, limit).len() < limit,
        phoneme::AA <= o <= phoneme::UW,
        o != nucleus_coda(heard(d, word)).unwrap().0,
        vowel_gap(nucleus_coda(heard(d, word)).unwrap().0, o) <= SLANT_THRESHOLD,
        w != normalized(word),
        g.members(nucleus_coda(heard(d, word)).unwrap().1, o).contains(w) || bucket(
            added,
            nucleus_coda(heard(d, word)).unwrap().1,
            o,
        ).contains(w),
    ensures
        has_scored(slant_matches(g, suffixes, added, d, word, limit), w),
{
    let nw = normalized(word);
    let vs = looked_up(d[nw], g_drop(word));
    let (n, c) = nucleus_coda(heard(d, word)).unwrap();
    assert(vs.last() == heard(d, word));
    assert(slant_pick(g, suffixes, added, vs.drop_last(), nw, limit as nat).0.len() == 0);
    let cands = slant_candidates(g, suffixes, added, n, c, nw, limit as nat);
    let pick = slant_pick(g, suffixes, added, vs, nw, limit as nat);
    lemma_slant_pick(g, suffixes, added, vs, nw, limit as nat);
    lemma_ranked_slant_keeps(pick.0);
    let order = ranked_slant(pick.0);
    let m = slant_matches(g, suffixes, added, d, word, limit);
    assert(m == order);
    lemma_slant_candidates(g, suffixes, added, n, c, nw, limit as nat);
    if cands.len() > 0 {
        assert(pick.0 == cands);
        lemma_slant_candidates_complete(g, suffixes, added, n, c, nw, limit as nat, o, w);
    } else {
        lemma_slant_candidates_complete(g, suffixes, added, n, c, nw, limit as nat, o, w);
        let k = choose|k: int| 0 <= k < cands.len() && cands[k].0 == w;
        assert(false);
    }
}

/// A word added with a pronunciation whose coda is that of the query's
/// (only) pronunciation, and whose base vowel differs from the query's but
/// lies within `SLANT_THRESHOLD` of it, is from then on among the query's
/// slant rhymes, whenever the lookup is not cut short by its limit.
pub proof fn lemma_added_word_slant_rhymes(
    g: CodaGroups,
    suffixes: Map<Seq<u8>, Vec<Vec<u8>>>,
    before: Map<Seq<u8>, Vec<Vec<Vec<char>>>>,
    after: Map<Seq<u8>, Vec<Vec<Vec<char>>>>,
    d: Map<Seq<char>, Seq<Seq<u8>>>,
    query: Seq<char>,
    limit: usize,
    added_word: Seq<char>,
    phonemes: Seq<u8>,
)
    requires
        forall|c: Seq<u8>, o: u8|
            #[trigger] bucket(after, c, o) == if nucleus_coda(phonemes) == Some((o, c)) {
                bucket(before, c, o).push(normalized(added_word))
            } else {
                bucket(before, c, o)
            },
        d.contains_key(normalized(query)),
        looked_up(d[normalized(query)], g_drop(query)).len() == 1,
        nucleus_coda(heard(d, query)) is Some,
        nucleus_coda(phonemes) is Some,
        nucleus_coda(phonemes).unwrap().1 == nucleus_coda(heard(d, query)).unwrap().1,
        nucleus_coda(phonemes).unwrap().0 != nucleus_coda(heard(d, query)).unwrap().0,
        vowel_gap(nucleus_coda(heard(d, query)).unwrap().0, nucleus_coda(phonemes).unwrap().0) <= SLANT_THRESHOLD,
        normalized(added_word) != normalized(query),
        slant_matches(g, suffixes, after, d, query, limit).len() < limit,
    ensures
        has_scored(slant_matches(g, suffixes, after, d, query, limit), normalized(added_word)),
{
    let (o, c) = nucleus_coda(phonemes).unwrap();
    lemma_nucleus_base(phonemes);
    let b = bucket(after, c, o);
    assert(b == bucket(before, c, o).push(normalized(added_word)));
    assert(b[b.len() - 1] == normalized(added_word));
    lemma_slant_matches_complete(g, suffixes, after, d, query, limit, o, normalized(added_word));
}

/// The slant rhymes a lookup gives come highest confidence first: an earlier
/// match's confidence is at least a later one's, and when the two are equal
/// the earlier word comes first alphabetically.
pub proof fn lemma_slant_matches_by_confidence(
    g: CodaGroups,
    suffixes: Map<Seq<u8>, Vec<Vec<u8>>>,
    added: Map<Seq<u8>, Vec<Vec<Vec<char>>>>,
    d: Map<Seq<char>, Seq<Seq<u8>>>,
    word: Seq<char>,
    limit: usize,
)
    ensures
        ({
            let m = slant_matches(g, suffixes, added, d, word, limit);
            forall|i: int, j: int|
                0 <= i < j < m.len() ==> {
                    &&& (#[trigger] m[i]).1.0 >= (#[trigger] m[j]).1.0
                    &&& m[i].1.0 == m[j].1.0 ==> lex_lt(m[i].0, m[j].0)
                }
        }),
{
    lemma_slant_matches_ranked(g, suffixes, added, d, word, limit);
}

/// A scored slant candidate.
struct SlantCand {
    word: Vec<char>,
    confidence: u8,
    nucleus: u8,
}

spec fn sc(c: SlantCand) -> (Seq<char>, (u8, u8)) {
    (c.word@, (c.confidence, c.nucleus))
}

spec fn scs(v: Seq<SlantCand>) -> Seq<(Seq<char>, (u8, u8))> {
    v.map_values(|c: SlantCand| sc(c))
}

/// Whether `w` is among the candidates.
fn listed(out: &Vec<SlantCand>, w: &[char]) -> (r: bool)
    ensures
        r == has_scored(scs(out@), w@),
{
    let mut k: usize = 0;
    while k < out.len()
        invariant
            k <= out@.len(),
            forall|j: int| 0 <= j < k ==> (#[trigger] out@[j]).word@ != w@,
        decreases out@.len() - k,
    {
        if word_order(out[k].word.as_slice(), w) == 0 {
            proof {
                assert(scs(out@)[k as int].0 == w@);
            }
            return true;
        }
        k += 1;
    }
    proof {
        if has_scored(scs(out@), w@) {
            let j = choose|j: int| 0 <= j < scs(out@).len() && scs(out@)[j].0 == w@;
            assert(out@[j].word@ == w@);
        }
    }
    false
}

/// Append the candidates among `words`, all scored alike, to `out`.
fn take_words(
    out: &mut Vec<SlantCand>,
    words: &Vec<Vec<char>>,
    conf: u8,
    nucleus: u8,
    skip: &[char],
    lim: usize,
    Ghost(src): Ghost<Seq<(Seq<char>, (u8, u8))>>,
    Ghost(base): Ghost<Seq<(Seq<char>, (u8, u8))>>,
)
    requires
        scs(old(out)@) == collect_from(base, src, skip@, lim as nat),
    ensures
        scs(final(out)@) == collect_from(
            base,
            src + words.deep_view().map_values(|w: Seq<char>| (w, (conf, nucleus))),
            skip@,
            lim as nat,
        ),
{
    let ghost ws = words.deep_view();
    let mut wi: usize = 0;
    while wi < words.len()
        invariant
            wi <= words@.len(),
            ws == words.deep_view(),
            scs(out@) == collect_from(base, src + ws.take(wi as int).map_values(|w: Seq<char>| (w, (conf, nucleus))), skip@, lim as nat),
        decreases words@.len() - wi,
    {
        let ghost s1 = src + ws.take(wi as int).map_values(|w: Seq<char>| (w, (conf, nucleus)));
        let ghost s2 = src + ws.take(wi + 1).map_values(|w: Seq<char>| (w, (conf, nucleus)));
        proof {
            assert(s2.drop_last() =~= s1);
            assert(s2.last() == (ws[wi as int], (conf, nucleus)));
            assert(words@[wi as int]@ == ws[wi as int]);
        }
        let w = &words[wi];
        if out.len() < lim && word_order(w.as_slice(), skip) != 0 && !listed(out, w.as_slice()) {
            let ghost before = out@;
            out.push(SlantCand { word: copy_word(w.as_slice()), confidence: conf, nucleus });
            proof {
                assert(scs(out@) =~= scs(before).push((ws[wi as int], (conf, nucleus))));
            }
        }
        wi += 1;
    }
    proof {
        assert(ws.take(words@.len() as int) =~= ws);
    }
}

/// The confidence, in hundredths, of vowel distance `d` and `extra` phonemes
/// of coda difference.
fn confidence(d: u8, extra: usize) -> (r: u8)
    requires
        d <= SLANT_THRESHOLD,
    ensures
        r == slant_confidence(d as int, extra as int),
{
    if extra >= 15 {
        MIN_SUFFIX_CONFIDENCE
    } else {
        let lost = (d as usize) + (SUFFIX_PENALTY_PER_EXTRA as usize) * extra;
        if lost <= 100 - (MIN_SUFFIX_CONFIDENCE as usize) {
            (100 - lost) as u8
        } else {
            MIN_SUFFIX_CONFIDENCE
        }
    }
}


/// Every coda listed under a suffix ends with it properly.
proof fn lemma_ending_with(cs: Seq<Seq<u8>>, sfx: Seq<u8>)
    ensures
        forall|i: int| 0 <= i < ending_with(cs, sfx).len() ==> proper_suffix(sfx, #[trigger] ending_with(cs, sfx)[i]),
    decreases cs.len(),
{
    if cs.len() > 0 {
        lemma_ending_with(cs.drop_last(), sfx);
        let e = ending_with(cs.drop_last(), sfx);
        assert forall|i: int| 0 <= i < ending_with(cs, sfx).len() implies proper_suffix(
            sfx,
            #[trigger] ending_with(cs, sfx)[i],
        ) by {
            if i < e.len() {
                assert(ending_with(cs, sfx)[i] == e[i]);
            }
        }
    }
}

/// Every candidate's confidence lies between `MIN_SUFFIX_CONFIDENCE` and 90.
pub open spec fn confident(s: Seq<(Seq<char>, (u8, u8))>) -> bool {
    forall|i: int| 0 <= i < s.len() ==> MIN_SUFFIX_CONFIDENCE <= (#[trigger] s[i]).1.0 <= 90
}

/// Sample values of the vowel distances and of slant confidence: AH and UW
/// (love/move) are 40 apart, giving 60 hundredths with the same coda; IH
/// and IY are 10 apart, AA and AO 10, AE and EH 15; each phoneme by which the
/// codas differ costs 6 more, and confidence never drops below 15.
pub proof fn lemma_slant_samples()
    ensures
        vowel_gap(phoneme::AH, phoneme::UW) == 40,
        vowel_gap(phoneme::IH, phoneme::IY) == 10,
        vowel_gap(phoneme::AA, phoneme::AO) == 10,
        vowel_gap(phoneme::AE, phoneme::EH) == 15,
        vowel_gap(phoneme::B, phoneme::AA) == 100,
        slant_confidence(40, 0) == 60,
        slant_confidence(30, 1) == 64,
        slant_confidence(5, 2) == 83,
        slant_confidence(50, 10) == 15,
        forall|d: int, e: int| slant_confidence(d, e) >= 15,
        forall|d: int, e: int| 100 - d - 6 * e >= 15 ==> slant_confidence(d, e) == 100 - d - 6 * e,
{
}

/// Two different vowels are at least 10 apart.
proof fn lemma_vowel_gap_apart(a: u8, b: u8)
    ensures
        a != b ==> vowel_gap(a, b) >= 10,
{
}

proof fn lemma_scored_run_confident(
    lists: spec_fn(u8) -> Seq<Seq<char>>,
    n: u8,
    extra: int,
    same_ok: bool,
    k: nat,
)
    requires
        extra >= 0,
        same_ok ==> extra >= 1,
    ensures
        confident(scored_run(lists, n, extra, same_ok, k)),
    decreases k,
{
    if k > 0 {
        let o = (phoneme::AA + k - 1) as u8;
        let prev = scored_run(lists, n, extra, same_ok, (k - 1) as nat);
        lemma_scored_run_confident(lists, n, extra, same_ok, (k - 1) as nat);
        let gap: int = if o == n {
            5
        } else {
            vowel_gap(n, o) as int
        };
        if !((o == n && !same_ok) || gap > SLANT_THRESHOLD) {
            lemma_vowel_gap_apart(n, o);
            let conf = slant_confidence(gap, extra);
            assert(MIN_SUFFIX_CONFIDENCE <= conf <= 90);
            let add = lists(o).map_values(|w: Seq<char>| scored(w, conf, o));
            let r = prev + add;
            assert forall|i: int| 0 <= i < r.len() implies MIN_SUFFIX_CONFIDENCE <= (#[trigger] r[i]).1.0 <= 90 by {
                if i >= prev.len() {
                    assert(r[i] == add[i - prev.len()]);
                }
            }
        }
    }
}

proof fn lemma_collect_from_confident(
    prev: Seq<(Seq<char>, (u8, u8))>,
    src: Seq<(Seq<char>, (u8, u8))>,
    skip: Seq<char>,
    lim: nat,
)
    requires
        confident(prev),
        confident(src),
    ensures
        confident(collect_from(prev, src, skip, lim)),
    decreases src.len(),
{
    if src.len() > 0 {
        let t = src.drop_last();
        assert forall|i: int| 0 <= i < t.len() implies MIN_SUFFIX_CONFIDENCE <= (#[trigger] t[i]).1.0 <= 90 by {
            assert(t[i] == src[i]);
        }
        lemma_collect_from_confident(prev, t, skip, lim);
        let before = collect_from(prev, t, skip, lim);
        let r = collect_from(prev, src, skip, lim);
        assert forall|i: int| 0 <= i < r.len() implies MIN_SUFFIX_CONFIDENCE <= (#[trigger] r[i]).1.0 <= 90 by {
            if i < before.len() {
                assert(r[i] == before[i]);
            } else {
                assert(r[i] == src[src.len() - 1]);
            }
        }
    }
}

proof fn lemma_collect_longer_confident(
    prev: Seq<(Seq<char>, (u8, u8))>,
    g: CodaGroups,
    longer: Seq<Seq<u8>>,
    c: Seq<u8>,
    n: u8,
    skip: Seq<char>,
    lim: nat,
)
    requires
        confident(prev),
        forall|i: int| 0 <= i < longer.len() ==> (#[trigger] longer[i]).len() > c.len(),
    ensures
        confident(collect_longer(prev, g, longer, c, n, skip, lim)),
    decreases longer.len(),
{
    if longer.len() > 0 {
        let l = longer.last();
        let t = longer.drop_last();
        assert forall|i: int| 0 <= i < t.len() implies (#[trigger] t[i]).len() > c.len() by {
            assert(t[i] == longer[i]);
        }
        lemma_collect_longer_confident(prev, g, t, c, n, skip, lim);
        assert(l.len() > c.len());
        lemma_scored_run_confident(group_words(g, l), n, l.len() - c.len(), true, NUCLEI as nat);
        lemma_collect_from_confident(
            collect_longer(prev, g, t, c, n, skip, lim),
            scored_run(group_words(g, l), n, l.len() - c.len(), true, NUCLEI as nat),
            skip,
            lim,
        );
    }
}

proof fn lemma_collect_shorter_confident(
    prev: Seq<(Seq<char>, (u8, u8))>,
    g: CodaGroups,
    c: Seq<u8>,
    n: u8,
    k: nat,
    skip: Seq<char>,
    lim: nat,
)
    requires
        confident(prev),
    ensures
        confident(collect_shorter(prev, g, c, n, k, skip, lim)),
    decreases k,
{
    if k > 0 {
        let before = collect_shorter(prev, g, c, n, (k - 1) as nat, skip, lim);
        lemma_collect_shorter_confident(prev, g, c, n, (k - 1) as nat, skip, lim);
        if c.len() - k >= MIN_SUFFIX_LEN {
            lemma_scored_run_confident(group_words(g, c.skip(k as int)), n, k as int, true, NUCLEI as nat);
            lemma_collect_from_confident(
                before,
                scored_run(group_words(g, c.skip(k as int)), n, k as int, true, NUCLEI as nat),
                skip,
                lim,
            );
        }
    }
}

proof fn lemma_slant_pick_confident(
    g: CodaGroups,
    suffixes: Map<Seq<u8>, Vec<Vec<u8>>>,
    added: Map<Seq<u8>, Vec<Vec<Vec<char>>>>,
    vs: Seq<Seq<u8>>,
    skip: Seq<char>,
    lim: nat,
)
    requires
        indexes_suffixes(suffixes, g.codas()),
    ensures
        confident(slant_pick(g, suffixes, added, vs, skip, lim).0),
    decreases vs.len(),
{
    if vs.len() > 0 {
        lemma_slant_pick_confident(g, suffixes, added, vs.drop_last(), skip, lim);
        match nucleus_coda(vs.last()) {
            Some((n, c)) => {
                let empty = Seq::<(Seq<char>, (u8, u8))>::empty();
                let exact_run = scored_run(group_words(g, c), n, 0, false, NUCLEI as nat);
                lemma_scored_run_confident(group_words(g, c), n, 0, false, NUCLEI as nat);
                lemma_collect_from_confident(empty, exact_run, skip, lim);
                let exact = collect_from(empty, exact_run, skip, lim);
                let longer = if c.len() >= MIN_SUFFIX_LEN {
                    list_of(suffixes, c)
                } else {
                    Seq::empty()
                };
                lemma_ending_with(g.codas(), c);
                assert forall|i: int| 0 <= i < longer.len() implies (#[trigger] longer[i]).len() > c.len() by {
                    assert(proper_suffix(c, ending_with(g.codas(), c)[i]));
                }
                lemma_collect_longer_confident(exact, g, longer, c, n, skip, lim);
                let with_longer = collect_longer(exact, g, longer, c, n, skip, lim);
                let shorter_count: nat = if c.len() >= 1 { (c.len() - 1) as nat } else { 0 };
                lemma_collect_shorter_confident(with_longer, g, c, n, shorter_count, skip, lim);
                let with_shorter = collect_shorter(with_longer, g, c, n, shorter_count, skip, lim);
                let added_run = scored_run(added_words(added, c), n, 0, false, NUCLEI as nat);
                lemma_scored_run_confident(added_words(added, c), n, 0, false, NUCLEI as nat);
                lemma_collect_from_confident(with_shorter, added_run, skip, lim);
            },
            None => {},
        }
    }
}

proof fn lemma_ranked_slant_confident(s: Seq<(Seq<char>, (u8, u8))>)
    requires
        confident(s),
    ensures
        confident(ranked_slant(s)),
    decreases s.len(),
{
    if s.len() > 0 {
        let d = s.drop_last();
        assert forall|i: int| 0 <= i < d.len() implies MIN_SUFFIX_CONFIDENCE <= (#[trigger] d[i]).1.0 <= 90 by {
            assert(d[i] == s[i]);
        }
        lemma_ranked_slant_confident(d);
        lemma_insert_slant_confident(ranked_slant(d), s.last());
    }
}

proof fn lemma_insert_slant_confident(s: Seq<(Seq<char>, (u8, u8))>, x: (Seq<char>, (u8, u8)))
    requires
        confident(s),
        MIN_SUFFIX_CONFIDENCE <= x.1.0 <= 90,
    ensures
        confident(insert_slant(s, x)),
    decreases s.len(),
{
    let r = insert_slant(s, x);
    if s.len() == 0 {
        assert(r =~= seq![x]);
    } else if slant_before(s[0], x) {
        let t = s.drop_first();
        assert forall|i: int| 0 <= i < t.len() implies MIN_SUFFIX_CONFIDENCE <= (#[trigger] t[i]).1.0 <= 90 by {
            assert(t[i] == s[i + 1]);
        }
        lemma_insert_slant_confident(t, x);
        let rt = insert_slant(t, x);
        assert(r =~= seq![s[0]] + rt);
        assert forall|i: int| 0 <= i < r.len() implies MIN_SUFFIX_CONFIDENCE <= (#[trigger] r[i]).1.0 <= 90 by {
            if i > 0 {
                assert(r[i] == rt[i - 1]);
            }
        }
    } else {
        assert(r =~= seq![x] + s);
        assert forall|i: int| 0 <= i < r.len() implies MIN_SUFFIX_CONFIDENCE <= (#[trigger] r[i]).1.0 <= 90 by {
            if i > 0 {
                assert(r[i] == s[i - 1]);
            }
        }
    }
}

/// With a suffix index that lists, for each coda suffix, the codas it
/// properly ends, every slant rhyme a lookup gives has a confidence between
/// `MIN_SUFFIX_CONFIDENCE` and 90 hundredths.
pub proof fn lemma_slant_confidence_range(
    g: CodaGroups,
    suffixes: Map<Seq<u8>, Vec<Vec<u8>>>,
    added: Map<Seq<u8>, Vec<Vec<Vec<char>>>>,
    d: Map<Seq<char>, Seq<Seq<u8>>>,
    word: Seq<char>,
    limit: usize,
)
    requires
        indexes_suffixes(suffixes, g.codas()),
    ensures
        confident(slant_matches(g, suffixes, added, d, word, limit)),
{
    let nw = normalized(word);
    let vs = looked_up(d[nw], g_drop(word));
    let pick = slant_pick(g, suffixes, added, vs, nw, limit as nat);
    lemma_slant_pick_confident(g, suffixes, added, vs, nw, limit as nat);
    lemma_ranked_slant_confident(pick.0);
    let order = ranked_slant(pick.0);
    let m = slant_matches(g, suffixes, added, d, word, limit);
    if d.contains_key(nw) && order.len() > limit {
        assert forall|i: int| 0 <= i < m.len() implies MIN_SUFFIX_CONFIDENCE <= (#[trigger] m[i]).1.0 <= 90 by {
            assert(m[i] == order[i]);
        }
    }
}

/// Every coda of a map from codas to per-nucleus word lists has one list per vowel base.
pub open spec fn fifteen(m: Map<Seq<u8>, Vec<Vec<Vec<char>>>>) -> bool {
    forall|k: Seq<u8>| #[trigger] m.contains_key(k) ==> m[k]@.len() == NUCLEI
}

/// Slant rhyme index: the coda groups of the dictionary, each coda suffix
/// with the longer codas it ends, and the words added since.
pub struct SlantIndex {
    coda_groups: Arc<CodaGroups>,
    suffix_to_codas: ByteMap<Vec<Vec<u8>>>,
    overlay: ByteMap<Vec<Vec<Vec<char>>>>,
    dict: Arc<CmuDict>,
}

/// A slant-rhyme lookup: the query word, its first pronunciation, the nucleus
/// and coda it was matched by, and the matches.
pub struct SlantRhymeResult {
    pub word: String,
    pub phonemes: Vec<String>,
    pub syllables: usize,
    pub nucleus: String,
    pub coda: Vec<String>,
    pub matches: Vec<SlantRhymeMatch>,
}

/// One slant rhyme: the word, its first pronunciation, its confidence in
/// hundredths, and its nucleus.
pub struct SlantRhymeMatch {
    pub word: String,
    pub phonemes: Vec<String>,
    pub syllables: usize,
    pub confidence_pct: u8,
    pub nucleus: String,
}

/// Whether a match shows candidate `c` of a dictionary `d`.
pub open spec fn shows_slant(m: SlantRhymeMatch, c: (Seq<char>, (u8, u8)), d: Map<Seq<char>, Seq<Seq<u8>>>) -> bool {
    &&& m.word@ == c.0
    &&& views(m.phonemes@) == names(heard(d, c.0))
    &&& m.syllables == vowel_count(heard(d, c.0))
    &&& m.confidence_pct == c.1.0
    &&& m.nucleus@ == decode_name(c.1.1)
}

impl SlantIndex {
    #[verifier::type_invariant]
    spec fn well_formed(&self) -> bool {
        &&& self.suffix_to_codas.wf()
        &&& self.overlay.wf()
        &&& indexes_suffixes(self.suffix_to_codas@, self.coda_groups.codas())
        &&& fifteen(self.overlay@)
        &&& pronounceable(self.dict@)
    }

    pub closed spec fn dictionary(&self) -> Map<Seq<char>, Seq<Seq<u8>>> {
        self.dict@
    }

    pub closed spec fn groups(&self) -> CodaGroups {
        *self.coda_groups
    }

    /// Each coda suffix with the codas it properly ends.
    pub closed spec fn suffixes(&self) -> Map<Seq<u8>, Vec<Vec<u8>>> {
        self.suffix_to_codas@
    }

    /// The words added since, by coda, one list per vowel base.
    pub closed spec fn added(&self) -> Map<Seq<u8>, Vec<Vec<Vec<char>>>> {
        self.overlay@
    }

    /// An index over a dictionary and its coda groups.
    pub fn new(dict: Arc<CmuDict>, coda_groups: Arc<CodaGroups>) -> (r: Self)
        requires
            pronounceable(dict@),
        ensures
            r.dictionary() == dict@,
            r.groups() == *coda_groups,
            indexes_suffixes(r.suffixes(), coda_groups.codas()),
            forall|c: Seq<u8>, o: u8| bucket(r.added(), c, o).len() == 0,
    {
        let suffix_to_codas = suffix_index(&*coda_groups);
        let overlay: ByteMap<Vec<Vec<Vec<char>>>> = ByteMap::new();
        SlantIndex { coda_groups, suffix_to_codas, overlay, dict }
    }

    /// Number of distinct codas.
    pub fn coda_count(&self) -> (r: usize)
        ensures
            r == self.groups().codas().len(),
    {
        self.coda_groups.coda_count()
    }

    /// Append the candidates of coda `coda` from the coda groups to `out`.
    fn run_groups(
        &self,
        coda: &[u8],
        nucleus: u8,
        extra: usize,
        same_ok: bool,
        skip: &[char],
        lim: usize,
        out: &mut Vec<SlantCand>,
        Ghost(base): Ghost<Seq<(Seq<char>, (u8, u8))>>,
    )
        requires
            phoneme::AA <= nucleus <= phoneme::UW,
            scs(old(out)@) == base,
        ensures
            scs(final(out)@) == collect_from(
                base,
                scored_run(group_words(self.groups(), coda@), nucleus, extra as int, same_ok, NUCLEI as nat),
                skip@,
                lim as nat,
            ),
    {
        let g = &*self.coda_groups;
        let ghost f = group_words(self.groups(), coda@);
        let _ = g.coda_count();
        let found = g.find_coda(coda);
        let mut k: usize = 0;
        while k < NUCLEI
            invariant
                k <= NUCLEI,
                phoneme::AA <= nucleus <= phoneme::UW,
                f == group_words(self.groups(), coda@),
                *g == self.groups(),
                found is None <==> !g.codas().contains(coda@),
                found matches Some(i) ==> i < g.codas().len() && g.codas()[i as int] == coda@,
                forall|c: Seq<u8>, n: u8| #[trigger] g.members(c, n).len() > 0 ==> g.codas().contains(c),
                scs(out@) == collect_from(base, scored_run(f, nucleus, extra as int, same_ok, k as nat), skip@, lim as nat),
            decreases NUCLEI - k,
        {
            let o: u8 = phoneme::AA + (k as u8);
            let gap: u8 = if o == nucleus { 5 } else { vowel_distance(nucleus, o) };
            let ghost prev = scored_run(f, nucleus, extra as int, same_ok, k as nat);
            proof {
                assert((phoneme::AA + (k + 1) - 1) as u8 == o);
            }
            if !((o == nucleus && !same_ok) || gap > SLANT_THRESHOLD) {
                let conf = confidence(gap, extra);
                let ghost mapped = f(o).map_values(|w: Seq<char>| scored(w, slant_confidence(gap as int, extra as int), o));
                proof {
                    assert(scored_run(f, nucleus, extra as int, same_ok, (k + 1) as nat) == prev + mapped);
                }
                match found {
                    Some(i) => {
                        let words = g.words_at(i, o);
                        take_words(out, words, conf, o, skip, lim, Ghost(prev), Ghost(base));
                        proof {
                            assert(words.deep_view().map_values(|w: Seq<char>| (w, (conf, o))) =~= mapped);
                        }
                    },
                    None => {
                        proof {
                            assert(f(o).len() == 0);
                            assert(prev + mapped =~= prev);
                        }
                    },
                }
            }
            k += 1;
        }
    }

    /// Append the candidates of coda `coda` from the added words to `out`.
    fn run_added(
        &self,
        coda: &[u8],
        nucleus: u8,
        skip: &[char],
        lim: usize,
        out: &mut Vec<SlantCand>,
        Ghost(base): Ghost<Seq<(Seq<char>, (u8, u8))>>,
    )
        requires
            phoneme::AA <= nucleus <= phoneme::UW,
            scs(old(out)@) == base,
        ensures
            scs(final(out)@) == collect_from(
                base,
                scored_run(added_words(self.added(), coda@), nucleus, 0, false, NUCLEI as nat),
                skip@,
                lim as nat,
            ),
    {
        proof {
            use_type_invariant(self);
        }
        let ghost f = added_words(self.added(), coda@);
        let lists = self.overlay.get(coda);
        let mut k: usize = 0;
        while k < NUCLEI
            invariant
                k <= NUCLEI,
                phoneme::AA <= nucleus <= phoneme::UW,
                f == added_words(self.added(), coda@),
                fifteen(self.added()),
                lists is None <==> !self.added().contains_key(coda@),
                lists matches Some(v) ==> self.added()[coda@] == *v,
                scs(out@) == collect_from(base, scored_run(f, nucleus, 0, false, k as nat), skip@, lim as nat),
            decreases NUCLEI - k,
        {
            let o: u8 = phoneme::AA + (k as u8);
            let gap: u8 = if o == nucleus { 5 } else { vowel_distance(nucleus, o) };
            let ghost prev = scored_run(f, nucleus, 0, false, k as nat);
            proof {
                assert((phoneme::AA + (k + 1) - 1) as u8 == o);
            }
            if !(o == nucleus || gap > SLANT_THRESHOLD) {
                let conf = confidence(gap, 0);
                let ghost mapped = f(o).map_values(|w: Seq<char>| scored(w, slant_confidence(gap as int, 0), o));
                proof {
                    assert(scored_run(f, nucleus, 0, false, (k + 1) as nat) == prev + mapped);
                }
                match lists {
                    Some(v) => {
                        let words = &v[k];
                        take_words(out, words, conf, o, skip, lim, Ghost(prev), Ghost(base));
                        proof {
                            assert(words.deep_view() == f(o));
                            assert(words.deep_view().map_values(|w: Seq<char>| (w, (conf, o))) =~= mapped);
                        }
                    },
                    None => {
                        proof {
                            assert(f(o).len() == 0);
                            assert(prev + mapped =~= prev);
                        }
                    },
                }
            }
            k += 1;
        }
    }

    /// The slant candidates of one pronunciation, by its nucleus and coda.
    fn candidates(&self, nucleus: u8, coda: &Vec<u8>, skip: &[char], lim: usize) -> (r: Vec<SlantCand>)
        requires
            phoneme::AA <= nucleus <= phoneme::UW,
        ensures
            scs(r@) == slant_candidates(self.groups(), self.suffixes(), self.added(), nucleus, coda@, skip@, lim as nat),
    {
        proof {
            use_type_invariant(self);
        }
        let ghost g = self.groups();
        let mut out: Vec<SlantCand> = Vec::new();
        proof {
            assert(scs(out@) =~= Seq::<(Seq<char>, (u8, u8))>::empty());
        }
        self.run_groups(coda.as_slice(), nucleus, 0, false, skip, lim, &mut out, Ghost(Seq::empty()));
        let ghost exact = scs(out@);
        let ghost longer: Seq<Seq<u8>> = if coda@.len() >= MIN_SUFFIX_LEN {
            list_of(self.suffixes(), coda@)
        } else {
            Seq::empty()
        };
        if coda.len() >= MIN_SUFFIX_LEN {
            match self.suffix_to_codas.get(coda.as_slice()) {
                Some(list) => {
                    proof {
                        assert(longer == list.deep_view());
                        assert(list_of(self.suffixes(), coda@) == ending_with(g.codas(), coda@));
                        lemma_ending_with(g.codas(), coda@);
                    }
                    let mut j: usize = 0;
                    while j < list.len()
                        invariant
                            j <= list@.len(),
                            g == self.groups(),
                            longer == list.deep_view(),
                            phoneme::AA <= nucleus <= phoneme::UW,
                            forall|i: int| 0 <= i < longer.len() ==> proper_suffix(coda@, #[trigger] longer[i]),
                            scs(out@) == collect_longer(exact, g, longer.take(j as int), coda@, nucleus, skip@, lim as nat),
                        decreases list@.len() - j,
                    {
                        let l = &list[j];
                        proof {
                            assert(longer[j as int] == l@);
                            assert(proper_suffix(coda@, l@));
                            assert(longer.take(j + 1).drop_last() =~= longer.take(j as int));
                            assert(longer.take(j + 1).last() == l@);
                        }
                        let ghost cur = scs(out@);
                        self.run_groups(l.as_slice(), nucleus, l.len() - coda.len(), true, skip, lim, &mut out, Ghost(cur));
                        j += 1;
                    }
                    proof {
                        assert(longer.take(list@.len() as int) =~= longer);
                    }
                },
                None => {
                    proof {
                        assert(longer =~= Seq::<Seq<u8>>::empty());
                    }
                },
            }
        }
        let ghost with_longer = scs(out@);
        proof {
            assert(with_longer == collect_longer(exact, g, longer, coda@, nucleus, skip@, lim as nat));
        }
        let len = coda.len();
        let mut k: usize = 1;
        while k < len
            invariant
                1 <= k,
                k <= len || len == 0,
                len == 0 ==> k == 1,
                len == coda@.len(),
                g == self.groups(),
                phoneme::AA <= nucleus <= phoneme::UW,
                scs(out@) == collect_shorter(with_longer, g, coda@, nucleus, (k - 1) as nat, skip@, lim as nat),
            decreases len - k,
        {
            if len - k >= MIN_SUFFIX_LEN {
                let sfx = copy_slice(coda.as_slice(), k, len);
                proof {
                    assert(sfx@ =~= coda@.skip(k as int));
                }
                let ghost cur = scs(out@);
                self.run_groups(sfx.as_slice(), nucleus, k, true, skip, lim, &mut out, Ghost(cur));
            }
            k += 1;
        }
        proof {
            let count: nat = if coda@.len() >= 1 { (coda@.len() - 1) as nat } else { 0 };
            if len >= 1 {
                assert(k - 1 == count);
            } else {
                assert(k - 1 == 0);
            }
        }
        let ghost cur = scs(out@);
        self.run_added(coda.as_slice(), nucleus, skip, lim, &mut out, Ghost(cur));
        out
    }

    /// Slant rhymes of a word: for each pronunciation, the words with the same
    /// coda and a nucleus within `SLANT_THRESHOLD`; then those of codas that
    /// end with its coda or that its coda ends with, penalised per phoneme of
    /// difference; then words added since with the same coda; each word once,
    /// never the query word, up to `limit` of them. The pronunciation with the
    /// most wins; its matches come highest confidence first, then
    /// alphabetically. `None` if the word is unknown or has none.
    pub fn lookup(&self, word: &str, limit: usize) -> (r: Option<SlantRhymeResult>)
        ensures
            ({
                let d = self.dictionary();
                let nw = normalized(word@);
                let vs = looked_up(d[nw], g_drop(word@));
                let pick = slant_pick(self.groups(), self.suffixes(), self.added(), vs, nw, limit as nat);
                &&& r is None <==> !d.contains_key(nw) || pick.0.len() == 0
                &&& r matches Some(res) ==> {
                    let order = ranked_slant(pick.0);
                    &&& res.word@ == nw
                    &&& views(res.phonemes@) == names(vs[0])
                    &&& res.syllables == vowel_count(vs[0])
                    &&& res.nucleus@ == decode_name(pick.1)
                    &&& views(res.coda@) == names(pick.2)
                    &&& res.matches@.len() == (if order.len() <= limit {
                        order.len() as int
                    } else {
                        limit as int
                    })
                    &&& forall|i: int| 0 <= i < res.matches@.len() ==> shows_slant(#[trigger] res.matches@[i], order[i], d)
                }
            }),
    {
        proof {
            use_type_invariant(self);
        }
        let normalized = CmuDict::normalize(word);
        let variants = match self.dict.lookup(word) {
            Some(v) => v,
            None => {
                return None;
            },
        };
        let ghost d = self.dictionary();
        let ghost nw = normalized@;
        let ghost vs = variants.deep_view();
        let skip = chars_of(normalized.as_str());
        let mut best: Vec<SlantCand> = Vec::new();
        let mut best_nucleus: u8 = 0;
        let mut best_coda: Vec<u8> = Vec::new();
        let mut i: usize = 0;
        while i < variants.len()
            invariant
                i <= variants@.len(),
                vs == variants.deep_view(),
                skip@ == nw,
                slant_pick(self.groups(), self.suffixes(), self.added(), vs.take(i as int), nw, limit as nat)
                    == (scs(best@), best_nucleus, best_coda@),
            decreases variants@.len() - i,
        {
            proof {
                assert(vs.take(i + 1).drop_last() =~= vs.take(i as int));
                assert(vs.take(i + 1).last() == vs[i as int]);
                assert(vs[i as int] == variants@[i as int]@);
            }
            match extract_nucleus_coda(variants[i].as_slice()) {
                Some((nucleus, coda)) => {
                    proof {
                        crate::coda_groups::lemma_nucleus_base(vs[i as int]);
                    }
                    let found = self.candidates(nucleus, &coda, skip.as_slice(), limit);
                    if found.len() > best.len() {
                        best = found;
                        best_nucleus = nucleus;
                        best_coda = coda;
                    }
                },
                None => {},
            }
            i += 1;
        }
        proof {
            assert(vs.take(variants@.len() as int) =~= vs);
        }
        if best.len() == 0 {
            return None;
        }
        let ordered = rank_slant(&best);
        let ghost order = scs(ordered@);
        let keep = if ordered.len() <= limit { ordered.len() } else { limit };
        let mut matches: Vec<SlantRhymeMatch> = Vec::new();
        let mut k: usize = 0;
        while k < keep
            invariant
                k <= keep <= ordered@.len(),
                order == scs(ordered@),
                d == self.dictionary(),
                pronounceable(d),
                matches@.len() == k,
                forall|j: int| 0 <= j < k ==> shows_slant(#[trigger] matches@[j], order[j], d),
            decreases keep - k,
        {
            let c = &ordered[k];
            let w = string_from(c.word.as_slice());
            let ph = self.dict.first_phonemes(w.as_str());
            matches.push(SlantRhymeMatch {
                word: w,
                phonemes: phoneme::decode_to_strings(ph.as_slice()),
                syllables: phoneme::count_syllables(ph.as_slice()),
                confidence_pct: c.confidence,
                nucleus: phoneme::decode(c.nucleus).to_owned(),
            });
            proof {
                assert(order[k as int] == sc(ordered@[k as int]));
            }
            k += 1;
        }
        proof {
            assert(d[nw].len() > 0);
            assert(vs.len() == variants@.len());
            assert(vs[0] == variants@[0]@);
        }
        Some(SlantRhymeResult {
            word: normalized,
            phonemes: phoneme::decode_to_strings(variants[0].as_slice()),
            syllables: phoneme::count_syllables(variants[0].as_slice()),
            nucleus: phoneme::decode(best_nucleus).to_owned(),
            coda: phoneme::decode_to_strings(best_coda.as_slice()),
            matches,
        })
    }

    /// Add a word under the nucleus and coda of the given pronunciation, so
    /// that it is found as a slant rhyme from now on. A pronunciation without a
    /// stressed vowel adds nothing.
    pub fn add_word(&mut self, word: &str, phonemes: &[u8])
        ensures
            final(self).dictionary() == old(self).dictionary(),
            final(self).groups() == old(self).groups(),
            final(self).suffixes() == old(self).suffixes(),
            forall|c: Seq<u8>, o: u8|
                #[trigger] bucket(final(self).added(), c, o) == if nucleus_coda(phonemes@) == Some((o, c)) {
                    bucket(old(self).added(), c, o).push(normalized(word@))
                } else {
                    bucket(old(self).added(), c, o)
                },
    {
        proof {
            use_type_invariant(&*self);
        }
        let normalized = CmuDict::normalize(word);
        match extract_nucleus_coda(phonemes) {
            Some((nucleus, coda)) => {
                proof {
                    crate::coda_groups::lemma_nucleus_base(phonemes@);
                }
                let mut fresh: Vec<Vec<Vec<char>>> = Vec::new();
                let mut t: usize = 0;
                while t < NUCLEI
                    invariant
                        t <= NUCLEI,
                        fresh@.len() == t,
                        forall|m: int| 0 <= m < t ==> (#[trigger] fresh@[m])@.len() == 0,
                    decreases NUCLEI - t,
                {
                    fresh.push(Vec::new());
                    t += 1;
                }
                let ghost fr = fresh;
                let mut overlay = ByteMap::new();
                std::mem::swap(&mut overlay, &mut self.overlay);
                let ghost before = overlay@;
                let i = overlay.entry(coda.as_slice(), fresh);
                let ghost mid = overlay@;
                proof {
                    overlay.lemma_wf();
                    assert(mid[coda@] == overlay.values()[i as int]);
                    if !before.contains_key(coda@) {
                        assert(mid[coda@] == fr);
                    }
                }
                let nc = chars_of(normalized.as_str());
                let ghost nv = nc;
                let j = (nucleus - phoneme::AA) as usize;
                overlay.push_nested(i, j, nc);
                proof {
                    let key = coda@;
                    assert(fifteen(overlay@)) by {
                        assert forall|k: Seq<u8>| #[trigger] overlay@.contains_key(k) implies overlay@[k]@.len() == NUCLEI by {
                            if k != key {
                                assert(before.contains_key(k));
                                assert(overlay@[k] == mid[k]);
                            }
                        }
                    }
                    assert forall|c: Seq<u8>, o: u8|
                        #[trigger] bucket(overlay@, c, o) == if nucleus_coda(phonemes@) == Some((o, c)) {
                            bucket(before, c, o).push(normalized@)
                        } else {
                            bucket(before, c, o)
                        } by {
                        if c != key {
                            if before.contains_key(c) {
                                assert(overlay@[c] == mid[c]);
                            }
                        } else if phoneme::AA <= o <= phoneme::UW {
                            if o != nucleus {
                                assert(overlay@[c]@[o - phoneme::AA] == mid[c]@[o - phoneme::AA]);
                                if !before.contains_key(c) {
                                    assert(fr@[o - phoneme::AA]@.len() == 0);
                                    assert(bucket(overlay@, c, o) =~= bucket(before, c, o));
                                }
                            } else {
                                assert(overlay@[c]@[j as int]@ == mid[c]@[j as int]@.push(nv));
                                if !before.contains_key(c) {
                                    assert(fr@[j as int]@.len() == 0);
                                }
                                assert(bucket(overlay@, c, o) =~= bucket(before, c, o).push(normalized@));
                            }
                        }
                    }
                }
                self.overlay = overlay;
            },
            None => {
                proof {
                    assert forall|c: Seq<u8>, o: u8| nucleus_coda(phonemes@) != Some((o, c)) by {}
                }
            },
        }
    }
}

/// Put `x` before the first candidate of `out` that does not rank before it.
fn place_slant(out: &mut Vec<SlantCand>, x: SlantCand)
    ensures
        scs(final(out)@) == insert_slant(scs(old(out)@), sc(x)),
{
    let ghost s = scs(out@);
    let mut pos: usize = 0;
    while pos < out.len()
        invariant
            pos <= out@.len(),
            s == scs(out@),
            forall|k: int| 0 <= k < pos ==> slant_before(#[trigger] s[k], sc(x)),
        ensures
            pos <= out@.len(),
            forall|k: int| 0 <= k < pos ==> slant_before(#[trigger] s[k], sc(x)),
            pos < out@.len() ==> !slant_before(s[pos as int], sc(x)),
        decreases out@.len() - pos,
    {
        let before = out[pos].confidence > x.confidence || (out[pos].confidence == x.confidence
            && word_order(out[pos].word.as_slice(), x.word.as_slice()) < 0);
        proof {
            assert(s[pos as int] == sc(out@[pos as int]));
        }
        if !before {
            break;
        }
        pos += 1;
    }
    proof {
        lemma_insert_slant(s, sc(x), pos as int);
    }
    out.insert(pos, x);
    proof {
        assert(scs(out@) =~= s.insert(pos as int, sc(x)));
    }
}

/// Inserting at the first position whose candidate does not rank before `x`
/// is `insert_slant`.
proof fn lemma_insert_slant(s: Seq<(Seq<char>, (u8, u8))>, x: (Seq<char>, (u8, u8)), pos: int)
    requires
        0 <= pos <= s.len(),
        forall|k: int| 0 <= k < pos ==> slant_before(#[trigger] s[k], x),
        pos < s.len() ==> !slant_before(s[pos], x),
    ensures
        s.insert(pos, x) == insert_slant(s, x),
    decreases pos,
{
    if pos == 0 {
        if s.len() == 0 {
            assert(s.insert(0, x) =~= seq![x]);
        } else {
            assert(s.insert(0, x) =~= seq![x] + s);
        }
    } else {
        let t = s.drop_first();
        assert forall|k: int| 0 <= k < pos - 1 implies slant_before(#[trigger] t[k], x) by {
            assert(t[k] == s[k + 1]);
        }
        lemma_insert_slant(t, x, pos - 1);
        assert(slant_before(s[0], x));
        assert(s.insert(pos, x) =~= seq![s[0]] + t.insert(pos - 1, x));
    }
}

/// The candidates in rank order.
fn rank_slant(best: &Vec<SlantCand>) -> (r: Vec<SlantCand>)
    ensures
        scs(r@) == ranked_slant(scs(best@)),
{
    let ghost b = scs(best@);
    let mut out: Vec<SlantCand> = Vec::new();
    let mut i: usize = 0;
    while i < best.len()
        invariant
            i <= best@.len(),
            b == scs(best@),
            scs(out@) == ranked_slant(b.take(i as int)),
        decreases best@.len() - i,
    {
        proof {
            assert(b.take(i + 1).drop_last() =~= b.take(i as int));
            assert(b.take(i + 1).last() == sc(best@[i as int]));
        }
        let c = &best[i];
        place_slant(&mut out, SlantCand { word: copy_word(c.word.as_slice()), confidence: c.confidence, nucleus: c.nucleus });
        i += 1;
    }
    proof {
        assert(b.take(best@.len() as int) =~= b);
    }
    out
}

} // verus!
