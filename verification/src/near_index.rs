//! Near rhymes: words with the same nucleus whose coda is one edit away
//! from the query's coda (night/nice), through a graph of neighbouring codas.

use vstd::prelude::*;

use std::sync::Arc;

use crate::byte_map::{copy_slice, keyed_map, ByteMap};
use crate::coda_groups::{extract_nucleus_coda, nucleus_coda, CodaGroups};
use crate::dict::{g_drop, heard, looked_up, normalized, parse_variants, pronounceable, u16_at, u32_at, CmuDict};
use crate::lexicon::{
    copy_word, lemma_lex_asymmetric, lemma_lex_total, lemma_lex_transitive, lex_lt, sorted_words, word_order,
};
use crate::phoneme::{self, decode_name, names, vowel_count};
use crate::text::{chars_of, string_from, views};

verus! {

broadcast use {crate::text::lemma_deep_bytes, crate::text::lemma_deep_chars};

/// Codas longer than this have no near rhymes.
pub const MAX_CODA_LEN: usize = 3;

// ── The neighbour graph blob ────────────────────────────────────────────

/// Up to `n` neighbour entries read from `pos`: each a u8 coda length, the
/// coda, a u16 neighbour count and the length-prefixed neighbour codas. An
/// entry whose coda or count is cut off ends the list.
pub open spec fn parse_neighbors(b: Seq<u8>, pos: int, n: nat) -> Seq<(Seq<u8>, Seq<Seq<u8>>)>
    decreases n,
{
    if n == 0 || pos >= b.len() {
        Seq::empty()
    } else {
        let cl = b[pos] as int;
        let p = pos + 1;
        if p + cl > b.len() || p + cl + 2 > b.len() {
            Seq::empty()
        } else {
            let lists = parse_variants(b, p + cl + 2, u16_at(b, p + cl) as nat);
            seq![(b.subrange(p, p + cl), lists.0)] + parse_neighbors(b, lists.1, (n - 1) as nat)
        }
    }
}

/// The entries of a neighbour blob: a u32 entry count, then the entries.
pub open spec fn neighbor_entries(b: Seq<u8>) -> Seq<(Seq<u8>, Seq<Seq<u8>>)> {
    if b.len() < 4 {
        Seq::empty()
    } else {
        parse_neighbors(b, 4, u32_at(b, 0) as nat)
    }
}

/// The neighbour lists of a map from codas to lists of codas, each list by its views.
pub open spec fn neighbor_view(m: Map<Seq<u8>, Vec<Vec<u8>>>) -> Map<Seq<u8>, Seq<Seq<u8>>> {
    m.map_values(|v: Vec<Vec<u8>>| v.deep_view())
}

/// Read up to `count` length-prefixed byte lists from `pos`.
fn read_lists(blob: &[u8], pos: usize, count: usize) -> (r: (Vec<Vec<u8>>, usize))
    requires
        pos <= blob@.len(),
    ensures
        r.0.deep_view() == parse_variants(blob@, pos as int, count as nat).0,
        r.1 == parse_variants(blob@, pos as int, count as nat).1,
        r.1 <= blob@.len(),
{
    let ghost whole = parse_variants(blob@, pos as int, count as nat);
    let mut lists: Vec<Vec<u8>> = Vec::new();
    let mut p = pos;
    let mut k: usize = 0;
    while k < count
        invariant_except_break
            lists.deep_view() + parse_variants(blob@, p as int, (count - k) as nat).0 == whole.0,
            parse_variants(blob@, p as int, (count - k) as nat).1 == whole.1,
        invariant
            pos <= p <= blob@.len(),
            k <= count,
            whole == parse_variants(blob@, pos as int, count as nat),
        ensures
            lists.deep_view() == whole.0,
            p == whole.1,
        decreases count - k,
    {
        let ghost rest = parse_variants(blob@, p as int, (count - k) as nat);
        if p >= blob.len() {
            proof {
                assert(lists.deep_view() + rest.0 =~= lists.deep_view());
            }
            break;
        }
        let len = blob[p] as usize;
        p += 1;
        if blob.len() - p < len {
            proof {
                assert(lists.deep_view() + rest.0 =~= lists.deep_view());
            }
            break;
        }
        let item = copy_slice(blob, p, p + len);
        proof {
            let tail = parse_variants(blob@, (p + len) as int, (count - k - 1) as nat);
            assert(rest.0 == seq![item@] + tail.0);
            let before = lists.deep_view();
            assert(before + rest.0 =~= before.push(item@) + tail.0);
        }
        let ghost before = lists.deep_view();
        lists.push(item);
        proof {
            assert(lists.deep_view() =~= before.push(item@));
        }
        p += len;
        k += 1;
    }
    proof {
        if k == count {
            assert(lists.deep_view() + Seq::<Seq<u8>>::empty() =~= lists.deep_view());
        }
    }
    (lists, p)
}

/// Deserialize the neighbour graph: each coda with the codas one edit away.
pub fn load_neighbors_blob(blob: &[u8]) -> (m: ByteMap<Vec<Vec<u8>>>)
    ensures
        m.wf(),
        neighbor_view(m@) == keyed_map(neighbor_entries(blob@)),
{
    let mut m: ByteMap<Vec<Vec<u8>>> = ByteMap::new();
    proof {
        assert(neighbor_view(m@) =~= keyed_map(Seq::<(Seq<u8>, Seq<Seq<u8>>)>::empty()));
    }
    if blob.len() < 4 {
        return m;
    }
    let count: u64 = (blob[0] as u64) + (blob[1] as u64) * 256 + (blob[2] as u64) * 65536
        + (blob[3] as u64) * 16777216;
    let ghost total = neighbor_entries(blob@);
    let ghost mut done: Seq<(Seq<u8>, Seq<Seq<u8>>)> = Seq::empty();
    let mut pos: usize = 4;
    let mut e: u64 = 0;
    while e < count
        invariant
            pos <= blob@.len(),
            e <= count,
            count == u32_at(blob@, 0),
            blob@.len() >= 4,
            total == neighbor_entries(blob@),
            done + parse_neighbors(blob@, pos as int, (count - e) as nat) == total,
            m.wf(),
            neighbor_view(m@) == keyed_map(done),
        ensures
            m.wf(),
            neighbor_view(m@) == keyed_map(total),
        decreases count - e,
    {
        let ghost rest = parse_neighbors(blob@, pos as int, (count - e) as nat);
        if pos >= blob.len() {
            proof {
                assert(rest.len() == 0);
                assert(done =~= total);
            }
            break;
        }
        let clen = blob[pos] as usize;
        let p = pos + 1;
        if blob.len() - p < clen || blob.len() - p - clen < 2 {
            proof {
                assert(rest.len() == 0);
                assert(done =~= total);
            }
            break;
        }
        let coda = copy_slice(blob, p, p + clen);
        let q = p + clen;
        let ncount = (blob[q] as usize) + (blob[q + 1] as usize) * 256;
        let (lists, next) = read_lists(blob, q + 2, ncount);
        proof {
            assert(ncount == u16_at(blob@, q as int));
            assert(rest == seq![(coda@, lists.deep_view())] + parse_neighbors(blob@, next as int, (count - e - 1) as nat));
        }
        let ghost entry = (coda@, lists.deep_view());
        let ghost old_view = neighbor_view(m@);
        m.insert(coda.as_slice(), lists);
        proof {
            let nd = done.push(entry);
            assert(nd.drop_last() =~= done);
            assert(neighbor_view(m@) =~= old_view.insert(entry.0, entry.1));
            assert(nd + parse_neighbors(blob@, next as int, (count - e - 1) as nat) =~= done + rest);
            done = nd;
        }
        pos = next;
        e += 1;
    }
    m
}


// ── Candidates ──────────────────────────────────────────────────────────

/// The words of each coda of `codas` under nucleus `n`, coda by coda, each
/// paired with the coda it stands under.
pub open spec fn tagged(g: CodaGroups, codas: Seq<Seq<u8>>, n: u8) -> Seq<(Seq<char>, Seq<u8>)>
    decreases codas.len(),
{
    if codas.len() == 0 {
        Seq::empty()
    } else {
        tagged(g, codas.drop_last(), n) + g.members(codas.last(), n).map_values(
            |w: Seq<char>| (w, codas.last()),
        )
    }
}

/// The codas of `cs` made of a single consonant, in order.
pub open spec fn single_codas(cs: Seq<Seq<u8>>) -> Seq<Seq<u8>>
    decreases cs.len(),
{
    if cs.len() == 0 {
        Seq::empty()
    } else if cs.last().len() == 1 {
        single_codas(cs.drop_last()).push(cs.last())
    } else {
        single_codas(cs.drop_last())
    }
}

/// The codas searched for near rhymes of coda `c`: its neighbours in the
/// graph; then, for an open syllable, every one-consonant coda, and for a
/// one-consonant coda, the empty one.
pub open spec fn source_codas(g: CodaGroups, nb: Map<Seq<u8>, Seq<Seq<u8>>>, c: Seq<u8>) -> Seq<Seq<u8>> {
    let neighbours = if nb.contains_key(c) {
        nb[c]
    } else {
        Seq::empty()
    };
    neighbours + if c.len() == 0 {
        single_codas(g.codas())
    } else if c.len() == 1 {
        seq![Seq::<u8>::empty()]
    } else {
        Seq::empty()
    }
}

/// Whether `w` is already among the candidates `s`.
pub open spec fn has_word(s: Seq<(Seq<char>, Seq<u8>)>, w: Seq<char>) -> bool {
    exists|k: int| 0 <= k < s.len() && s[k].0 == w
}

/// The candidates gathered from `src` in order: each word once, never the
/// query word `skip`, and no more than `lim` of them.
pub open spec fn collect(src: Seq<(Seq<char>, Seq<u8>)>, skip: Seq<char>, lim: nat) -> Seq<(Seq<char>, Seq<u8>)>
    decreases src.len(),
{
    if src.len() == 0 {
        Seq::empty()
    } else {
        let prev = collect(src.drop_last(), skip, lim);
        if src.last().0 == skip || prev.len() >= lim || has_word(prev, src.last().0) {
            prev
        } else {
            prev.push(src.last())
        }
    }
}

/// The candidates for one pronunciation, by its nucleus and coda.
pub open spec fn near_candidates(
    g: CodaGroups,
    nb: Map<Seq<u8>, Seq<Seq<u8>>>,
    n: u8,
    c: Seq<u8>,
    skip: Seq<char>,
    lim: nat,
) -> Seq<(Seq<char>, Seq<u8>)> {
    collect(tagged(g, source_codas(g, nb, c), n), skip, lim)
}

/// Over the pronunciations `vs`, the first with the most candidates (and at
/// least one): its candidates, nucleus and coda. Codas longer than
/// `MAX_CODA_LEN` take no part.
pub open spec fn near_pick(
    g: CodaGroups,
    nb: Map<Seq<u8>, Seq<Seq<u8>>>,
    vs: Seq<Seq<u8>>,
    skip: Seq<char>,
    lim: nat,
) -> (Seq<(Seq<char>, Seq<u8>)>, u8, Seq<u8>)
    decreases vs.len(),
{
    if vs.len() == 0 {
        (Seq::empty(), 0, Seq::empty())
    } else {
        let prev = near_pick(g, nb, vs.drop_last(), skip, lim);
        match nucleus_coda(vs.last()) {
            Some((n, c)) => {
                let cands = near_candidates(g, nb, n, c, skip, lim);
                if c.len() <= MAX_CODA_LEN && cands.len() > prev.0.len() {
                    (cands, n, c)
                } else {
                    prev
                }
            },
            None => prev,
        }
    }
}

/// How far a coda length is from the query's.
pub open spec fn len_gap(a: int, b: int) -> int {
    if a >= b {
        a - b
    } else {
        b - a
    }
}

/// Whether candidate `a` ranks before `b` for a query coda of length `q`:
/// a closer coda length first, then alphabetical.
pub open spec fn near_before(a: (Seq<char>, Seq<u8>), b: (Seq<char>, Seq<u8>), q: int) -> bool {
    len_gap(a.1.len() as int, q) < len_gap(b.1.len() as int, q) || (len_gap(a.1.len() as int, q)
        == len_gap(b.1.len() as int, q) && lex_lt(a.0, b.0))
}

/// `x` inserted into `s` before the first candidate that does not rank before it.
pub open spec fn insert_ranked(s: Seq<(Seq<char>, Seq<u8>)>, x: (Seq<char>, Seq<u8>), q: int) -> Seq<(Seq<char>, Seq<u8>)>
    decreases s.len(),
{
    if s.len() == 0 {
        seq![x]
    } else if near_before(s[0], x, q) {
        seq![s[0]] + insert_ranked(s.drop_first(), x, q)
    } else {
        seq![x] + s
    }
}

/// The candidates in rank order.
pub open spec fn ranked(s: Seq<(Seq<char>, Seq<u8>)>, q: int) -> Seq<(Seq<char>, Seq<u8>)>
    decreases s.len(),
{
    if s.len() == 0 {
        Seq::empty()
    } else {
        insert_ranked(ranked(s.drop_last(), q), s.last(), q)
    }
}

/// A near-rhyme candidate: a word and the coda it was found under.
struct Candidate {
    word: Vec<char>,
    coda: Vec<u8>,
}

spec fn cand(c: Candidate) -> (Seq<char>, Seq<u8>) {
    (c.word@, c.coda@)
}

spec fn cands(v: Seq<Candidate>) -> Seq<(Seq<char>, Seq<u8>)> {
    v.map_values(|c: Candidate| cand(c))
}

/// Whether `w` is among the candidates.
fn listed(out: &Vec<Candidate>, w: &[char]) -> (r: bool)
    ensures
        r == has_word(cands(out@), w@),
{
    let mut k: usize = 0;
    while k < out.len()
        invariant
            k <= out@.len(),
            forall|j: int| 0 <= j < k ==> (#[trigger] out@[j]).word@ != w@,
        decreases out@.len() - k,
    {
        if word_order(out[k].word.as_slice(), w) == 0 {
            proof {
                assert(cands(out@)[k as int].0 == w@);
            }
            return true;
        }
        k += 1;
    }
    proof {
        if has_word(cands(out@), w@) {
            let j = choose|j: int| 0 <= j < cands(out@).len() && cands(out@)[j].0 == w@;
            assert(out@[j].word@ == w@);
        }
    }
    false
}

/// Put `x` before the first candidate of `out` that does not rank before it.
fn place(out: &mut Vec<Candidate>, x: Candidate, q: usize)
    ensures
        cands(final(out)@) == insert_ranked(cands(old(out)@), cand(x), q as int),
{
    let ghost s = cands(out@);
    let mut pos: usize = 0;
    while pos < out.len()
        invariant
            pos <= out@.len(),
            s == cands(out@),
            forall|k: int| 0 <= k < pos ==> near_before(#[trigger] s[k], cand(x), q as int),
        ensures
            pos <= out@.len(),
            forall|k: int| 0 <= k < pos ==> near_before(#[trigger] s[k], cand(x), q as int),
            pos < out@.len() ==> !near_before(s[pos as int], cand(x), q as int),
        decreases out@.len() - pos,
    {
        let a = out[pos].coda.len();
        let b = x.coda.len();
        let ga = if a >= q { a - q } else { q - a };
        let gb = if b >= q { b - q } else { q - b };
        let before = ga < gb || (ga == gb && word_order(out[pos].word.as_slice(), x.word.as_slice()) < 0);
        proof {
            assert(s[pos as int] == cand(out@[pos as int]));
            assert(ga == len_gap(a as int, q as int));
            assert(gb == len_gap(b as int, q as int));
            assert(before == near_before(s[pos as int], cand(x), q as int));
        }
        if !before {
            break;
        }
        pos += 1;
    }
    proof {
        lemma_insert_ranked(s, cand(x), q as int, pos as int);
    }
    out.insert(pos, x);
    proof {
        assert(cands(out@) =~= s.insert(pos as int, cand(x)));
    }
}

/// Inserting at the first position whose candidate does not rank before `x`
/// is `insert_ranked`.
proof fn lemma_insert_ranked(s: Seq<(Seq<char>, Seq<u8>)>, x: (Seq<char>, Seq<u8>), q: int, pos: int)
    requires
        0 <= pos <= s.len(),
        forall|k: int| 0 <= k < pos ==> near_before(#[trigger] s[k], x, q),
        pos < s.len() ==> !near_before(s[pos], x, q),
    ensures
        s.insert(pos, x) == insert_ranked(s, x, q),
    decreases pos,
{
    if pos == 0 {
        if s.len() == 0 {
            assert(s.insert(0, x) =~= seq![x]);
        } else {
            assert(s.insert(0, x) =~= seq![x] + s);
        }
    } else {
        let t = s.drop_first();
        assert forall|k: int| 0 <= k < pos - 1 implies near_before(#[trigger] t[k], x, q) by {
            assert(t[k] == s[k + 1]);
        }
        lemma_insert_ranked(t, x, q, pos - 1);
        assert(near_before(s[0], x, q));
        assert(s.insert(pos, x) =~= seq![s[0]] + t.insert(pos - 1, x));
    }
}

/// Every candidate ranks before every later one.
pub open spec fn strictly_ranked(s: Seq<(Seq<char>, Seq<u8>)>, q: int) -> bool {
    forall|i: int, j: int| 0 <= i < j < s.len() ==> near_before(#[trigger] s[i], #[trigger] s[j], q)
}

/// No word occurs twice among the candidates.
pub open spec fn distinct_words(s: Seq<(Seq<char>, Seq<u8>)>) -> bool {
    forall|i: int, j: int| 0 <= i < j < s.len() ==> (#[trigger] s[i]).0 != (#[trigger] s[j]).0
}

/// Each word once, never `skip`, at most `lim` of them.
pub open spec fn gathered_well(s: Seq<(Seq<char>, Seq<u8>)>, skip: Seq<char>, lim: nat) -> bool {
    &&& s.len() <= lim
    &&& distinct_words(s)
    &&& forall|i: int| 0 <= i < s.len() ==> (#[trigger] s[i]).0 != skip
}

proof fn lemma_collect(src: Seq<(Seq<char>, Seq<u8>)>, skip: Seq<char>, lim: nat)
    ensures
        gathered_well(collect(src, skip, lim), skip, lim),
    decreases src.len(),
{
    if src.len() > 0 {
        let prev = collect(src.drop_last(), skip, lim);
        lemma_collect(src.drop_last(), skip, lim);
        let x = src.last();
        if !(x.0 == skip || prev.len() >= lim || has_word(prev, x.0)) {
            let r = prev.push(x);
            assert forall|i: int, j: int| 0 <= i < j < r.len() implies (#[trigger] r[i]).0 != (#[trigger] r[j]).0 by {
                if j == r.len() - 1 {
                    assert(r[i] == prev[i]);
                    if prev[i].0 == x.0 {
                        assert(has_word(prev, x.0));
                    }
                } else {
                    assert(r[i] == prev[i] && r[j] == prev[j]);
                }
            }
            assert forall|i: int| 0 <= i < r.len() implies (#[trigger] r[i]).0 != skip by {
                if i < prev.len() {
                    assert(r[i] == prev[i]);
                }
            }
        }
    }
}

proof fn lemma_near_pick(
    g: CodaGroups,
    nb: Map<Seq<u8>, Seq<Seq<u8>>>,
    vs: Seq<Seq<u8>>,
    skip: Seq<char>,
    lim: nat,
)
    ensures
        gathered_well(near_pick(g, nb, vs, skip, lim).0, skip, lim),
    decreases vs.len(),
{
    if vs.len() > 0 {
        lemma_near_pick(g, nb, vs.drop_last(), skip, lim);
        match nucleus_coda(vs.last()) {
            Some((n, c)) => {
                lemma_collect(tagged(g, source_codas(g, nb, c), n), skip, lim);
            },
            None => {},
        }
    }
}

proof fn lemma_near_before_transitive(a: (Seq<char>, Seq<u8>), b: (Seq<char>, Seq<u8>), c: (Seq<char>, Seq<u8>), q: int)
    requires
        near_before(a, b, q),
        near_before(b, c, q),
    ensures
        near_before(a, c, q),
{
    if len_gap(a.1.len() as int, q) == len_gap(b.1.len() as int, q) && len_gap(b.1.len() as int, q) == len_gap(
        c.1.len() as int,
        q,
    ) {
        lemma_lex_transitive(a.0, b.0, c.0);
    }
}

proof fn lemma_near_before_total(a: (Seq<char>, Seq<u8>), b: (Seq<char>, Seq<u8>), q: int)
    requires
        a.0 != b.0,
    ensures
        near_before(a, b, q) || near_before(b, a, q),
{
    lemma_lex_total(a.0, b.0);
}

/// Inserting a candidate whose word is new keeps the candidates strictly
/// ranked and distinct, and adds just that candidate.
proof fn lemma_insert_ranked_keeps(s: Seq<(Seq<char>, Seq<u8>)>, x: (Seq<char>, Seq<u8>), q: int)
    requires
        strictly_ranked(s, q),
        distinct_words(s),
        !has_word(s, x.0),
    ensures
        ({
            let r = insert_ranked(s, x, q);
            &&& r.len() == s.len() + 1
            &&& strictly_ranked(r, q)
            &&& distinct_words(r)
            &&& forall|k: int| 0 <= k < r.len() ==> (#[trigger] r[k]) == x || s.contains(r[k])
            &&& forall|w: Seq<char>| has_word(r, w) <==> (has_word(s, w) || w == x.0)
        }),
    decreases s.len(),
{
    let r = insert_ranked(s, x, q);
    if s.len() == 0 {
        assert(r =~= seq![x]);
        assert forall|w: Seq<char>| has_word(r, w) <==> (has_word(s, w) || w == x.0) by {
            if w == x.0 {
                assert(r[0].0 == w);
            }
        }
    } else if near_before(s[0], x, q) {
        let t = s.drop_first();
        assert forall|i: int, j: int| 0 <= i < j < t.len() implies near_before(#[trigger] t[i], #[trigger] t[j], q) by {
            assert(t[i] == s[i + 1] && t[j] == s[j + 1]);
        }
        assert forall|i: int, j: int| 0 <= i < j < t.len() implies (#[trigger] t[i]).0 != (#[trigger] t[j]).0 by {
            assert(t[i] == s[i + 1] && t[j] == s[j + 1]);
        }
        if has_word(t, x.0) {
            let k = choose|k: int| 0 <= k < t.len() && t[k].0 == x.0;
            assert(s[k + 1].0 == x.0);
        }
        lemma_insert_ranked_keeps(t, x, q);
        let rt = insert_ranked(t, x, q);
        assert(r =~= seq![s[0]] + rt);
        assert forall|k: int| 0 <= k < rt.len() implies near_before(s[0], #[trigger] rt[k], q) && s[0].0 != rt[k].0 by {
            if rt[k] != x {
                assert(t.contains(rt[k]));
                let m = choose|m: int| 0 <= m < t.len() && t[m] == rt[k];
                assert(t[m] == s[m + 1]);
            } else {
                assert(has_word(s, s[0].0) ==> true);
                if s[0].0 == x.0 {
                    assert(has_word(s, x.0));
                }
            }
        }
        assert forall|i: int, j: int| 0 <= i < j < r.len() implies near_before(#[trigger] r[i], #[trigger] r[j], q) by {
            if i == 0 {
                assert(r[j] == rt[j - 1]);
            } else {
                assert(r[i] == rt[i - 1] && r[j] == rt[j - 1]);
            }
        }
        assert forall|i: int, j: int| 0 <= i < j < r.len() implies (#[trigger] r[i]).0 != (#[trigger] r[j]).0 by {
            if i == 0 {
                assert(r[j] == rt[j - 1]);
            } else {
                assert(r[i] == rt[i - 1] && r[j] == rt[j - 1]);
            }
        }
        assert forall|k: int| 0 <= k < r.len() implies (#[trigger] r[k]) == x || s.contains(r[k]) by {
            if k == 0 {
                assert(s[0] == r[0]);
            } else {
                assert(r[k] == rt[k - 1]);
                if rt[k - 1] != x {
                    let m = choose|m: int| 0 <= m < t.len() && t[m] == rt[k - 1];
                    assert(s[m + 1] == r[k]);
                }
            }
        }
        assert forall|w: Seq<char>| has_word(r, w) <==> (has_word(s, w) || w == x.0) by {
            if has_word(r, w) {
                let k = choose|k: int| 0 <= k < r.len() && r[k].0 == w;
                if k == 0 {
                    assert(s[0].0 == w);
                } else {
                    assert(rt[k - 1].0 == w);
                    assert(has_word(rt, w));
                    if has_word(t, w) {
                        let m = choose|m: int| 0 <= m < t.len() && t[m].0 == w;
                        assert(s[m + 1].0 == w);
                    }
                }
            }
            if has_word(s, w) {
                let k = choose|k: int| 0 <= k < s.len() && s[k].0 == w;
                if k == 0 {
                    assert(r[0].0 == w);
                } else {
                    assert(t[k - 1].0 == w);
                    assert(has_word(t, w));
                    assert(has_word(rt, w));
                    let m = choose|m: int| 0 <= m < rt.len() && rt[m].0 == w;
                    assert(r[m + 1].0 == w);
                }
            }
            if w == x.0 {
                assert(has_word(rt, w));
                let m = choose|m: int| 0 <= m < rt.len() && rt[m].0 == w;
                assert(r[m + 1].0 == w);
            }
        }
    } else {
        assert(r =~= seq![x] + s);
        if s[0].0 == x.0 {
            assert(has_word(s, x.0));
        }
        lemma_near_before_total(x, s[0], q);
        assert forall|k: int| 0 <= k < s.len() implies near_before(x, #[trigger] s[k], q) && x.0 != s[k].0 by {
            if k > 0 {
                lemma_near_before_transitive(x, s[0], s[k], q);
            }
            if x.0 == s[k].0 {
                assert(has_word(s, x.0));
            }
        }
        assert forall|i: int, j: int| 0 <= i < j < r.len() implies near_before(#[trigger] r[i], #[trigger] r[j], q) by {
            assert(r[j] == s[j - 1]);
            if i > 0 {
                assert(r[i] == s[i - 1]);
            }
        }
        assert forall|i: int, j: int| 0 <= i < j < r.len() implies (#[trigger] r[i]).0 != (#[trigger] r[j]).0 by {
            assert(r[j] == s[j - 1]);
            if i > 0 {
                assert(r[i] == s[i - 1]);
            }
        }
        assert forall|k: int| 0 <= k < r.len() implies (#[trigger] r[k]) == x || s.contains(r[k]) by {
            if k > 0 {
                assert(r[k] == s[k - 1]);
            }
        }
        assert forall|w: Seq<char>| has_word(r, w) <==> (has_word(s, w) || w == x.0) by {
            if has_word(r, w) {
                let k = choose|k: int| 0 <= k < r.len() && r[k].0 == w;
                if k > 0 {
                    assert(s[k - 1].0 == w);
                }
            }
            if has_word(s, w) {
                let k = choose|k: int| 0 <= k < s.len() && s[k].0 == w;
                assert(r[k + 1].0 == w);
            }
            if w == x.0 {
                assert(r[0].0 == w);
            }
        }
    }
}

/// Ranking candidates with distinct words orders them strictly and keeps
/// just their words.
proof fn lemma_ranked_keeps(s: Seq<(Seq<char>, Seq<u8>)>, q: int)
    requires
        distinct_words(s),
    ensures
        ranked(s, q).len() == s.len(),
        strictly_ranked(ranked(s, q), q),
        distinct_words(ranked(s, q)),
        forall|w: Seq<char>| has_word(ranked(s, q), w) <==> has_word(s, w),
    decreases s.len(),
{
    if s.len() > 0 {
        let d = s.drop_last();
        let x = s.last();
        assert forall|i: int, j: int| 0 <= i < j < d.len() implies (#[trigger] d[i]).0 != (#[trigger] d[j]).0 by {
            assert(d[i] == s[i] && d[j] == s[j]);
        }
        lemma_ranked_keeps(d, q);
        if has_word(d, x.0) {
            let k = choose|k: int| 0 <= k < d.len() && d[k].0 == x.0;
            assert(s[k].0 == s[s.len() - 1].0);
        }
        lemma_insert_ranked_keeps(ranked(d, q), x, q);
        assert forall|w: Seq<char>| has_word(ranked(s, q), w) <==> has_word(s, w) by {
            if has_word(d, w) {
                let k = choose|k: int| 0 <= k < d.len() && d[k].0 == w;
                assert(s[k].0 == w);
            }
            if w == x.0 {
                assert(s[s.len() - 1].0 == w);
            }
            if has_word(s, w) {
                let k = choose|k: int| 0 <= k < s.len() && s[k].0 == w;
                if k < s.len() - 1 {
                    assert(d[k].0 == w);
                }
            }
        }
    }
}

/// How many candidates a lookup for `limit` matches gathers before ranking.
pub open spec fn gather_cap(limit: usize) -> nat {
    let scaled = if limit <= usize::MAX / 4 {
        4 * limit
    } else {
        usize::MAX as int
    };
    if scaled >= 200 {
        scaled as nat
    } else {
        200
    }
}

/// The near rhymes a lookup of `word` for `limit` matches gives, in order;
/// none when it gives no result.
pub open spec fn near_matches(
    g: CodaGroups,
    nb: Map<Seq<u8>, Seq<Seq<u8>>>,
    d: Map<Seq<char>, Seq<Seq<u8>>>,
    word: Seq<char>,
    limit: usize,
) -> Seq<(Seq<char>, Seq<u8>)> {
    let nw = normalized(word);
    let pick = near_pick(g, nb, looked_up(d[nw], g_drop(word)), nw, gather_cap(limit));
    let order = ranked(pick.0, pick.2.len() as int);
    if !d.contains_key(nw) {
        Seq::empty()
    } else if order.len() <= limit {
        order
    } else {
        order.take(limit as int)
    }
}

/// The near rhymes a lookup gives are at most `limit`, each word at most
/// once and never the query word itself, each ranked strictly before the
/// next: a coda length closer to the query's first, then alphabetically.
pub proof fn lemma_near_matches_ranked(
    g: CodaGroups,
    nb: Map<Seq<u8>, Seq<Seq<u8>>>,
    d: Map<Seq<char>, Seq<Seq<u8>>>,
    word: Seq<char>,
    limit: usize,
)
    ensures
        ({
            let nw = normalized(word);
            let pick = near_pick(g, nb, looked_up(d[nw], g_drop(word)), nw, gather_cap(limit));
            let m = near_matches(g, nb, d, word, limit);
            &&& m.len() <= limit
            &&& distinct_words(m)
            &&& forall|i: int| 0 <= i < m.len() ==> (#[trigger] m[i]).0 != nw
            &&& strictly_ranked(m, pick.2.len() as int)
        }),
{
    let nw = normalized(word);
    let pick = near_pick(g, nb, looked_up(d[nw], g_drop(word)), nw, gather_cap(limit));
    let q = pick.2.len() as int;
    let order = ranked(pick.0, q);
    let m = near_matches(g, nb, d, word, limit);
    lemma_near_pick(g, nb, looked_up(d[nw], g_drop(word)), nw, gather_cap(limit));
    lemma_ranked_keeps(pick.0, q);
    let p0 = pick.0;
    assert(gathered_well(p0, nw, gather_cap(limit)));
    assert forall|i: int| 0 <= i < order.len() implies (#[trigger] order[i]).0 != nw by {
        if order[i].0 == nw {
            assert(has_word(order, nw));
            assert(has_word(p0, nw));
            let k = choose|k: int| 0 <= k < p0.len() && p0[k].0 == nw;
            assert(p0[k].0 != nw);
        }
    }
    if d.contains_key(nw) && order.len() > limit {
        assert forall|i: int| 0 <= i < m.len() implies (#[trigger] m[i]).0 != nw by {
            assert(m[i] == order[i]);
        }
        assert forall|i: int, j: int| 0 <= i < j < m.len() implies near_before(#[trigger] m[i], #[trigger] m[j], q) by {
            assert(m[i] == order[i] && m[j] == order[j]);
        }
        assert forall|i: int, j: int| 0 <= i < j < m.len() implies (#[trigger] m[i]).0 != (#[trigger] m[j]).0 by {
            assert(m[i] == order[i] && m[j] == order[j]);
        }
    }
}

/// Gathering only appends; and when it stops short of `lim`, every word of
/// `src` other than `skip` is among the result.
proof fn lemma_collect_complete(src: Seq<(Seq<char>, Seq<u8>)>, skip: Seq<char>, lim: nat)
    ensures
        collect(src, skip, lim).len() < lim ==> forall|w: Seq<char>|
            has_word(src, w) && w != skip ==> has_word(collect(src, skip, lim), w),
    decreases src.len(),
{
    if src.len() > 0 {
        let t = src.drop_last();
        let x = src.last();
        let prev = collect(t, skip, lim);
        let r = collect(src, skip, lim);
        lemma_collect_complete(t, skip, lim);
        if r.len() < lim {
            assert forall|w: Seq<char>| has_word(src, w) && w != skip implies has_word(r, w) by {
                let k = choose|k: int| 0 <= k < src.len() && src[k].0 == w;
                if k < t.len() {
                    assert(t[k].0 == w);
                    assert(has_word(t, w));
                    let j = choose|j: int| 0 <= j < prev.len() && prev[j].0 == w;
                    assert(r[j] == prev[j]);
                } else if r != prev {
                    assert(r[r.len() - 1] == x);
                }
            }
        }
    }
}

/// Every word of nucleus `n` under one of `codas` is tagged.
proof fn lemma_tagged_has(g: CodaGroups, codas: Seq<Seq<u8>>, n: u8, c: Seq<u8>, w: Seq<char>)
    requires
        codas.contains(c),
        g.members(c, n).contains(w),
    ensures
        has_word(tagged(g, codas, n), w),
    decreases codas.len(),
{
    let t = codas.drop_last();
    let prev = tagged(g, t, n);
    let add = g.members(codas.last(), n).map_values(|x: Seq<char>| (x, codas.last()));
    let r = tagged(g, codas, n);
    assert(r == prev + add);
    if t.contains(c) {
        lemma_tagged_has(g, t, n, c, w);
        let j = choose|j: int| 0 <= j < prev.len() && prev[j].0 == w;
        assert(r[j] == prev[j]);
    } else {
        let k = choose|k: int| 0 <= k < codas.len() && codas[k] == c;
        if k < t.len() {
            assert(t[k] == c);
        }
        let ms = g.members(c, n);
        let j = choose|j: int| 0 <= j < ms.len() && ms[j] == w;
        assert(add[j].0 == w);
        assert(r[prev.len() + j] == add[j]);
    }
}

/// A near lookup that comes back with fewer matches than asked for holds
/// every word, other than the query, filed under the nucleus of the query's
/// (only) pronunciation and one of the codas searched for its coda (the
/// coda's neighbours; one-consonant codas for an open syllable; the empty
/// coda for a one-consonant one), when that coda has at most `MAX_CODA_LEN`
/// phonemes: night finds nice.
pub proof fn lemma_near_matches_complete(
    g: CodaGroups,
    nb: Map<Seq<u8>, Seq<Seq<u8>>>,
    d: Map<Seq<char>, Seq<Seq<u8>>>,
    word: Seq<char>,
    limit: usize,
    c2: Seq<u8>,
    w: Seq<char>,
)
    requires
        d.contains_key(normalized(word)),
        looked_up(d[normalized(word)], g_drop(word)).len() == 1,
        nucleus_coda(heard(d, word)) is Some,
        nucleus_coda(heard(d, word)).unwrap().1.len() <= MAX_CODA_LEN,
        near_matches(g, nb, d, word, limit).len() < limit,
        source_codas(g, nb, nucleus_coda(heard(d, word)).unwrap().1).contains(c2),
        g.members(c2, nucleus_coda(heard(d, word)).unwrap().0).contains(w),
        w != normalized(word),
    ensures
        has_word(near_matches(g, nb, d, word, limit), w),
{
    let nw = normalized(word);
    let vs = looked_up(d[nw], g_drop(word));
    let (n, c) = nucleus_coda(heard(d, word)).unwrap();
    let lim = gather_cap(limit);
    assert(vs.last() == heard(d, word));
    assert(near_pick(g, nb, vs.drop_last(), nw, lim).0.len() == 0);
    let src = tagged(g, source_codas(g, nb, c), n);
    let cands = near_candidates(g, nb, n, c, nw, lim);
    let pick = near_pick(g, nb, vs, nw, lim);
    lemma_near_pick(g, nb, vs, nw, lim);
    let q = pick.2.len() as int;
    lemma_ranked_keeps(pick.0, q);
    let order = ranked(pick.0, q);
    let m = near_matches(g, nb, d, word, limit);
    assert(m == order);
    assert(limit <= lim);
    lemma_tagged_has(g, source_codas(g, nb, c), n, c2, w);
    lemma_collect_complete(src, nw, lim);
    if cands.len() > 0 {
        assert(pick.0 == cands);
    } else {
        let k = choose|k: int| 0 <= k < cands.len() && cands[k].0 == w;
        assert(false);
    }
}

/// The near rhymes a lookup gives come closest coda length first: for
/// earlier match `i` and later match `j`, the distance between match `i`'s
/// coda length and the query coda's length is no more than match `j`'s, and
/// when the two are equal match `i`'s word comes first alphabetically.
pub proof fn lemma_near_matches_by_coda_length(
    g: CodaGroups,
    nb: Map<Seq<u8>, Seq<Seq<u8>>>,
    d: Map<Seq<char>, Seq<Seq<u8>>>,
    word: Seq<char>,
    limit: usize,
)
    ensures
        ({
            let nw = normalized(word);
            let q = near_pick(g, nb, looked_up(d[nw], g_drop(word)), nw, gather_cap(limit)).2.len() as int;
            let m = near_matches(g, nb, d, word, limit);
            forall|i: int, j: int|
                0 <= i < j < m.len() ==> {
                    let a = (#[trigger] m[i]).1.len() as int;
                    let b = (#[trigger] m[j]).1.len() as int;
                    let da = if a >= q { a - q } else { q - a };
                    let db = if b >= q { b - q } else { q - b };
                    &&& da <= db
                    &&& da == db ==> lex_lt(m[i].0, m[j].0)
                }
        }),
{
    lemma_near_matches_ranked(g, nb, d, word, limit);
}

/// A copy of a candidate.
fn copy_candidate(c: &Candidate) -> (r: Candidate)
    ensures
        cand(r) == cand(*c),
{
    let coda = copy_slice(c.coda.as_slice(), 0, c.coda.len());
    proof {
        assert(c.coda@.subrange(0, c.coda@.len() as int) =~= c.coda@);
    }
    Candidate { word: copy_word(c.word.as_slice()), coda }
}

/// The candidates in rank order for a query coda of length `q`.
fn rank(best: &Vec<Candidate>, q: usize) -> (r: Vec<Candidate>)
    ensures
        cands(r@) == ranked(cands(best@), q as int),
{
    let ghost b = cands(best@);
    let mut out: Vec<Candidate> = Vec::new();
    let mut i: usize = 0;
    while i < best.len()
        invariant
            i <= best@.len(),
            b == cands(best@),
            cands(out@) == ranked(b.take(i as int), q as int),
        decreases best@.len() - i,
    {
        proof {
            assert(b.take(i + 1).drop_last() =~= b.take(i as int));
            assert(b.take(i + 1).last() == cand(best@[i as int]));
        }
        place(&mut out, copy_candidate(&best[i]), q);
        i += 1;
    }
    proof {
        assert(b.take(best@.len() as int) =~= b);
    }
    out
}

/// Near rhyme index: the coda groups of the dictionary and the graph of
/// codas one edit apart.
pub struct NearIndex {
    coda_groups: Arc<CodaGroups>,
    coda_neighbors: ByteMap<Vec<Vec<u8>>>,
    dict: Arc<CmuDict>,
}

/// A near-rhyme lookup: the query word, its first pronunciation, the nucleus
/// and coda it was matched by, how many codas neighbour that coda, and the matches.
pub struct NearRhymeResult {
    pub word: String,
    pub phonemes: Vec<String>,
    pub syllables: usize,
    pub nucleus: String,
    pub coda: Vec<String>,
    pub neighbor_codas: usize,
    pub matches: Vec<NearRhymeMatch>,
}

/// One near rhyme: the word, its first pronunciation, and the coda it matched under.
pub struct NearRhymeMatch {
    pub word: String,
    pub phonemes: Vec<String>,
    pub syllables: usize,
    pub coda: Vec<String>,
    pub coda_len: usize,
}

/// Whether a match shows candidate `c` of a dictionary `d`.
pub open spec fn shows(m: NearRhymeMatch, c: (Seq<char>, Seq<u8>), d: Map<Seq<char>, Seq<Seq<u8>>>) -> bool {
    &&& m.word@ == c.0
    &&& views(m.phonemes@) == names(heard(d, c.0))
    &&& m.syllables == vowel_count(heard(d, c.0))
    &&& views(m.coda@) == names(c.1)
    &&& m.coda_len == c.1.len()
}

impl NearIndex {
    #[verifier::type_invariant]
    spec fn well_formed(&self) -> bool {
        &&& self.coda_neighbors.wf()
        &&& pronounceable(self.dict@)
    }

    pub closed spec fn dictionary(&self) -> Map<Seq<char>, Seq<Seq<u8>>> {
        self.dict@
    }

    pub closed spec fn groups(&self) -> CodaGroups {
        *self.coda_groups
    }

    /// Each coda with the codas one edit away from it.
    pub closed spec fn neighbors(&self) -> Map<Seq<u8>, Seq<Seq<u8>>> {
        neighbor_view(self.coda_neighbors@)
    }

    /// An index over a dictionary, its coda groups and the neighbour graph blob.
    pub fn new(dict: Arc<CmuDict>, coda_groups: Arc<CodaGroups>, neighbors_blob: &[u8]) -> (r: Self)
        requires
            pronounceable(dict@),
        ensures
            r.dictionary() == dict@,
            r.groups() == *coda_groups,
            r.neighbors() == keyed_map(neighbor_entries(neighbors_blob@)),
    {
        let coda_neighbors = load_neighbors_blob(neighbors_blob);
        NearIndex { coda_groups, coda_neighbors, dict }
    }

    /// Number of codas that have a neighbour list.
    pub fn neighbor_count(&self) -> (r: usize)
        ensures
            r == self.neighbors().dom().len(),
    {
        proof {
            use_type_invariant(self);
            self.coda_neighbors.lemma_wf();
            crate::byte_map::lemma_sorted_keys_unique(self.coda_neighbors.keys());
            assert(self.neighbors().dom() =~= self.coda_neighbors.keys().to_set());
            self.coda_neighbors.keys().unique_seq_to_set();
        }
        self.coda_neighbors.len()
    }

    /// The codas searched for near rhymes of `coda`, in order.
    fn source_list(&self, coda: &[u8]) -> (r: Vec<Vec<u8>>)
        ensures
            r.deep_view() == source_codas(self.groups(), self.neighbors(), coda@),
    {
        proof {
            use_type_invariant(self);
        }
        let mut r: Vec<Vec<u8>> = Vec::new();
        match self.coda_neighbors.get(coda) {
            Some(list) => {
                let mut k: usize = 0;
                while k < list.len()
                    invariant
                        k <= list@.len(),
                        r.deep_view() == list.deep_view().take(k as int),
                    decreases list@.len() - k,
                {
                    let item = copy_slice(list[k].as_slice(), 0, list[k].len());
                    proof {
                        assert(list[k as int]@.subrange(0, list[k as int]@.len() as int) =~= list[k as int]@);
                    }
                    let ghost before = r.deep_view();
                    r.push(item);
                    k += 1;
                    proof {
                        assert(r.deep_view() =~= before.push(item@));
                        assert(list.deep_view()[k - 1] == list@[k - 1]@);
                        assert(list.deep_view().take(k as int) =~= list.deep_view().take(k - 1).push(list@[k - 1]@));
                    }
                }
                proof {
                    assert(list.deep_view().take(list@.len() as int) =~= list.deep_view());
                    assert(self.neighbors()[coda@] == list.deep_view());
                }
            },
            None => {
                proof {
                    assert(r.deep_view() =~= Seq::<Seq<u8>>::empty());
                }
            },
        }
        let ghost neighbours = r.deep_view();
        let g = &*self.coda_groups;
        if coda.len() == 0 {
            let total = g.coda_count();
            let ghost all = g.codas();
            let mut i: usize = 0;
            while i < total
                invariant
                    i <= total,
                    total == all.len(),
                    all == g.codas(),
                    r.deep_view() == neighbours + single_codas(all.take(i as int)),
                decreases total - i,
            {
                let c = g.coda_at(i);
                let ghost before = r.deep_view();
                proof {
                    assert(all.take(i + 1).drop_last() =~= all.take(i as int));
                    assert(all.take(i + 1).last() == all[i as int]);
                }
                if c.len() == 1 {
                    r.push(copy_slice(c.as_slice(), 0, 1));
                    proof {
                        assert(c@.subrange(0, 1) =~= c@);
                        assert(r.deep_view() =~= before.push(c@));
                    }
                }
                i += 1;
            }
            proof {
                assert(all.take(total as int) =~= all);
            }
        } else if coda.len() == 1 {
            r.push(Vec::new());
            proof {
                assert(r.deep_view() =~= neighbours + seq![Seq::<u8>::empty()]);
            }
        } else {
            proof {
                assert(r.deep_view() =~= neighbours + Seq::<Seq<u8>>::empty());
            }
        }
        r
    }

    /// The candidates from the words of `order`'s codas under `nucleus`.
    fn gather(&self, nucleus: u8, order: &Vec<Vec<u8>>, skip: &[char], lim: usize) -> (r: Vec<Candidate>)
        requires
            phoneme::AA <= nucleus <= phoneme::UW,
        ensures
            cands(r@) == collect(tagged(self.groups(), order.deep_view(), nucleus), skip@, lim as nat),
    {
        let g = &*self.coda_groups;
        let ghost gg = self.groups();
        let ghost ord = order.deep_view();
        let _ = g.coda_count();
        let mut out: Vec<Candidate> = Vec::new();
        let mut ci: usize = 0;
        while ci < order.len()
            invariant
                ci <= order@.len(),
                ord == order.deep_view(),
                gg == *g,
                phoneme::AA <= nucleus <= phoneme::UW,
                forall|c: Seq<u8>, n: u8| #[trigger] gg.members(c, n).len() > 0 ==> gg.codas().contains(c),
                cands(out@) == collect(tagged(gg, ord.take(ci as int), nucleus), skip@, lim as nat),
            decreases order@.len() - ci,
        {
            let ghost prefix = tagged(gg, ord.take(ci as int), nucleus);
            let ghost here = ord[ci as int];
            let ghost ws = gg.members(here, nucleus);
            proof {
                assert(ord.take(ci + 1).drop_last() =~= ord.take(ci as int));
                assert(ord.take(ci + 1).last() == here);
                assert(tagged(gg, ord.take(ci + 1), nucleus) == prefix + ws.map_values(|w: Seq<char>| (w, here)));
            }
            match g.find_coda(order[ci].as_slice()) {
                Some(i) => {
                    let words = g.words_at(i, nucleus);
                    let mut wi: usize = 0;
                    while wi < words.len()
                        invariant
                            wi <= words@.len(),
                            ci < order@.len(),
                            words.deep_view() == ws,
                            here == order@[ci as int]@,
                            cands(out@) == collect(
                                prefix + ws.take(wi as int).map_values(|w: Seq<char>| (w, here)),
                                skip@,
                                lim as nat,
                            ),
                        decreases words@.len() - wi,
                    {
                        let ghost src = prefix + ws.take(wi as int).map_values(|w: Seq<char>| (w, here));
                        let ghost src2 = prefix + ws.take(wi + 1).map_values(|w: Seq<char>| (w, here));
                        proof {
                            assert(src2.drop_last() =~= src);
                            assert(src2.last() == (ws[wi as int], here));
                            assert(words@[wi as int]@ == ws[wi as int]);
                        }
                        let w = &words[wi];
                        if out.len() < lim && word_order(w.as_slice(), skip) != 0 && !listed(&out, w.as_slice()) {
                            let ghost before = out@;
                            out.push(Candidate { word: copy_word(w.as_slice()), coda: copy_slice(order[ci].as_slice(), 0, order[ci].len()) });
                            proof {
                                assert(order@[ci as int]@.subrange(0, order@[ci as int]@.len() as int) =~= here);
                                assert(cands(out@) =~= cands(before).push((ws[wi as int], here)));
                            }
                        }
                        wi += 1;
                    }
                    proof {
                        assert(ws.take(words@.len() as int) =~= ws);
                    }
                },
                None => {
                    proof {
                        assert(ws.len() == 0);
                        assert(ws.map_values(|w: Seq<char>| (w, here)) =~= Seq::<(Seq<char>, Seq<u8>)>::empty());
                        assert(prefix + Seq::<(Seq<char>, Seq<u8>)>::empty() =~= prefix);
                    }
                },
            }
            ci += 1;
        }
        proof {
            assert(ord.take(order@.len() as int) =~= ord);
        }
        out
    }

    /// Near rhymes of a word, best pronunciation first: for each
    /// pronunciation with a coda of at most `MAX_CODA_LEN` phonemes, the words
    /// with the same nucleus under the codas one edit away (and, for an open or
    /// one-consonant syllable, under the one-consonant or empty codas), each
    /// word once and never the query word, up to `gather_cap(limit)` of them;
    /// the pronunciation with the most wins. They come ranked by how close
    /// their coda's length is to the query's, then alphabetically, and at most
    /// `limit` of them. `None` if the word is unknown or has none.
    pub fn lookup(&self, word: &str, limit: usize) -> (r: Option<NearRhymeResult>)
        ensures
            ({
                let d = self.dictionary();
                let nw = normalized(word@);
                let vs = looked_up(d[nw], g_drop(word@));
                let pick = near_pick(self.groups(), self.neighbors(), vs, nw, gather_cap(limit));
                &&& r is None <==> !d.contains_key(nw) || pick.0.len() == 0
                &&& r matches Some(res) ==> {
                    let order = ranked(pick.0, pick.2.len() as int);
                    &&& res.word@ == nw
                    &&& views(res.phonemes@) == names(vs[0])
                    &&& res.syllables == vowel_count(vs[0])
                    &&& res.nucleus@ == decode_name(pick.1)
                    &&& views(res.coda@) == names(pick.2)
                    &&& res.neighbor_codas == (if self.neighbors().contains_key(pick.2) {
                        self.neighbors()[pick.2].len()
                    } else {
                        0
                    })
                    &&& res.matches@.len() == (if order.len() <= limit {
                        order.len() as int
                    } else {
                        limit as int
                    })
                    &&& forall|i: int| 0 <= i < res.matches@.len() ==> shows(#[trigger] res.matches@[i], order[i], d)
                }
            }),
    {
        proof {
            use_type_invariant(self);
        }
        let normalized = CmuDict::normalize(word);
        let variants = match self.dict.lookup(word) {
            Some(v) => v,
            None => {
                return None;
            },
        };
        let ghost d = self.dictionary();
        let ghost nw = normalized@;
        let ghost vs = variants.deep_view();
        let ghost g = self.groups();
        let ghost nb = self.neighbors();
        let scaled = if limit <= usize::MAX / 4 { limit * 4 } else { usize::MAX };
        let cap = if scaled >= 200 { scaled } else { 200 };
        let skip = chars_of(normalized.as_str());
        let mut best: Vec<Candidate> = Vec::new();
        let mut best_nucleus: u8 = 0;
        let mut best_coda: Vec<u8> = Vec::new();
        let mut i: usize = 0;
        while i < variants.len()
            invariant
                i <= variants@.len(),
                vs == variants.deep_view(),
                g == self.groups(),
                nb == self.neighbors(),
                skip@ == nw,
                cap == gather_cap(limit),
                near_pick(g, nb, vs.take(i as int), nw, cap as nat) == (cands(best@), best_nucleus, best_coda@),
            decreases variants@.len() - i,
        {
            proof {
                assert(vs.take(i + 1).drop_last() =~= vs.take(i as int));
                assert(vs.take(i + 1).last() == vs[i as int]);
                assert(vs[i as int] == variants@[i as int]@);
            }
            match extract_nucleus_coda(variants[i].as_slice()) {
                Some((nucleus, coda)) => {
                    proof {
                        crate::coda_groups::lemma_nucleus_base(vs[i as int]);
                    }
                    if coda.len() <= MAX_CODA_LEN {
                        let order = self.source_list(coda.as_slice());
                        let found = self.gather(nucleus, &order, skip.as_slice(), cap);
                        if found.len() > best.len() {
                            best = found;
                            best_nucleus = nucleus;
                            best_coda = coda;
                        }
                    }
                },
                None => {},
            }
            i += 1;
        }
        proof {
            assert(vs.take(variants@.len() as int) =~= vs);
        }
        if best.len() == 0 {
            return None;
        }
        let ordered = rank(&best, best_coda.len());
        let ghost order = cands(ordered@);
        let keep = if ordered.len() <= limit { ordered.len() } else { limit };
        let mut matches: Vec<NearRhymeMatch> = Vec::new();
        let mut k: usize = 0;
        while k < keep
            invariant
                k <= keep <= ordered@.len(),
                order == cands(ordered@),
                d == self.dictionary(),
                pronounceable(d),
                matches@.len() == k,
                forall|j: int| 0 <= j < k ==> shows(#[trigger] matches@[j], order[j], d),
            decreases keep - k,
        {
            let c = &ordered[k];
            let w = string_from(c.word.as_slice());
            let ph = self.dict.first_phonemes(w.as_str());
            matches.push(NearRhymeMatch {
                word: w,
                phonemes: phoneme::decode_to_strings(ph.as_slice()),
                syllables: phoneme::count_syllables(ph.as_slice()),
                coda: phoneme::decode_to_strings(c.coda.as_slice()),
                coda_len: c.coda.len(),
            });
            proof {
                assert(order[k as int] == cand(ordered@[k as int]));
            }
            k += 1;
        }
        proof {
            assert(d[nw].len() > 0);
            assert(vs.len() == variants@.len());
            assert(vs[0] == variants@[0]@);
        }
        let neighbor_codas = match self.coda_neighbors.get(best_coda.as_slice()) {
            Some(list) => list.len(),
            None => 0,
        };
        Some(NearRhymeResult {
            word: normalized,
            phonemes: phoneme::decode_to_strings(variants[0].as_slice()),
            syllables: phoneme::count_syllables(variants[0].as_slice()),
            nucleus: phoneme::decode(best_nucleus).to_owned(),
            coda: phoneme::decode_to_strings(best_coda.as_slice()),
            neighbor_codas,
            matches,
        })
    }
}

} // verus!
