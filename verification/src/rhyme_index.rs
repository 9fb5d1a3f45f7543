//! Perfect rhymes: words grouped by the stress-stripped sound from their
//! last stressed vowel on.

use vstd::prelude::*;

use std::sync::Arc;

use crate::byte_map::{copy_slice, keyed_map, ByteMap};
use crate::coda_groups::{find_last_stress, nucleus_coda, rhyme_vowel, strip_from};
use crate::rhyme::{last_with_stress, lemma_last_with_stress};
use crate::dict::{g_drop, heard, looked_up, normalized, pronounceable, u16_at, u32_at, CmuDict};
use crate::lexicon::{copy_word, lemma_lex_asymmetric, lemma_lex_irreflexive, lemma_lex_transitive, lex_lt, search, sorted_words};
use crate::phoneme::{self, decode_name, names, strip_seq, vowel_count};
use crate::text::{chars_of, lossy_utf8, string_from, utf8_lossy, views};

verus! {

broadcast use {crate::text::lemma_deep_bytes, crate::text::lemma_deep_chars};

/// The stress-stripped rhyme tail of a word: from its last primary-stressed
/// vowel (else its last secondary-stressed one) to the end.
pub open spec fn stripped_tail(p: Seq<u8>) -> Option<Seq<u8>> {
    let i = rhyme_vowel(p);
    if i < 0 {
        None
    } else {
        Some(strip_seq(p.subrange(i, p.len() as int)))
    }
}

/// The rhyme tail of a pronunciation, stated by positions: there is none
/// when no phoneme carries primary or secondary stress; otherwise it is the
/// stress-stripped rest of the word from a stressed vowel `i` — the last
/// primary-stressed one, or, with no primary stress anywhere, the last
/// secondary-stressed one.
pub proof fn lemma_stripped_tail_position(p: Seq<u8>)
    ensures
        stripped_tail(p) is None <==> forall|j: int|
            0 <= j < p.len() ==> phoneme::stress_of(#[trigger] p[j]) != 1 && phoneme::stress_of(p[j]) != 2,
        stripped_tail(p) is Some ==> exists|i: int|
            0 <= i < p.len() && #[trigger] strip_seq(p.subrange(i, p.len() as int)) == stripped_tail(p).unwrap() && ({
                ||| phoneme::stress_of(p[i]) == 1 && forall|j: int|
                    i < j < p.len() ==> phoneme::stress_of(#[trigger] p[j]) != 1
                ||| phoneme::stress_of(p[i]) == 2 && (forall|j: int|
                    0 <= j < p.len() ==> phoneme::stress_of(#[trigger] p[j]) != 1) && forall|j: int|
                    i < j < p.len() ==> phoneme::stress_of(#[trigger] p[j]) != 2
            }),
{
    lemma_last_with_stress(p, 1);
    lemma_last_with_stress(p, 2);
    let i1 = last_with_stress(p, 1);
    let i2 = last_with_stress(p, 2);
    if i1 >= 0 {
        assert(strip_seq(p.subrange(i1, p.len() as int)) == stripped_tail(p).unwrap());
    } else if i2 >= 0 {
        assert(strip_seq(p.subrange(i2, p.len() as int)) == stripped_tail(p).unwrap());
    }
}

/// The nucleus and coda that slant and near rhymes go by are the rhyme tail
/// cut after its first phoneme: a pronunciation has one exactly when it has
/// the other, and the tail is the nucleus followed by the coda.
pub proof fn lemma_nucleus_coda_splits_tail(p: Seq<u8>)
    ensures
        nucleus_coda(p) is Some <==> stripped_tail(p) is Some,
        nucleus_coda(p) matches Some((n, c)) ==> stripped_tail(p) == Some(seq![n] + c),
{
    crate::coda_groups::lemma_rhyme_vowel(p);
    let i = rhyme_vowel(p);
    if i >= 0 {
        let t = p.subrange(i, p.len() as int);
        assert(strip_seq(t) =~= seq![phoneme::stripped(p[i])] + strip_seq(p.subrange(i + 1, p.len() as int)));
    }
}

/// Extract the stress-stripped rhyme tail.
pub fn extract_stripped_tail(phonemes: &[u8]) -> (r: Option<Vec<u8>>)
    ensures
        r.is_none() == stripped_tail(phonemes@).is_none(),
        r.is_some() ==> r.unwrap()@ == stripped_tail(phonemes@).unwrap(),
{
    let found = match find_last_stress(phonemes, 1) {
        Some(i) => Some(i),
        None => find_last_stress(phonemes, 2),
    };
    match found {
        Some(i) => Some(strip_from(phonemes, i)),
        None => None,
    }
}


// ── The rhyme group blob ────────────────────────────────────────────────

/// Up to `n` words read from `pos`, each a u16 length and its bytes, and the
/// position after them. A word cut short ends the list.
pub open spec fn parse_words(b: Seq<u8>, pos: int, n: nat) -> (Seq<Seq<u8>>, int)
    decreases n,
{
    if n == 0 || pos + 2 > b.len() {
        (Seq::empty(), pos)
    } else {
        let p = pos + 2;
        let wl = u16_at(b, pos);
        if p + wl > b.len() {
            (Seq::empty(), p)
        } else {
            let rest = parse_words(b, p + wl, (n - 1) as nat);
            (seq![b.subrange(p, p + wl)] + rest.0, rest.1)
        }
    }
}

/// Up to `n` groups read from `pos`: each a u8 tail length, the tail, a u32
/// word count and the words. A group whose tail or count is cut off ends the list.
pub open spec fn parse_groups(b: Seq<u8>, pos: int, n: nat) -> Seq<(Seq<u8>, Seq<Seq<u8>>)>
    decreases n,
{
    if n == 0 || pos >= b.len() {
        Seq::empty()
    } else {
        let tl = b[pos] as int;
        let p = pos + 1;
        if p + tl > b.len() || p + tl + 4 > b.len() {
            Seq::empty()
        } else {
            let words = parse_words(b, p + tl + 4, u32_at(b, p + tl) as nat);
            seq![(b.subrange(p, p + tl), words.0)] + parse_groups(b, words.1, (n - 1) as nat)
        }
    }
}

/// The groups of a rhyme group blob: a u32 group count, then the groups.
pub open spec fn group_entries(b: Seq<u8>) -> Seq<(Seq<u8>, Seq<Seq<u8>>)> {
    if b.len() < 4 {
        Seq::empty()
    } else {
        parse_groups(b, 4, u32_at(b, 0) as nat)
    }
}

/// The rhyme groups a blob holds: each tail with its words, decoded from UTF-8
/// (invalid sequences replaced), a later group for a tail replacing an earlier one.
pub open spec fn blob_groups(b: Seq<u8>) -> Map<Seq<u8>, Seq<Seq<char>>> {
    keyed_map(group_entries(b)).map_values(|ws: Seq<Seq<u8>>| ws.map_values(|w: Seq<u8>| lossy_utf8(w)))
}

/// The word lists of a map from tails to words.
pub open spec fn word_lists(m: Map<Seq<u8>, Vec<Vec<char>>>) -> Map<Seq<u8>, Seq<Seq<char>>> {
    m.map_values(|v: Vec<Vec<char>>| v.deep_view())
}

/// Read up to `count` u16-length-prefixed words from `pos`.
fn read_words(blob: &[u8], pos: usize, count: u64) -> (r: (Vec<Vec<char>>, usize))
    requires
        pos <= blob@.len(),
    ensures
        r.0.deep_view() == parse_words(blob@, pos as int, count as nat).0.map_values(|w: Seq<u8>| lossy_utf8(w)),
        r.1 == parse_words(blob@, pos as int, count as nat).1,
        r.1 <= blob@.len(),
{
    let ghost whole = parse_words(blob@, pos as int, count as nat);
    let ghost mut done: Seq<Seq<u8>> = Seq::empty();
    let mut words: Vec<Vec<char>> = Vec::new();
    let mut p = pos;
    let mut k: u64 = 0;
    while k < count
        invariant_except_break
            done + parse_words(blob@, p as int, (count - k) as nat).0 == whole.0,
            parse_words(blob@, p as int, (count - k) as nat).1 == whole.1,
        invariant
            pos <= p <= blob@.len(),
            k <= count,
            whole == parse_words(blob@, pos as int, count as nat),
            words.deep_view() == done.map_values(|w: Seq<u8>| lossy_utf8(w)),
        ensures
            done == whole.0,
            p == whole.1,
            words.deep_view() == done.map_values(|w: Seq<u8>| lossy_utf8(w)),
        decreases count - k,
    {
        let ghost rest = parse_words(blob@, p as int, (count - k) as nat);
        if blob.len() - p < 2 {
            proof {
                assert(done + rest.0 =~= done);
            }
            break;
        }
        let len = (blob[p] as usize) + (blob[p + 1] as usize) * 256;
        p += 2;
        if blob.len() - p < len {
            proof {
                assert(done + rest.0 =~= done);
            }
            break;
        }
        let bytes = copy_slice(blob, p, p + len);
        let text = utf8_lossy(bytes.as_slice());
        let w = chars_of(text.as_str());
        proof {
            let tail = parse_words(blob@, (p + len) as int, (count - k - 1) as nat);
            assert(rest.0 == seq![bytes@] + tail.0);
            assert(done + rest.0 =~= done.push(bytes@) + tail.0);
        }
        let ghost before = words.deep_view();
        words.push(w);
        proof {
            let nd = done.push(bytes@);
            assert(words.deep_view() =~= before.push(lossy_utf8(bytes@)));
            assert(nd.map_values(|x: Seq<u8>| lossy_utf8(x)) =~= done.map_values(|x: Seq<u8>| lossy_utf8(x)).push(lossy_utf8(bytes@)));
            done = nd;
        }
        p += len;
        k += 1;
    }
    proof {
        if k == count {
            assert(done + Seq::<Seq<u8>>::empty() =~= done);
        }
    }
    (words, p)
}

/// Deserialize the rhyme groups: each stress-stripped tail with its words.
pub fn load_blob(blob: &[u8]) -> (m: ByteMap<Vec<Vec<char>>>)
    ensures
        m.wf(),
        word_lists(m@) == blob_groups(blob@),
{
    let mut m: ByteMap<Vec<Vec<char>>> = ByteMap::new();
    let ghost total = group_entries(blob@);
    let ghost mut done: Seq<(Seq<u8>, Seq<Seq<u8>>)> = Seq::empty();
    proof {
        assert(word_lists(m@) =~= keyed_map(done).map_values(|ws: Seq<Seq<u8>>| ws.map_values(|w: Seq<u8>| lossy_utf8(w))));
    }
    if blob.len() < 4 {
        proof {
            assert(total =~= done);
        }
        return m;
    }
    let count: u64 = (blob[0] as u64) + (blob[1] as u64) * 256 + (blob[2] as u64) * 65536
        + (blob[3] as u64) * 16777216;
    let mut pos: usize = 4;
    let mut e: u64 = 0;
    while e < count
        invariant
            pos <= blob@.len(),
            e <= count,
            count == u32_at(blob@, 0),
            blob@.len() >= 4,
            total == group_entries(blob@),
            done + parse_groups(blob@, pos as int, (count - e) as nat) == total,
            m.wf(),
            word_lists(m@) == keyed_map(done).map_values(|ws: Seq<Seq<u8>>| ws.map_values(|w: Seq<u8>| lossy_utf8(w))),
        ensures
            m.wf(),
            done == total,
            word_lists(m@) == keyed_map(done).map_values(|ws: Seq<Seq<u8>>| ws.map_values(|w: Seq<u8>| lossy_utf8(w))),
        decreases count - e,
    {
        let ghost rest = parse_groups(blob@, pos as int, (count - e) as nat);
        if pos >= blob.len() {
            proof {
                assert(rest.len() == 0);
                assert(done =~= total);
            }
            break;
        }
        let tlen = blob[pos] as usize;
        let p = pos + 1;
        if blob.len() - p < tlen || blob.len() - p - tlen < 4 {
            proof {
                assert(rest.len() == 0);
                assert(done =~= total);
            }
            break;
        }
        let tail = copy_slice(blob, p, p + tlen);
        let q = p + tlen;
        let wcount: u64 = (blob[q] as u64) + (blob[q + 1] as u64) * 256 + (blob[q + 2] as u64) * 65536
            + (blob[q + 3] as u64) * 16777216;
        let (words, next) = read_words(blob, q + 4, wcount);
        let ghost entry = (tail@, parse_words(blob@, (q + 4) as int, wcount as nat).0);
        proof {
            assert(wcount == u32_at(blob@, q as int));
            assert(rest == seq![entry] + parse_groups(blob@, next as int, (count - e - 1) as nat));
        }
        let ghost old_view = word_lists(m@);
        m.insert(tail.as_slice(), words);
        proof {
            let nd = done.push(entry);
            assert(nd.drop_last() =~= done);
            assert(word_lists(m@) =~= old_view.insert(entry.0, entry.1.map_values(|w: Seq<u8>| lossy_utf8(w))));
            assert(keyed_map(nd).map_values(|ws: Seq<Seq<u8>>| ws.map_values(|w: Seq<u8>| lossy_utf8(w))) =~= keyed_map(done).map_values(|ws: Seq<Seq<u8>>| ws.map_values(|w: Seq<u8>| lossy_utf8(w))).insert(entry.0, entry.1.map_values(|w: Seq<u8>| lossy_utf8(w))));
            assert(nd + parse_groups(blob@, next as int, (count - e - 1) as nat) =~= done + rest);
            done = nd;
        }
        pos = next;
        e += 1;
    }
    m
}


// ── Perfect rhyme lookup ────────────────────────────────────────────────

/// `x` put into the increasing word list `s` at its place, unless it is there.
pub open spec fn insert_word_sorted(s: Seq<Seq<char>>, x: Seq<char>) -> Seq<Seq<char>>
    decreases s.len(),
{
    if s.len() == 0 {
        seq![x]
    } else if s[0] == x {
        s
    } else if lex_lt(s[0], x) {
        seq![s[0]] + insert_word_sorted(s.drop_first(), x)
    } else {
        seq![x] + s
    }
}

/// The distinct words of `ws` other than `skip`, in increasing order.
pub open spec fn sorted_members(ws: Seq<Seq<char>>, skip: Seq<char>) -> Seq<Seq<char>>
    decreases ws.len(),
{
    if ws.len() == 0 {
        Seq::empty()
    } else if ws.last() == skip {
        sorted_members(ws.drop_last(), skip)
    } else {
        insert_word_sorted(sorted_members(ws.drop_last(), skip), ws.last())
    }
}

/// The words filed under `tail`: those of its group, then those added since.
pub open spec fn pool(groups: Map<Seq<u8>, Seq<Seq<char>>>, added: Map<Seq<u8>, Seq<Seq<char>>>, tail: Seq<u8>) -> Seq<Seq<char>> {
    (if groups.contains_key(tail) {
        groups[tail]
    } else {
        Seq::empty()
    }) + (if added.contains_key(tail) {
        added[tail]
    } else {
        Seq::empty()
    })
}

/// Over the pronunciations `vs`, the rhymes and tail of the first one that
/// has a rhyme tail, replaced by any later one with strictly more rhymes.
pub open spec fn perfect_pick(
    groups: Map<Seq<u8>, Seq<Seq<char>>>,
    added: Map<Seq<u8>, Seq<Seq<char>>>,
    vs: Seq<Seq<u8>>,
    skip: Seq<char>,
) -> Option<(Seq<Seq<char>>, Seq<u8>)>
    decreases vs.len(),
{
    if vs.len() == 0 {
        None
    } else {
        let prev = perfect_pick(groups, added, vs.drop_last(), skip);
        match stripped_tail(vs.last()) {
            Some(t) => {
                let m = sorted_members(pool(groups, added, t), skip);
                match prev {
                    Some(b) => if m.len() > b.0.len() {
                        Some((m, t))
                    } else {
                        prev
                    },
                    None => Some((m, t)),
                }
            },
            None => prev,
        }
    }
}

/// The perfect rhymes a lookup of `word` gives, in order; none when it gives no result.
pub open spec fn perfect_words(
    groups: Map<Seq<u8>, Seq<Seq<char>>>,
    added: Map<Seq<u8>, Seq<Seq<char>>>,
    d: Map<Seq<char>, Seq<Seq<u8>>>,
    word: Seq<char>,
) -> Seq<Seq<char>> {
    let nw = normalized(word);
    let pick = perfect_pick(groups, added, looked_up(d[nw], g_drop(word)), nw);
    if !d.contains_key(nw) || pick is None {
        Seq::empty()
    } else {
        pick.unwrap().0
    }
}

/// The added words after `word` is added under pronunciation `phonemes`: its
/// normalized form appended to the list of that pronunciation's rhyme tail,
/// nothing when the pronunciation has no stressed vowel.
pub open spec fn added_with(
    added: Map<Seq<u8>, Seq<Seq<char>>>,
    word: Seq<char>,
    phonemes: Seq<u8>,
) -> Map<Seq<u8>, Seq<Seq<char>>> {
    match stripped_tail(phonemes) {
        Some(t) => added.insert(
            t,
            (if added.contains_key(t) {
                added[t]
            } else {
                Seq::empty()
            }).push(normalized(word)),
        ),
        None => added,
    }
}

/// Inserting into an increasing list keeps it increasing and adds exactly `x`.
proof fn lemma_insert_word_sorted_keeps(s: Seq<Seq<char>>, x: Seq<char>)
    requires
        sorted_words(s),
    ensures
        sorted_words(insert_word_sorted(s, x)),
        forall|y: Seq<char>| #[trigger] insert_word_sorted(s, x).contains(y) <==> s.contains(y) || y == x,
    decreases s.len(),
{
    if s.len() == 0 {
        assert(insert_word_sorted(s, x)[0] == x);
    } else if s[0] == x {
        assert(s.contains(s[0]));
    } else if lex_lt(s[0], x) {
        let t = s.drop_first();
        assert(sorted_words(t)) by {
            assert forall|a: int, b: int| 0 <= a < b < t.len() implies lex_lt(#[trigger] t[a], #[trigger] t[b]) by {
                assert(t[a] == s[a + 1] && t[b] == s[b + 1]);
            }
        }
        lemma_insert_word_sorted_keeps(t, x);
        let it = insert_word_sorted(t, x);
        let r = insert_word_sorted(s, x);
        assert(r == seq![s[0]] + it);
        assert forall|y: Seq<char>| #[trigger] r.contains(y) <==> s.contains(y) || y == x by {
            if r.contains(y) {
                let k = choose|k: int| 0 <= k < r.len() && r[k] == y;
                if k > 0 {
                    assert(it[k - 1] == y);
                    assert(it.contains(y));
                    if t.contains(y) {
                        let q = choose|q: int| 0 <= q < t.len() && t[q] == y;
                        assert(s[q + 1] == y);
                    }
                } else {
                    assert(s[0] == y);
                }
            }
            if s.contains(y) {
                let k = choose|k: int| 0 <= k < s.len() && s[k] == y;
                if k == 0 {
                    assert(r[0] == y);
                } else {
                    assert(t[k - 1] == y);
                    assert(it.contains(y));
                    let q = choose|q: int| 0 <= q < it.len() && it[q] == y;
                    assert(r[q + 1] == y);
                }
            }
            if y == x {
                assert(it.contains(x));
                let q = choose|q: int| 0 <= q < it.len() && it[q] == x;
                assert(r[q + 1] == x);
            }
        }
        // every element of `it` comes after s[0]
        assert forall|k: int| 0 <= k < it.len() implies lex_lt(s[0], #[trigger] it[k]) by {
            assert(it.contains(it[k]));
            if it[k] != x {
                assert(t.contains(it[k]));
                let q = choose|q: int| 0 <= q < t.len() && t[q] == it[k];
                assert(s[q + 1] == it[k]);
            }
        }
        assert forall|a: int, b: int| 0 <= a < b < r.len() implies lex_lt(#[trigger] r[a], #[trigger] r[b]) by {
            if a == 0 {
                assert(r[b] == it[b - 1]);
            } else {
                assert(r[a] == it[a - 1] && r[b] == it[b - 1]);
            }
        }
    } else {
        crate::lexicon::lemma_lex_total(s[0], x);
        let r = insert_word_sorted(s, x);
        assert(r == seq![x] + s);
        assert forall|a: int, b: int| 0 <= a < b < r.len() implies lex_lt(#[trigger] r[a], #[trigger] r[b]) by {
            if a == 0 {
                assert(r[b] == s[b - 1]);
                if b > 1 {
                    lemma_lex_transitive(x, s[0], s[b - 1]);
                }
            } else {
                assert(r[a] == s[a - 1] && r[b] == s[b - 1]);
            }
        }
        assert forall|y: Seq<char>| #[trigger] r.contains(y) <==> s.contains(y) || y == x by {
            if r.contains(y) {
                let k = choose|k: int| 0 <= k < r.len() && r[k] == y;
                if k > 0 {
                    assert(s[k - 1] == y);
                }
            }
            if s.contains(y) {
                let k = choose|k: int| 0 <= k < s.len() && s[k] == y;
                assert(r[k + 1] == y);
            }
            if y == x {
                assert(r[0] == x);
            }
        }
    }
}

/// The perfect rhymes drawn from a pool of words: each word of the pool other
/// than the query word, once, in increasing order.
pub proof fn lemma_sorted_members(ws: Seq<Seq<char>>, skip: Seq<char>)
    ensures
        sorted_words(sorted_members(ws, skip)),
        forall|w: Seq<char>| #[trigger] sorted_members(ws, skip).contains(w) <==> ws.contains(w) && w != skip,
    decreases ws.len(),
{
    if ws.len() > 0 {
        let t = ws.drop_last();
        lemma_sorted_members(t, skip);
        if ws.last() != skip {
            lemma_insert_word_sorted_keeps(sorted_members(t, skip), ws.last());
        }
        assert forall|w: Seq<char>| #[trigger] sorted_members(ws, skip).contains(w) <==> ws.contains(w) && w != skip by {
            if t.contains(w) {
                let k = choose|k: int| 0 <= k < t.len() && t[k] == w;
                assert(ws[k] == w);
            }
            if ws.contains(w) {
                let k = choose|k: int| 0 <= k < ws.len() && ws[k] == w;
                if k < t.len() {
                    assert(t[k] == w);
                } else {
                    assert(ws.last() == w);
                }
            }
        }
    }
}

/// A word added under a pronunciation is from then on a perfect rhyme of
/// every other dictionary word that has one pronunciation, with the same
/// rhyme tail.
pub proof fn lemma_added_word_rhymes(
    groups: Map<Seq<u8>, Seq<Seq<char>>>,
    added: Map<Seq<u8>, Seq<Seq<char>>>,
    d: Map<Seq<char>, Seq<Seq<u8>>>,
    query: Seq<char>,
    word: Seq<char>,
    phonemes: Seq<u8>,
)
    requires
        stripped_tail(phonemes) is Some,
        d.contains_key(normalized(query)),
        looked_up(d[normalized(query)], g_drop(query)).len() == 1,
        stripped_tail(heard(d, query)) == stripped_tail(phonemes),
        normalized(word) != normalized(query),
    ensures
        perfect_words(groups, added_with(added, word, phonemes), d, query).contains(normalized(word)),
{
    let nq = normalized(query);
    let nw = normalized(word);
    let t = stripped_tail(phonemes).unwrap();
    let a2 = added_with(added, word, phonemes);
    let vs = looked_up(d[nq], g_drop(query));
    assert(vs.drop_last().len() == 0);
    assert(vs.last() == heard(d, query));
    let ws = pool(groups, a2, t);
    let tail_list = a2[t];
    assert(tail_list.last() == nw);
    let g0: Seq<Seq<char>> = if groups.contains_key(t) {
        groups[t]
    } else {
        Seq::empty()
    };
    assert(ws == g0 + tail_list);
    assert(ws[g0.len() + tail_list.len() - 1] == nw);
    assert(ws.contains(nw));
    lemma_sorted_members(ws, nq);
    assert(perfect_pick(groups, a2, vs.drop_last(), nq) is None);
    assert(stripped_tail(vs.last()) == Some(t));
    assert(perfect_pick(groups, a2, vs, nq) == Some((sorted_members(ws, nq), t)));
}

/// The lists a pick chooses from are in increasing order and never hold the
/// word skipped.
proof fn lemma_perfect_pick_skips(
    groups: Map<Seq<u8>, Seq<Seq<char>>>,
    added: Map<Seq<u8>, Seq<Seq<char>>>,
    vs: Seq<Seq<u8>>,
    skip: Seq<char>,
)
    ensures
        perfect_pick(groups, added, vs, skip) matches Some(b) ==> sorted_words(b.0) && forall|i: int|
            0 <= i < b.0.len() ==> (#[trigger] b.0[i]) != skip,
    decreases vs.len(),
{
    if vs.len() > 0 {
        lemma_perfect_pick_skips(groups, added, vs.drop_last(), skip);
        match stripped_tail(vs.last()) {
            Some(t) => {
                let m = sorted_members(pool(groups, added, t), skip);
                lemma_sorted_members(pool(groups, added, t), skip);
                assert forall|i: int| 0 <= i < m.len() implies (#[trigger] m[i]) != skip by {
                    assert(m.contains(m[i]));
                }
            },
            None => {},
        }
    }
}

/// A word's perfect rhymes come in increasing order, and the word is not
/// among them.
pub proof fn lemma_perfect_words_sorted(
    groups: Map<Seq<u8>, Seq<Seq<char>>>,
    added: Map<Seq<u8>, Seq<Seq<char>>>,
    d: Map<Seq<char>, Seq<Seq<u8>>>,
    word: Seq<char>,
)
    ensures
        sorted_words(perfect_words(groups, added, d, word)),
        forall|i: int|
            0 <= i < perfect_words(groups, added, d, word).len() ==> (#[trigger] perfect_words(groups, added, d, word)[i])
                != normalized(word),
{
    let nw = normalized(word);
    lemma_perfect_pick_skips(groups, added, looked_up(d[nw], g_drop(word)), nw);
}

/// Inserting where a binary search places `x` is `insert_word_sorted`.
proof fn lemma_insert_word_sorted(s: Seq<Seq<char>>, x: Seq<char>, found: bool, pos: int)
    requires
        sorted_words(s),
        0 <= pos <= s.len(),
        forall|k: int| 0 <= k < pos ==> lex_lt(#[trigger] s[k], x),
        found ==> pos < s.len() && s[pos] == x,
        !found ==> pos < s.len() ==> lex_lt(x, s[pos]),
    ensures
        insert_word_sorted(s, x) == (if found {
            s
        } else {
            s.insert(pos, x)
        }),
    decreases pos,
{
    if pos == 0 {
        if s.len() == 0 {
            assert(s.insert(0, x) =~= seq![x]);
        } else if !found {
            lemma_lex_irreflexive(x);
            lemma_lex_asymmetric(x, s[0]);
            assert(s.insert(0, x) =~= seq![x] + s);
        }
    } else {
        lemma_lex_irreflexive(x);
        lemma_lex_asymmetric(x, s[0]);
        let t = s.drop_first();
        assert forall|k: int| 0 <= k < pos - 1 implies lex_lt(#[trigger] t[k], x) by {
            assert(t[k] == s[k + 1]);
        }
        assert(sorted_words(t)) by {
            assert forall|a: int, b: int| 0 <= a < b < t.len() implies lex_lt(#[trigger] t[a], #[trigger] t[b]) by {
                assert(t[a] == s[a + 1] && t[b] == s[b + 1]);
            }
        }
        lemma_insert_word_sorted(t, x, found, pos - 1);
        if !found {
            assert(s.insert(pos, x) =~= seq![s[0]] + t.insert(pos - 1, x));
        } else {
            assert(s =~= seq![s[0]] + t);
        }
    }
}

/// Put `w` into the increasing word list `out`, unless it is there.
fn add_sorted(out: &mut Vec<Vec<char>>, w: &[char])
    requires
        sorted_words(old(out).deep_view()),
    ensures
        sorted_words(final(out).deep_view()),
        final(out).deep_view() == insert_word_sorted(old(out).deep_view(), w@),
{
    let ghost s = out.deep_view();
    let (found, pos) = search(out, w);
    proof {
        lemma_insert_word_sorted(s, w@, found, pos as int);
    }
    if !found {
        out.insert(pos, copy_word(w));
        proof {
            let ns = out.deep_view();
            assert(ns =~= s.insert(pos as int, w@));
            assert forall|a: int, b: int| 0 <= a < b < ns.len() implies lex_lt(#[trigger] ns[a], #[trigger] ns[b]) by {
                if b < pos {
                } else if a < pos && b == pos {
                } else if a < pos {
                    assert(ns[b] == s[b - 1]);
                    lemma_lex_transitive(s[a], w@, s[b - 1]);
                } else if a == pos {
                    assert(ns[b] == s[b - 1]);
                } else {
                    assert(ns[a] == s[a - 1] && ns[b] == s[b - 1]);
                }
            }
        }
    }
}

/// Add the words of `ws` other than `skip` to the increasing word list `out`.
fn add_all(out: &mut Vec<Vec<char>>, ws: &Vec<Vec<char>>, skip: &[char], Ghost(prior): Ghost<Seq<Seq<char>>>)
    requires
        sorted_words(old(out).deep_view()),
        old(out).deep_view() == sorted_members(prior, skip@),
    ensures
        sorted_words(final(out).deep_view()),
        final(out).deep_view() == sorted_members(prior + ws.deep_view(), skip@),
{
    let ghost v = ws.deep_view();
    let mut i: usize = 0;
    while i < ws.len()
        invariant
            i <= ws@.len(),
            v == ws.deep_view(),
            sorted_words(out.deep_view()),
            out.deep_view() == sorted_members(prior + v.take(i as int), skip@),
        decreases ws@.len() - i,
    {
        proof {
            assert((prior + v.take(i + 1)).drop_last() =~= prior + v.take(i as int));
            assert((prior + v.take(i + 1)).last() == v[i as int]);
            assert(v[i as int] == ws@[i as int]@);
        }
        if crate::lexicon::word_order(ws[i].as_slice(), skip) != 0 {
            add_sorted(out, ws[i].as_slice());
        }
        i += 1;
    }
    proof {
        assert(v.take(ws@.len() as int) =~= v);
    }
}

/// Perfect rhyme index: words grouped by their stress-stripped rhyme tail,
/// from the rhyme group blob, plus words added since.
pub struct RhymeIndex {
    groups: ByteMap<Vec<Vec<char>>>,
    overlay: ByteMap<Vec<Vec<char>>>,
    dict: Arc<CmuDict>,
}

/// A perfect-rhyme lookup: the query word, its first pronunciation, its rhyme
/// tail, and the rhyming words.
pub struct PerfectRhymeResult {
    pub word: String,
    pub phonemes: Vec<String>,
    pub syllables: usize,
    pub tail: Vec<String>,
    pub matches: Vec<PerfectRhymeMatch>,
}

/// One perfect rhyme, with its first pronunciation.
pub struct PerfectRhymeMatch {
    pub word: String,
    pub phonemes: Vec<String>,
    pub syllables: usize,
}

impl RhymeIndex {
    #[verifier::type_invariant]
    spec fn well_formed(&self) -> bool {
        &&& self.groups.wf()
        &&& self.overlay.wf()
        &&& pronounceable(self.dict@)
    }

    pub closed spec fn dictionary(&self) -> Map<Seq<char>, Seq<Seq<u8>>> {
        self.dict@
    }

    /// The groups loaded from the blob: each tail with its words.
    pub closed spec fn groups(&self) -> Map<Seq<u8>, Seq<Seq<char>>> {
        word_lists(self.groups@)
    }

    /// The words added since, by tail, in the order they were added.
    pub closed spec fn added(&self) -> Map<Seq<u8>, Seq<Seq<char>>> {
        word_lists(self.overlay@)
    }

    /// An index over a dictionary and its rhyme group blob.
    pub fn new(dict: Arc<CmuDict>, groups_blob: &[u8]) -> (r: Self)
        requires
            pronounceable(dict@),
        ensures
            r.dictionary() == dict@,
            r.groups() == blob_groups(groups_blob@),
            r.added() == Map::<Seq<u8>, Seq<Seq<char>>>::empty(),
    {
        let groups = load_blob(groups_blob);
        let overlay: ByteMap<Vec<Vec<char>>> = ByteMap::new();
        proof {
            assert(word_lists(overlay@) =~= Map::<Seq<u8>, Seq<Seq<char>>>::empty());
        }
        RhymeIndex { groups, overlay, dict }
    }

    /// The distinct words filed under `tail`, other than `skip`, in increasing order.
    fn members(&self, tail: &[u8], skip: &[char]) -> (r: Vec<Vec<char>>)
        ensures
            r.deep_view() == sorted_members(pool(self.groups(), self.added(), tail@), skip@),
    {
        proof {
            use_type_invariant(self);
        }
        let mut out: Vec<Vec<char>> = Vec::new();
        proof {
            assert(out.deep_view() =~= Seq::<Seq<char>>::empty());
            assert(sorted_members(Seq::<Seq<char>>::empty(), skip@) == Seq::<Seq<char>>::empty());
        }
        let ghost first: Seq<Seq<char>> = if self.groups().contains_key(tail@) {
            self.groups()[tail@]
        } else {
            Seq::empty()
        };
        match self.groups.get(tail) {
            Some(ws) => {
                add_all(&mut out, ws, skip, Ghost(Seq::empty()));
                proof {
                    assert(Seq::<Seq<char>>::empty() + ws.deep_view() =~= first);
                }
            },
            None => {},
        }
        let ghost second: Seq<Seq<char>> = if self.added().contains_key(tail@) {
            self.added()[tail@]
        } else {
            Seq::empty()
        };
        match self.overlay.get(tail) {
            Some(ws) => {
                add_all(&mut out, ws, skip, Ghost(first));
            },
            None => {
                proof {
                    assert(first + Seq::<Seq<char>>::empty() =~= first);
                }
            },
        }
        out
    }

    /// Perfect rhymes of a word: over its pronunciations, the words that share
    /// the stress-stripped rhyme tail, other than the word itself, each once
    /// and in increasing order; the first pronunciation with a tail, replaced
    /// by any later one with strictly more rhymes. `None` if the word is
    /// unknown or has no rhyme.
    pub fn lookup(&self, word: &str) -> (r: Option<PerfectRhymeResult>)
        ensures
            ({
                let d = self.dictionary();
                let nw = normalized(word@);
                let vs = looked_up(d[nw], g_drop(word@));
                let pick = perfect_pick(self.groups(), self.added(), vs, nw);
                &&& r is None <==> !d.contains_key(nw) || pick is None || pick.unwrap().0.len() == 0
                &&& r matches Some(res) ==> {
                    let ms = pick.unwrap().0;
                    &&& res.word@ == nw
                    &&& views(res.phonemes@) == names(vs[0])
                    &&& res.syllables == vowel_count(vs[0])
                    &&& views(res.tail@) == names(pick.unwrap().1)
                    &&& res.matches@.len() == ms.len()
                    &&& forall|i: int|
                        0 <= i < ms.len() ==> {
                            let m = #[trigger] res.matches@[i];
                            &&& m.word@ == ms[i]
                            &&& views(m.phonemes@) == names(heard(d, ms[i]))
                            &&& m.syllables == vowel_count(heard(d, ms[i]))
                        }
                }
            }),
    {
        proof {
            use_type_invariant(self);
        }
        let normalized = CmuDict::normalize(word);
        let variants = match self.dict.lookup(word) {
            Some(v) => v,
            None => {
                return None;
            },
        };
        let ghost d = self.dictionary();
        let ghost nw = normalized@;
        let ghost vs = variants.deep_view();
        let skip = chars_of(normalized.as_str());
        let mut best: Option<(Vec<Vec<char>>, Vec<u8>)> = None;
        let mut i: usize = 0;
        while i < variants.len()
            invariant
                i <= variants@.len(),
                vs == variants.deep_view(),
                skip@ == nw,
                perfect_pick(self.groups(), self.added(), vs.take(i as int), nw) == (match best {
                    Some(b) => Some((b.0.deep_view(), b.1@)),
                    None => None::<(Seq<Seq<char>>, Seq<u8>)>,
                }),
            decreases variants@.len() - i,
        {
            proof {
                assert(vs.take(i + 1).drop_last() =~= vs.take(i as int));
                assert(vs.take(i + 1).last() == vs[i as int]);
                assert(vs[i as int] == variants@[i as int]@);
            }
            match extract_stripped_tail(variants[i].as_slice()) {
                Some(tail) => {
                    let m = self.members(tail.as_slice(), skip.as_slice());
                    let better = match &best {
                        Some(b) => m.len() > b.0.len(),
                        None => true,
                    };
                    if better {
                        best = Some((m, tail));
                    }
                },
                None => {},
            }
            i += 1;
        }
        proof {
            assert(vs.take(variants@.len() as int) =~= vs);
        }
        let (ms, tail) = match best {
            Some(b) => b,
            None => {
                return None;
            },
        };
        if ms.len() == 0 {
            return None;
        }
        let mut matches: Vec<PerfectRhymeMatch> = Vec::new();
        let mut k: usize = 0;
        while k < ms.len()
            invariant
                k <= ms@.len(),
                d == self.dictionary(),
                pronounceable(d),
                matches@.len() == k,
                forall|j: int|
                    0 <= j < k ==> {
                        let m = #[trigger] matches@[j];
                        &&& m.word@ == ms.deep_view()[j]
                        &&& views(m.phonemes@) == names(heard(d, ms.deep_view()[j]))
                        &&& m.syllables == vowel_count(heard(d, ms.deep_view()[j]))
                    },
            decreases ms@.len() - k,
        {
            let w = string_from(ms[k].as_slice());
            let ph = self.dict.first_phonemes(w.as_str());
            matches.push(PerfectRhymeMatch {
                word: w,
                phonemes: phoneme::decode_to_strings(ph.as_slice()),
                syllables: phoneme::count_syllables(ph.as_slice()),
            });
            proof {
                assert(ms.deep_view()[k as int] == ms@[k as int]@);
            }
            k += 1;
        }
        proof {
            assert(d[nw].len() > 0);
            assert(vs.len() == variants@.len());
            assert(vs[0] == variants@[0]@);
        }
        Some(PerfectRhymeResult {
            word: normalized,
            phonemes: phoneme::decode_to_strings(variants[0].as_slice()),
            syllables: phoneme::count_syllables(variants[0].as_slice()),
            tail: phoneme::decode_to_strings(tail.as_slice()),
            matches,
        })
    }

    /// Add a word under the rhyme tail of the given pronunciation, so that it
    /// rhymes from now on. A pronunciation without a stressed vowel adds nothing.
    pub fn add_word(&mut self, word: &str, phonemes: &[u8])
        ensures
            final(self).dictionary() == old(self).dictionary(),
            final(self).groups() == old(self).groups(),
            final(self).added() == added_with(old(self).added(), word@, phonemes@),
    {
        proof {
            use_type_invariant(&*self);
        }
        let normalized = CmuDict::normalize(word);
        match extract_stripped_tail(phonemes) {
            Some(tail) => {
                let mut overlay = ByteMap::new();
                std::mem::swap(&mut overlay, &mut self.overlay);
                let ghost before = overlay@;
                let i = overlay.entry(tail.as_slice(), Vec::new());
                let ghost mid = overlay@;
                proof {
                    overlay.lemma_wf();
                }
                let nc = chars_of(normalized.as_str());
                let ghost nv = nc;
                overlay.push_at(i, nc);
                proof {
                    overlay.lemma_wf();
                    let t = tail@;
                    let want = word_lists(before).insert(
                        t,
                        (if word_lists(before).contains_key(t) {
                            word_lists(before)[t]
                        } else {
                            Seq::empty()
                        }).push(normalized@),
                    );
                    assert(overlay@[t]@ == mid[t]@.push(nv));
                    assert(word_lists(overlay@) =~= want) by {
                        assert forall|k: Seq<u8>| #[trigger] word_lists(overlay@).contains_key(k) == want.contains_key(k) by {}
                        assert forall|k: Seq<u8>| word_lists(overlay@).contains_key(k) implies #[trigger] word_lists(overlay@)[k] == want[k] by {
                            if k == t {
                                if before.contains_key(t) {
                                    assert(mid[t] == before[t]);
                                } else {
                                    assert(mid[t]@.len() == 0);
                                }
                                assert(word_lists(overlay@)[k] =~= want[k]);
                            } else {
                                assert(overlay@[k] == mid[k]);
                            }
                        }
                    }
                }
                self.overlay = overlay;
            },
            None => {},
        }
    }

    /// Number of groups loaded from the blob.
    pub fn group_count(&self) -> (r: usize)
        ensures
            r == self.groups().dom().len(),
    {
        proof {
            use_type_invariant(self);
            self.groups.lemma_wf();
            crate::byte_map::lemma_sorted_keys_unique(self.groups.keys());
            assert(self.groups().dom() =~= self.groups.keys().to_set());
            self.groups.keys().unique_seq_to_set();
        }
        self.groups.len()
    }
}

} // verus!
