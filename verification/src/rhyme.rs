//! Rhyme tails, onsets and suffix checks on encoded phonemes — the parts of
//! rhyme classification that work on whole numbers.

use vstd::prelude::*;

use crate::byte_map::{bytes_order, copy_slice};
use crate::distance::{edit_distance, edit_distance_rows, lemma_edit_distance_symmetric};
use crate::phoneme::{self, stress_of, strip_seq, vowel_id};

verus! {

/// The position of the last phoneme of `p` carrying stress `level`, or -1.
pub open spec fn last_with_stress(p: Seq<u8>, level: u8) -> int
    decreases p.len(),
{
    if p.len() == 0 {
        -1
    } else if stress_of(p.last()) == level {
        p.len() - 1
    } else {
        last_with_stress(p.drop_last(), level)
    }
}

/// The position of the last vowel of `p`, or -1.
pub open spec fn last_vowel(p: Seq<u8>) -> int
    decreases p.len(),
{
    if p.len() == 0 {
        -1
    } else if vowel_id(p.last()) {
        p.len() - 1
    } else {
        last_vowel(p.drop_last())
    }
}

/// The rhyme tail at a stress level: from the last phoneme with that stress
/// to the end; empty when there is none.
pub open spec fn rhyme_tail(p: Seq<u8>, level: u8) -> Seq<u8> {
    let i = last_with_stress(p, level);
    if i < 0 {
        Seq::empty()
    } else {
        p.subrange(i, p.len() as int)
    }
}

/// The tail from the last vowel of any stress to the end; empty when there is none.
pub open spec fn rhyme_tail_any_vowel(p: Seq<u8>) -> Seq<u8> {
    let i = last_vowel(p);
    if i < 0 {
        Seq::empty()
    } else {
        p.subrange(i, p.len() as int)
    }
}

/// What precedes a tail of `tail_length` phonemes: the rest of the word, or
/// nothing when the tail covers it.
pub open spec fn onset_cluster(p: Seq<u8>, tail_length: nat) -> Seq<u8> {
    if p.len() <= tail_length {
        Seq::empty()
    } else {
        p.subrange(0, p.len() - tail_length)
    }
}

/// `shorter` ends `longer` and starts with a base vowel.
pub open spec fn vowel_suffix(shorter: Seq<u8>, longer: Seq<u8>) -> bool {
    &&& shorter.len() > 0
    &&& shorter.len() <= longer.len()
    &&& 25 <= shorter[0] <= 39
    &&& longer.subrange(longer.len() - shorter.len(), longer.len() as int) == shorter
}

/// Both tails have at least three phonemes and agree after the first.
pub open spec fn consonant_endings_match(a: Seq<u8>, b: Seq<u8>) -> bool {
    a.len() >= 3 && b.len() >= 3 && a.drop_first() == b.drop_first()
}

/// The tail a pronunciation is compared by, and whether it is stressed: from
/// its last primary stress; else from its last secondary stress; else from its
/// last vowel, unstressed; empty when it has no vowel.
pub open spec fn compared_tail(p: Seq<u8>) -> (Seq<u8>, bool) {
    if rhyme_tail(p, 1).len() > 0 {
        (rhyme_tail(p, 1), true)
    } else if rhyme_tail(p, 2).len() > 0 {
        (rhyme_tail(p, 2), true)
    } else {
        (rhyme_tail_any_vowel(p), false)
    }
}

/// The last `n` phonemes of `p` (all of them when it has fewer).
pub open spec fn last_n(p: Seq<u8>, n: nat) -> Seq<u8> {
    if p.len() <= n {
        p
    } else {
        p.subrange(p.len() - n, p.len() as int)
    }
}

/// A rhyme by suffix between pronunciations `pa` and `pb` with compared tails
/// `ta` and `tb`: when the stress-stripped tails differ in length and the
/// shorter is a vowel-initial ending of the longer, the longer word's tail is
/// cut to the shorter one's length; the result holds the two tails and
/// whether the two words agree before that ending. `None` otherwise.
pub open spec fn suffix_rhyme(pa: Seq<u8>, pb: Seq<u8>, ta: Seq<u8>, tb: Seq<u8>) -> Option<(Seq<u8>, Seq<u8>, bool)> {
    let sa = strip_seq(ta);
    let sb = strip_seq(tb);
    if sa.len() < sb.len() && vowel_suffix(sa, sb) {
        Some((ta, last_n(pb, sa.len()), onset_cluster(pb, sa.len()) == onset_cluster(pa, sa.len())))
    } else if sb.len() < sa.len() && vowel_suffix(sb, sa) {
        Some((last_n(pa, sb.len()), tb, onset_cluster(pa, sb.len()) == onset_cluster(pb, sb.len())))
    } else {
        None
    }
}

pub(crate) proof fn lemma_last_with_stress(p: Seq<u8>, level: u8)
    ensures
        -1 <= last_with_stress(p, level) < p.len(),
        last_with_stress(p, level) >= 0 ==> stress_of(p[last_with_stress(p, level)]) == level,
        forall|k: int| last_with_stress(p, level) < k < p.len() ==> stress_of(#[trigger] p[k]) != level,
    decreases p.len(),
{
    if p.len() > 0 && stress_of(p.last()) != level {
        lemma_last_with_stress(p.drop_last(), level);
        assert forall|k: int| last_with_stress(p, level) < k < p.len() implies stress_of(#[trigger] p[k]) != level by {
            if k < p.len() - 1 {
                assert(p[k] == p.drop_last()[k]);
            }
        }
    }
}

proof fn lemma_last_vowel(p: Seq<u8>)
    ensures
        -1 <= last_vowel(p) < p.len(),
        last_vowel(p) >= 0 ==> vowel_id(p[last_vowel(p)]),
        forall|k: int| last_vowel(p) < k < p.len() ==> !vowel_id(#[trigger] p[k]),
    decreases p.len(),
{
    if p.len() > 0 && !vowel_id(p.last()) {
        lemma_last_vowel(p.drop_last());
        assert forall|k: int| last_vowel(p) < k < p.len() implies !vowel_id(#[trigger] p[k]) by {
            if k < p.len() - 1 {
                assert(p[k] == p.drop_last()[k]);
            }
        }
    }
}

fn copy_from(p: &[u8], start: usize) -> (r: Vec<u8>)
    requires
        start <= p@.len(),
    ensures
        r@ == p@.subrange(start as int, p@.len() as int),
{
    let mut r: Vec<u8> = Vec::new();
    let mut i = start;
    while i < p.len()
        invariant
            start <= i <= p@.len(),
            r@ == p@.subrange(start as int, i as int),
        decreases p@.len() - i,
    {
        r.push(p[i]);
        i += 1;
        proof {
            assert(p@.subrange(start as int, i as int) =~= p@.subrange(start as int, i - 1).push(p@[i - 1]));
        }
    }
    r
}

/// The rhyme tail at a stress level: from the last phoneme with that stress
/// to the end, or empty.
pub fn get_rhyme_tail(phonemes: &[u8], stress_level: u8) -> (r: Vec<u8>)
    ensures
        r@ == rhyme_tail(phonemes@, stress_level),
{
    proof {
        lemma_last_with_stress(phonemes@, stress_level);
    }
    let mut i = phonemes.len();
    while i > 0
        invariant
            i <= phonemes@.len(),
            -1 <= last_with_stress(phonemes@, stress_level) < phonemes@.len(),
            last_with_stress(phonemes@, stress_level) >= 0 ==> stress_of(
                phonemes@[last_with_stress(phonemes@, stress_level)],
            ) == stress_level,
            forall|k: int| last_with_stress(phonemes@, stress_level) < k < phonemes@.len() ==> stress_of(#[trigger] phonemes@[k]) != stress_level,
            forall|k: int| i <= k < phonemes@.len() ==> stress_of(#[trigger] phonemes@[k]) != stress_level,
        decreases i,
    {
        i -= 1;
        if phoneme::stress(phonemes[i]) == stress_level {
            return copy_from(phonemes, i);
        }
    }
    proof {
        if last_with_stress(phonemes@, stress_level) >= 0 {
            assert(stress_of(phonemes@[last_with_stress(phonemes@, stress_level)]) == stress_level);
        }
    }
    Vec::new()
}

/// The tail from the last vowel (any stress) to the end, or empty.
pub fn get_rhyme_tail_any_vowel(phonemes: &[u8]) -> (r: Vec<u8>)
    ensures
        r@ == rhyme_tail_any_vowel(phonemes@),
{
    proof {
        lemma_last_vowel(phonemes@);
    }
    let mut i = phonemes.len();
    while i > 0
        invariant
            i <= phonemes@.len(),
            -1 <= last_vowel(phonemes@) < phonemes@.len(),
            last_vowel(phonemes@) >= 0 ==> vowel_id(phonemes@[last_vowel(phonemes@)]),
            forall|k: int| last_vowel(phonemes@) < k < phonemes@.len() ==> !vowel_id(#[trigger] phonemes@[k]),
            forall|k: int| i <= k < phonemes@.len() ==> !vowel_id(#[trigger] phonemes@[k]),
        decreases i,
    {
        i -= 1;
        if phoneme::is_vowel(phonemes[i]) {
            return copy_from(phonemes, i);
        }
    }
    proof {
        if last_vowel(phonemes@) >= 0 {
            assert(vowel_id(phonemes@[last_vowel(phonemes@)]));
        }
    }
    Vec::new()
}

/// The phonemes before a tail of the given length.
pub fn get_onset_cluster(phonemes: &[u8], tail_length: usize) -> (r: Vec<u8>)
    ensures
        r@ == onset_cluster(phonemes@, tail_length as nat),
{
    if phonemes.len() <= tail_length {
        return Vec::new();
    }
    let onset_len = phonemes.len() - tail_length;
    let mut r: Vec<u8> = Vec::new();
    let mut i: usize = 0;
    while i < onset_len
        invariant
            onset_len <= phonemes@.len(),
            onset_len == phonemes@.len() - tail_length,
            i <= onset_len,
            r@ == phonemes@.subrange(0, i as int),
        decreases onset_len - i,
    {
        r.push(phonemes[i]);
        i += 1;
        proof {
            assert(phonemes@.subrange(0, i as int) =~= phonemes@.subrange(0, i - 1).push(phonemes@[i - 1]));
        }
    }
    r
}

/// Whether `shorter` is a vowel-initial ending of `longer`.
pub fn is_suffix(shorter: &[u8], longer: &[u8]) -> (r: bool)
    ensures
        r == vowel_suffix(shorter@, longer@),
{
    if shorter.len() == 0 || shorter.len() > longer.len() {
        return false;
    }
    if !phoneme::is_vowel_base(shorter[0]) {
        return false;
    }
    let offset = longer.len() - shorter.len();
    let mut i: usize = 0;
    while i < shorter.len()
        invariant
            offset + shorter@.len() == longer@.len(),
            offset == longer@.len() - shorter@.len(),
            i <= shorter@.len(),
            shorter@.len() <= longer@.len(),
            longer@.len() == longer.len(),
            forall|k: int| 0 <= k < i ==> shorter@[k] == longer@[offset + k],
        decreases shorter@.len() - i,
    {
        let j = offset + i;
        if shorter[i] != longer[j] {
            proof {
                let t = longer@.subrange(offset as int, longer@.len() as int);
                assert(t[i as int] != shorter@[i as int]);
            }
            return false;
        }
        i += 1;
    }
    proof {
        assert(longer@.subrange(offset as int, longer@.len() as int) =~= shorter@);
    }
    true
}

/// The tail a pronunciation is compared by, and whether it is stressed.
pub fn select_tail(phonemes: &[u8]) -> (r: (Vec<u8>, bool))
    ensures
        (r.0@, r.1) == compared_tail(phonemes@),
{
    let primary = get_rhyme_tail(phonemes, 1);
    if primary.len() > 0 {
        return (primary, true);
    }
    let secondary = get_rhyme_tail(phonemes, 2);
    if secondary.len() > 0 {
        return (secondary, true);
    }
    (get_rhyme_tail_any_vowel(phonemes), false)
}

/// The last `n` phonemes of a pronunciation (all of them when it has fewer).
fn tail_of(p: &[u8], n: usize) -> (r: Vec<u8>)
    ensures
        r@ == last_n(p@, n as nat),
{
    let start = if p.len() <= n {
        0
    } else {
        p.len() - n
    };
    let r = copy_slice(p, start, p.len());
    proof {
        if p@.len() <= n {
            assert(p@.subrange(0, p@.len() as int) =~= p@);
        }
    }
    r
}

/// Whether two pronunciations rhyme by a vowel-initial suffix of their
/// compared tails, and if so the tails to report and whether the words agree
/// before the suffix.
pub fn find_suffix_rhyme(phonemes_a: &[u8], phonemes_b: &[u8], tail_a: &[u8], tail_b: &[u8]) -> (r: Option<(Vec<u8>, Vec<u8>, bool)>)
    ensures
        r is Some <==> suffix_rhyme(phonemes_a@, phonemes_b@, tail_a@, tail_b@) is Some,
        r matches Some(t) ==> suffix_rhyme(phonemes_a@, phonemes_b@, tail_a@, tail_b@) == Some((t.0@, t.1@, t.2)),
{
    let sa = phoneme::strip_all(tail_a);
    let sb = phoneme::strip_all(tail_b);
    if sa.len() < sb.len() && is_suffix(sa.as_slice(), sb.as_slice()) {
        let n = sa.len();
        let cut = tail_of(phonemes_b, n);
        let onset_b = get_onset_cluster(phonemes_b, n);
        let onset_a = get_onset_cluster(phonemes_a, n);
        let same = bytes_order(onset_b.as_slice(), onset_a.as_slice()) == 0;
        let kept = copy_slice(tail_a, 0, tail_a.len());
        proof {
            assert(tail_a@.subrange(0, tail_a@.len() as int) =~= tail_a@);
        }
        Some((kept, cut, same))
    } else if sb.len() < sa.len() && is_suffix(sb.as_slice(), sa.as_slice()) {
        let n = sb.len();
        let cut = tail_of(phonemes_a, n);
        let onset_a = get_onset_cluster(phonemes_a, n);
        let onset_b = get_onset_cluster(phonemes_b, n);
        let same = bytes_order(onset_a.as_slice(), onset_b.as_slice()) == 0;
        let kept = copy_slice(tail_b, 0, tail_b.len());
        proof {
            assert(tail_b@.subrange(0, tail_b@.len() as int) =~= tail_b@);
        }
        Some((cut, kept, same))
    } else {
        None
    }
}

/// Whether two tails of at least three phonemes agree after their first.
pub fn ending_consonants_match(a: &[u8], b: &[u8]) -> (r: bool)
    ensures
        r == consonant_endings_match(a@, b@),
{
    if a.len() < 3 || b.len() < 3 {
        return false;
    }
    if a.len() != b.len() {
        proof {
            assert(a@.drop_first().len() != b@.drop_first().len());
        }
        return false;
    }
    let mut i: usize = 1;
    while i < a.len()
        invariant
            a@.len() == b@.len(),
            1 <= i <= a@.len(),
            forall|k: int| 1 <= k < i ==> a@[k] == b@[k],
        decreases a@.len() - i,
    {
        if a[i] != b[i] {
            proof {
                assert(a@.drop_first()[i - 1] != b@.drop_first()[i - 1]);
            }
            return false;
        }
        i += 1;
    }
    proof {
        assert(a@.drop_first() =~= b@.drop_first());
    }
    true
}

/// Edit distance between two tails (the same distance as `distance::levenshtein`).
pub fn levenshtein_u8(source: &[u8], target: &[u8]) -> (r: usize)
    requires
        source@.len() < usize::MAX,
        target@.len() < usize::MAX,
    ensures
        r == edit_distance(source@, target@),
{
    proof {
        lemma_edit_distance_symmetric(source@, target@);
    }
    if source.len() > target.len() {
        edit_distance_rows(source, target)
    } else {
        edit_distance_rows(target, source)
    }
}

} // verus!
