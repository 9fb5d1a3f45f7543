//! Splitting a written word into syllables, and the stress display built on it.

use vstd::prelude::*;

use vstd::utf8::encode_utf8;

use crate::dict::{ascii_lower, ascii_upper, is_ascii, lemma_ascii_lower_after, lemma_case_shift};
use crate::stress::WordStress;

use crate::text::{
    chars_of, is_ascii_lower, is_ascii_upper, lower_str, str_to_lower, str_to_upper, string_from, to_upper_first,
    upper_first, upper_str,
};

verus! {

pub struct SyllableSplitter;

/// A letter that counts as a vowel when splitting: A, E, I, O, U or Y once upper-cased.
pub open spec fn split_vowel(c: char) -> bool {
    let u = upper_first(c);
    u == 'A' || u == 'E' || u == 'I' || u == 'O' || u == 'U' || u == 'Y'
}

/// The maximal runs of vowels of `w`, as half-open character ranges, in order.
pub open spec fn vowel_runs(w: Seq<char>) -> Seq<(usize, usize)>
    decreases w.len(),
{
    if w.len() == 0 {
        Seq::empty()
    } else {
        let r = vowel_runs(w.drop_last());
        let n = w.len() - 1;
        if !split_vowel(w.last()) {
            r
        } else if w.len() >= 2 && split_vowel(w[n - 1]) && r.len() > 0 {
            r.update(r.len() - 1, (r.last().0, w.len() as usize))
        } else {
            r.push((n as usize, w.len() as usize))
        }
    }
}

/// A final single `e` after earlier vowels is silent and starts no syllable.
pub open spec fn silent_final_e(w: Seq<char>, r: Seq<(usize, usize)>) -> bool {
    &&& r.len() > 1
    &&& r.last().1 == w.len()
    &&& r.last().1 - r.last().0 == 1
    &&& upper_first(w[r.last().0 as int]) == 'E'
    &&& r.last().0 > 0
}

/// The vowel nuclei of a word: its vowel runs without a silent final e; a
/// word without any is one nucleus spanning its length in UTF-8 bytes.
pub open spec fn nuclei_of(w: Seq<char>) -> Seq<(usize, usize)> {
    let byte_len = encode_utf8(w).len() as usize;
    let r = vowel_runs(w);
    let n = if silent_final_e(w, r) {
        r.drop_last()
    } else {
        r
    };
    if n.len() == 0 && w.len() > 0 {
        seq![(0usize, byte_len)]
    } else {
        n
    }
}

/// Ranges in order, each starting no later than it ends and ending no later
/// than the next one starts.
pub open spec fn ordered(n: Seq<(usize, usize)>) -> bool {
    &&& forall|i: int| 0 <= i < n.len() ==> (#[trigger] n[i]).0 <= n[i].1
    &&& forall|i: int| 0 <= i < n.len() - 1 ==> #[trigger] gap(n, i) >= 0
}

/// The gap between nucleus `i` and the next.
pub open spec fn gap(n: Seq<(usize, usize)>, i: int) -> int {
    n[i + 1].0 - n[i].1
}

/// The first of the gaps `0..k` that is smallest.
pub open spec fn min_gap_index(n: Seq<(usize, usize)>, k: int) -> int
    decreases k,
{
    if k <= 1 {
        0
    } else {
        let b = min_gap_index(n, k - 1);
        if gap(n, k - 1) < gap(n, b) {
            k - 1
        } else {
            b
        }
    }
}

/// Nuclei `b` and `b + 1` joined into one.
pub open spec fn merge_at(n: Seq<(usize, usize)>, b: int) -> Seq<(usize, usize)> {
    n.subrange(0, b).push((n[b].0, n[b + 1].1)) + n.subrange(b + 2, n.len() as int)
}

/// Join the two closest nuclei until at most `target` (and at least one) remain.
pub open spec fn merged(n: Seq<(usize, usize)>, target: nat) -> Seq<(usize, usize)>
    decreases n.len(),
{
    let b = min_gap_index(n, n.len() - 1);
    if n.len() > target && n.len() > 1 && 0 <= b < n.len() - 1 {
        merged(merge_at(n, b), target)
    } else {
        n
    }
}

/// The first widest of nuclei `0..k` and its width (0 when none is wider than 0).
pub open spec fn widest(n: Seq<(usize, usize)>, k: int) -> (int, int)
    decreases k,
{
    if k <= 0 {
        (0, 0)
    } else {
        let bw = widest(n, k - 1);
        let w = n[k - 1].1 - n[k - 1].0;
        if w > bw.1 {
            (k - 1, w)
        } else {
            bw
        }
    }
}

/// Nucleus `b` cut in two at its middle.
pub open spec fn split_at(n: Seq<(usize, usize)>, b: int) -> Seq<(usize, usize)> {
    let s = n[b].0;
    let e = n[b].1;
    let mid = (s + (e - s) / 2) as usize;
    n.subrange(0, b) + seq![(s, mid), (mid, e)] + n.subrange(b + 1, n.len() as int)
}

/// Cut the widest nucleus in two until `target` nuclei exist or none is wider than one letter.
pub open spec fn splitted(n: Seq<(usize, usize)>, target: nat) -> Seq<(usize, usize)>
    decreases target - n.len(),
{
    let bw = widest(n, n.len() as int);
    if n.len() < target && 0 <= bw.0 < n.len() && bw.1 > 1 {
        splitted(split_at(n, bw.0), target)
    } else {
        n
    }
}

/// Where syllable `i` starts (syllable `k` "starts" at the end): the first
/// syllable at 0, the others one letter into the consonants between two
/// nuclei (or at the gap's start when it holds at most one), never past the end.
pub open spec fn boundary(n: Seq<(usize, usize)>, len: nat, i: int) -> int {
    if i == 0 {
        0
    } else if i >= n.len() {
        len as int
    } else {
        let gs = n[i - 1].1 as int;
        let ge = n[i].0 as int;
        let p = if ge - gs <= 1 {
            gs
        } else {
            gs + 1
        };
        if p <= len {
            p
        } else {
            len as int
        }
    }
}

/// The syllables that nuclei cut a word into.
pub open spec fn syllables_of(w: Seq<char>, n: Seq<(usize, usize)>) -> Seq<Seq<char>> {
    if n.len() <= 1 {
        seq![w]
    } else {
        Seq::new(n.len(), |i: int| w.subrange(boundary(n, w.len(), i), boundary(n, w.len(), i + 1)))
    }
}

/// The syllables `split` returns for a word and an expected syllable count.
pub open spec fn split_syllables(w: Seq<char>, expected: nat) -> Seq<Seq<char>> {
    let target: nat = if expected == 0 {
        1
    } else {
        expected
    };
    let n = nuclei_of(w);
    if w.len() == 0 || target == 1 || n.len() == 0 {
        seq![w]
    } else if n.len() > target {
        syllables_of(w, merged(n, target))
    } else if n.len() < target {
        syllables_of(w, splitted(n, target))
    } else {
        syllables_of(w, n)
    }
}

/// Parts joined with a separator between consecutive ones.
pub open spec fn joined(parts: Seq<Seq<char>>, sep: char) -> Seq<char>
    decreases parts.len(),
{
    if parts.len() == 0 {
        Seq::empty()
    } else if parts.len() == 1 {
        parts[0]
    } else {
        joined(parts.drop_last(), sep) + seq![sep] + parts.last()
    }
}

/// The stress of syllable `i`: its entry in `stresses`, 0 past the end.
pub open spec fn stress_at(stresses: Seq<i32>, i: int) -> i32 {
    if 0 <= i < stresses.len() {
        stresses[i]
    } else {
        0
    }
}

/// Stressed syllables upper-cased, the others lower-cased, joined with hyphens.
pub open spec fn stress_shown(w: Seq<char>, stresses: Seq<i32>) -> Seq<char> {
    let syl = split_syllables(w, stresses.len());
    joined(
        Seq::new(
            syl.len(),
            |i: int|
                if stress_at(stresses, i) > 0 {
                    upper_str(syl[i])
                } else {
                    lower_str(syl[i])
                },
        ),
        '-',
    )
}

proof fn lemma_vowel_runs(w: Seq<char>)
    requires
        w.len() <= usize::MAX,
    ensures
        ordered(vowel_runs(w)),
        forall|i: int| 0 <= i < vowel_runs(w).len() ==> (#[trigger] vowel_runs(w)[i]).0 < vowel_runs(w)[i].1 <= w.len(),
        vowel_runs(w).len() > 0 ==> (vowel_runs(w).last().1 == w.len() <==> (w.len() > 0 && split_vowel(w.last()))),
        (w.len() > 0 && split_vowel(w.last())) ==> vowel_runs(w).len() > 0,
    decreases w.len(),
{
    if w.len() > 0 {
        let v = w.drop_last();
        lemma_vowel_runs(v);
        let r = vowel_runs(v);
        let r2 = vowel_runs(w);
        let n = w.len() - 1;
        if !split_vowel(w.last()) {
            assert(r2 == r);
        } else if w.len() >= 2 && split_vowel(w[n - 1]) && r.len() > 0 {
            assert(v.last() == w[n - 1]);
            assert(r.last().1 == v.len());
            assert(r2 == r.update(r.len() - 1, (r.last().0, w.len() as usize)));
            assert forall|i: int| 0 <= i < r2.len() implies (#[trigger] r2[i]).0 < r2[i].1 <= w.len() by {
                if i < r2.len() - 1 {
                    assert(r2[i] == r[i]);
                }
            }
            assert forall|i: int| 0 <= i < r2.len() implies (#[trigger] r2[i]).0 <= r2[i].1 by {}
            assert forall|i: int| 0 <= i < r2.len() - 1 implies #[trigger] gap(r2, i) >= 0 by {
                assert(r2[i] == r[i]);
                assert(gap(r, i) >= 0);
            }
        } else {
            assert(r2 == r.push((n as usize, w.len() as usize)));
            assert forall|i: int| 0 <= i < r2.len() implies (#[trigger] r2[i]).0 < r2[i].1 <= w.len() by {
                if i < r2.len() - 1 {
                    assert(r2[i] == r[i]);
                }
            }
            assert forall|i: int| 0 <= i < r2.len() implies (#[trigger] r2[i]).0 <= r2[i].1 by {}
            assert forall|i: int| 0 <= i < r2.len() - 1 implies #[trigger] gap(r2, i) >= 0 by {
                assert(r2[i] == r[i]);
                if i < r.len() - 1 {
                    assert(gap(r, i) >= 0);
                } else {
                    assert(r[i].1 <= v.len());
                }
            }
        }
    }
}

proof fn lemma_nuclei_ordered(w: Seq<char>)
    requires
        w.len() <= usize::MAX,
    ensures
        ordered(nuclei_of(w)),
{
    lemma_vowel_runs(w);
    let r = vowel_runs(w);
    if silent_final_e(w, r) {
        let d = r.drop_last();
        assert forall|i: int| 0 <= i < d.len() - 1 implies #[trigger] gap(d, i) >= 0 by {
            assert(gap(r, i) >= 0);
        }
    }
}

proof fn lemma_min_gap_index(n: Seq<(usize, usize)>, k: int)
    ensures
        k >= 1 ==> 0 <= min_gap_index(n, k) < k,
    decreases k,
{
    if k > 1 {
        lemma_min_gap_index(n, k - 1);
    }
}

proof fn lemma_widest(n: Seq<(usize, usize)>, k: int)
    ensures
        k >= 1 ==> 0 <= widest(n, k).0 < k,
        k <= 0 ==> widest(n, k) == (0int, 0int),
        widest(n, k).1 >= 0,
    decreases k,
{
    if k > 0 {
        lemma_widest(n, k - 1);
    }
}

proof fn lemma_merge_at_ordered(n: Seq<(usize, usize)>, b: int)
    requires
        ordered(n),
        0 <= b < n.len() - 1,
    ensures
        ordered(merge_at(n, b)),
        merge_at(n, b).len() == n.len() - 1,
{
    let m = merge_at(n, b);
    assert(m.len() == n.len() - 1);
    assert forall|i: int| 0 <= i < m.len() implies (#[trigger] m[i]).0 <= m[i].1 by {
        if i < b {
            assert(m[i] == n[i]);
        } else if i == b {
            assert(gap(n, b) >= 0);
            assert(n[b].0 <= n[b].1 <= n[b + 1].0 <= n[b + 1].1);
        } else {
            assert(m[i] == n[i + 1]);
        }
    }
    assert forall|i: int| 0 <= i < m.len() - 1 implies #[trigger] gap(m, i) >= 0 by {
        if i < b - 1 {
            assert(m[i] == n[i] && m[i + 1] == n[i + 1]);
            assert(gap(n, i) >= 0);
        } else if i == b - 1 {
            assert(m[i] == n[i]);
            assert(gap(n, i) >= 0);
        } else if i == b {
            assert(m[i + 1] == n[i + 2]);
            assert(gap(n, i + 1) >= 0);
        } else {
            assert(m[i] == n[i + 1] && m[i + 1] == n[i + 2]);
            assert(gap(n, i + 1) >= 0);
        }
    }
}

proof fn lemma_split_at_ordered(n: Seq<(usize, usize)>, b: int)
    requires
        ordered(n),
        0 <= b < n.len(),
    ensures
        ordered(split_at(n, b)),
        split_at(n, b).len() == n.len() + 1,
{
    let m = split_at(n, b);
    assert(m.len() == n.len() + 1);
    assert forall|i: int| 0 <= i < m.len() implies (#[trigger] m[i]).0 <= m[i].1 by {
        if i < b {
            assert(m[i] == n[i]);
        } else if i > b + 1 {
            assert(m[i] == n[i - 1]);
        }
    }
    assert forall|i: int| 0 <= i < m.len() - 1 implies #[trigger] gap(m, i) >= 0 by {
        if i < b - 1 {
            assert(m[i] == n[i] && m[i + 1] == n[i + 1]);
            assert(gap(n, i) >= 0);
        } else if i == b - 1 {
            assert(m[i] == n[i]);
            assert(gap(n, i) >= 0);
        } else if i == b + 1 {
            assert(m[i + 1] == n[i]);
            assert(gap(n, i - 1) >= 0);
        } else if i > b + 1 {
            assert(m[i] == n[i - 1] && m[i + 1] == n[i]);
            assert(gap(n, i - 1) >= 0);
        }
    }
}

proof fn lemma_merged_ordered(n: Seq<(usize, usize)>, target: nat)
    requires
        ordered(n),
    ensures
        ordered(merged(n, target)),
    decreases n.len(),
{
    let b = min_gap_index(n, n.len() - 1);
    if n.len() > target && n.len() > 1 && 0 <= b < n.len() - 1 {
        lemma_merge_at_ordered(n, b);
        lemma_merged_ordered(merge_at(n, b), target);
    }
}

proof fn lemma_splitted_ordered(n: Seq<(usize, usize)>, target: nat)
    requires
        ordered(n),
    ensures
        ordered(splitted(n, target)),
    decreases target - n.len(),
{
    let bw = widest(n, n.len() as int);
    if n.len() < target && 0 <= bw.0 < n.len() && bw.1 > 1 {
        lemma_split_at_ordered(n, bw.0);
        lemma_splitted_ordered(split_at(n, bw.0), target);
    }
}

/// Between ordered nuclei the syllable boundaries climb from 0 to the end.
proof fn lemma_boundary_climbs(n: Seq<(usize, usize)>, len: nat, i: int)
    requires
        ordered(n),
        0 <= i < n.len(),
    ensures
        0 <= boundary(n, len, i) <= boundary(n, len, i + 1) <= len,
{
    if i > 0 {
        assert(gap(n, i - 1) >= 0);
        assert(n[i].0 <= n[i].1);
    }
    if i + 1 < n.len() {
        assert(gap(n, i) >= 0);
    }
}

/// The first `j` pieces cut by ordered nuclei spell the word up to boundary `j`.
proof fn lemma_prefix_spells(w: Seq<char>, n: Seq<(usize, usize)>, j: int)
    requires
        ordered(n),
        n.len() > 1,
        0 <= j <= n.len(),
    ensures
        0 <= boundary(n, w.len(), j) <= w.len(),
        syllables_of(w, n).take(j).flatten() == w.subrange(0, boundary(n, w.len(), j)),
    decreases j,
{
    let s = syllables_of(w, n);
    let len = w.len();
    if j == 0 {
        assert(s.take(0) =~= Seq::<Seq<char>>::empty());
        assert(w.subrange(0, 0) =~= Seq::<char>::empty());
    } else {
        lemma_prefix_spells(w, n, j - 1);
        lemma_boundary_climbs(n, len, j - 1);
        let lo = boundary(n, len, j - 1);
        let hi = boundary(n, len, j);
        assert(s[j - 1] == w.subrange(lo, hi));
        assert(s.take(j) =~= s.take(j - 1).push(s[j - 1]));
        s.take(j - 1).lemma_flatten_push(s[j - 1]);
        assert(w.subrange(0, lo) + w.subrange(lo, hi) =~= w.subrange(0, hi));
    }
}

/// The pieces cut by ordered nuclei, put back together, give the word.
proof fn lemma_syllables_spell(w: Seq<char>, n: Seq<(usize, usize)>)
    requires
        ordered(n),
    ensures
        syllables_of(w, n).flatten() == w,
{
    let s = syllables_of(w, n);
    if n.len() <= 1 {
        s.lemma_flatten_one_element();
    } else {
        lemma_prefix_spells(w, n, n.len() as int);
        assert(s.take(n.len() as int) =~= s);
        assert(w.subrange(0, w.len() as int) =~= w);
    }
}

/// Whatever syllable count is asked for, the syllables `split` returns spell
/// the word when put back together in order.
pub proof fn lemma_split_spells_word(w: Seq<char>, expected: nat)
    requires
        w.len() <= usize::MAX,
    ensures
        split_syllables(w, expected).flatten() == w,
{
    let target: nat = if expected == 0 {
        1
    } else {
        expected
    };
    let n = nuclei_of(w);
    lemma_nuclei_ordered(w);
    if w.len() == 0 || target == 1 || n.len() == 0 {
        seq![w].lemma_flatten_one_element();
    } else if n.len() > target {
        lemma_merged_ordered(n, target);
        lemma_syllables_spell(w, merged(n, target));
    } else if n.len() < target {
        lemma_splitted_ordered(n, target);
        lemma_syllables_spell(w, splitted(n, target));
    } else {
        lemma_syllables_spell(w, n);
    }
}

/// The pieces of an ASCII word are ASCII.
proof fn lemma_split_pieces_ascii(w: Seq<char>, expected: nat)
    requires
        w.len() <= usize::MAX,
        is_ascii(w),
    ensures
        forall|i: int| 0 <= i < split_syllables(w, expected).len() ==> is_ascii(#[trigger] split_syllables(w, expected)[i]),
{
    let target: nat = if expected == 0 {
        1
    } else {
        expected
    };
    let n = nuclei_of(w);
    lemma_nuclei_ordered(w);
    if w.len() == 0 || target == 1 || n.len() == 0 {
    } else if n.len() > target {
        lemma_merged_ordered(n, target);
        lemma_pieces_ascii(w, merged(n, target));
    } else if n.len() < target {
        lemma_splitted_ordered(n, target);
        lemma_pieces_ascii(w, splitted(n, target));
    } else {
        lemma_pieces_ascii(w, n);
    }
}

proof fn lemma_pieces_ascii(w: Seq<char>, n: Seq<(usize, usize)>)
    requires
        ordered(n),
        is_ascii(w),
    ensures
        forall|i: int| 0 <= i < syllables_of(w, n).len() ==> is_ascii(#[trigger] syllables_of(w, n)[i]),
{
    if n.len() > 1 {
        assert forall|i: int| 0 <= i < syllables_of(w, n).len() implies is_ascii(#[trigger] syllables_of(w, n)[i]) by {
            lemma_boundary_climbs(n, w.len(), i);
            let lo = boundary(n, w.len(), i);
            let p = syllables_of(w, n)[i];
            assert forall|j: int| 0 <= j < p.len() implies (#[trigger] p[j] as u32) < 128 by {
                assert(p[j] == w[lo + j]);
            }
        }
    }
}

/// What `str::to_uppercase` gives for ASCII text is its ASCII upper-casing.
proof fn lemma_upper_piece(p: Seq<char>, q: Seq<char>)
    requires
        is_ascii(p),
        (forall|i: int| 0 <= i < p.len() ==> (p[i] as u32) < 128) ==> q.len() == p.len() && (forall|i: int|
            0 <= i < p.len() ==> (if is_ascii_lower(p[i]) {
                q[i] as u32 == (p[i] as u32) - 32
            } else {
                q[i] == p[i]
            })),
    ensures
        q == p.map_values(|c: char| ascii_upper(c)),
{
    assert(forall|i: int| 0 <= i < p.len() ==> (p[i] as u32) < 128);
    assert forall|i: int| 0 <= i < p.len() implies #[trigger] q[i] == ascii_upper(p[i]) by {
        lemma_case_shift(q[i], p[i]);
    }
    assert(q =~= p.map_values(|c: char| ascii_upper(c)));
}

/// What `str::to_lowercase` gives for ASCII text is its ASCII lower-casing.
proof fn lemma_lower_piece(p: Seq<char>, q: Seq<char>)
    requires
        is_ascii(p),
        (forall|i: int| 0 <= i < p.len() ==> (p[i] as u32) < 128) ==> q.len() == p.len() && (forall|i: int|
            0 <= i < p.len() ==> (if is_ascii_upper(p[i]) {
                q[i] as u32 == (p[i] as u32) + 32
            } else {
                q[i] == p[i]
            })),
    ensures
        q == p.map_values(|c: char| ascii_lower(c)),
{
    assert(forall|i: int| 0 <= i < p.len() ==> (p[i] as u32) < 128);
    assert forall|i: int| 0 <= i < p.len() implies #[trigger] q[i] == ascii_lower(p[i]) by {
        lemma_case_shift(q[i], p[i]);
    }
    assert(q =~= p.map_values(|c: char| ascii_lower(c)));
}

/// The stress display of an ASCII word, piece by piece: the syllables of
/// `split`, upper-cased where the syllable's stress is above 0 and
/// lower-cased elsewhere.
pub open spec fn ascii_shown_pieces(w: Seq<char>, stresses: Seq<i32>) -> Seq<Seq<char>> {
    let syl = split_syllables(w, stresses.len());
    Seq::new(
        syl.len(),
        |i: int|
            if stress_at(stresses, i) > 0 {
                syl[i].map_values(|c: char| ascii_upper(c))
            } else {
                syl[i].map_values(|c: char| ascii_lower(c))
            },
    )
}

proof fn lemma_ascii_shown_at(w: Seq<char>, stresses: Seq<i32>, k: int)
    requires
        0 <= k < split_syllables(w, stresses.len()).len(),
    ensures
        ascii_shown_pieces(w, stresses).len() == split_syllables(w, stresses.len()).len(),
        ascii_shown_pieces(w, stresses)[k] == (if stress_at(stresses, k) > 0 {
            split_syllables(w, stresses.len())[k].map_values(|c: char| ascii_upper(c))
        } else {
            split_syllables(w, stresses.len())[k].map_values(|c: char| ascii_lower(c))
        }),
{
}

/// Lower-casing distributes over putting pieces together.
proof fn lemma_flatten_lower(ps: Seq<Seq<char>>)
    ensures
        ps.flatten().map_values(|c: char| ascii_lower(c)) == ps.map_values(
            |p: Seq<char>| p.map_values(|c: char| ascii_lower(c)),
        ).flatten(),
    decreases ps.len(),
{
    if ps.len() > 0 {
        lemma_flatten_lower(ps.drop_first());
        let lp = ps.map_values(|p: Seq<char>| p.map_values(|c: char| ascii_lower(c)));
        assert(lp.drop_first() =~= ps.drop_first().map_values(|p: Seq<char>| p.map_values(|c: char| ascii_lower(c))));
        assert((ps[0] + ps.drop_first().flatten()).map_values(|c: char| ascii_lower(c)) =~= ps[0].map_values(
            |c: char| ascii_lower(c),
        ) + ps.drop_first().flatten().map_values(|c: char| ascii_lower(c)));
    } else {
        assert(ps.flatten().map_values(|c: char| ascii_lower(c)) =~= Seq::<char>::empty());
    }
}

/// The stress display of an ASCII word has one piece per syllable of
/// `split`, each upper-cased or lower-cased by its stress; put together and
/// lower-cased, the pieces spell the lower-cased word.
pub proof fn lemma_stress_display_spells(w: Seq<char>, stresses: Seq<i32>)
    requires
        w.len() <= usize::MAX,
        is_ascii(w),
    ensures
        ascii_shown_pieces(w, stresses).len() == split_syllables(w, stresses.len()).len(),
        ascii_shown_pieces(w, stresses).flatten().map_values(|c: char| ascii_lower(c)) == w.map_values(
            |c: char| ascii_lower(c),
        ),
{
    let syl = split_syllables(w, stresses.len());
    let ps = ascii_shown_pieces(w, stresses);
    lemma_split_spells_word(w, stresses.len());
    lemma_flatten_lower(ps);
    lemma_flatten_lower(syl);
    let lp = ps.map_values(|p: Seq<char>| p.map_values(|c: char| ascii_lower(c)));
    let ls = syl.map_values(|p: Seq<char>| p.map_values(|c: char| ascii_lower(c)));
    assert forall|i: int| 0 <= i < lp.len() implies #[trigger] lp[i] == ls[i] by {
        assert forall|j: int| 0 <= j < syl[i].len() implies ascii_lower(#[trigger] ps[i][j]) == ascii_lower(syl[i][j]) by {
            lemma_ascii_lower_after(syl[i][j]);
        }
        assert(lp[i] =~= ls[i]);
    }
    assert(lp =~= ls);
}

/// The vowel runs of a word are exactly its maximal stretches of vowels:
/// each run holds only vowels, is bounded by non-vowels or the word's ends,
/// and every vowel of the word lies in one of them.
pub proof fn lemma_vowel_runs_maximal(w: Seq<char>)
    requires
        w.len() <= usize::MAX,
    ensures
        forall|i: int, p: int|
            0 <= i < vowel_runs(w).len() && (#[trigger] vowel_runs(w)[i]).0 <= p < vowel_runs(w)[i].1 ==> split_vowel(
                #[trigger] w[p],
            ) && #[trigger] vowel_runs(w)[i].1 <= w.len(),
        forall|i: int|
            0 <= i < vowel_runs(w).len() ==> (#[trigger] vowel_runs(w)[i]).0 == 0 || !split_vowel(
                w[vowel_runs(w)[i].0 - 1],
            ),
        forall|i: int|
            0 <= i < vowel_runs(w).len() ==> (#[trigger] vowel_runs(w)[i]).1 == w.len() || !split_vowel(
                w[vowel_runs(w)[i].1 as int],
            ),
        forall|p: int|
            0 <= p < w.len() && split_vowel(#[trigger] w[p]) ==> exists|i: int|
                0 <= i < vowel_runs(w).len() && (#[trigger] vowel_runs(w)[i]).0 <= p < vowel_runs(w)[i].1,
    decreases w.len(),
{
    lemma_vowel_runs(w);
    if w.len() > 0 {
        let d = w.drop_last();
        let n = w.len() - 1;
        lemma_vowel_runs_maximal(d);
        lemma_vowel_runs(d);
        let r = vowel_runs(d);
        let r2 = vowel_runs(w);
        assert forall|p: int| 0 <= p < d.len() implies d[p] == w[p] by {}
        if !split_vowel(w.last()) {
            assert(r2 == r);
            assert forall|i: int| 0 <= i < r2.len() implies (#[trigger] r2[i]).1 == w.len() || !split_vowel(
                w[r2[i].1 as int],
            ) by {
                if r[i].1 == d.len() {
                    assert(r2[i].1 == n);
                }
            }
            assert forall|p: int| 0 <= p < w.len() && split_vowel(#[trigger] w[p]) implies exists|i: int|
                0 <= i < r2.len() && (#[trigger] r2[i]).0 <= p < r2[i].1 by {
                assert(p < n);
                assert(split_vowel(d[p]));
            }
        } else if w.len() >= 2 && split_vowel(w[n - 1]) && r.len() > 0 {
            assert(d.last() == w[n - 1]);
            assert(r.last().1 == d.len());
            let last = r.len() - 1;
            assert(r2 == r.update(last, (r[last].0, w.len() as usize)));
            assert forall|i: int, p: int|
                0 <= i < r2.len() && r2[i].0 <= p < r2[i].1 implies split_vowel(#[trigger] w[p]) && #[trigger] r2[i].1
                <= w.len() by {
                if i < last {
                    assert(r2[i] == r[i]);
                } else if p < n {
                    assert(split_vowel(d[p]));
                }
            }
            assert forall|i: int| 0 <= i < r2.len() implies (#[trigger] r2[i]).0 == 0 || !split_vowel(
                w[r2[i].0 - 1],
            ) by {
                assert(r2[i].0 == r[i].0);
                if r[i].0 > 0 {
                    assert(d[r[i].0 - 1] == w[r[i].0 - 1]);
                }
            }
            assert forall|i: int| 0 <= i < r2.len() implies (#[trigger] r2[i]).1 == w.len() || !split_vowel(
                w[r2[i].1 as int],
            ) by {
                if i < last {
                    assert(r2[i] == r[i]);
                    assert(gap(r, i) >= 0);
                    assert(r[i].1 <= r[i + 1].0);
                    if r[i].1 == d.len() {
                        assert(r[last].1 == d.len());
                        assert(r[i + 1].0 < r[i + 1].1);
                    }
                    assert(r[i].1 < d.len());
                    assert(d[r[i].1 as int] == w[r[i].1 as int]);
                }
            }
            assert forall|p: int| 0 <= p < w.len() && split_vowel(#[trigger] w[p]) implies exists|i: int|
                0 <= i < r2.len() && (#[trigger] r2[i]).0 <= p < r2[i].1 by {
                if p < n {
                    assert(split_vowel(d[p]));
                    let i = choose|i: int| 0 <= i < r.len() && (#[trigger] r[i]).0 <= p < r[i].1;
                    if i < last {
                        assert(r2[i] == r[i]);
                    } else {
                        assert(r2[last].0 <= p < r2[last].1);
                    }
                } else {
                    assert(r2[last].0 <= p < r2[last].1);
                }
            }
        } else {
            assert(r2 == r.push((n as usize, w.len() as usize)));
            assert forall|i: int, p: int|
                0 <= i < r2.len() && r2[i].0 <= p < r2[i].1 implies split_vowel(#[trigger] w[p]) && #[trigger] r2[i].1
                <= w.len() by {
                if i < r.len() {
                    assert(r2[i] == r[i]);
                    assert(split_vowel(d[p]));
                }
            }
            assert forall|i: int| 0 <= i < r2.len() implies (#[trigger] r2[i]).0 == 0 || !split_vowel(
                w[r2[i].0 - 1],
            ) by {
                if i < r.len() {
                    assert(r2[i] == r[i]);
                    if r[i].0 > 0 {
                        assert(d[r[i].0 - 1] == w[r[i].0 - 1]);
                    }
                } else if n > 0 {
                    if split_vowel(w[n - 1]) {
                        assert(split_vowel(d[n - 1]));
                        assert(r.len() > 0);
                    }
                }
            }
            assert forall|i: int| 0 <= i < r2.len() implies (#[trigger] r2[i]).1 == w.len() || !split_vowel(
                w[r2[i].1 as int],
            ) by {
                if i < r.len() {
                    assert(r2[i] == r[i]);
                    if r[i].1 == d.len() {
                        // the previous letter ends a run, so it is a vowel
                        assert(r[i].0 < r[i].1);
                        assert(split_vowel(d[r[i].1 - 1]));
                        assert(n >= 1 && split_vowel(w[n - 1]));
                    } else {
                        assert(d[r[i].1 as int] == w[r[i].1 as int]);
                    }
                }
            }
            assert forall|p: int| 0 <= p < w.len() && split_vowel(#[trigger] w[p]) implies exists|i: int|
                0 <= i < r2.len() && (#[trigger] r2[i]).0 <= p < r2[i].1 by {
                if p < n {
                    assert(split_vowel(d[p]));
                    let i = choose|i: int| 0 <= i < r.len() && (#[trigger] r[i]).0 <= p < r[i].1;
                    assert(r2[i] == r[i]);
                } else {
                    assert(r2[r.len() as int] == (n as usize, w.len() as usize));
                }
            }
        }
    }
}

/// Unless the word ends in a silent e, its nuclei are its vowel runs (or,
/// with no vowel at all, one nucleus over the whole word).
pub proof fn lemma_nuclei_are_vowel_runs(w: Seq<char>)
    requires
        w.len() <= usize::MAX,
        !(w.len() >= 2 && upper_first(w.last()) == 'E' && !split_vowel(w[w.len() - 2]) && exists|k: int|
            0 <= k < w.len() - 2 && split_vowel(#[trigger] w[k])),
    ensures
        vowel_runs(w).len() > 0 ==> nuclei_of(w) == vowel_runs(w),
{
    let r = vowel_runs(w);
    lemma_vowel_runs(w);
    lemma_vowel_runs_maximal(w);
    if silent_final_e(w, r) {
        let n = w.len() - 1;
        let last = r.len() - 1;
        assert(r[last] == (n as usize, w.len() as usize));
        assert(split_vowel(w[n]));
        // the run before the final e ends before it, so the letter before the e is no vowel
        assert(gap(r, last - 1) >= 0);
        assert(r[last - 1].1 <= n);
        assert(r[last].0 == 0 || !split_vowel(w[r[last].0 - 1]));
        let p = r[last - 1].0 as int;
        assert(r[last - 1].0 < r[last - 1].1);
        assert(split_vowel(w[p]));
        if r[last - 1].1 == n {
            assert(!split_vowel(w[n - 1]) || r[last].0 == 0);
        }
        assert(w.len() >= 2);
        assert(!split_vowel(w[w.len() - 2]));
        assert(p < w.len() - 2) by {
            if p >= w.len() - 2 {
                assert(p == n - 1);
            }
        }
        assert(false);
    }
}

proof fn lemma_merged_len(n: Seq<(usize, usize)>, target: nat)
    requires
        ordered(n),
        1 <= target <= n.len(),
    ensures
        merged(n, target).len() == target,
    decreases n.len(),
{
    let b = min_gap_index(n, n.len() - 1);
    if n.len() > target {
        lemma_min_gap_index(n, n.len() - 1);
        lemma_merge_at_ordered(n, b);
        lemma_merged_len(merge_at(n, b), target);
    }
}

proof fn lemma_splitted_len(n: Seq<(usize, usize)>, target: nat)
    requires
        ordered(n),
        n.len() <= target,
    ensures
        n.len() <= splitted(n, target).len() <= target,
    decreases target - n.len(),
{
    let bw = widest(n, n.len() as int);
    if n.len() < target && 0 <= bw.0 < n.len() && bw.1 > 1 {
        lemma_split_at_ordered(n, bw.0);
        lemma_splitted_len(split_at(n, bw.0), target);
    }
}

/// A non-empty word is split into at least one and at most the asked number
/// of syllables (one when none or one is asked), and into exactly that many
/// when it has at least that many vowel nuclei.
pub proof fn lemma_split_count(w: Seq<char>, expected: nat)
    requires
        w.len() <= usize::MAX,
        w.len() > 0,
    ensures
        1 <= split_syllables(w, expected).len(),
        split_syllables(w, expected).len() <= if expected == 0 { 1 } else { expected },
        expected >= 1 && nuclei_of(w).len() >= expected ==> split_syllables(w, expected).len() == expected,
{
    let target: nat = if expected == 0 {
        1
    } else {
        expected
    };
    let n = nuclei_of(w);
    lemma_nuclei_ordered(w);
    if w.len() == 0 || target == 1 || n.len() == 0 {
    } else if n.len() > target {
        lemma_merged_ordered(n, target);
        lemma_merged_len(n, target);
    } else if n.len() < target {
        lemma_splitted_ordered(n, target);
        lemma_splitted_len(n, target);
    }
}

/// A word with a vowel has a vowel run.
proof fn lemma_vowel_runs_nonempty(w: Seq<char>, k: int)
    requires
        0 <= k < w.len(),
        split_vowel(w[k]),
    ensures
        vowel_runs(w).len() > 0,
    decreases w.len(),
{
    if !split_vowel(w.last()) {
        assert(w.drop_last()[k] == w[k]);
        lemma_vowel_runs_nonempty(w.drop_last(), k);
    }
}

/// A final single e after a consonant, in a word with an earlier vowel, is
/// silent: the word's nuclei are the vowel runs of the word without that e,
/// so none of them reaches the final letter.
pub proof fn lemma_silent_final_e(w: Seq<char>, k: int)
    requires
        w.len() <= usize::MAX,
        w.len() >= 2,
        upper_first(w.last()) == 'E',
        !split_vowel(w[w.len() - 2]),
        0 <= k < w.len() - 2,
        split_vowel(w[k]),
    ensures
        nuclei_of(w) == vowel_runs(w.drop_last()),
        nuclei_of(w).len() > 0,
        forall|i: int| 0 <= i < nuclei_of(w).len() ==> (#[trigger] nuclei_of(w)[i]).1 < w.len(),
{
    let d = w.drop_last();
    let n = w.len() - 1;
    assert(d[k] == w[k]);
    assert(d[n - 1] == w[n - 1]);
    lemma_vowel_runs_nonempty(d, k);
    lemma_vowel_runs(d);
    let r = vowel_runs(w);
    assert(split_vowel(w.last()));
    assert(r == vowel_runs(d).push((n as usize, w.len() as usize)));
    assert(silent_final_e(w, r));
    assert(r.drop_last() =~= vowel_runs(d));
}

impl SyllableSplitter {
    /// Split a word into about `expected_syllables` written syllables around
    /// its vowel groups.
    pub fn split(word: &str, expected_syllables: usize) -> (r: Vec<String>)
        ensures
            word@.len() <= usize::MAX,
            r@.len() == split_syllables(word@, expected_syllables as nat).len(),
            forall|i: int|
                0 <= i < r@.len() ==> (#[trigger] r@[i])@ == split_syllables(
                    word@,
                                        expected_syllables as nat,
                )[i],
    {
        let expected = if expected_syllables == 0 {
            1
        } else {
            expected_syllables
        };
        let chars = chars_of(word);
        let mut single: Vec<String> = Vec::new();
        single.push(word.to_owned());
        if word.is_empty() || expected == 1 {
            return single;
        }
        let mut nuclei = find_nuclei(word);
        proof {
            lemma_nuclei_ordered(word@);
        }
        if nuclei.len() == 0 {
            return single;
        }
        if nuclei.len() > expected {
            nuclei = merge_nuclei(nuclei, expected);
        } else if nuclei.len() < expected {
            nuclei = split_nuclei(nuclei, expected);
        }
        build_syllables(&chars, &nuclei)
    }

    /// Stressed syllables in upper case, unstressed in lower case, joined by
    /// hyphens ("hel-LO").
    pub fn stress_display(word: &str, stresses: &[i32]) -> (r: String)
        ensures
            r@ == stress_shown(word@, stresses@),
            is_ascii(word@) ==> r@ == joined(ascii_shown_pieces(word@, stresses@), '-'),
    {
        let syllables = Self::split(word, stresses.len());
        let ghost syl = split_syllables(word@, stresses@.len());
        let ghost asc = ascii_shown_pieces(word@, stresses@);
        proof {
            if is_ascii(word@) {
                lemma_split_pieces_ascii(word@, stresses@.len());
            }
        }
        let ghost parts = Seq::new(
            syl.len(),
            |i: int|
                if stress_at(stresses@, i) > 0 {
                    upper_str(syl[i])
                } else {
                    lower_str(syl[i])
                },
        );
        let mut out = String::new();
        let mut i: usize = 0;
        while i < syllables.len()
            invariant
                i <= syllables@.len(),
                syllables@.len() == syl.len(),
                forall|k: int| 0 <= k < syllables@.len() ==> (#[trigger] syllables@[k])@ == syl[k],
                parts.len() == syl.len(),
                forall|k: int|
                    0 <= k < parts.len() ==> #[trigger] parts[k] == if stress_at(stresses@, k) > 0 {
                        upper_str(syl[k])
                    } else {
                        lower_str(syl[k])
                    },
                out@ == joined(parts.take(i as int), '-'),
                asc == ascii_shown_pieces(word@, stresses@),
                syl == split_syllables(word@, stresses@.len()),
                is_ascii(word@) ==> forall|k: int| 0 <= k < syl.len() ==> is_ascii(#[trigger] syl[k]),
                is_ascii(word@) ==> forall|k: int| 0 <= k < i ==> #[trigger] parts[k] == asc[k],
            decreases syllables@.len() - i,
        {
            let stress = if i < stresses.len() {
                stresses[i]
            } else {
                0
            };
            let part = if stress > 0 {
                str_to_upper(syllables[i].as_str())
            } else {
                str_to_lower(syllables[i].as_str())
            };
            proof {
                let k = i as int;
                assert(stress as int == stress_at(stresses@, k) as int);
                if is_ascii(word@) {
                    let p = syl[k];
                    assert(syllables@[k]@ == p);
                    assert(is_ascii(p));
                    let ghost want = if stress_at(stresses@, k) > 0 {
                        p.map_values(|c: char| ascii_upper(c))
                    } else {
                        p.map_values(|c: char| ascii_lower(c))
                    };
                    lemma_ascii_shown_at(word@, stresses@, k);
                    assert(asc[k] == want);
                    if stress > 0 {
                        lemma_upper_piece(p, part@);
                        assert(part@ == upper_str(p));
                    } else {
                        lemma_lower_piece(p, part@);
                        assert(part@ == lower_str(p));
                    }
                    assert(parts[k] == part@);
                    assert(parts[k] == asc[k]);
                }
            }
            if i > 0 {
                out.append("-");
                proof {
                    reveal_strlit("-");
                }
            }
            out.append(part.as_str());
            i += 1;
            proof {
                assert(parts.take(i as int).drop_last() =~= parts.take(i - 1));
                if i == 1 {
                    assert(out@ =~= parts[0]);
                } else {
                    assert(out@ =~= joined(parts.take(i - 1), '-') + seq!['-'] + parts[i - 1]);
                }
            }
        }
        proof {
            assert(parts.take(syllables@.len() as int) =~= parts);
            if is_ascii(word@) {
                assert(parts =~= asc);
            }
        }
        out
    }
}

impl SyllableSplitter {
    /// The stress displays of a line's words, joined by spaces.
    pub fn format_line(words: &[WordStress]) -> (r: String)
        ensures
            r@ == joined(
                Seq::new(words@.len(), |i: int| stress_shown(words@[i].word@, words@[i].stresses@)),
                ' ',
            ),
    {
        let ghost parts = Seq::new(words@.len(), |i: int| stress_shown(words@[i].word@, words@[i].stresses@));
        let mut out = String::new();
        let mut i: usize = 0;
        while i < words.len()
            invariant
                i <= words@.len(),
                parts == Seq::new(words@.len(), |i: int| stress_shown(words@[i].word@, words@[i].stresses@)),
                out@ == joined(parts.take(i as int), ' '),
            decreases words@.len() - i,
        {
            let part = Self::stress_display(words[i].word.as_str(), words[i].stresses.as_slice());
            if i > 0 {
                out.append(" ");
                proof {
                    reveal_strlit(" ");
                }
            }
            out.append(part.as_str());
            i += 1;
            proof {
                assert(parts.take(i as int).drop_last() =~= parts.take(i - 1));
                if i == 1 {
                    assert(out@ =~= parts[0]);
                } else {
                    assert(out@ =~= joined(parts.take(i - 1), ' ') + seq![' '] + parts[i - 1]);
                }
            }
        }
        proof {
            assert(parts.take(words@.len() as int) =~= parts);
        }
        out
    }
}

/// Check if a letter is a vowel for splitting.
pub fn is_vowel(c: char) -> (r: bool)
    ensures
        r == split_vowel(c),
{
    let u = to_upper_first(c);
    u == 'A' || u == 'E' || u == 'I' || u == 'O' || u == 'U' || u == 'Y'
}

/// The vowel nuclei of a word, as character ranges.
pub fn find_nuclei(word: &str) -> (r: Vec<(usize, usize)>)
    ensures
        r@ == nuclei_of(word@),
{
    let chars = chars_of(word);
    let mut runs: Vec<(usize, usize)> = Vec::new();
    let mut i: usize = 0;
    while i < chars.len()
        invariant
            i <= chars@.len(),
            chars@ == word@,
            runs@ == vowel_runs(chars@.take(i as int)),
        decreases chars@.len() - i,
    {
        let ghost before = chars@.take(i as int);
        let ghost after = chars@.take(i + 1);
        proof {
            assert(after.drop_last() =~= before);
            lemma_vowel_runs(before);
        }
        if is_vowel(chars[i]) {
            if i > 0 && is_vowel(chars[i - 1]) && runs.len() > 0 {
                let last = runs.len() - 1;
                let start = runs[last].0;
                runs.set(last, (start, i + 1));
            } else {
                runs.push((i, i + 1));
            }
        }
        i += 1;
    }
    proof {
        assert(chars@.take(chars@.len() as int) =~= chars@);
        lemma_vowel_runs(chars@);
    }
    let n = runs.len();
    if n > 1 && runs[n - 1].1 == chars.len() && runs[n - 1].1 - runs[n - 1].0 == 1 && runs[n - 1].0 > 0
        && to_upper_first(chars[runs[n - 1].0]) == 'E' {
        runs.pop();
    }
    if runs.len() == 0 && chars.len() > 0 {
        runs.push((0, word.len()));
    }
    runs
}

/// The first of the closest pair of neighbouring nuclei.
fn closest_pair(nuclei: &Vec<(usize, usize)>) -> (b: usize)
    requires
        ordered(nuclei@),
        nuclei@.len() > 1,
    ensures
        b == min_gap_index(nuclei@, nuclei@.len() - 1),
        b < nuclei@.len() - 1,
{
    let ghost n = nuclei@;
    let mut best_idx: usize = 0;
    proof {
        assert(gap(n, 0) >= 0);
    }
    let mut best_gap: usize = nuclei[1].0 - nuclei[0].1;
    let mut i: usize = 1;
    while i < nuclei.len() - 1
        invariant
            n == nuclei@,
            ordered(n),
            n.len() > 1,
            1 <= i <= n.len() - 1,
            best_idx == min_gap_index(n, i as int),
            best_idx < i,
            best_gap == gap(n, best_idx as int),
        decreases n.len() - i,
    {
        proof {
            assert(gap(n, i as int) >= 0);
        }
        let g = nuclei[i + 1].0 - nuclei[i].1;
        if g < best_gap {
            best_gap = g;
            best_idx = i;
        }
        i += 1;
    }
    best_idx
}

/// Join the closest nuclei until at most `target` remain.
pub fn merge_nuclei(nuclei: Vec<(usize, usize)>, target: usize) -> (r: Vec<(usize, usize)>)
    requires
        ordered(nuclei@),
    ensures
        r@ == merged(nuclei@, target as nat),
        ordered(r@),
{
    let ghost orig = nuclei@;
    let mut nuclei = nuclei;
    while nuclei.len() > target && nuclei.len() > 1
        invariant
            ordered(nuclei@),
            merged(nuclei@, target as nat) == merged(orig, target as nat),
        decreases nuclei@.len(),
    {
        let ghost n = nuclei@;
        let best_idx = closest_pair(&nuclei);
        proof {
            lemma_merge_at_ordered(n, best_idx as int);
        }
        let merged_pair = (nuclei[best_idx].0, nuclei[best_idx + 1].1);
        nuclei.set(best_idx, merged_pair);
        nuclei.remove(best_idx + 1);
        proof {
            assert(nuclei@ =~= merge_at(n, best_idx as int));
        }
    }
    nuclei
}

/// The first widest nucleus and its width.
fn widest_nucleus(nuclei: &Vec<(usize, usize)>) -> (r: (usize, usize))
    requires
        ordered(nuclei@),
    ensures
        (r.0 as int, r.1 as int) == widest(nuclei@, nuclei@.len() as int),
{
    let ghost n = nuclei@;
    let mut best_idx: usize = 0;
    let mut best_width: usize = 0;
    let mut i: usize = 0;
    while i < nuclei.len()
        invariant
            n == nuclei@,
            ordered(n),
            i <= n.len(),
            (best_idx as int, best_width as int) == widest(n, i as int),
        decreases n.len() - i,
    {
        proof {
            assert(n[i as int].0 <= n[i as int].1);
        }
        let width = nuclei[i].1 - nuclei[i].0;
        if width > best_width {
            best_width = width;
            best_idx = i;
        }
        i += 1;
    }
    (best_idx, best_width)
}

/// Cut the widest nucleus in half until `target` nuclei exist or none is
/// wider than one letter.
pub fn split_nuclei(nuclei: Vec<(usize, usize)>, target: usize) -> (r: Vec<(usize, usize)>)
    requires
        ordered(nuclei@),
    ensures
        r@ == splitted(nuclei@, target as nat),
        ordered(r@),
{
    let ghost orig = nuclei@;
    let mut nuclei = nuclei;
    while nuclei.len() < target
        invariant
            ordered(nuclei@),
            splitted(nuclei@, target as nat) == splitted(orig, target as nat),
        ensures
            ordered(nuclei@),
            splitted(orig, target as nat) == nuclei@,
        decreases target - nuclei@.len(),
    {
        let ghost n = nuclei@;
        let (best_idx, best_width) = widest_nucleus(&nuclei);
        proof {
            lemma_widest(n, n.len() as int);
        }
        if best_width <= 1 {
            break;
        }
        proof {
            lemma_split_at_ordered(n, best_idx as int);
        }
        let (s, e) = nuclei[best_idx];
        let mid = s + (e - s) / 2;
        nuclei.set(best_idx, (s, mid));
        nuclei.insert(best_idx + 1, (mid, e));
        proof {
            assert(nuclei@ =~= split_at(n, best_idx as int));
        }
    }
    nuclei
}

/// The syllables between the boundaries the nuclei define.
pub fn build_syllables(chars: &Vec<char>, nuclei: &Vec<(usize, usize)>) -> (r: Vec<String>)
    requires
        ordered(nuclei@),
    ensures
        r@.len() == syllables_of(chars@, nuclei@).len(),
        forall|i: int| 0 <= i < r@.len() ==> (#[trigger] r@[i])@ == syllables_of(chars@, nuclei@)[i],
{
    let len = chars.len();
    if nuclei.len() <= 1 {
        let mut one: Vec<String> = Vec::new();
        one.push(string_from(chars.as_slice()));
        return one;
    }
    let mut out: Vec<String> = Vec::new();
    let mut start: usize = 0;
    let mut i: usize = 0;
    while i < nuclei.len()
        invariant
            nuclei@.len() > 1,
            ordered(nuclei@),
            len == chars@.len(),
            i <= nuclei@.len(),
            start as int == boundary(nuclei@, len as nat, i as int),
            start <= len,
            out@.len() == i,
            forall|k: int|
                0 <= k < i ==> (#[trigger] out@[k])@ == chars@.subrange(
                    boundary(nuclei@, len as nat, k),
                    boundary(nuclei@, len as nat, k + 1),
                ),
        decreases nuclei@.len() - i,
    {
        let end = if i + 1 == nuclei.len() {
            len
        } else {
            proof {
                assert(gap(nuclei@, i as int) >= 0);
            }
            let gap_start = nuclei[i].1;
            let gap_end = nuclei[i + 1].0;
            let p = if gap_end - gap_start <= 1 {
                gap_start
            } else {
                gap_start + 1
            };
            if p <= len {
                p
            } else {
                len
            }
        };
        proof {
            assert(end as int == boundary(nuclei@, len as nat, i + 1));
            // boundaries never decrease
            if i > 0 {
                assert(gap(nuclei@, i - 1) >= 0);
            }
            assert(nuclei@[i as int].0 <= nuclei@[i as int].1);
        }
        let piece = string_from(&chars.as_slice()[start..end]);
        out.push(piece);
        start = end;
        i += 1;
    }
    out
}

} // verus!
