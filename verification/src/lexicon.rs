//! Words ordered as sequences of characters, and the sorted word list that
//! the dictionary keeps its entries in.

use vstd::prelude::*;

verus! {

/// Lexicographic order on character sequences, by code point; a proper prefix
/// comes first.
pub open spec fn lex_lt(a: Seq<char>, b: Seq<char>) -> bool
    decreases a.len(),
{
    if a.len() == 0 {
        b.len() > 0
    } else if b.len() == 0 {
        false
    } else if a[0] != b[0] {
        a[0] < b[0]
    } else {
        lex_lt(a.drop_first(), b.drop_first())
    }
}

/// Strictly increasing: every word comes before every later one.
pub open spec fn sorted_words(ks: Seq<Seq<char>>) -> bool {
    forall|i: int, j: int| 0 <= i < j < ks.len() ==> lex_lt(#[trigger] ks[i], #[trigger] ks[j])
}

/// The map that pairs each word of `ks` with the value at the same position of `vs`.
pub open spec fn pair_map<V>(ks: Seq<Seq<char>>, vs: Seq<V>) -> Map<Seq<char>, V> {
    Map::new(|q: Seq<char>| ks.contains(q), |q: Seq<char>| vs[ks.index_of(q)])
}

pub proof fn lemma_lex_irreflexive(a: Seq<char>)
    ensures
        !lex_lt(a, a),
    decreases a.len(),
{
    if a.len() > 0 {
        lemma_lex_irreflexive(a.drop_first());
    }
}

pub proof fn lemma_lex_asymmetric(a: Seq<char>, b: Seq<char>)
    ensures
        !(lex_lt(a, b) && lex_lt(b, a)),
    decreases a.len(),
{
    if a.len() > 0 && b.len() > 0 && a[0] == b[0] {
        lemma_lex_asymmetric(a.drop_first(), b.drop_first());
    }
}

pub proof fn lemma_lex_transitive(a: Seq<char>, b: Seq<char>, c: Seq<char>)
    requires
        lex_lt(a, b),
        lex_lt(b, c),
    ensures
        lex_lt(a, c),
    decreases a.len(),
{
    if a.len() > 0 && b.len() > 0 && c.len() > 0 && a[0] == b[0] && b[0] == c[0] {
        lemma_lex_transitive(a.drop_first(), b.drop_first(), c.drop_first());
    }
}

pub proof fn lemma_lex_total(a: Seq<char>, b: Seq<char>)
    ensures
        a == b || lex_lt(a, b) || lex_lt(b, a),
    decreases a.len(),
{
    if a.len() > 0 && b.len() > 0 && a[0] == b[0] {
        lemma_lex_total(a.drop_first(), b.drop_first());
        if a.drop_first() == b.drop_first() {
            assert(a =~= seq![a[0]] + a.drop_first());
            assert(b =~= seq![b[0]] + b.drop_first());
        }
    } else if a.len() == 0 && b.len() == 0 {
        assert(a =~= b);
    }
}

proof fn lemma_lex_skip(a: Seq<char>, b: Seq<char>, i: int)
    requires
        0 <= i <= a.len(),
        i <= b.len(),
        forall|k: int| 0 <= k < i ==> a[k] == b[k],
    ensures
        lex_lt(a, b) == lex_lt(a.skip(i), b.skip(i)),
    decreases i,
{
    if i > 0 {
        lemma_lex_skip(a.drop_first(), b.drop_first(), i - 1);
        assert(a.drop_first().skip(i - 1) =~= a.skip(i));
        assert(b.drop_first().skip(i - 1) =~= b.skip(i));
    } else {
        assert(a.skip(0) =~= a);
        assert(b.skip(0) =~= b);
    }
}

/// A sorted word list holds no word twice.
pub proof fn lemma_sorted_unique(ks: Seq<Seq<char>>)
    requires
        sorted_words(ks),
    ensures
        ks.no_duplicates(),
{
    assert forall|i: int, j: int| 0 <= i < ks.len() && 0 <= j < ks.len() && i != j implies ks[i]
        != ks[j] by {
        if i < j {
            lemma_lex_irreflexive(ks[i]);
            assert(lex_lt(ks[i], ks[j]));
        } else {
            lemma_lex_irreflexive(ks[j]);
            assert(lex_lt(ks[j], ks[i]));
        }
    }
}

/// In a list without repeats, the word at position `i` maps to the value at `i`.
pub proof fn lemma_pair_map_at<V>(ks: Seq<Seq<char>>, vs: Seq<V>, i: int)
    requires
        ks.no_duplicates(),
        0 <= i < ks.len(),
    ensures
        pair_map(ks, vs).contains_key(ks[i]),
        pair_map(ks, vs)[ks[i]] == vs[i],
{
    assert(ks.contains(ks[i]));
    let j = ks.index_of(ks[i]);
    assert(0 <= j < ks.len() && ks[j] == ks[i]);
}

/// Compare two words: negative, zero or positive as `a` comes before, equals,
/// or comes after `b`.
pub fn word_order(a: &[char], b: &[char]) -> (r: i8)
    ensures
        (r == 0) == (a@ == b@),
        (r < 0) == lex_lt(a@, b@),
        (r > 0) == lex_lt(b@, a@),
{
    let mut i: usize = 0;
    while i < a.len() && i < b.len() && a[i] == b[i]
        invariant
            i <= a@.len(),
            i <= b@.len(),
            forall|k: int| 0 <= k < i ==> a@[k] == b@[k],
        decreases a@.len() - i,
    {
        i += 1;
    }
    proof {
        lemma_lex_skip(a@, b@, i as int);
        lemma_lex_skip(b@, a@, i as int);
        lemma_lex_asymmetric(a@, b@);
        lemma_lex_irreflexive(a@);
    }
    if i == a.len() && i == b.len() {
        proof {
            assert(a@ =~= b@);
        }
        0
    } else if i == a.len() {
        proof {
            assert(a@.skip(i as int).len() == 0);
        }
        -1
    } else if i == b.len() {
        proof {
            assert(b@.skip(i as int).len() == 0);
        }
        1
    } else {
        proof {
            assert(a@.skip(i as int)[0] == a@[i as int]);
            assert(b@.skip(i as int)[0] == b@[i as int]);
            assert(a@ != b@) by {
                assert(a@[i as int] != b@[i as int]);
            }
        }
        if a[i] < b[i] {
            -1
        } else {
            1
        }
    }
}

/// Where `q` stands in a sorted word list: its position if present (`true`),
/// else the position at which inserting it keeps the list sorted (`false`).
pub fn search(ks: &Vec<Vec<char>>, q: &[char]) -> (r: (bool, usize))
    requires
        sorted_words(ks.deep_view()),
    ensures
        r.1 <= ks@.len(),
        r.0 ==> r.1 < ks@.len() && ks.deep_view()[r.1 as int] == q@,
        !r.0 ==> (forall|k: int| 0 <= k < r.1 ==> lex_lt(#[trigger] ks.deep_view()[k], q@)),
        !r.0 ==> (forall|k: int| r.1 <= k < ks@.len() ==> lex_lt(q@, #[trigger] ks.deep_view()[k])),
        !r.0 ==> !ks.deep_view().contains(q@),
{
    let ghost kv = ks.deep_view();
    let mut lo: usize = 0;
    let mut hi: usize = ks.len();
    while lo < hi
        invariant
            kv == ks.deep_view(),
            sorted_words(kv),
            lo <= hi <= ks@.len(),
            forall|k: int| 0 <= k < lo ==> lex_lt(#[trigger] kv[k], q@),
            forall|k: int| hi <= k < ks@.len() ==> lex_lt(q@, #[trigger] kv[k]),
        decreases hi - lo,
    {
        let mid = lo + (hi - lo) / 2;
        let c = word_order(ks[mid].as_slice(), q);
        proof {
            assert(kv[mid as int] == ks@[mid as int]@);
        }
        if c == 0 {
            return (true, mid);
        } else if c < 0 {
            proof {
                assert forall|k: int| 0 <= k < mid + 1 implies lex_lt(#[trigger] kv[k], q@) by {
                    if k < mid {
                        assert(lex_lt(kv[k], kv[mid as int]));
                        lemma_lex_transitive(kv[k], kv[mid as int], q@);
                    }
                }
            }
            lo = mid + 1;
        } else {
            proof {
                assert forall|k: int| mid <= k < ks@.len() implies lex_lt(q@, #[trigger] kv[k]) by {
                    if k > mid {
                        assert(lex_lt(kv[mid as int], kv[k]));
                        lemma_lex_transitive(q@, kv[mid as int], kv[k]);
                    }
                }
            }
            hi = mid;
        }
    }
    proof {
        if kv.contains(q@) {
            let k = choose|k: int| 0 <= k < kv.len() && kv[k] == q@;
            lemma_lex_irreflexive(q@);
            if k < lo {
                assert(lex_lt(kv[k], q@));
            } else {
                assert(lex_lt(q@, kv[k]));
            }
        }
    }
    (false, lo)
}

} // verus!

verus! {

/// A copy of a word.
pub fn copy_word(w: &[char]) -> (r: Vec<char>)
    ensures
        r@ == w@,
{
    let mut r: Vec<char> = Vec::new();
    let mut i: usize = 0;
    while i < w.len()
        invariant
            i <= w@.len(),
            r@ == w@.take(i as int),
        decreases w@.len() - i,
    {
        r.push(w[i]);
        i += 1;
        proof {
            assert(w@.take(i as int) =~= w@.take(i - 1).push(w@[i - 1]));
        }
    }
    proof {
        assert(w@.take(w@.len() as int) =~= w@);
    }
    r
}

} // verus!
