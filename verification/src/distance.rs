//! Edit distance on u8 phoneme slices.

use vstd::prelude::*;

verus! {

/// The smallest of three numbers.
pub open spec fn min3(x: nat, y: nat, z: nat) -> nat {
    if x <= y && x <= z {
        x
    } else if y <= z {
        y
    } else {
        z
    }
}

/// Levenshtein distance: the fewest single-phoneme insertions, deletions and
/// substitutions that turn `a` into `b`.
pub open spec fn edit_distance(a: Seq<u8>, b: Seq<u8>) -> nat
    decreases a.len() + b.len(),
{
    if a.len() == 0 {
        b.len()
    } else if b.len() == 0 {
        a.len()
    } else {
        min3(
            edit_distance(a.drop_last(), b) + 1,
            edit_distance(a, b.drop_last()) + 1,
            edit_distance(a.drop_last(), b.drop_last()) + if a.last() == b.last() {
                0nat
            } else {
                1nat
            },
        )
    }
}

/// The distance does not depend on the order of the two sequences.
pub proof fn lemma_edit_distance_symmetric(a: Seq<u8>, b: Seq<u8>)
    ensures
        edit_distance(a, b) == edit_distance(b, a),
    decreases a.len() + b.len(),
{
    if a.len() > 0 && b.len() > 0 {
        lemma_edit_distance_symmetric(a.drop_last(), b);
        lemma_edit_distance_symmetric(a, b.drop_last());
        lemma_edit_distance_symmetric(a.drop_last(), b.drop_last());
    }
}

/// The distance never exceeds the longer length, and is zero between equal sequences.
pub proof fn lemma_edit_distance_bounds(a: Seq<u8>, b: Seq<u8>)
    ensures
        edit_distance(a, b) <= if a.len() >= b.len() {
            a.len()
        } else {
            b.len()
        },
        a.len() >= b.len() ==> edit_distance(a, b) >= a.len() - b.len(),
        b.len() >= a.len() ==> edit_distance(a, b) >= b.len() - a.len(),
        a == b ==> edit_distance(a, b) == 0,
    decreases a.len() + b.len(),
{
    if a.len() > 0 && b.len() > 0 {
        lemma_edit_distance_bounds(a.drop_last(), b);
        lemma_edit_distance_bounds(a, b.drop_last());
        lemma_edit_distance_bounds(a.drop_last(), b.drop_last());
        if a == b {
            assert(a.drop_last() == b.drop_last());
        }
    }
}

/// The distance is zero only between equal sequences.
pub proof fn lemma_edit_distance_zero(a: Seq<u8>, b: Seq<u8>)
    ensures
        edit_distance(a, b) == 0 <==> a == b,
    decreases a.len() + b.len(),
{
    lemma_edit_distance_bounds(a, b);
    if edit_distance(a, b) == 0 && a.len() > 0 && b.len() > 0 {
        let a1 = a.drop_last();
        let b1 = b.drop_last();
        lemma_edit_distance_zero(a1, b1);
        assert(a =~= a1.push(a.last()));
        assert(b =~= b1.push(b.last()));
    }
    if edit_distance(a, b) == 0 && a.len() == 0 {
        assert(a =~= b);
    }
}

/// Going from `a` to `c` by way of `b` never beats going directly.
pub proof fn lemma_edit_distance_triangle(a: Seq<u8>, b: Seq<u8>, c: Seq<u8>)
    ensures
        edit_distance(a, c) <= edit_distance(a, b) + edit_distance(b, c),
    decreases a.len() + b.len() + c.len(),
{
    lemma_edit_distance_bounds(a, c);
    lemma_edit_distance_bounds(a, b);
    lemma_edit_distance_bounds(b, c);
    if a.len() > 0 && b.len() > 0 && c.len() > 0 {
        let (a1, b1, c1) = (a.drop_last(), b.drop_last(), c.drop_last());
        let ab = edit_distance(a, b);
        let bc = edit_distance(b, c);
        let xy: nat = if a.last() == b.last() { 0 } else { 1 };
        let yz: nat = if b.last() == c.last() { 0 } else { 1 };
        if ab == edit_distance(a1, b) + 1 {
            lemma_edit_distance_triangle(a1, b, c);
        } else if bc == edit_distance(b, c1) + 1 {
            lemma_edit_distance_triangle(a, b, c1);
        } else if ab == edit_distance(a, b1) + 1 {
            if bc == edit_distance(b1, c) + 1 {
                lemma_edit_distance_triangle(a, b1, c);
            } else {
                assert(bc == edit_distance(b1, c1) + yz);
                lemma_edit_distance_triangle(a, b1, c1);
            }
        } else {
            assert(ab == edit_distance(a1, b1) + xy);
            if bc == edit_distance(b1, c) + 1 {
                lemma_edit_distance_triangle(a1, b1, c);
            } else {
                assert(bc == edit_distance(b1, c1) + yz);
                lemma_edit_distance_triangle(a1, b1, c1);
            }
        }
    }
}

/// Edit distance of two sequences, computed a row at a time over the longer one.
pub(crate) fn edit_distance_rows(long: &[u8], short: &[u8]) -> (r: usize)
    requires
        short@.len() <= long@.len(),
        long@.len() < usize::MAX,
    ensures
        r == edit_distance(long@, short@),
{
    let s_len = short.len();
    let l_len = long.len();
    let mut row: Vec<usize> = Vec::new();
    let mut j: usize = 0;
    while j <= s_len
        invariant
            j <= s_len + 1,
            s_len == short@.len(),
            s_len < usize::MAX,
            row@.len() == j,
            forall|k: int| 0 <= k < j ==> row@[k] == k,
        decreases s_len + 1 - j,
    {
        row.push(j);
        j += 1;
    }
    proof {
        assert forall|k: int| 0 <= k <= s_len implies row@[k] == edit_distance(
            long@.take(0),
            short@.take(k),
        ) by {}
    }
    let mut i: usize = 1;
    while i <= l_len
        invariant
            1 <= i <= l_len + 1,
            s_len == short@.len(),
            l_len == long@.len(),
            s_len <= l_len,
            l_len < usize::MAX,
            row@.len() == s_len + 1,
            forall|k: int|
                0 <= k <= s_len ==> #[trigger] row@[k] == edit_distance(
                    long@.take(i - 1),
                    short@.take(k),
                ),
        decreases l_len + 1 - i,
    {
        let ghost prev_row = row@;
        let ghost a = long@.take(i as int);
        proof {
            assert(a.drop_last() =~= long@.take(i - 1));
            lemma_edit_distance_bounds(long@.take(i - 1), short@.take(0));
        }
        let mut prev_diag = row[0];
        row.set(0, i);
        let mut j: usize = 1;
        while j <= s_len
            invariant
                1 <= i <= l_len,
                1 <= j <= s_len + 1,
                s_len == short@.len(),
                l_len == long@.len(),
                s_len <= l_len,
                l_len < usize::MAX,
                a == long@.take(i as int),
                a.drop_last() == long@.take(i - 1),
                row@.len() == s_len + 1,
                prev_row.len() == s_len + 1,
                prev_diag == prev_row[j - 1],
                forall|k: int|
                    0 <= k <= s_len ==> #[trigger] prev_row[k] == edit_distance(
                        long@.take(i - 1),
                        short@.take(k),
                    ),
                forall|k: int| 0 <= k < j ==> #[trigger] row@[k] == edit_distance(a, short@.take(k)),
                forall|k: int| j <= k <= s_len ==> #[trigger] row@[k] == prev_row[k],
            decreases s_len + 1 - j,
        {
            let old = row[j];
            let cost: usize = if short[j - 1] == long[i - 1] {
                0
            } else {
                1
            };
            let ghost b = short@.take(j as int);
            proof {
                assert(b.drop_last() =~= short@.take(j - 1));
                assert(a.last() == long@[i - 1]);
                assert(b.last() == short@[j - 1]);
                lemma_edit_distance_bounds(a, short@.take(j - 1));
                lemma_edit_distance_bounds(a.drop_last(), b);
                lemma_edit_distance_bounds(a.drop_last(), b.drop_last());
            }
            let left = row[j - 1] + 1;
            let up = old + 1;
            let diag = prev_diag + cost;
            let best = if left <= up && left <= diag {
                left
            } else if up <= diag {
                up
            } else {
                diag
            };
            row.set(j, best);
            prev_diag = old;
            j += 1;
        }
        i += 1;
    }
    proof {
        assert(long@.take(l_len as int) =~= long@);
        assert(short@.take(s_len as int) =~= short@);
    }
    row[s_len]
}

/// Levenshtein edit distance between two phoneme ID slices.
pub fn levenshtein(source: &[u8], target: &[u8]) -> (r: usize)
    requires
        source@.len() < usize::MAX,
        target@.len() < usize::MAX,
    ensures
        r == edit_distance(source@, target@),
{
    proof {
        lemma_edit_distance_symmetric(source@, target@);
    }
    if source.len() <= target.len() {
        edit_distance_rows(target, source)
    } else {
        edit_distance_rows(source, target)
    }
}

} // verus!
