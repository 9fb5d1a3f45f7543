//! Maps keyed by phoneme-id strings (rhyme tails, codas), kept as a list of
//! keys in increasing byte order beside a list of their values.

use vstd::prelude::*;

verus! {

broadcast use crate::text::lemma_deep_bytes;

/// Lexicographic order on byte strings; a proper prefix comes first.
pub open spec fn bytes_lt(a: Seq<u8>, b: Seq<u8>) -> bool
    decreases a.len(),
{
    if a.len() == 0 {
        b.len() > 0
    } else if b.len() == 0 {
        false
    } else if a[0] != b[0] {
        a[0] < b[0]
    } else {
        bytes_lt(a.drop_first(), b.drop_first())
    }
}

/// Strictly increasing in byte order.
pub open spec fn sorted_keys(ks: Seq<Seq<u8>>) -> bool {
    forall|i: int, j: int| 0 <= i < j < ks.len() ==> bytes_lt(#[trigger] ks[i], #[trigger] ks[j])
}

pub proof fn lemma_bytes_irreflexive(a: Seq<u8>)
    ensures
        !bytes_lt(a, a),
    decreases a.len(),
{
    if a.len() > 0 {
        lemma_bytes_irreflexive(a.drop_first());
    }
}

pub proof fn lemma_bytes_asymmetric(a: Seq<u8>, b: Seq<u8>)
    ensures
        !(bytes_lt(a, b) && bytes_lt(b, a)),
    decreases a.len(),
{
    if a.len() > 0 && b.len() > 0 && a[0] == b[0] {
        lemma_bytes_asymmetric(a.drop_first(), b.drop_first());
    }
}

pub proof fn lemma_bytes_transitive(a: Seq<u8>, b: Seq<u8>, c: Seq<u8>)
    requires
        bytes_lt(a, b),
        bytes_lt(b, c),
    ensures
        bytes_lt(a, c),
    decreases a.len(),
{
    if a.len() > 0 && b.len() > 0 && c.len() > 0 && a[0] == b[0] && b[0] == c[0] {
        lemma_bytes_transitive(a.drop_first(), b.drop_first(), c.drop_first());
    }
}

proof fn lemma_bytes_skip(a: Seq<u8>, b: Seq<u8>, i: int)
    requires
        0 <= i <= a.len(),
        i <= b.len(),
        forall|k: int| 0 <= k < i ==> a[k] == b[k],
    ensures
        bytes_lt(a, b) == bytes_lt(a.skip(i), b.skip(i)),
    decreases i,
{
    if i > 0 {
        lemma_bytes_skip(a.drop_first(), b.drop_first(), i - 1);
        assert(a.drop_first().skip(i - 1) =~= a.skip(i));
        assert(b.drop_first().skip(i - 1) =~= b.skip(i));
    } else {
        assert(a.skip(0) =~= a);
        assert(b.skip(0) =~= b);
    }
}

/// A strictly increasing key list holds no key twice.
pub proof fn lemma_sorted_keys_unique(ks: Seq<Seq<u8>>)
    requires
        sorted_keys(ks),
    ensures
        ks.no_duplicates(),
{
    assert forall|i: int, j: int| 0 <= i < ks.len() && 0 <= j < ks.len() && i != j implies ks[i]
        != ks[j] by {
        if i < j {
            lemma_bytes_irreflexive(ks[i]);
            assert(bytes_lt(ks[i], ks[j]));
        } else {
            lemma_bytes_irreflexive(ks[j]);
            assert(bytes_lt(ks[j], ks[i]));
        }
    }
}

/// Compare two byte strings: negative, zero or positive as `a` comes before,
/// equals, or comes after `b`.
pub fn bytes_order(a: &[u8], b: &[u8]) -> (r: i8)
    ensures
        (r == 0) == (a@ == b@),
        (r < 0) == bytes_lt(a@, b@),
        (r > 0) == bytes_lt(b@, a@),
{
    let mut i: usize = 0;
    while i < a.len() && i < b.len() && a[i] == b[i]
        invariant
            i <= a@.len(),
            i <= b@.len(),
            forall|k: int| 0 <= k < i ==> a@[k] == b@[k],
        decreases a@.len() - i,
    {
        i += 1;
    }
    proof {
        lemma_bytes_skip(a@, b@, i as int);
        lemma_bytes_skip(b@, a@, i as int);
        lemma_bytes_asymmetric(a@, b@);
        lemma_bytes_irreflexive(a@);
    }
    if i == a.len() && i == b.len() {
        proof {
            assert(a@ =~= b@);
        }
        0
    } else if i == a.len() {
        proof {
            assert(a@.skip(i as int).len() == 0);
        }
        -1
    } else if i == b.len() {
        proof {
            assert(b@.skip(i as int).len() == 0);
        }
        1
    } else {
        proof {
            assert(a@.skip(i as int)[0] == a@[i as int]);
            assert(b@.skip(i as int)[0] == b@[i as int]);
            assert(a@ != b@) by {
                assert(a@[i as int] != b@[i as int]);
            }
        }
        if a[i] < b[i] {
            -1
        } else {
            1
        }
    }
}

/// Where `q` stands in a strictly increasing key list: its position if
/// present (`true`), else the position at which it would keep the order (`false`).
fn search_keys(ks: &Vec<Vec<u8>>, q: &[u8]) -> (r: (bool, usize))
    requires
        sorted_keys(ks.deep_view()),
    ensures
        r.1 <= ks@.len(),
        r.0 ==> r.1 < ks@.len() && ks.deep_view()[r.1 as int] == q@,
        !r.0 ==> (forall|k: int| 0 <= k < r.1 ==> bytes_lt(#[trigger] ks.deep_view()[k], q@)),
        !r.0 ==> (forall|k: int| r.1 <= k < ks@.len() ==> bytes_lt(q@, #[trigger] ks.deep_view()[k])),
        !r.0 ==> !ks.deep_view().contains(q@),
{
    let ghost kv = ks.deep_view();
    let mut lo: usize = 0;
    let mut hi: usize = ks.len();
    while lo < hi
        invariant
            kv == ks.deep_view(),
            sorted_keys(kv),
            lo <= hi <= ks@.len(),
            forall|k: int| 0 <= k < lo ==> bytes_lt(#[trigger] kv[k], q@),
            forall|k: int| hi <= k < ks@.len() ==> bytes_lt(q@, #[trigger] kv[k]),
        decreases hi - lo,
    {
        let mid = lo + (hi - lo) / 2;
        let c = bytes_order(ks[mid].as_slice(), q);
        proof {
            assert(kv[mid as int] == ks@[mid as int]@);
        }
        if c == 0 {
            return (true, mid);
        } else if c < 0 {
            proof {
                assert forall|k: int| 0 <= k < mid + 1 implies bytes_lt(#[trigger] kv[k], q@) by {
                    if k < mid {
                        assert(bytes_lt(kv[k], kv[mid as int]));
                        lemma_bytes_transitive(kv[k], kv[mid as int], q@);
                    }
                }
            }
            lo = mid + 1;
        } else {
            proof {
                assert forall|k: int| mid <= k < ks@.len() implies bytes_lt(q@, #[trigger] kv[k]) by {
                    if k > mid {
                        assert(bytes_lt(kv[mid as int], kv[k]));
                        lemma_bytes_transitive(q@, kv[mid as int], kv[k]);
                    }
                }
            }
            hi = mid;
        }
    }
    proof {
        if kv.contains(q@) {
            let k = choose|k: int| 0 <= k < kv.len() && kv[k] == q@;
            lemma_bytes_irreflexive(q@);
            if k < lo {
                assert(bytes_lt(kv[k], q@));
            } else {
                assert(bytes_lt(q@, kv[k]));
            }
        }
    }
    (false, lo)
}

/// A copy of `b[start..end]`.
pub fn copy_slice(b: &[u8], start: usize, end: usize) -> (r: Vec<u8>)
    requires
        start <= end <= b@.len(),
    ensures
        r@ == b@.subrange(start as int, end as int),
{
    let mut r: Vec<u8> = Vec::new();
    let mut i: usize = start;
    while i < end
        invariant
            start <= i <= end,
            end <= b@.len(),
            r@ == b@.subrange(start as int, i as int),
        decreases end - i,
    {
        r.push(b[i]);
        i += 1;
        proof {
            assert(b@.subrange(start as int, i as int) =~= b@.subrange(start as int, i - 1).push(
                b@[i - 1],
            ));
        }
    }
    r
}

/// A map from byte strings to values: the keys in increasing order, and the
/// value of each key at the same position.
pub struct ByteMap<V> {
    keys: Vec<Vec<u8>>,
    vals: Vec<V>,
}

impl<V> View for ByteMap<V> {
    type V = Map<Seq<u8>, V>;

    /// Each key with its value.
    closed spec fn view(&self) -> Map<Seq<u8>, V> {
        Map::new(
            |k: Seq<u8>| self.keys.deep_view().contains(k),
            |k: Seq<u8>| self.vals@[self.keys.deep_view().index_of(k)],
        )
    }
}

impl<V> ByteMap<V> {
    /// The keys, in increasing byte order.
    pub closed spec fn keys(&self) -> Seq<Seq<u8>> {
        self.keys.deep_view()
    }

    /// The values, each at the position of its key.
    pub closed spec fn values(&self) -> Seq<V> {
        self.vals@
    }

    pub closed spec fn wf(&self) -> bool {
        &&& self.keys@.len() == self.vals@.len()
        &&& sorted_keys(self.keys.deep_view())
    }

    /// What every well-formed map keeps: as many values as keys, the keys
    /// increasing, and each key mapped to the value at its position.
    pub proof fn lemma_wf(&self)
        requires
            self.wf(),
        ensures
            self.keys().len() == self.values().len(),
            sorted_keys(self.keys()),
            self.keys().no_duplicates(),
            forall|k: Seq<u8>| #[trigger] self@.contains_key(k) <==> self.keys().contains(k),
            forall|i: int|
                0 <= i < self.keys().len() ==> self@.contains_key(#[trigger] self.keys()[i])
                    && self@[self.keys()[i]] == self.values()[i],
    {
        lemma_sorted_keys_unique(self.keys());
        assert forall|i: int| 0 <= i < self.keys().len() implies self@.contains_key(
            #[trigger] self.keys()[i],
        ) && self@[self.keys()[i]] == self.values()[i] by {
            assert(self.keys().contains(self.keys()[i]));
            let j = self.keys().index_of(self.keys()[i]);
            assert(0 <= j < self.keys().len() && self.keys()[j] == self.keys()[i]);
        }
    }

    /// An empty map.
    pub fn new() -> (m: Self)
        ensures
            m.wf(),
            m.keys() == Seq::<Seq<u8>>::empty(),
            m.values() == Seq::<V>::empty(),
            m@ == Map::<Seq<u8>, V>::empty(),
    {
        let m = ByteMap { keys: Vec::new(), vals: Vec::new() };
        proof {
            assert(m.keys.deep_view() =~= Seq::<Seq<u8>>::empty());
            assert(m@ =~= Map::<Seq<u8>, V>::empty());
        }
        m
    }

    /// Number of keys.
    pub fn len(&self) -> (r: usize)
        requires
            self.wf(),
        ensures
            r == self.keys().len(),
    {
        self.keys.len()
    }

    /// The `i`-th key.
    pub fn key_at(&self, i: usize) -> (r: &Vec<u8>)
        requires
            self.wf(),
            i < self.keys().len(),
        ensures
            r@ == self.keys()[i as int],
    {
        &self.keys[i]
    }

    /// The value of the `i`-th key.
    pub fn value_at(&self, i: usize) -> (r: &V)
        requires
            self.wf(),
            i < self.keys().len(),
        ensures
            *r == self.values()[i as int],
    {
        &self.vals[i]
    }

    /// The position of `k` among the keys, if it is one.
    pub fn find(&self, k: &[u8]) -> (r: Option<usize>)
        requires
            self.wf(),
        ensures
            r is None <==> !self@.contains_key(k@),
            r matches Some(i) ==> i < self.keys().len() && self.keys()[i as int] == k@,
    {
        proof {
            self.lemma_wf();
        }
        let (found, pos) = search_keys(&self.keys, k);
        if found {
            Some(pos)
        } else {
            None
        }
    }

    /// The value of `k`, if it is a key.
    pub fn get(&self, k: &[u8]) -> (r: Option<&V>)
        requires
            self.wf(),
        ensures
            r is None <==> !self@.contains_key(k@),
            r matches Some(v) ==> self@[k@] == *v,
    {
        proof {
            self.lemma_wf();
        }
        match self.find(k) {
            Some(i) => Some(&self.vals[i]),
            None => None,
        }
    }

    /// The position of `k`, adding it with the value `fresh` first if it is
    /// not yet a key.
    pub fn entry(&mut self, k: &[u8], fresh: V) -> (i: usize)
        requires
            old(self).wf(),
        ensures
            final(self).wf(),
            i < final(self).keys().len(),
            final(self).keys()[i as int] == k@,
            final(self)@ == (if old(self)@.contains_key(k@) {
                old(self)@
            } else {
                old(self)@.insert(k@, fresh)
            }),
            old(self)@.contains_key(k@) ==> final(self).keys() == old(self).keys()
                && final(self).values() == old(self).values(),
            !old(self)@.contains_key(k@) ==> final(self).keys() == old(self).keys().insert(
                i as int,
                k@,
            ) && final(self).values() == old(self).values().insert(i as int, fresh),
    {
        proof {
            self.lemma_wf();
        }
        let (found, pos) = search_keys(&self.keys, k);
        if found {
            return pos;
        }
        let ghost ks = self.keys.deep_view();
        let ghost vs = self.vals@;
        let ghost om = self@;
        let key = copy_slice(k, 0, k.len());
        proof {
            assert(k@.subrange(0, k@.len() as int) =~= k@);
        }
        self.keys.insert(pos, key);
        self.vals.insert(pos, fresh);
        proof {
            let nk = self.keys.deep_view();
            assert(nk =~= ks.insert(pos as int, k@));
            assert forall|a: int, b: int| 0 <= a < b < nk.len() implies bytes_lt(
                #[trigger] nk[a],
                #[trigger] nk[b],
            ) by {
                if b < pos {
                } else if a < pos && b == pos {
                } else if a < pos {
                    assert(nk[b] == ks[b - 1]);
                    assert(bytes_lt(ks[a], k@));
                    assert(bytes_lt(k@, ks[b - 1]));
                    lemma_bytes_transitive(ks[a], k@, ks[b - 1]);
                } else if a == pos {
                    assert(nk[b] == ks[b - 1]);
                } else {
                    assert(nk[a] == ks[a - 1]);
                    assert(nk[b] == ks[b - 1]);
                }
            }
            self.lemma_wf();
            let want = om.insert(k@, fresh);
            assert forall|q: Seq<u8>| #[trigger] self@.contains_key(q) == want.contains_key(q) by {
                if ks.contains(q) {
                    let j = choose|j: int| 0 <= j < ks.len() && ks[j] == q;
                    if j < pos {
                        assert(nk[j] == q);
                    } else {
                        assert(nk[j + 1] == q);
                    }
                }
                if nk.contains(q) && q != k@ {
                    let j = choose|j: int| 0 <= j < nk.len() && nk[j] == q;
                    if j < pos {
                        assert(ks[j] == q);
                    } else if j > pos {
                        assert(ks[j - 1] == q);
                    }
                }
                if q == k@ {
                    assert(nk[pos as int] == q);
                }
            }
            assert forall|q: Seq<u8>| self@.contains_key(q) implies #[trigger] self@[q] == want[q] by {
                let j = choose|j: int| 0 <= j < nk.len() && nk[j] == q;
                assert(self@[nk[j]] == self.vals@[j]);
                if j < pos {
                    assert(ks[j] == q);
                    assert(om[ks[j]] == vs[j]);
                } else if j > pos {
                    assert(ks[j - 1] == q);
                    assert(om[ks[j - 1]] == vs[j - 1]);
                }
            }
            assert(self@ =~= want);
        }
        pos
    }
}

impl<V> ByteMap<V> {
    /// Map `k` to `v`, replacing the value it had.
    pub fn insert(&mut self, k: &[u8], v: V)
        requires
            old(self).wf(),
        ensures
            final(self).wf(),
            final(self)@ == old(self)@.insert(k@, v),
    {
        proof {
            self.lemma_wf();
        }
        match self.find(k) {
            Some(i) => {
                let ghost om = self@;
                self.vals.set(i, v);
                proof {
                    self.lemma_wf();
                    assert forall|q: Seq<u8>| #[trigger] self@.contains_key(q) == om.insert(k@, v).contains_key(q) by {}
                    assert forall|q: Seq<u8>| self@.contains_key(q) implies #[trigger] self@[q] == om.insert(k@, v)[q] by {
                        let j = choose|j: int| 0 <= j < self.keys().len() && self.keys()[j] == q;
                        assert(self@[self.keys()[j]] == self.values()[j]);
                        if j != i {
                            assert(om[self.keys()[j]] == old(self).values()[j]);
                        }
                    }
                    assert(self@ =~= om.insert(k@, v));
                }
            },
            None => {
                self.entry(k, v);
            },
        }
    }
}

/// The map that a list of entries builds, a later entry for a key replacing
/// an earlier one.
pub open spec fn keyed_map<V>(es: Seq<(Seq<u8>, V)>) -> Map<Seq<u8>, V>
    decreases es.len(),
{
    if es.len() == 0 {
        Map::empty()
    } else {
        keyed_map(es.drop_last()).insert(es.last().0, es.last().1)
    }
}

impl<T> ByteMap<Vec<T>> {
    /// Append `x` to the list that is the value of the `i`-th key.
    pub fn push_at(&mut self, i: usize, x: T)
        requires
            old(self).wf(),
            i < old(self).keys().len(),
        ensures
            final(self).wf(),
            final(self).keys() == old(self).keys(),
            final(self)@.dom() == old(self)@.dom(),
            final(self)@[old(self).keys()[i as int]]@ == old(self)@[old(self).keys()[i as int]]@.push(x),
            forall|k: Seq<u8>|
                k != old(self).keys()[i as int] && old(self)@.contains_key(k) ==> #[trigger] final(self)@[k]
                    == old(self)@[k],
    {
        proof {
            self.lemma_wf();
        }
        let ghost om = self@;
        self.vals[i].push(x);
        proof {
            self.lemma_wf();
            assert(self@.dom() =~= om.dom());
            assert forall|k: Seq<u8>| k != self.keys()[i as int] && om.contains_key(k) implies #[trigger] self@[k] == om[k] by {
                {
                    let j = choose|j: int| 0 <= j < self.keys().len() && self.keys()[j] == k;
                    assert(self@[self.keys()[j]] == self.values()[j]);
                }
            }
        }
    }
}

impl<T> ByteMap<Vec<Vec<T>>> {
    /// Append `x` to the `j`-th list of the value of the `i`-th key.
    pub fn push_nested(&mut self, i: usize, j: usize, x: T)
        requires
            old(self).wf(),
            i < old(self).keys().len(),
            j < old(self).values()[i as int]@.len(),
        ensures
            final(self).wf(),
            final(self).keys() == old(self).keys(),
            final(self)@.dom() == old(self)@.dom(),
            final(self)@[old(self).keys()[i as int]]@.len() == old(self)@[old(self).keys()[i as int]]@.len(),
            final(self)@[old(self).keys()[i as int]]@[j as int]@ == old(self)@[old(self).keys()[i as int]]@[j as int]@.push(x),
            forall|jj: int| 0 <= jj < old(self)@[old(self).keys()[i as int]]@.len() && jj != j
                ==> #[trigger] final(self)@[old(self).keys()[i as int]]@[jj] == old(self)@[old(self).keys()[i as int]]@[jj],
            forall|k: Seq<u8>|
                k != old(self).keys()[i as int] && old(self)@.contains_key(k) ==> #[trigger] final(self)@[k]
                    == old(self)@[k],
    {
        proof {
            self.lemma_wf();
        }
        let ghost om = self@;
        self.vals[i][j].push(x);
        proof {
            self.lemma_wf();
            assert(self@.dom() =~= om.dom());
            assert forall|k: Seq<u8>| k != self.keys()[i as int] && om.contains_key(k) implies #[trigger] self@[k] == om[k] by {
                {
                    let jj = choose|jj: int| 0 <= jj < self.keys().len() && self.keys()[jj] == k;
                    assert(self@[self.keys()[jj]] == self.values()[jj]);
                }
            }
        }
    }
}

} // verus!
