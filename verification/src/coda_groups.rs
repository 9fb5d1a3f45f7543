//! The nucleus and coda of a word's rhyming syllable.

use vstd::prelude::*;

use crate::byte_map::ByteMap;
use crate::dict::{g_drop, looked_up, normalized, CmuDict};
use crate::lexicon::{copy_word, lemma_lex_asymmetric, lemma_lex_transitive, lex_lt, sorted_words, word_order};
use crate::phoneme::{self, strip_seq, stripped};
use crate::text::string_from;
use crate::rhyme::last_with_stress;

verus! {

broadcast use crate::text::lemma_deep_chars;

/// Where a word's rhyme starts: its last primary-stressed vowel, else its
/// last secondary-stressed one, else -1.
pub open spec fn rhyme_vowel(p: Seq<u8>) -> int {
    if last_with_stress(p, 1) >= 0 {
        last_with_stress(p, 1)
    } else {
        last_with_stress(p, 2)
    }
}

/// The stress-stripped nucleus vowel and coda (everything after it) of a word.
pub open spec fn nucleus_coda(p: Seq<u8>) -> Option<(u8, Seq<u8>)> {
    let i = rhyme_vowel(p);
    if i < 0 {
        None
    } else {
        Some((stripped(p[i]), strip_seq(p.subrange(i + 1, p.len() as int))))
    }
}

pub proof fn lemma_rhyme_vowel(p: Seq<u8>)
    ensures
        -1 <= rhyme_vowel(p) < p.len(),
        rhyme_vowel(p) >= 0 ==> (phoneme::stress_of(p[rhyme_vowel(p)]) == 1 || phoneme::stress_of(
            p[rhyme_vowel(p)],
        ) == 2),
        last_with_stress(p, 1) >= 0 ==> rhyme_vowel(p) == last_with_stress(p, 1),
{
    lemma_last_with_stress_bounds(p, 1);
    lemma_last_with_stress_bounds(p, 2);
}

proof fn lemma_last_with_stress_bounds(p: Seq<u8>, level: u8)
    ensures
        -1 <= last_with_stress(p, level) < p.len(),
        last_with_stress(p, level) >= 0 ==> phoneme::stress_of(p[last_with_stress(p, level)]) == level,
        forall|k: int| last_with_stress(p, level) < k < p.len() ==> phoneme::stress_of(#[trigger] p[k]) != level,
    decreases p.len(),
{
    if p.len() > 0 && phoneme::stress_of(p.last()) != level {
        lemma_last_with_stress_bounds(p.drop_last(), level);
        assert forall|k: int| last_with_stress(p, level) < k < p.len() implies phoneme::stress_of(#[trigger] p[k]) != level by {
            if k < p.len() - 1 {
                assert(p[k] == p.drop_last()[k]);
            }
        }
    }
}

/// The last position of `p` whose stress is `level`, searching from the end.
pub fn find_last_stress(p: &[u8], level: u8) -> (r: Option<usize>)
    ensures
        r.is_none() == (last_with_stress(p@, level) < 0),
        r.is_some() ==> r.unwrap() == last_with_stress(p@, level) && r.unwrap() < p@.len(),
{
    proof {
        lemma_last_with_stress_bounds(p@, level);
    }
    let mut i = p.len();
    while i > 0
        invariant
            i <= p@.len(),
            -1 <= last_with_stress(p@, level) < p@.len(),
            last_with_stress(p@, level) >= 0 ==> phoneme::stress_of(p@[last_with_stress(p@, level)]) == level,
            forall|k: int| last_with_stress(p@, level) < k < p@.len() ==> phoneme::stress_of(#[trigger] p@[k]) != level,
            forall|k: int| i <= k < p@.len() ==> phoneme::stress_of(#[trigger] p@[k]) != level,
        decreases i,
    {
        i -= 1;
        if phoneme::stress(p[i]) == level {
            return Some(i);
        }
    }
    proof {
        if last_with_stress(p@, level) >= 0 {
            assert(phoneme::stress_of(p@[last_with_stress(p@, level)]) == level);
        }
    }
    None
}

/// The stress-stripped copy of `p[start..]`.
pub fn strip_from(p: &[u8], start: usize) -> (r: Vec<u8>)
    requires
        start <= p@.len(),
    ensures
        r@ == strip_seq(p@.subrange(start as int, p@.len() as int)),
{
    let mut r: Vec<u8> = Vec::new();
    let mut i = start;
    while i < p.len()
        invariant
            start <= i <= p@.len(),
            r@ == strip_seq(p@.subrange(start as int, i as int)),
        decreases p@.len() - i,
    {
        r.push(phoneme::strip(p[i]));
        i += 1;
        proof {
            assert(strip_seq(p@.subrange(start as int, i as int)) =~= strip_seq(p@.subrange(start as int, i - 1)).push(stripped(p@[i - 1])));
        }
    }
    r
}

/// Extract nucleus vowel (stripped) and coda (everything after, stripped).
pub fn extract_nucleus_coda(phonemes: &[u8]) -> (r: Option<(u8, Vec<u8>)>)
    ensures
        r.is_none() == nucleus_coda(phonemes@).is_none(),
        r.is_some() ==> r.unwrap().0 == nucleus_coda(phonemes@).unwrap().0 && r.unwrap().1@
            == nucleus_coda(phonemes@).unwrap().1,
{
    let found = match find_last_stress(phonemes, 1) {
        Some(i) => Some(i),
        None => find_last_stress(phonemes, 2),
    };
    match found {
        Some(i) => Some((phoneme::strip(phonemes[i]), strip_from(phonemes, i + 1))),
        None => None,
    }
}


/// A rhyme nucleus is a vowel base.
pub proof fn lemma_nucleus_base(p: Seq<u8>)
    ensures
        nucleus_coda(p) matches Some((n, _)) ==> phoneme::AA <= n <= phoneme::UW,
{
    lemma_rhyme_vowel(p);
}

/// The pronunciations a dictionary lookup of the key `w` gives: those of its
/// normalized form, patched when `w` drops a g; none when that form is absent.
pub open spec fn filed_variants(d: Map<Seq<char>, Seq<Seq<u8>>>, w: Seq<char>) -> Seq<Seq<u8>> {
    if d.contains_key(normalized(w)) {
        looked_up(d[normalized(w)], g_drop(w))
    } else {
        Seq::empty()
    }
}

/// Whether `w` is in the group of `coda` and `nucleus` of the dictionary `d`:
/// `w` is a key of `d`, and one of the pronunciations a lookup of it gives
/// has that nucleus and that coda.
pub open spec fn in_group(d: Map<Seq<char>, Seq<Seq<u8>>>, coda: Seq<u8>, nucleus: u8, w: Seq<char>) -> bool {
    &&& d.contains_key(w)
    &&& exists|j: int|
        0 <= j < filed_variants(d, w).len() && nucleus_coda(#[trigger] filed_variants(d, w)[j]) == Some((nucleus, coda))
}

/// How many vowel bases there are, and so how many nucleus lists each coda keeps.
pub const NUCLEI: usize = 15;

/// The words of `coda` and `nucleus` in a map from codas to per-nucleus word lists.
pub open spec fn bucket(g: Map<Seq<u8>, Vec<Vec<Vec<char>>>>, coda: Seq<u8>, nucleus: u8) -> Seq<Seq<char>> {
    if g.contains_key(coda) && phoneme::AA <= nucleus <= phoneme::UW {
        g[coda]@[nucleus - phoneme::AA].deep_view()
    } else {
        Seq::empty()
    }
}

/// Every coda keeps one word list per vowel base, each in increasing order.
pub open spec fn lists_ok(g: Map<Seq<u8>, Vec<Vec<Vec<char>>>>) -> bool {
    forall|k: Seq<u8>| #[trigger] g.contains_key(k) ==> {
        &&& g[k]@.len() == NUCLEI
        &&& forall|n: int| 0 <= n < NUCLEI ==> sorted_words(#[trigger] g[k]@[n].deep_view())
    }
}

/// Every coda has a word under some nucleus.
pub open spec fn codas_used(g: Map<Seq<u8>, Vec<Vec<Vec<char>>>>) -> bool {
    forall|k: Seq<u8>| #[trigger] g.contains_key(k) ==> exists|n: int| 0 <= n < NUCLEI && (#[trigger] g[k]@[n])@.len() > 0
}

/// Words grouped by the nucleus and coda of their rhyming syllable: for each
/// coda, one word list per vowel base, each in increasing order.
pub struct CodaGroups {
    groups: ByteMap<Vec<Vec<Vec<char>>>>,
}

/// Put `w` into the list of `coda` and `nucleus`, unless it is there already.
/// Every word already in that list comes before `w` or is `w`.
fn add_member(g: &mut ByteMap<Vec<Vec<Vec<char>>>>, coda: &[u8], nucleus: u8, w: &Vec<char>)
    requires
        old(g).wf(),
        lists_ok(old(g)@),
        phoneme::AA <= nucleus <= phoneme::UW,
        forall|x: Seq<char>| #[trigger] bucket(old(g)@, coda@, nucleus).contains(x) ==> x == w@ || lex_lt(x, w@),
    ensures
        final(g).wf(),
        lists_ok(final(g)@),
        final(g)@.dom() == old(g)@.dom().insert(coda@),
        bucket(final(g)@, coda@, nucleus).contains(w@),
        forall|c: Seq<u8>, n: u8, x: Seq<char>|
            #[trigger] bucket(final(g)@, c, n).contains(x) <==> bucket(old(g)@, c, n).contains(x) || (c == coda@ && n
                == nucleus && x == w@),
        forall|k: Seq<u8>| k != coda@ && old(g)@.contains_key(k) ==> #[trigger] final(g)@[k] == old(g)@[k],
        old(g)@.contains_key(coda@) ==> forall|n: int|
            0 <= n < NUCLEI && n != nucleus - phoneme::AA ==> #[trigger] final(g)@[coda@]@[n] == old(g)@[coda@]@[n],
{
    let mut fresh: Vec<Vec<Vec<char>>> = Vec::new();
    let mut t: usize = 0;
    while t < NUCLEI
        invariant
            t <= NUCLEI,
            fresh@.len() == t,
            forall|n: int| 0 <= n < t ==> (#[trigger] fresh@[n])@.len() == 0,
        decreases NUCLEI - t,
    {
        fresh.push(Vec::new());
        t += 1;
    }
    let ghost og = g@;
    let ghost fr = fresh;
    let i = g.entry(coda, fresh);
    let n = (nucleus - phoneme::AA) as usize;
    proof {
        g.lemma_wf();
        assert(g@[coda@] == g.values()[i as int]);
        if !og.contains_key(coda@) {
            assert(g@[coda@] == fr);
            assert forall|k: Seq<u8>| #[trigger] g@.contains_key(k) implies {
                &&& g@[k]@.len() == NUCLEI
                &&& forall|m: int| 0 <= m < NUCLEI ==> sorted_words(#[trigger] g@[k]@[m].deep_view())
            } by {
                if k != coda@ {
                    assert(og.contains_key(k));
                }
                else {
                    assert forall|m: int| 0 <= m < NUCLEI implies sorted_words(#[trigger] g@[k]@[m].deep_view()) by {
                        assert(g@[k]@[m]@.len() == 0);
                    }
                }
            }
        }
        assert(lists_ok(g@));
    }
    let lists = g.value_at(i);
    let list = &lists[n];
    let len = list.len();
    if len > 0 && word_order(list[len - 1].as_slice(), w.as_slice()) == 0 {
        proof {
            assert(list.deep_view()[len - 1] == w@);
            assert(bucket(g@, coda@, nucleus) == list.deep_view());
            assert(og.contains_key(coda@));
            assert(g@ == og);
        }
        return;
    }
    let ghost before = g@;
    let ghost lv = list.deep_view();
    proof {
        assert(bucket(g@, coda@, nucleus) == lv);
        assert(sorted_words(lv));
        // every word already listed comes before `w`
        assert forall|a: int| 0 <= a < lv.len() implies lex_lt(#[trigger] lv[a], w@) by {
            assert(lv.contains(lv[a]));
            if og.contains_key(coda@) {
                assert(bucket(og, coda@, nucleus) == lv);
            }
            if lv[a] == w@ {
                assert(a < len - 1);
                assert(lex_lt(lv[a], lv[len - 1]));
                assert(lv.contains(lv[len - 1]));
                lemma_lex_asymmetric(lv[a], lv[len - 1]);
            }
        }
    }
    let word = copy_word(w.as_slice());
    g.push_nested(i, n, word);
    proof {
        let key = coda@;
        assert(g@[key]@[n as int]@ == before[key]@[n as int]@.push(word));
        let nl = g@[key]@[n as int].deep_view();
        assert(nl =~= lv.push(w@));
        assert(sorted_words(nl)) by {
            assert forall|a: int, b: int| 0 <= a < b < nl.len() implies lex_lt(#[trigger] nl[a], #[trigger] nl[b]) by {
                if b < lv.len() {
                    assert(nl[a] == lv[a] && nl[b] == lv[b]);
                } else {
                    assert(nl[a] == lv[a]);
                }
            }
        }
        assert(lists_ok(g@)) by {
            assert forall|k: Seq<u8>| #[trigger] g@.contains_key(k) implies {
                &&& g@[k]@.len() == NUCLEI
                &&& forall|m: int| 0 <= m < NUCLEI ==> sorted_words(#[trigger] g@[k]@[m].deep_view())
            } by {
                if k != key {
                    assert(g@[k] == before[k]);
                } else {
                    assert forall|m: int| 0 <= m < NUCLEI implies sorted_words(#[trigger] g@[k]@[m].deep_view()) by {
                        if m != n {
                            assert(g@[k]@[m] == before[k]@[m]);
                        }
                    }
                }
            }
        }
        assert(g@.dom() =~= og.dom().insert(key));
        assert(bucket(g@, key, nucleus) == nl);
        assert(nl[nl.len() - 1] == w@);
        assert forall|c: Seq<u8>, m: u8, x: Seq<char>|
            #[trigger] bucket(g@, c, m).contains(x) <==> bucket(og, c, m).contains(x) || (c == key && m
                == nucleus && x == w@) by {
            if c != key {
                if og.contains_key(c) {
                    assert(g@[c] == og[c]);
                }
            } else if phoneme::AA <= m <= phoneme::UW {
                if m != nucleus {
                    assert(g@[c]@[m - phoneme::AA] == before[c]@[m - phoneme::AA]);
                    if og.contains_key(c) {
                        assert(before[c] == og[c]);
                    } else {
                        assert(before[c] == fr);
                        assert(fr@[m - phoneme::AA]@.len() == 0);
                    }
                } else {
                    if og.contains_key(c) {
                        assert(bucket(og, c, m) == lv);
                    } else {
                        assert(lv.len() == 0);
                    }
                    if nl.contains(x) {
                        let a = choose|a: int| 0 <= a < nl.len() && nl[a] == x;
                        if a < lv.len() {
                            assert(lv.contains(x));
                        }
                    }
                    if lv.contains(x) {
                        let a = choose|a: int| 0 <= a < lv.len() && lv[a] == x;
                        assert(nl[a] == x);
                    }
                }
            }
        }
        assert forall|k: Seq<u8>| k != key && og.contains_key(k) implies #[trigger] g@[k] == og[k] by {
            assert(g@[k] == before[k]);
        }
        if og.contains_key(key) {
            assert forall|m: int| 0 <= m < NUCLEI && m != nucleus - phoneme::AA implies #[trigger] g@[key]@[m] == og[key]@[m] by {
                assert(g@[key]@[m] == before[key]@[m]);
            }
        }
    }
}

impl CodaGroups {
    #[verifier::type_invariant]
    spec fn well_formed(&self) -> bool {
        &&& self.groups.wf()
        &&& lists_ok(self.groups@)
        &&& codas_used(self.groups@)
    }

    /// The codas, in increasing byte order.
    pub closed spec fn codas(&self) -> Seq<Seq<u8>> {
        self.groups.keys()
    }

    /// The words whose rhyming syllable has `nucleus` and `coda`, in increasing order.
    pub closed spec fn members(&self, coda: Seq<u8>, nucleus: u8) -> Seq<Seq<char>> {
        bucket(self.groups@, coda, nucleus)
    }

    /// Number of distinct codas.
    pub fn coda_count(&self) -> (r: usize)
        ensures
            r == self.codas().len(),
            self.codas().no_duplicates(),
            forall|c: Seq<u8>, n: u8| #[trigger] self.members(c, n).len() > 0 ==> self.codas().contains(c),
            forall|c: Seq<u8>, n: u8| sorted_words(#[trigger] self.members(c, n)),
    {
        proof {
            use_type_invariant(self);
            self.groups.lemma_wf();
            assert forall|c: Seq<u8>, n: u8| sorted_words(#[trigger] self.members(c, n)) by {
                if self.groups@.contains_key(c) && phoneme::AA <= n <= phoneme::UW {
                    assert(sorted_words(self.groups@[c]@[n - phoneme::AA].deep_view()));
                }
            }
        }
        self.groups.len()
    }

    /// The `i`-th coda, in increasing byte order.
    pub fn coda_at(&self, i: usize) -> (r: &Vec<u8>)
        requires
            i < self.codas().len(),
        ensures
            r@ == self.codas()[i as int],
            exists|n: u8| phoneme::AA <= n <= phoneme::UW && #[trigger] self.members(r@, n).len() > 0,
    {
        proof {
            use_type_invariant(self);
            self.groups.lemma_wf();
            let k = self.groups.keys()[i as int];
            let m = choose|m: int| 0 <= m < NUCLEI && (#[trigger] self.groups@[k]@[m])@.len() > 0;
            let n = (m + phoneme::AA) as u8;
            assert(self.members(k, n).len() > 0);
        }
        self.groups.key_at(i)
    }

    /// The position of `coda` among the codas, if it has any words.
    pub fn find_coda(&self, coda: &[u8]) -> (r: Option<usize>)
        ensures
            r is None <==> !self.codas().contains(coda@),
            r matches Some(i) ==> i < self.codas().len() && self.codas()[i as int] == coda@,
    {
        proof {
            use_type_invariant(self);
            self.groups.lemma_wf();
        }
        self.groups.find(coda)
    }

    /// The words of the `i`-th coda under `nucleus`, in increasing order.
    pub fn words_at(&self, i: usize, nucleus: u8) -> (r: &Vec<Vec<char>>)
        requires
            i < self.codas().len(),
            phoneme::AA <= nucleus <= phoneme::UW,
        ensures
            r.deep_view() == self.members(self.codas()[i as int], nucleus),
            sorted_words(r.deep_view()),
    {
        proof {
            use_type_invariant(self);
            self.groups.lemma_wf();
            let k = self.groups.keys()[i as int];
            assert(self.groups@.contains_key(k));
            assert(self.groups@[k] == self.groups.values()[i as int]);
            assert(sorted_words(self.groups@[k]@[nucleus - phoneme::AA].deep_view()));
        }
        let lists = self.groups.value_at(i);
        &lists[(nucleus - phoneme::AA) as usize]
    }
}

/// Build the coda groups of a dictionary: every key goes, once, into the
/// group of the nucleus and coda of each pronunciation that a lookup of it
/// gives (normalized, g-drop patched); a key whose lookup finds nothing goes
/// nowhere.
pub fn build(dict: &CmuDict) -> (g: CodaGroups)
    ensures
        forall|c: Seq<u8>, n: u8, w: Seq<char>| #[trigger] g.members(c, n).contains(w) <==> in_group(dict@, c, n, w),
{
    let count = dict.entry_count();
    let ghost ws = dict.words();
    let ghost d = dict@;
    let mut g: ByteMap<Vec<Vec<Vec<char>>>> = ByteMap::new();
    let mut i: usize = 0;
    while i < count
        invariant
            count == ws.len(),
            ws == dict.words(),
            d == dict@,
            sorted_words(ws),
            i <= count,
            g.wf(),
            lists_ok(g@),
            codas_used(g@),
            forall|c: Seq<u8>, n: u8, x: Seq<char>| #[trigger] bucket(g@, c, n).contains(x) ==> in_group(d, c, n, x)
                && exists|k: int| 0 <= k < i && ws[k] == x,
            forall|k: int, j: int, c: Seq<u8>, n: u8|
                0 <= k < i && 0 <= j < filed_variants(d, ws[k]).len() && nucleus_coda(
                    #[trigger] filed_variants(d, ws[k])[j],
                ) == Some((n, c)) ==> #[trigger] bucket(g@, c, n).contains(ws[k]),
        decreases count - i,
    {
        let (word, _) = dict.entry_at(i);
        let ghost w = word@;
        let key = string_from(word.as_slice());
        let variants = match dict.lookup(key.as_str()) {
            Some(vs) => vs,
            None => Vec::new(),
        };
        proof {
            assert(variants.deep_view() =~= filed_variants(d, w));
        }
        let mut j: usize = 0;
        while j < variants.len()
            invariant
                count == ws.len(),
                ws == dict.words(),
                d == dict@,
                sorted_words(ws),
                i < count,
                w == ws[i as int],
                word@ == w,
                d.contains_key(w),
                variants.deep_view() == filed_variants(d, w),
                j <= variants@.len(),
                g.wf(),
                lists_ok(g@),
                codas_used(g@),
                forall|c: Seq<u8>, n: u8, x: Seq<char>| #[trigger] bucket(g@, c, n).contains(x) ==> in_group(d, c, n, x)
                    && exists|k: int| 0 <= k <= i && ws[k] == x,
                forall|k: int, jj: int, c: Seq<u8>, n: u8|
                    0 <= k < i && 0 <= jj < filed_variants(d, ws[k]).len() && nucleus_coda(
                        #[trigger] filed_variants(d, ws[k])[jj],
                    ) == Some((n, c)) ==> #[trigger] bucket(g@, c, n).contains(ws[k]),
                forall|jj: int, c: Seq<u8>, n: u8|
                    0 <= jj < j && nucleus_coda(#[trigger] filed_variants(d, w)[jj]) == Some((n, c))
                        ==> #[trigger] bucket(g@, c, n).contains(w),
            decreases variants@.len() - j,
        {
            let found = extract_nucleus_coda(variants[j].as_slice());
            let ghost fv = filed_variants(d, w);
            proof {
                assert(variants@[j as int]@ == fv[j as int]);
            }
            match found {
                Some((nucleus, coda)) => {
                    proof {
                        lemma_nucleus_base(fv[j as int]);
                        assert(nucleus_coda(fv[j as int]) == Some((nucleus, coda@)));
                        assert forall|x: Seq<char>| #[trigger] bucket(g@, coda@, nucleus).contains(x) implies x == w || lex_lt(x, w) by {
                            let k = choose|k: int| 0 <= k <= i && ws[k] == x;
                            if k < i {
                                assert(lex_lt(ws[k], ws[i as int]));
                            }
                        }
                    }
                    let ghost og = g@;
                    add_member(&mut g, coda.as_slice(), nucleus, word);
                    proof {
                        assert(in_group(d, coda@, nucleus, w));
                        assert forall|k: Seq<u8>| #[trigger] g@.contains_key(k) implies exists|m: int| 0 <= m < NUCLEI && (#[trigger] g@[k]@[m])@.len() > 0 by {
                            if k != coda@ {
                                assert(og.contains_key(k));
                                assert(g@[k] == og[k]);
                            } else {
                                let m = nucleus - phoneme::AA;
                                assert(bucket(g@, k, nucleus).len() > 0);
                                assert(g@[k]@[m]@.len() > 0);
                            }
                        }
                        assert forall|jj: int, c: Seq<u8>, n: u8|
                            0 <= jj < j + 1 && nucleus_coda(#[trigger] filed_variants(d, w)[jj]) == Some((n, c)) implies #[trigger] bucket(g@, c, n).contains(w) by {
                            if jj < j {
                                assert(bucket(og, c, n).contains(w));
                            }
                        }
                        assert forall|k: int, jj: int, c: Seq<u8>, n: u8|
                            0 <= k < i && 0 <= jj < filed_variants(d, ws[k]).len() && nucleus_coda(#[trigger] filed_variants(d, ws[k])[jj]) == Some((n, c))
                            implies #[trigger] bucket(g@, c, n).contains(ws[k]) by {
                            assert(bucket(og, c, n).contains(ws[k]));
                        }
                    }
                },
                None => {
                    proof {
                        assert(nucleus_coda(fv[j as int]) is None);
                    }
                },
            }
            j += 1;
        }
        i += 1;
    }
    proof {
        assert forall|c: Seq<u8>, n: u8, w: Seq<char>| in_group(d, c, n, w) implies #[trigger] bucket(g@, c, n).contains(w) by {
            {
                assert(ws.contains(w));
                let k = choose|k: int| 0 <= k < ws.len() && ws[k] == w;
                let j = choose|j: int|
                    0 <= j < filed_variants(d, w).len() && nucleus_coda(#[trigger] filed_variants(d, w)[j]) == Some((n, c));
                assert(nucleus_coda(filed_variants(d, ws[k])[j]) == Some((n, c)));
            }
        }
    }
    CodaGroups { groups: g }
}

} // verus!
