//! Character and string operations of std that the rest of the library
//! builds on, and the conversions between `&str`, `String` and `Vec<char>`.

use vstd::prelude::*;

verus! {

/// Whether `c` has the Unicode `Alphabetic` property, as `char::is_alphabetic` reports it.
pub uninterp spec fn alphabetic(c: char) -> bool;

/// The first character that `char::to_uppercase` yields for `c`.
pub uninterp spec fn upper_first(c: char) -> char;

/// The string that `str::to_uppercase` returns for `s`.
pub uninterp spec fn upper_str(s: Seq<char>) -> Seq<char>;

/// The string that `str::to_lowercase` returns for `s`.
pub uninterp spec fn lower_str(s: Seq<char>) -> Seq<char>;

/// The characters that `String::from_utf8_lossy` decodes from `b`.
pub uninterp spec fn lossy_utf8(b: Seq<u8>) -> Seq<char>;

/// An ASCII letter, lower or upper case.
pub open spec fn is_ascii_letter(c: char) -> bool {
    ('a' <= c && c <= 'z') || ('A' <= c && c <= 'Z')
}

/// An ASCII lower-case letter.
pub open spec fn is_ascii_lower(c: char) -> bool {
    'a' <= c && c <= 'z'
}

/// An ASCII upper-case letter.
pub open spec fn is_ascii_upper(c: char) -> bool {
    'A' <= c && c <= 'Z'
}

/// `char::is_ascii_digit`.
pub open spec fn is_digit(c: char) -> bool {
    '0' <= c && c <= '9'
}

/// Wraps `char::is_alphabetic`. The contract names the result and states the
/// one fact std documents for ASCII: there the property holds of letters only.
#[verifier::external_body]
pub(crate) fn is_alphabetic(c: char) -> (r: bool)
    ensures
        r == alphabetic(c),
        (c as u32) < 128 ==> (r == is_ascii_letter(c)),
{
    c.is_alphabetic()
}

/// Wraps `char::to_uppercase`, keeping the first character it yields (or `c`
/// where it yields none). For ASCII input std documents the mapping: lower-case
/// letters go to upper case, every other ASCII character stays.
#[verifier::external_body]
pub(crate) fn to_upper_first(c: char) -> (r: char)
    ensures
        r == upper_first(c),
        is_ascii_lower(c) ==> r as u32 == (c as u32) - 32,
        ((c as u32) < 128 && !is_ascii_lower(c)) ==> r == c,
{
    c.to_uppercase().next().unwrap_or(c)
}

/// Wraps `str::to_uppercase`. The result is named; for ASCII input std's
/// mapping is stated: lower-case letters go to upper case, the rest stay.
#[verifier::external_body]
pub(crate) fn str_to_upper(s: &str) -> (r: String)
    ensures
        r@ == upper_str(s@),
        (forall|i: int| 0 <= i < s@.len() ==> (s@[i] as u32) < 128) ==> r@.len() == s@.len() && (forall|i: int|
            0 <= i < s@.len() ==> (if is_ascii_lower(s@[i]) {
                r@[i] as u32 == (s@[i] as u32) - 32
            } else {
                r@[i] == s@[i]
            })),
{
    s.to_uppercase()
}

/// Wraps `str::to_lowercase`. The result is named; for ASCII input std's
/// mapping is stated: upper-case letters go to lower case, the rest stay.
#[verifier::external_body]
pub(crate) fn str_to_lower(s: &str) -> (r: String)
    ensures
        r@ == lower_str(s@),
        (forall|i: int| 0 <= i < s@.len() ==> (s@[i] as u32) < 128) ==> r@.len() == s@.len() && (forall|i: int|
            0 <= i < s@.len() ==> (if is_ascii_upper(s@[i]) {
                r@[i] as u32 == (s@[i] as u32) + 32
            } else {
                r@[i] == s@[i]
            })),
{
    s.to_lowercase()
}

/// Wraps `String::push`: the character is appended.
#[verifier::external_body]
pub(crate) fn push_char(s: &mut String, c: char)
    ensures
        final(s)@ == old(s)@.push(c),
{
    s.push(c)
}

/// Wraps `String::from_utf8_lossy`. Bytes below 128 are valid UTF-8, each
/// decoding to the character with that code; std documents that valid input is
/// decoded unchanged.
#[verifier::external_body]
pub(crate) fn utf8_lossy(b: &[u8]) -> (r: String)
    ensures
        r@ == lossy_utf8(b@),
        (forall|i: int| 0 <= i < b@.len() ==> b@[i] < 128) ==> r@.len() == b@.len() && (forall|i: int|
            0 <= i < b@.len() ==> r@[i] as u32 == b@[i] as u32),
{
    String::from_utf8_lossy(b).into_owned()
}

/// The character sequences of a list of strings.
pub open spec fn views(v: Seq<String>) -> Seq<Seq<char>> {
    v.map_values(|s: String| s@)
}

/// A byte vector's deep view is its view.
pub broadcast proof fn lemma_deep_bytes(v: Vec<u8>)
    ensures
        #[trigger] v.deep_view() == v@,
{
    assert(v.deep_view() =~= v@);
}

/// A character vector's deep view is its view.
pub broadcast proof fn lemma_deep_chars(v: Vec<char>)
    ensures
        #[trigger] v.deep_view() == v@,
{
    assert(v.deep_view() =~= v@);
}

/// The characters of `s`, in order.
pub fn chars_of(s: &str) -> (v: Vec<char>)
    ensures
        v@ == s@,
{
    let mut v: Vec<char> = Vec::new();
    for c in it: s.chars()
        invariant
            it.seq() == s@,
            v@ == it.seq().take(it.index() as int),
    {
        v.push(c);
    }
    v
}

/// The string made of the characters of `v`, in order.
pub fn string_from(v: &[char]) -> (s: String)
    ensures
        s@ == v@,
{
    let mut s = String::new();
    let mut i: usize = 0;
    while i < v.len()
        invariant
            i <= v@.len(),
            s@ == v@.take(i as int),
        decreases v@.len() - i,
    {
        push_char(&mut s, v[i]);
        i += 1;
        proof {
            assert(v@.take(i as int) =~= v@.take((i - 1) as int).push(v@[i - 1]));
        }
    }
    proof {
        assert(v@.take(v@.len() as int) =~= v@);
    }
    s
}

} // verus!

verus! {

/// A copy of a list of strings.
pub fn copy_strings(v: &Vec<String>) -> (r: Vec<String>)
    ensures
        views(r@) == views(v@),
{
    let mut r: Vec<String> = Vec::new();
    let mut i: usize = 0;
    while i < v.len()
        invariant
            i <= v@.len(),
            views(r@) == views(v@).take(i as int),
        decreases v@.len() - i,
    {
        let ghost before = views(r@);
        r.push(v[i].clone());
        i += 1;
        proof {
            assert(views(r@) =~= before.push(v@[i - 1]@));
            assert(views(v@).take(i as int) =~= views(v@).take(i - 1).push(v@[i - 1]@));
        }
    }
    proof {
        assert(views(v@).take(v@.len() as int) =~= views(v@));
    }
    r
}

} // verus!
