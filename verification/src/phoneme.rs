//! Phoneme encoding: every ARPAbet phoneme maps to a single u8.
//!
//! Layout:
//!   0        = invalid / padding
//!   1..=24   = consonants (B CH D DH F G HH JH K L M N NG P R S SH T TH V W Y Z ZH)
//!   25..=39  = vowel bases (AA AE AH AO AW AY EH ER EY IH IY OW OY UH UW)
//!   stressed = base + 40 (primary) or base + 80 (secondary)
//!
//! So AA0 = 25, AA1 = 65, AA2 = 105; the largest id is UW2 = 119.

use vstd::prelude::*;

use crate::text::{chars_of, is_digit, views};

verus! {

// ── Consonant IDs (1..=24) ──
pub const B: u8 = 1;
pub const CH: u8 = 2;
pub const D: u8 = 3;
pub const DH: u8 = 4;
pub const F: u8 = 5;
pub const G: u8 = 6;
pub const HH: u8 = 7;
pub const JH: u8 = 8;
pub const K: u8 = 9;
pub const L: u8 = 10;
pub const M: u8 = 11;
pub const N: u8 = 12;
pub const NG: u8 = 13;
pub const P: u8 = 14;
pub const R: u8 = 15;
pub const S: u8 = 16;
pub const SH: u8 = 17;
pub const T: u8 = 18;
pub const TH: u8 = 19;
pub const V: u8 = 20;
pub const W: u8 = 21;
pub const Y: u8 = 22;
pub const Z: u8 = 23;
pub const ZH: u8 = 24;

// ── Vowel base IDs (25..=39), unstressed ──
pub const AA: u8 = 25;
pub const AE: u8 = 26;
pub const AH: u8 = 27;
pub const AO: u8 = 28;
pub const AW: u8 = 29;
pub const AY: u8 = 30;
pub const EH: u8 = 31;
pub const ER: u8 = 32;
pub const EY: u8 = 33;
pub const IH: u8 = 34;
pub const IY: u8 = 35;
pub const OW: u8 = 36;
pub const OY: u8 = 37;
pub const UH: u8 = 38;
pub const UW: u8 = 39;

const VOWEL_BASE: u8 = 25;
const VOWEL_END: u8 = 39;
const STRESS_1_OFFSET: u8 = 40;
const STRESS_2_OFFSET: u8 = 80;

/// True if the phoneme is a vowel (any stress level), indexed by id.
pub const IS_VOWEL: [bool; 120] = [
    false, false, false, false, false, false, false, false, false, false, false, false, false,
    false, false, false, false, false, false, false, false, false, false, false, false, true,
    true, true, true, true, true, true, true, true, true, true, true, true, true, true, false,
    false, false, false, false, false, false, false, false, false, false, false, false, false,
    false, false, false, false, false, false, false, false, false, false, false, true, true,
    true, true, true, true, true, true, true, true, true, true, true, true, true, false, false,
    false, false, false, false, false, false, false, false, false, false, false, false, false,
    false, false, false, false, false, false, false, false, false, false, true, true, true,
    true, true, true, true, true, true, true, true, true, true, true, true,
];

/// Stress level by id: 0 for consonants and unstressed vowels, 1 or 2 for stressed ones.
pub const STRESS_OF: [u8; 120] = [
    0, 0, 0, 0, 0, 0, 0, 0, 0, 0, 0, 0, 0, 0, 0, 0, 0, 0, 0, 0, 0, 0, 0, 0, 0, 0, 0, 0, 0, 0,
    0, 0, 0, 0, 0, 0, 0, 0, 0, 0, 0, 0, 0, 0, 0, 0, 0, 0, 0, 0, 0, 0, 0, 0, 0, 0, 0, 0, 0, 0,
    0, 0, 0, 0, 0, 1, 1, 1, 1, 1, 1, 1, 1, 1, 1, 1, 1, 1, 1, 1, 0, 0, 0, 0, 0, 0, 0, 0, 0, 0,
    0, 0, 0, 0, 0, 0, 0, 0, 0, 0, 0, 0, 0, 0, 0, 2, 2, 2, 2, 2, 2, 2, 2, 2, 2, 2, 2, 2, 2, 2,
];

/// Each id with its stress removed (AA1 → AA0, consonants unchanged).
pub const STRIPPED: [u8; 120] = [
    0, 1, 2, 3, 4, 5, 6, 7, 8, 9, 10, 11, 12, 13, 14, 15, 16, 17, 18, 19, 20, 21, 22, 23, 24,
    25, 26, 27, 28, 29, 30, 31, 32, 33, 34, 35, 36, 37, 38, 39, 40, 41, 42, 43, 44, 45, 46, 47,
    48, 49, 50, 51, 52, 53, 54, 55, 56, 57, 58, 59, 60, 61, 62, 63, 64, 25, 26, 27, 28, 29, 30,
    31, 32, 33, 34, 35, 36, 37, 38, 39, 80, 81, 82, 83, 84, 85, 86, 87, 88, 89, 90, 91, 92, 93,
    94, 95, 96, 97, 98, 99, 100, 101, 102, 103, 104, 25, 26, 27, 28, 29, 30, 31, 32, 33, 34,
    35, 36, 37, 38, 39,
];


// ── Specification ───────────────────────────────────────────────────────

/// A vowel id at any stress level.
pub open spec fn vowel_id(id: u8) -> bool {
    (25 <= id && id <= 39) || (65 <= id && id <= 79) || (105 <= id && id <= 119)
}

/// The stress level an id carries: 1 or 2 for stressed vowels, 0 otherwise.
pub open spec fn stress_of(id: u8) -> u8 {
    if 65 <= id && id <= 79 {
        1
    } else if 105 <= id && id <= 119 {
        2
    } else {
        0
    }
}

/// An id with its stress removed; ids that carry no stress map to themselves.
pub open spec fn stripped(id: u8) -> u8 {
    if 105 <= id && id <= 119 {
        (id - 80) as u8
    } else if 65 <= id && id <= 79 {
        (id - 40) as u8
    } else {
        id
    }
}

/// An id that names a phoneme: a consonant or a vowel at one of its three stresses.
pub open spec fn valid_id(id: u8) -> bool {
    (1 <= id && id <= 24) || vowel_id(id)
}

/// The ARPAbet spelling of a base (stress-free) phoneme id, empty for other values.
pub open spec fn base_name(base: u8) -> Seq<char> {
    if base == 1 {
        seq!['B']
    } else if base == 2 {
        seq!['C', 'H']
    } else if base == 3 {
        seq!['D']
    } else if base == 4 {
        seq!['D', 'H']
    } else if base == 5 {
        seq!['F']
    } else if base == 6 {
        seq!['G']
    } else if base == 7 {
        seq!['H', 'H']
    } else if base == 8 {
        seq!['J', 'H']
    } else if base == 9 {
        seq!['K']
    } else if base == 10 {
        seq!['L']
    } else if base == 11 {
        seq!['M']
    } else if base == 12 {
        seq!['N']
    } else if base == 13 {
        seq!['N', 'G']
    } else if base == 14 {
        seq!['P']
    } else if base == 15 {
        seq!['R']
    } else if base == 16 {
        seq!['S']
    } else if base == 17 {
        seq!['S', 'H']
    } else if base == 18 {
        seq!['T']
    } else if base == 19 {
        seq!['T', 'H']
    } else if base == 20 {
        seq!['V']
    } else if base == 21 {
        seq!['W']
    } else if base == 22 {
        seq!['Y']
    } else if base == 23 {
        seq!['Z']
    } else if base == 24 {
        seq!['Z', 'H']
    } else if base == 25 {
        seq!['A', 'A']
    } else if base == 26 {
        seq!['A', 'E']
    } else if base == 27 {
        seq!['A', 'H']
    } else if base == 28 {
        seq!['A', 'O']
    } else if base == 29 {
        seq!['A', 'W']
    } else if base == 30 {
        seq!['A', 'Y']
    } else if base == 31 {
        seq!['E', 'H']
    } else if base == 32 {
        seq!['E', 'R']
    } else if base == 33 {
        seq!['E', 'Y']
    } else if base == 34 {
        seq!['I', 'H']
    } else if base == 35 {
        seq!['I', 'Y']
    } else if base == 36 {
        seq!['O', 'W']
    } else if base == 37 {
        seq!['O', 'Y']
    } else if base == 38 {
        seq!['U', 'H']
    } else if base == 39 {
        seq!['U', 'W']
    } else {
        Seq::empty()
    }
}

/// The id of a one-letter phoneme name, 0 for other letters.
pub open spec fn one_letter_id(a: char) -> u8 {
    if a == 'B' {
        1
    } else if a == 'D' {
        3
    } else if a == 'F' {
        5
    } else if a == 'G' {
        6
    } else if a == 'K' {
        9
    } else if a == 'L' {
        10
    } else if a == 'M' {
        11
    } else if a == 'N' {
        12
    } else if a == 'P' {
        14
    } else if a == 'R' {
        15
    } else if a == 'S' {
        16
    } else if a == 'T' {
        18
    } else if a == 'V' {
        20
    } else if a == 'W' {
        21
    } else if a == 'Y' {
        22
    } else if a == 'Z' {
        23
    } else {
        0
    }
}

/// The id of a two-letter phoneme name, 0 for other pairs.
pub open spec fn two_letter_id(a: char, b: char) -> u8 {
    if a == 'C' && b == 'H' {
        2
    } else if a == 'D' && b == 'H' {
        4
    } else if a == 'H' && b == 'H' {
        7
    } else if a == 'J' && b == 'H' {
        8
    } else if a == 'N' && b == 'G' {
        13
    } else if a == 'S' && b == 'H' {
        17
    } else if a == 'T' && b == 'H' {
        19
    } else if a == 'Z' && b == 'H' {
        24
    } else if a == 'A' && b == 'A' {
        25
    } else if a == 'A' && b == 'E' {
        26
    } else if a == 'A' && b == 'H' {
        27
    } else if a == 'A' && b == 'O' {
        28
    } else if a == 'A' && b == 'W' {
        29
    } else if a == 'A' && b == 'Y' {
        30
    } else if a == 'E' && b == 'H' {
        31
    } else if a == 'E' && b == 'R' {
        32
    } else if a == 'E' && b == 'Y' {
        33
    } else if a == 'I' && b == 'H' {
        34
    } else if a == 'I' && b == 'Y' {
        35
    } else if a == 'O' && b == 'W' {
        36
    } else if a == 'O' && b == 'Y' {
        37
    } else if a == 'U' && b == 'H' {
        38
    } else if a == 'U' && b == 'W' {
        39
    } else {
        0
    }
}

/// The id of a base phoneme name (one or two letters, no stress digit).
pub open spec fn base_id(s: Seq<char>) -> u8 {
    if s.len() == 1 {
        one_letter_id(s[0])
    } else if s.len() == 2 {
        two_letter_id(s[0], s[1])
    } else {
        0
    }
}

/// Whether the encoding reads a trailing stress digit off `s`: only names of
/// three or more characters carry one.
pub open spec fn has_stress_digit(s: Seq<char>) -> bool {
    s.len() >= 3 && is_digit(s[s.len() - 1])
}

/// The id that an ARPAbet string encodes to; 0 for unrecognized input.
/// Consonants ignore the stress digit; a vowel with a digit other than 1 or 2
/// keeps its base id.
pub open spec fn encoding(s: Seq<char>) -> u8 {
    let digit = has_stress_digit(s);
    let base = if digit {
        base_id(s.drop_last())
    } else {
        base_id(s)
    };
    let stress = if digit {
        (s[s.len() - 1] as u32) - ('0' as u32)
    } else {
        0
    };
    if s.len() == 0 || base == 0 {
        0
    } else if base < 25 {
        base
    } else if stress == 1 {
        (base + 40) as u8
    } else if stress == 2 {
        (base + 80) as u8
    } else {
        base
    }
}

/// The ARPAbet string of an id: the base name, followed for vowels by the
/// stress digit; empty for ids that name no phoneme.
pub open spec fn decode_name(id: u8) -> Seq<char> {
    if !valid_id(id) {
        Seq::empty()
    } else if vowel_id(id) {
        base_name(stripped(id)).push(
            if stress_of(id) == 0 {
                '0'
            } else if stress_of(id) == 1 {
                '1'
            } else {
                '2'
            },
        )
    } else {
        base_name(id)
    }
}

/// The number of vowels in a phoneme sequence, which is its syllable count.
pub open spec fn vowel_count(ids: Seq<u8>) -> nat
    decreases ids.len(),
{
    if ids.len() == 0 {
        0
    } else {
        vowel_count(ids.drop_last()) + if vowel_id(ids.last()) {
            1nat
        } else {
            0nat
        }
    }
}

/// The stress level of each vowel of a phoneme sequence, in order.
pub open spec fn stress_pattern(ids: Seq<u8>) -> Seq<i32>
    decreases ids.len(),
{
    if ids.len() == 0 {
        Seq::empty()
    } else if vowel_id(ids.last()) {
        stress_pattern(ids.drop_last()).push(stress_of(ids.last()) as i32)
    } else {
        stress_pattern(ids.drop_last())
    }
}

/// Every id of a sequence with its stress removed.
pub open spec fn strip_seq(ids: Seq<u8>) -> Seq<u8> {
    ids.map_values(|id: u8| stripped(id))
}

// ── Encode / decode ─────────────────────────────────────────────────────

fn encode_prefix(v: &Vec<char>, n: usize) -> (r: u8)
    requires
        n <= v@.len(),
    ensures
        r == encoding(v@.take(n as int)),
{
    let ghost s = v@.take(n as int);
    if n == 0 {
        return 0;
    }
    let last = v[n - 1];
    let digit = n >= 3 && '0' <= last && last <= '9';
    let blen = if digit { n - 1 } else { n };
    let base = if blen == 1 {
        one_letter(v[0])
    } else if blen == 2 {
        two_letter(v[0], v[1])
    } else {
        0
    };
    proof {
        assert(has_stress_digit(s) == digit);
        if digit {
            assert(s.drop_last() =~= v@.take(blen as int));
        }
        assert(base == base_id(v@.take(blen as int)));
    }
    if base == 0 {
        0
    } else if base < VOWEL_BASE {
        base
    } else if digit && last == '1' {
        base + STRESS_1_OFFSET
    } else if digit && last == '2' {
        base + STRESS_2_OFFSET
    } else {
        base
    }
}

/// Encode an ARPAbet string ("AH1", "K", "ER0") to a phoneme ID.
/// Returns 0 for unrecognized input.
pub fn encode(s: &str) -> (r: u8)
    ensures
        r == encoding(s@),
{
    let v = chars_of(s);
    proof {
        assert(v@.take(v@.len() as int) =~= v@);
    }
    encode_prefix(&v, v.len())
}

/// Encode a full phoneme string slice into a Vec<u8>.
pub fn encode_all(phonemes: &[&str]) -> (r: Vec<u8>)
    ensures
        r@.len() == phonemes@.len(),
        forall|i: int| 0 <= i < r@.len() ==> r@[i] == encoding(#[trigger] phonemes@[i]@),
{
    let mut r: Vec<u8> = Vec::new();
    let mut i: usize = 0;
    while i < phonemes.len()
        invariant
            i <= phonemes@.len(),
            r@.len() == i,
            forall|k: int| 0 <= k < i ==> r@[k] == encoding(#[trigger] phonemes@[k]@),
        decreases phonemes@.len() - i,
    {
        r.push(encode(phonemes[i]));
        i += 1;
    }
    r
}

/// Encode from owned Strings.
pub fn encode_strings(phonemes: &[String]) -> (r: Vec<u8>)
    ensures
        r@.len() == phonemes@.len(),
        forall|i: int| 0 <= i < r@.len() ==> r@[i] == encoding(#[trigger] phonemes@[i]@),
{
    let mut r: Vec<u8> = Vec::new();
    let mut i: usize = 0;
    while i < phonemes.len()
        invariant
            i <= phonemes@.len(),
            r@.len() == i,
            forall|k: int| 0 <= k < i ==> r@[k] == encoding(#[trigger] phonemes@[k]@),
        decreases phonemes@.len() - i,
    {
        r.push(encode(phonemes[i].as_str()));
        i += 1;
    }
    r
}

fn one_letter(a: char) -> (r: u8)
    ensures
        r == one_letter_id(a),
{
    if a == 'B' {
        1
    } else if a == 'D' {
        3
    } else if a == 'F' {
        5
    } else if a == 'G' {
        6
    } else if a == 'K' {
        9
    } else if a == 'L' {
        10
    } else if a == 'M' {
        11
    } else if a == 'N' {
        12
    } else if a == 'P' {
        14
    } else if a == 'R' {
        15
    } else if a == 'S' {
        16
    } else if a == 'T' {
        18
    } else if a == 'V' {
        20
    } else if a == 'W' {
        21
    } else if a == 'Y' {
        22
    } else if a == 'Z' {
        23
    } else {
        0
    }
}

fn two_letter(a: char, b: char) -> (r: u8)
    ensures
        r == two_letter_id(a, b),
{
    if a == 'C' && b == 'H' {
        2
    } else if a == 'D' && b == 'H' {
        4
    } else if a == 'H' && b == 'H' {
        7
    } else if a == 'J' && b == 'H' {
        8
    } else if a == 'N' && b == 'G' {
        13
    } else if a == 'S' && b == 'H' {
        17
    } else if a == 'T' && b == 'H' {
        19
    } else if a == 'Z' && b == 'H' {
        24
    } else if a == 'A' && b == 'A' {
        25
    } else if a == 'A' && b == 'E' {
        26
    } else if a == 'A' && b == 'H' {
        27
    } else if a == 'A' && b == 'O' {
        28
    } else if a == 'A' && b == 'W' {
        29
    } else if a == 'A' && b == 'Y' {
        30
    } else if a == 'E' && b == 'H' {
        31
    } else if a == 'E' && b == 'R' {
        32
    } else if a == 'E' && b == 'Y' {
        33
    } else if a == 'I' && b == 'H' {
        34
    } else if a == 'I' && b == 'Y' {
        35
    } else if a == 'O' && b == 'W' {
        36
    } else if a == 'O' && b == 'Y' {
        37
    } else if a == 'U' && b == 'H' {
        38
    } else if a == 'U' && b == 'W' {
        39
    } else {
        0
    }
}

/// Decode a phoneme ID to its ARPAbet string. Returns "" for invalid.
pub fn decode(id: u8) -> (r: &'static str)
    ensures
        r@ == decode_name(id),
{
    match id {
        1 => {
            proof {
                reveal_strlit("B");
            }
            "B"
        },
        2 => {
            proof {
                reveal_strlit("CH");
            }
            "CH"
        },
        3 => {
            proof {
                reveal_strlit("D");
            }
            "D"
        },
        4 => {
            proof {
                reveal_strlit("DH");
            }
            "DH"
        },
        5 => {
            proof {
                reveal_strlit("F");
            }
            "F"
        },
        6 => {
            proof {
                reveal_strlit("G");
            }
            "G"
        },
        7 => {
            proof {
                reveal_strlit("HH");
            }
            "HH"
        },
        8 => {
            proof {
                reveal_strlit("JH");
            }
            "JH"
        },
        9 => {
            proof {
                reveal_strlit("K");
            }
            "K"
        },
        10 => {
            proof {
                reveal_strlit("L");
            }
            "L"
        },
        11 => {
            proof {
                reveal_strlit("M");
            }
            "M"
        },
        12 => {
            proof {
                reveal_strlit("N");
            }
            "N"
        },
        13 => {
            proof {
                reveal_strlit("NG");
            }
            "NG"
        },
        14 => {
            proof {
                reveal_strlit("P");
            }
            "P"
        },
        15 => {
            proof {
                reveal_strlit("R");
            }
            "R"
        },
        16 => {
            proof {
                reveal_strlit("S");
            }
            "S"
        },
        17 => {
            proof {
                reveal_strlit("SH");
            }
            "SH"
        },
        18 => {
            proof {
                reveal_strlit("T");
            }
            "T"
        },
        19 => {
            proof {
                reveal_strlit("TH");
            }
            "TH"
        },
        20 => {
            proof {
                reveal_strlit("V");
            }
            "V"
        },
        21 => {
            proof {
                reveal_strlit("W");
            }
            "W"
        },
        22 => {
            proof {
                reveal_strlit("Y");
            }
            "Y"
        },
        23 => {
            proof {
                reveal_strlit("Z");
            }
            "Z"
        },
        24 => {
            proof {
                reveal_strlit("ZH");
            }
            "ZH"
        },
        25 => {
            proof {
                reveal_strlit("AA0");
            }
            "AA0"
        },
        26 => {
            proof {
                reveal_strlit("AE0");
            }
            "AE0"
        },
        27 => {
            proof {
                reveal_strlit("AH0");
            }
            "AH0"
        },
        28 => {
            proof {
                reveal_strlit("AO0");
            }
            "AO0"
        },
        29 => {
            proof {
                reveal_strlit("AW0");
            }
            "AW0"
        },
        30 => {
            proof {
                reveal_strlit("AY0");
            }
            "AY0"
        },
        31 => {
            proof {
                reveal_strlit("EH0");
            }
            "EH0"
        },
        32 => {
            proof {
                reveal_strlit("ER0");
            }
            "ER0"
        },
        33 => {
            proof {
                reveal_strlit("EY0");
            }
            "EY0"
        },
        34 => {
            proof {
                reveal_strlit("IH0");
            }
            "IH0"
        },
        35 => {
            proof {
                reveal_strlit("IY0");
            }
            "IY0"
        },
        36 => {
            proof {
                reveal_strlit("OW0");
            }
            "OW0"
        },
        37 => {
            proof {
                reveal_strlit("OY0");
            }
            "OY0"
        },
        38 => {
            proof {
                reveal_strlit("UH0");
            }
            "UH0"
        },
        39 => {
            proof {
                reveal_strlit("UW0");
            }
            "UW0"
        },
        65 => {
            proof {
                reveal_strlit("AA1");
            }
            "AA1"
        },
        66 => {
            proof {
                reveal_strlit("AE1");
            }
            "AE1"
        },
        67 => {
            proof {
                reveal_strlit("AH1");
            }
            "AH1"
        },
        68 => {
            proof {
                reveal_strlit("AO1");
            }
            "AO1"
        },
        69 => {
            proof {
                reveal_strlit("AW1");
            }
            "AW1"
        },
        70 => {
            proof {
                reveal_strlit("AY1");
            }
            "AY1"
        },
        71 => {
            proof {
                reveal_strlit("EH1");
            }
            "EH1"
        },
        72 => {
            proof {
                reveal_strlit("ER1");
            }
            "ER1"
        },
        73 => {
            proof {
                reveal_strlit("EY1");
            }
            "EY1"
        },
        74 => {
            proof {
                reveal_strlit("IH1");
            }
            "IH1"
        },
        75 => {
            proof {
                reveal_strlit("IY1");
            }
            "IY1"
        },
        76 => {
            proof {
                reveal_strlit("OW1");
            }
            "OW1"
        },
        77 => {
            proof {
                reveal_strlit("OY1");
            }
            "OY1"
        },
        78 => {
            proof {
                reveal_strlit("UH1");
            }
            "UH1"
        },
        79 => {
            proof {
                reveal_strlit("UW1");
            }
            "UW1"
        },
        105 => {
            proof {
                reveal_strlit("AA2");
            }
            "AA2"
        },
        106 => {
            proof {
                reveal_strlit("AE2");
            }
            "AE2"
        },
        107 => {
            proof {
                reveal_strlit("AH2");
            }
            "AH2"
        },
        108 => {
            proof {
                reveal_strlit("AO2");
            }
            "AO2"
        },
        109 => {
            proof {
                reveal_strlit("AW2");
            }
            "AW2"
        },
        110 => {
            proof {
                reveal_strlit("AY2");
            }
            "AY2"
        },
        111 => {
            proof {
                reveal_strlit("EH2");
            }
            "EH2"
        },
        112 => {
            proof {
                reveal_strlit("ER2");
            }
            "ER2"
        },
        113 => {
            proof {
                reveal_strlit("EY2");
            }
            "EY2"
        },
        114 => {
            proof {
                reveal_strlit("IH2");
            }
            "IH2"
        },
        115 => {
            proof {
                reveal_strlit("IY2");
            }
            "IY2"
        },
        116 => {
            proof {
                reveal_strlit("OW2");
            }
            "OW2"
        },
        117 => {
            proof {
                reveal_strlit("OY2");
            }
            "OY2"
        },
        118 => {
            proof {
                reveal_strlit("UH2");
            }
            "UH2"
        },
        119 => {
            proof {
                reveal_strlit("UW2");
            }
            "UW2"
        },
        _ => {
            proof {
                reveal_strlit("");
            }
            ""
        },
    }
}

/// Decode a slice of IDs to a Vec of ARPAbet strings (for JSON serialization).
pub fn decode_all(ids: &[u8]) -> (r: Vec<&'static str>)
    ensures
        r@.len() == ids@.len(),
        forall|i: int| 0 <= i < r@.len() ==> (#[trigger] r@[i])@ == decode_name(ids@[i]),
{
    let mut r: Vec<&'static str> = Vec::new();
    let mut i: usize = 0;
    while i < ids.len()
        invariant
            i <= ids@.len(),
            r@.len() == i,
            forall|k: int| 0 <= k < i ==> (#[trigger] r@[k])@ == decode_name(ids@[k]),
        decreases ids@.len() - i,
    {
        r.push(decode(ids[i]));
        i += 1;
    }
    r
}

/// The spellings of a list of phoneme ids.
pub open spec fn names(ids: Seq<u8>) -> Seq<Seq<char>> {
    ids.map_values(|id: u8| decode_name(id))
}

/// Decode to owned Strings (for JSON serialization where Serialize needs String).
pub fn decode_to_strings(ids: &[u8]) -> (r: Vec<String>)
    ensures
        r@.len() == ids@.len(),
        forall|i: int| 0 <= i < r@.len() ==> (#[trigger] r@[i])@ == decode_name(ids@[i]),
        views(r@) == names(ids@),
{
    let mut r: Vec<String> = Vec::new();
    let mut i: usize = 0;
    while i < ids.len()
        invariant
            i <= ids@.len(),
            r@.len() == i,
            forall|k: int| 0 <= k < i ==> (#[trigger] r@[k])@ == decode_name(ids@[k]),
        decreases ids@.len() - i,
    {
        r.push(decode(ids[i]).to_owned());
        i += 1;
    }
    proof {
        assert(views(r@) =~= names(ids@));
    }
    r
}

// ── Inline helpers ──────────────────────────────────────────────────────

/// Check if a phoneme ID is a vowel.
pub fn is_vowel(id: u8) -> (r: bool)
    ensures
        r == vowel_id(id),
{
    (id >= VOWEL_BASE && id <= VOWEL_END) || (id >= VOWEL_BASE + STRESS_1_OFFSET && id
        <= VOWEL_END + STRESS_1_OFFSET) || (id >= VOWEL_BASE + STRESS_2_OFFSET && id <= VOWEL_END
        + STRESS_2_OFFSET)
}

/// Get stress level of a phoneme (0, 1, or 2).
pub fn stress(id: u8) -> (r: u8)
    ensures
        r == stress_of(id),
{
    if id >= VOWEL_BASE + STRESS_1_OFFSET && id <= VOWEL_END + STRESS_1_OFFSET {
        1
    } else if id >= VOWEL_BASE + STRESS_2_OFFSET && id <= VOWEL_END + STRESS_2_OFFSET {
        2
    } else {
        0
    }
}

/// Strip stress from a phoneme ID (AA1 → AA0, consonants unchanged).
pub fn strip(id: u8) -> (r: u8)
    ensures
        r == stripped(id),
{
    if id >= VOWEL_BASE + STRESS_2_OFFSET && id <= VOWEL_END + STRESS_2_OFFSET {
        id - STRESS_2_OFFSET
    } else if id >= VOWEL_BASE + STRESS_1_OFFSET && id <= VOWEL_END + STRESS_1_OFFSET {
        id - STRESS_1_OFFSET
    } else {
        id
    }
}

/// Strip stress from a slice — returns new Vec.
pub fn strip_all(ids: &[u8]) -> (r: Vec<u8>)
    ensures
        r@ == strip_seq(ids@),
{
    let mut r: Vec<u8> = Vec::new();
    let mut i: usize = 0;
    while i < ids.len()
        invariant
            i <= ids@.len(),
            r@ == strip_seq(ids@.take(i as int)),
        decreases ids@.len() - i,
    {
        r.push(strip(ids[i]));
        i += 1;
        proof {
            assert(strip_seq(ids@.take(i as int)) =~= strip_seq(ids@.take(i - 1)).push(
                stripped(ids@[i - 1]),
            ));
        }
    }
    proof {
        assert(ids@.take(ids@.len() as int) =~= ids@);
    }
    r
}

/// Count syllables = count vowels.
pub fn count_syllables(ids: &[u8]) -> (r: usize)
    ensures
        r == vowel_count(ids@),
{
    let mut r: usize = 0;
    let mut i: usize = 0;
    while i < ids.len()
        invariant
            i <= ids@.len(),
            r == vowel_count(ids@.take(i as int)),
            r <= i,
        decreases ids@.len() - i,
    {
        if is_vowel(ids[i]) {
            r += 1;
        }
        i += 1;
        proof {
            assert(ids@.take(i as int).drop_last() =~= ids@.take(i - 1));
        }
    }
    proof {
        assert(ids@.take(ids@.len() as int) =~= ids@);
    }
    r
}

/// Extract stress pattern from phonemes (only vowels contribute).
pub fn extract_stresses(ids: &[u8]) -> (r: Vec<i32>)
    ensures
        r@ == stress_pattern(ids@),
{
    let mut r: Vec<i32> = Vec::new();
    let mut i: usize = 0;
    while i < ids.len()
        invariant
            i <= ids@.len(),
            r@ == stress_pattern(ids@.take(i as int)),
        decreases ids@.len() - i,
    {
        if is_vowel(ids[i]) {
            r.push(stress(ids[i]) as i32);
        }
        i += 1;
        proof {
            assert(ids@.take(i as int).drop_last() =~= ids@.take(i - 1));
        }
    }
    proof {
        assert(ids@.take(ids@.len() as int) =~= ids@);
    }
    r
}

/// Check if a base (stripped) phoneme starts with a vowel letter.
/// Since stripped IDs 25..=39 are vowels, this is just a range check.
pub fn is_vowel_base(stripped_id: u8) -> (r: bool)
    ensures
        r == (25 <= stripped_id && stripped_id <= 39),
{
    stripped_id >= VOWEL_BASE && stripped_id <= VOWEL_END
}

/// Validate that an ARPAbet string is a known phoneme.
pub fn is_valid(s: &str) -> (r: bool)
    ensures
        r == (encoding(s@) != 0),
{
    encode(s) != 0
}

/// Validate base phoneme string (without stress digit): a trailing ASCII
/// digit is dropped before encoding.
pub fn is_valid_base(s: &str) -> (r: bool)
    ensures
        r == (encoding(
            if s@.len() > 0 && is_digit(s@.last()) {
                s@.drop_last()
            } else {
                s@
            },
        ) != 0),
{
    let v = chars_of(s);
    let n = v.len();
    let cut = if n > 0 && '0' <= v[n - 1] && v[n - 1] <= '9' {
        n - 1
    } else {
        n
    };
    proof {
        if cut < n {
            assert(v@.take(cut as int) =~= s@.drop_last());
        } else {
            assert(v@.take(cut as int) =~= s@);
        }
    }
    encode_prefix(&v, cut) != 0
}

// ── Laws ────────────────────────────────────────────────────────────────

/// Decoding and re-encoding every phoneme id gives the id back: the ARPAbet
/// spelling of an id encodes to that id.
pub proof fn lemma_decode_encode_roundtrip(id: u8)
    requires
        valid_id(id),
    ensures
        encoding(decode_name(id)) == id,
{
}

/// Encoding then decoding gives back any canonical spelling: a string that
/// encodes to a nonzero id and is that id's spelling round-trips.
pub proof fn lemma_encode_decode_roundtrip(s: Seq<char>)
    requires
        exists|id: u8| valid_id(id) && decode_name(id) == s,
    ensures
        decode_name(encoding(s)) == s,
{
    let id = choose|id: u8| valid_id(id) && decode_name(id) == s;
    lemma_decode_encode_roundtrip(id);
}

/// Stripping removes the stress and keeps the vowel: the result carries stress 0,
/// is a vowel exactly when the id was, and stripping twice changes nothing.
pub proof fn lemma_strip(id: u8)
    ensures
        stress_of(stripped(id)) == 0,
        vowel_id(stripped(id)) == vowel_id(id),
        stripped(stripped(id)) == stripped(id),
        vowel_id(id) ==> 25 <= stripped(id) <= 39,
{
}

/// A word's stress pattern has one entry per syllable.
pub proof fn lemma_stress_pattern_len(ids: Seq<u8>)
    ensures
        stress_pattern(ids).len() == vowel_count(ids),
    decreases ids.len(),
{
    if ids.len() > 0 {
        lemma_stress_pattern_len(ids.drop_last());
    }
}

} // verus!
