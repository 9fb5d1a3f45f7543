//! Meter: fitting a line's binary stress pattern to the metrical feet. What
//! is counted here (the expected pattern, the matches, the deviations and
//! the meter's name) is exact; the regularity score built from it is
//! fractional and computed by the caller.

use vstd::prelude::*;

verus! {

/// The metrical feet, in the order they are tried.
#[derive(Clone, Copy, PartialEq, Eq, Debug)]
pub enum Foot {
    Iamb,
    Trochee,
    Anapest,
    Dactyl,
    Spondee,
    Pyrrhic,
}

/// The stresses of a foot: 1 stressed, 0 unstressed.
pub open spec fn foot_stresses(f: Foot) -> Seq<i32> {
    match f {
        Foot::Iamb => seq![0, 1],
        Foot::Trochee => seq![1, 0],
        Foot::Anapest => seq![0, 0, 1],
        Foot::Dactyl => seq![1, 0, 0],
        Foot::Spondee => seq![1, 1],
        Foot::Pyrrhic => seq![0, 0],
    }
}

/// The name of a foot.
pub open spec fn foot_name(f: Foot) -> Seq<char> {
    match f {
        Foot::Iamb => seq!['i', 'a', 'm', 'b'],
        Foot::Trochee => seq!['t', 'r', 'o', 'c', 'h', 'e', 'e'],
        Foot::Anapest => seq!['a', 'n', 'a', 'p', 'e', 's', 't'],
        Foot::Dactyl => seq!['d', 'a', 'c', 't', 'y', 'l'],
        Foot::Spondee => seq!['s', 'p', 'o', 'n', 'd', 'e', 'e'],
        Foot::Pyrrhic => seq!['p', 'y', 'r', 'r', 'h', 'i', 'c'],
    }
}

/// The adjective of a foot, as a meter's name uses it.
pub open spec fn foot_adjective(f: Foot) -> Seq<char> {
    match f {
        Foot::Iamb => seq!['i', 'a', 'm', 'b', 'i', 'c'],
        Foot::Trochee => seq!['t', 'r', 'o', 'c', 'h', 'a', 'i', 'c'],
        Foot::Anapest => seq!['a', 'n', 'a', 'p', 'e', 's', 't', 'i', 'c'],
        Foot::Dactyl => seq!['d', 'a', 'c', 't', 'y', 'l', 'i', 'c'],
        Foot::Spondee => seq!['s', 'p', 'o', 'n', 'd', 'a', 'i', 'c'],
        Foot::Pyrrhic => seq!['p', 'y', 'r', 'r', 'h', 'i', 'c'],
    }
}

/// The decimal digits of `n`.
pub open spec fn decimal(n: nat) -> Seq<char>
    decreases n,
{
    if n < 10 {
        seq![(n + 48) as char]
    } else {
        decimal(n / 10).push(((n % 10) + 48) as char)
    }
}

/// The name of a line of `n` feet: monometer to octameter, else the number
/// followed by "-meter".
pub open spec fn count_name(n: nat) -> Seq<char> {
    if n == 1 {
        seq!['m', 'o', 'n', 'o', 'm', 'e', 't', 'e', 'r']
    } else if n == 2 {
        seq!['d', 'i', 'm', 'e', 't', 'e', 'r']
    } else if n == 3 {
        seq!['t', 'r', 'i', 'm', 'e', 't', 'e', 'r']
    } else if n == 4 {
        seq!['t', 'e', 't', 'r', 'a', 'm', 'e', 't', 'e', 'r']
    } else if n == 5 {
        seq!['p', 'e', 'n', 't', 'a', 'm', 'e', 't', 'e', 'r']
    } else if n == 6 {
        seq!['h', 'e', 'x', 'a', 'm', 'e', 't', 'e', 'r']
    } else if n == 7 {
        seq!['h', 'e', 'p', 't', 'a', 'm', 'e', 't', 'e', 'r']
    } else if n == 8 {
        seq!['o', 'c', 't', 'a', 'm', 'e', 't', 'e', 'r']
    } else if n == 0 {
        Seq::empty()
    } else {
        decimal(n) + seq!['-', 'm', 'e', 't', 'e', 'r']
    }
}

/// How a stress reads in a deviation: "stressed" for 1, "unstressed" otherwise.
pub open spec fn stress_word(s: i32) -> Seq<char> {
    if s == 1 {
        seq!['s', 't', 'r', 'e', 's', 's', 'e', 'd']
    } else {
        seq!['u', 'n', 's', 't', 'r', 'e', 's', 's', 'e', 'd']
    }
}

/// The pattern a foot repeats over a line of `len` syllables.
pub open spec fn expected_stresses(f: Foot, len: nat) -> Seq<i32> {
    Seq::new(len, |i: int| foot_stresses(f)[i % foot_stresses(f).len() as int])
}

/// How many syllables of `binary` agree with the foot's pattern.
pub open spec fn agreeing(f: Foot, binary: Seq<i32>) -> nat
    decreases binary.len(),
{
    if binary.len() == 0 {
        0
    } else {
        agreeing(f, binary.drop_last()) + if binary.last() == expected_stresses(f, binary.len())[binary.len() - 1] {
            1nat
        } else {
            0nat
        }
    }
}

/// The positions where `binary` departs from the foot's pattern.
pub open spec fn departures(f: Foot, binary: Seq<i32>) -> Seq<int>
    decreases binary.len(),
{
    if binary.len() == 0 {
        Seq::empty()
    } else if binary.last() == expected_stresses(f, binary.len())[binary.len() - 1] {
        departures(f, binary.drop_last())
    } else {
        departures(f, binary.drop_last()).push(binary.len() - 1)
    }
}

/// Every syllable of a line either agrees with a foot's pattern or is one
/// of its departures, and at every departure the line's stress differs from
/// The feet by name, adjective and stresses (1 stressed, 0 unstressed).
pub proof fn lemma_feet_named()
    ensures
        foot_name(Foot::Iamb) == "iamb"@ && foot_adjective(Foot::Iamb) == "iambic"@ && foot_stresses(Foot::Iamb)
            == seq![0i32, 1],
        foot_name(Foot::Trochee) == "trochee"@ && foot_adjective(Foot::Trochee) == "trochaic"@ && foot_stresses(
            Foot::Trochee,
        ) == seq![1i32, 0],
        foot_name(Foot::Anapest) == "anapest"@ && foot_adjective(Foot::Anapest) == "anapestic"@ && foot_stresses(
            Foot::Anapest,
        ) == seq![0i32, 0, 1],
        foot_name(Foot::Dactyl) == "dactyl"@ && foot_adjective(Foot::Dactyl) == "dactylic"@ && foot_stresses(
            Foot::Dactyl,
        ) == seq![1i32, 0, 0],
        foot_name(Foot::Spondee) == "spondee"@ && foot_adjective(Foot::Spondee) == "spondaic"@ && foot_stresses(
            Foot::Spondee,
        ) == seq![1i32, 1],
        foot_name(Foot::Pyrrhic) == "pyrrhic"@ && foot_adjective(Foot::Pyrrhic) == "pyrrhic"@ && foot_stresses(
            Foot::Pyrrhic,
        ) == seq![0i32, 0],
{
    reveal_strlit("iamb");
    reveal_strlit("iambic");
    reveal_strlit("trochee");
    reveal_strlit("trochaic");
    reveal_strlit("anapest");
    reveal_strlit("anapestic");
    reveal_strlit("dactyl");
    reveal_strlit("dactylic");
    reveal_strlit("spondee");
    reveal_strlit("spondaic");
    reveal_strlit("pyrrhic");
    assert(foot_name(Foot::Iamb) =~= "iamb"@);
    assert(foot_adjective(Foot::Iamb) =~= "iambic"@);
    assert(foot_name(Foot::Trochee) =~= "trochee"@);
    assert(foot_adjective(Foot::Trochee) =~= "trochaic"@);
    assert(foot_name(Foot::Anapest) =~= "anapest"@);
    assert(foot_adjective(Foot::Anapest) =~= "anapestic"@);
    assert(foot_name(Foot::Dactyl) =~= "dactyl"@);
    assert(foot_adjective(Foot::Dactyl) =~= "dactylic"@);
    assert(foot_name(Foot::Spondee) =~= "spondee"@);
    assert(foot_adjective(Foot::Spondee) =~= "spondaic"@);
    assert(foot_name(Foot::Pyrrhic) =~= "pyrrhic"@);
    assert(foot_adjective(Foot::Pyrrhic) =~= "pyrrhic"@);
}

/// The expected pattern repeats the foot: its first foot is the foot's
/// stresses, and each syllable matches the one a foot earlier.
pub proof fn lemma_expected_repeats_foot(f: Foot, len: nat)
    ensures
        forall|i: int| 0 <= i < len && i < foot_stresses(f).len() ==> #[trigger] expected_stresses(f, len)[i] == foot_stresses(f)[i],
        forall|i: int|
            foot_stresses(f).len() <= i < len ==> #[trigger] expected_stresses(f, len)[i] == expected_stresses(f, len)[i
                - foot_stresses(f).len()],
{
    let k = foot_stresses(f).len() as int;
    assert forall|i: int| 0 <= i < len && i < foot_stresses(f).len() implies #[trigger] expected_stresses(f, len)[i]
        == foot_stresses(f)[i] by {
        assert(i % k == i) by (nonlinear_arith)
            requires
                0 <= i < k,
        ;
    }
    assert forall|i: int| foot_stresses(f).len() <= i < len implies #[trigger] expected_stresses(f, len)[i] == expected_stresses(
        f,
        len,
    )[i - foot_stresses(f).len()] by {
        assert((i - k) % k == i % k) by (nonlinear_arith)
            requires
                k > 0,
                i >= k,
        ;
    }
}

/// The departures of a line are exactly the positions, in increasing order,
/// where it differs from the expected pattern; a line that follows the
/// pattern agrees everywhere.
pub proof fn lemma_departures_exact(f: Foot, binary: Seq<i32>)
    ensures
        forall|a: int, b: int| 0 <= a < b < departures(f, binary).len() ==> #[trigger] departures(f, binary)[a] < #[trigger] departures(f, binary)[b],
        forall|p: int|
            0 <= p < binary.len() && binary[p] != expected_stresses(f, binary.len())[p] ==> #[trigger] departures(
                f,
                binary,
            ).contains(p),
        binary == expected_stresses(f, binary.len()) ==> agreeing(f, binary) == binary.len() && departures(
            f,
            binary,
        ).len() == 0,
    decreases binary.len(),
{
    lemma_fit_covers_line(f, binary);
    if binary.len() > 0 {
        let t = binary.drop_last();
        lemma_departures_exact(f, t);
        lemma_fit_covers_line(f, t);
        let d = departures(f, t);
        assert forall|p: int| 0 <= p < t.len() implies expected_stresses(f, binary.len())[p] == expected_stresses(f, t.len())[p] by {}
        assert forall|a: int, b: int| 0 <= a < b < departures(f, binary).len() implies #[trigger] departures(f, binary)[a] < #[trigger] departures(f, binary)[b] by {
            assert(departures(f, binary)[a] == d[a]);
            if b < d.len() {
                assert(departures(f, binary)[b] == d[b]);
            }
        }
        assert forall|p: int|
            0 <= p < binary.len() && binary[p] != expected_stresses(f, binary.len())[p] implies #[trigger] departures(
            f,
            binary,
        ).contains(p) by {
            if p < t.len() {
                assert(t[p] == binary[p]);
                assert(d.contains(p));
                let x = choose|x: int| 0 <= x < d.len() && d[x] == p;
                assert(departures(f, binary)[x] == p);
            } else {
                assert(departures(f, binary)[d.len() as int] == p);
            }
        }
        if binary == expected_stresses(f, binary.len()) {
            assert(t =~= expected_stresses(f, t.len()));
        }
    }
}

/// A line of one to eight feet is named by the Greek count word: monometer,
/// dimeter, trimeter, tetrameter, pentameter, hexameter, heptameter,
/// octameter; a longer line by its number and "-meter" (twelve feet:
/// "12-meter").
pub proof fn lemma_count_names()
    ensures
        count_name(1) == "monometer"@,
        count_name(2) == "dimeter"@,
        count_name(3) == "trimeter"@,
        count_name(4) == "tetrameter"@,
        count_name(5) == "pentameter"@,
        count_name(6) == "hexameter"@,
        count_name(7) == "heptameter"@,
        count_name(8) == "octameter"@,
        count_name(12) == "12-meter"@,
{
    reveal_strlit("monometer");
    reveal_strlit("dimeter");
    reveal_strlit("trimeter");
    reveal_strlit("tetrameter");
    reveal_strlit("pentameter");
    reveal_strlit("hexameter");
    reveal_strlit("heptameter");
    reveal_strlit("octameter");
    reveal_strlit("12-meter");
    assert(decimal(12) == seq!['1', '2']) by {
        assert(decimal(1) == seq!['1']);
    }
    assert(count_name(6) =~= "hexameter"@);
    assert(count_name(7) =~= "heptameter"@);
    assert(count_name(12) =~= "12-meter"@);
}

/// Whatever the foot, a line of six whole feet and no more is named as that
/// foot's hexameter, and one of five whole feet its pentameter.
pub proof fn lemma_hexameter_pentameter(f: Foot, len: nat)
    ensures
        len / foot_stresses(f).len() == 6 ==> foot_adjective(f) + seq![' '] + count_name(len / foot_stresses(f).len())
            == foot_adjective(f) + " hexameter"@,
        len / foot_stresses(f).len() == 5 ==> foot_adjective(f) + seq![' '] + count_name(len / foot_stresses(f).len())
            == foot_adjective(f) + " pentameter"@,
{
    lemma_count_names();
    reveal_strlit(" hexameter");
    reveal_strlit(" pentameter");
    assert(seq![' '] + "hexameter"@ =~= " hexameter"@);
    assert(seq![' '] + "pentameter"@ =~= " pentameter"@);
    assert(foot_adjective(f) + seq![' '] + "hexameter"@ =~= foot_adjective(f) + (seq![' '] + "hexameter"@));
    assert(foot_adjective(f) + seq![' '] + "pentameter"@ =~= foot_adjective(f) + (seq![' '] + "pentameter"@));
}

/// the pattern's.
pub proof fn lemma_fit_covers_line(f: Foot, binary: Seq<i32>)
    ensures
        agreeing(f, binary) + departures(f, binary).len() == binary.len(),
        forall|i: int|
            0 <= i < departures(f, binary).len() ==> {
                let p = #[trigger] departures(f, binary)[i];
                &&& 0 <= p < binary.len()
                &&& binary[p] != expected_stresses(f, binary.len())[p]
            },
    decreases binary.len(),
{
    if binary.len() > 0 {
        let t = binary.drop_last();
        lemma_fit_covers_line(f, t);
        let d = departures(f, t);
        assert forall|i: int| 0 <= i < departures(f, binary).len() implies {
            let p = #[trigger] departures(f, binary)[i];
            &&& 0 <= p < binary.len()
            &&& binary[p] != expected_stresses(f, binary.len())[p]
        } by {
            if i < d.len() {
                let p = d[i];
                assert(departures(f, binary)[i] == p);
                assert(binary[p] == t[p]);
                assert(expected_stresses(f, binary.len())[p] == expected_stresses(f, t.len())[p]);
            }
        }
    }
}

/// A syllable whose stress departs from the meter.
pub struct Deviation {
    pub position: usize,
    pub expected: String,
    pub actual: String,
}

/// How a line fits one foot: the foot, how many whole feet the line holds,
/// the meter's name, how many syllables agree with the foot, how many are
/// left over after the whole feet, the foot's length, the expected pattern,
/// and the departures from it.
pub struct FootFit {
    pub foot_type: String,
    pub foot_count: usize,
    pub meter_name: String,
    pub matches: usize,
    pub remainder: usize,
    pub foot_len: usize,
    pub expected_pattern: Vec<i32>,
    pub deviations: Vec<Deviation>,
}

/// Meter detection over binary stress patterns.
pub struct MeterDetector;

/// The feet, in the order they are tried.
pub fn feet() -> (r: Vec<Foot>)
    ensures
        r@ == seq![Foot::Iamb, Foot::Trochee, Foot::Anapest, Foot::Dactyl, Foot::Spondee, Foot::Pyrrhic],
{
    let mut r: Vec<Foot> = Vec::new();
    r.push(Foot::Iamb);
    r.push(Foot::Trochee);
    r.push(Foot::Anapest);
    r.push(Foot::Dactyl);
    r.push(Foot::Spondee);
    r.push(Foot::Pyrrhic);
    proof {
        assert(r@ =~= seq![Foot::Iamb, Foot::Trochee, Foot::Anapest, Foot::Dactyl, Foot::Spondee, Foot::Pyrrhic]);
    }
    r
}

fn stresses_of(f: Foot) -> (r: Vec<i32>)
    ensures
        r@ == foot_stresses(f),
{
    let r = match f {
        Foot::Iamb => vec![0, 1],
        Foot::Trochee => vec![1, 0],
        Foot::Anapest => vec![0, 0, 1],
        Foot::Dactyl => vec![1, 0, 0],
        Foot::Spondee => vec![1, 1],
        Foot::Pyrrhic => vec![0, 0],
    };
    proof {
        assert(r@ =~= foot_stresses(f));
    }
    r
}

fn name_of(f: Foot) -> (r: &'static str)
    ensures
        r@ == foot_name(f),
{
    match f {
        Foot::Iamb => {
            proof {
                reveal_strlit("iamb");
            }
            "iamb"
        },
        Foot::Trochee => {
            proof {
                reveal_strlit("trochee");
            }
            "trochee"
        },
        Foot::Anapest => {
            proof {
                reveal_strlit("anapest");
            }
            "anapest"
        },
        Foot::Dactyl => {
            proof {
                reveal_strlit("dactyl");
            }
            "dactyl"
        },
        Foot::Spondee => {
            proof {
                reveal_strlit("spondee");
            }
            "spondee"
        },
        Foot::Pyrrhic => {
            proof {
                reveal_strlit("pyrrhic");
            }
            "pyrrhic"
        },
    }
}

fn adjective_of(f: Foot) -> (r: &'static str)
    ensures
        r@ == foot_adjective(f),
{
    match f {
        Foot::Iamb => {
            proof {
                reveal_strlit("iambic");
            }
            "iambic"
        },
        Foot::Trochee => {
            proof {
                reveal_strlit("trochaic");
            }
            "trochaic"
        },
        Foot::Anapest => {
            proof {
                reveal_strlit("anapestic");
            }
            "anapestic"
        },
        Foot::Dactyl => {
            proof {
                reveal_strlit("dactylic");
            }
            "dactylic"
        },
        Foot::Spondee => {
            proof {
                reveal_strlit("spondaic");
            }
            "spondaic"
        },
        Foot::Pyrrhic => {
            proof {
                reveal_strlit("pyrrhic");
            }
            "pyrrhic"
        },
    }
}

/// The decimal spelling of `n`.
fn decimal_string(n: usize) -> (r: String)
    ensures
        r@ == decimal(n as nat),
    decreases n,
{
    let digit = ((n % 10) as u8 + 48) as char;
    if n < 10 {
        let mut s = String::new();
        crate::text::push_char(&mut s, digit);
        proof {
            assert(s@ =~= seq![digit]);
        }
        s
    } else {
        let mut s = decimal_string(n / 10);
        crate::text::push_char(&mut s, digit);
        s
    }
}

fn count_name_of(n: usize) -> (r: String)
    ensures
        r@ == count_name(n as nat),
{
    let s: &str = match n {
        0 => {
            proof {
                reveal_strlit("");
            }
            ""
        },
        1 => {
            proof {
                reveal_strlit("monometer");
            }
            "monometer"
        },
        2 => {
            proof {
                reveal_strlit("dimeter");
            }
            "dimeter"
        },
        3 => {
            proof {
                reveal_strlit("trimeter");
            }
            "trimeter"
        },
        4 => {
            proof {
                reveal_strlit("tetrameter");
            }
            "tetrameter"
        },
        5 => {
            proof {
                reveal_strlit("pentameter");
            }
            "pentameter"
        },
        6 => {
            proof {
                reveal_strlit("hexameter");
            }
            "hexameter"
        },
        7 => {
            proof {
                reveal_strlit("heptameter");
            }
            "heptameter"
        },
        8 => {
            proof {
                reveal_strlit("octameter");
            }
            "octameter"
        },
        _ => {
            let mut s = decimal_string(n);
            s.append("-meter");
            proof {
                reveal_strlit("-meter");
            }
            return s;
        },
    };
    s.to_owned()
}

fn stress_word_of(s: i32) -> (r: String)
    ensures
        r@ == stress_word(s),
{
    if s == 1 {
        proof {
            reveal_strlit("stressed");
        }
        "stressed".to_owned()
    } else {
        proof {
            reveal_strlit("unstressed");
        }
        "unstressed".to_owned()
    }
}

impl MeterDetector {
    /// Fit a binary stress pattern to a foot: the foot repeated over the
    /// line, the syllables that agree with it, the positions that depart
    /// from it, and the meter's name from the foot and the number of whole
    /// feet. A line shorter than the foot holds no foot: its name is the
    /// foot's, with nothing expected and no departures.
    pub fn score_foot(foot: Foot, binary: &[i32]) -> (r: FootFit)
        ensures
            ({
                let len = foot_stresses(foot).len();
                let feet_count = binary@.len() / len;
                &&& r.foot_type@ == foot_name(foot)
                &&& r.foot_count == feet_count
                &&& r.foot_len == len
                &&& r.remainder == binary@.len() % len
                &&& feet_count == 0 ==> {
                    &&& r.meter_name@ == foot_name(foot)
                    &&& r.matches == 0
                    &&& r.expected_pattern@.len() == 0
                    &&& r.deviations@.len() == 0
                }
                &&& feet_count == 6 ==> r.meter_name@ == foot_adjective(foot) + " hexameter"@
                &&& feet_count == 5 ==> r.meter_name@ == foot_adjective(foot) + " pentameter"@
                &&& feet_count > 0 ==> {
                    &&& r.meter_name@ == foot_adjective(foot) + seq![' '] + count_name(feet_count)
                    &&& r.expected_pattern@ == expected_stresses(foot, binary@.len())
                    &&& r.matches == agreeing(foot, binary@)
                    &&& r.deviations@.len() == departures(foot, binary@).len()
                    &&& forall|i: int|
                        0 <= i < r.deviations@.len() ==> {
                            let dv = #[trigger] r.deviations@[i];
                            let pos = departures(foot, binary@)[i];
                            &&& dv.position == pos
                            &&& dv.expected@ == stress_word(expected_stresses(foot, binary@.len())[pos])
                            &&& dv.actual@ == stress_word(binary@[pos])
                        }
                }
            }),
    {
        proof {
            lemma_hexameter_pentameter(foot, binary@.len());
        }
        let pattern = stresses_of(foot);
        let foot_len = pattern.len();
        let num_feet = binary.len() / foot_len;
        let remainder = binary.len() % foot_len;
        let name = name_of(foot);
        if num_feet == 0 {
            return FootFit {
                foot_type: name.to_owned(),
                foot_count: 0,
                meter_name: name.to_owned(),
                matches: 0,
                remainder,
                foot_len,
                expected_pattern: Vec::new(),
                deviations: Vec::new(),
            };
        }
        let ghost want = expected_stresses(foot, binary@.len());
        let mut expected: Vec<i32> = Vec::new();
        let mut matches: usize = 0;
        let mut deviations: Vec<Deviation> = Vec::new();
        let mut i: usize = 0;
        while i < binary.len()
            invariant
                i <= binary@.len(),
                pattern@ == foot_stresses(foot),
                foot_len == pattern@.len(),
                want == expected_stresses(foot, binary@.len()),
                expected@ == want.take(i as int),
                matches == agreeing(foot, binary@.take(i as int)),
                matches <= i,
                deviations@.len() == departures(foot, binary@.take(i as int)).len(),
                forall|k: int|
                    0 <= k < deviations@.len() ==> {
                        let dv = #[trigger] deviations@[k];
                        let pos = departures(foot, binary@.take(i as int))[k];
                        &&& dv.position == pos
                        &&& dv.expected@ == stress_word(want[pos])
                        &&& dv.actual@ == stress_word(binary@[pos])
                    },
                forall|k: int| 0 <= k < departures(foot, binary@.take(i as int)).len() ==> 0 <= #[trigger] departures(foot, binary@.take(i as int))[k] < i,
            decreases binary@.len() - i,
        {
            let e = pattern[i % foot_len];
            let ghost before = binary@.take(i as int);
            let ghost after = binary@.take(i + 1);
            proof {
                assert(after.drop_last() =~= before);
                assert(after.last() == binary@[i as int]);
                assert(want[i as int] == e);
                assert(expected_stresses(foot, after.len())[i as int] == e);
            }
            expected.push(e);
            if binary[i] == e {
                matches += 1;
            } else {
                let ghost old_devs = deviations@;
                deviations.push(Deviation { position: i, expected: stress_word_of(e), actual: stress_word_of(binary[i]) });
                proof {
                    assert forall|k: int| 0 <= k < deviations@.len() implies {
                        let dv = #[trigger] deviations@[k];
                        let pos = departures(foot, after)[k];
                        &&& dv.position == pos
                        &&& dv.expected@ == stress_word(want[pos])
                        &&& dv.actual@ == stress_word(binary@[pos])
                    } by {
                        if k < old_devs.len() {
                            assert(deviations@[k] == old_devs[k]);
                        }
                    }
                }
            }
            i += 1;
            proof {
                assert(expected@ =~= want.take(i as int));
            }
        }
        proof {
            assert(binary@.take(binary@.len() as int) =~= binary@);
            assert(want.take(binary@.len() as int) =~= want);
        }
        let mut meter_name = adjective_of(foot).to_owned();
        meter_name.append(" ");
        proof {
            reveal_strlit(" ");
        }
        let count = count_name_of(num_feet);
        meter_name.append(count.as_str());
        FootFit {
            foot_type: name.to_owned(),
            foot_count: num_feet,
            meter_name,
            matches,
            remainder,
            foot_len,
            expected_pattern: expected,
            deviations,
        }
    }

    /// Compare two binary stress patterns position by position: how many
    /// positions agree, and the positions that differ, the extra positions of
    /// the longer pattern included, in order.
    pub fn compare_positions(a: &[i32], b: &[i32]) -> (r: (usize, Vec<usize>))
        ensures
            r.0 == agree_count(a@, b@, longer_len(a@, b@)),
            r.1@ == differ_positions(a@, b@, longer_len(a@, b@)),
    {
        let max_len = if a.len() >= b.len() { a.len() } else { b.len() };
        let mut matches: usize = 0;
        let mut mismatches: Vec<usize> = Vec::new();
        let mut i: usize = 0;
        while i < max_len
            invariant
                i <= max_len,
                max_len == longer_len(a@, b@),
                matches == agree_count(a@, b@, i as nat),
                matches <= i,
                mismatches@ == differ_positions(a@, b@, i as nat),
            decreases max_len - i,
        {
            if i < a.len() && i < b.len() && a[i] == b[i] {
                matches += 1;
            } else {
                mismatches.push(i);
            }
            i += 1;
        }
        (matches, mismatches)
    }
}

/// The length of the longer of two patterns.
pub open spec fn longer_len(a: Seq<i32>, b: Seq<i32>) -> nat {
    if a.len() >= b.len() {
        a.len()
    } else {
        b.len()
    }
}

/// Whether two patterns agree at position `i` (both have it, and equal).
pub open spec fn agree_at(a: Seq<i32>, b: Seq<i32>, i: int) -> bool {
    i < a.len() && i < b.len() && a[i] == b[i]
}

/// How many of the first `n` positions two patterns agree at.
pub open spec fn agree_count(a: Seq<i32>, b: Seq<i32>, n: nat) -> nat
    decreases n,
{
    if n == 0 {
        0
    } else {
        agree_count(a, b, (n - 1) as nat) + if agree_at(a, b, n - 1) {
            1nat
        } else {
            0nat
        }
    }
}

/// The first `n` positions at which two patterns do not agree, in order.
pub open spec fn differ_positions(a: Seq<i32>, b: Seq<i32>, n: nat) -> Seq<usize>
    decreases n,
{
    if n == 0 {
        Seq::empty()
    } else if agree_at(a, b, n - 1) {
        differ_positions(a, b, (n - 1) as nat)
    } else {
        differ_positions(a, b, (n - 1) as nat).push((n - 1) as usize)
    }
}

} // verus!
