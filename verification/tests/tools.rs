use phonetik::distance::levenshtein;
use phonetik::phoneme::{self, encode};
use phonetik::rhyme::{
    find_suffix_rhyme, get_rhyme_tail, get_rhyme_tail_any_vowel, is_suffix, levenshtein_u8, select_tail,
};
use phonetik::rhymemap::{
    default_max_patterns, default_min_count, default_min_length, format_ngram_key, tokenize,
};
use phonetik::slant_index::vowel_distance;
use phonetik::coda_groups::extract_nucleus_coda;
use phonetik::rhyme_index::extract_stripped_tail;

fn ids(p: &str) -> Vec<u8> {
    p.split(' ').map(encode).collect()
}

#[test]
fn tokenize_handles_hyphens_and_g_drops() {
    let tokens = tokenize("well-known runnin'");
    assert_eq!(tokens, vec!["well-known", "runnin'"]);
}

#[test]
fn levenshtein_known_values() {
    assert_eq!(levenshtein(&ids("K AE1 T"), &ids("B AE1 T")), 1);
    assert_eq!(levenshtein(&ids("K AE1 T"), &ids("K AE1 T")), 0);
    assert_eq!(levenshtein(&[], &ids("K AE1 T")), 3);
    assert_eq!(levenshtein(&ids("S IH1 T IH0 NG"), &ids("K IH1 T AH0 N")), 3);
    assert_eq!(levenshtein(&ids("K AE1 T"), &ids("T AE1 K S")), levenshtein(&ids("T AE1 K S"), &ids("K AE1 T")));
    assert_eq!(levenshtein_u8(&ids("K AE1 T"), &ids("K AE1 T S")), 1);
}

#[test]
fn rhyme_tails() {
    let extraordinary = ids("IH0 K S T R AO1 R D AH0 N EH2 R IY0");
    assert_eq!(get_rhyme_tail(&extraordinary, 1), ids("AO1 R D AH0 N EH2 R IY0"));
    assert_eq!(get_rhyme_tail(&ids("K T"), 1), Vec::<u8>::new());
    assert_eq!(get_rhyme_tail_any_vowel(&ids("HH AH0 L OW1")), ids("OW1"));
    assert!(is_suffix(&ids("AE0 T"), &ids("K AE0 T")));
    assert!(!is_suffix(&ids("AE1 T"), &ids("K AE1 T")));
    assert!(!is_suffix(&ids("K AE0 T"), &ids("AE0 T")));
}

#[test]
fn stripped_tail_and_nucleus_coda() {
    let p = ids("IH0 K S T R AO1 R D AH0 N EH2 R IY0");
    assert_eq!(extract_stripped_tail(&p), Some(ids("AO R D AH N EH R IY")));
    assert_eq!(extract_nucleus_coda(&p), Some((phoneme::AO, ids("R D AH N EH R IY"))));
    // Secondary stress only: the last secondary-stressed vowel.
    let q = ids("K AA2 T AH0 N");
    assert_eq!(extract_stripped_tail(&q), Some(ids("AA T AH N")));
    // No stressed vowel: no tail.
    assert_eq!(extract_stripped_tail(&ids("DH AH0")), None);
    assert_eq!(extract_nucleus_coda(&ids("DH AH0")), None);
}

#[test]
fn vowel_distance_is_symmetric() {
    for a in 0u8..50 {
        for b in 0u8..50 {
            assert_eq!(vowel_distance(a, b), vowel_distance(b, a));
        }
        if (phoneme::AA..=phoneme::UW).contains(&a) {
            assert_eq!(vowel_distance(a, a), 0);
        }
    }
}

#[test]
fn vowel_distances() {
    assert_eq!(vowel_distance(phoneme::AH, phoneme::UW), 40);
    assert_eq!(vowel_distance(phoneme::IH, phoneme::IY), 10);
    assert_eq!(vowel_distance(phoneme::AA, phoneme::AA), 0);
    assert_eq!(vowel_distance(phoneme::B, phoneme::AA), 100);
}

#[test]
fn ngram_keys_and_defaults() {
    assert_eq!(format_ngram_key(&[phoneme::AE, phoneme::T, 0, 0], 2), "AE0-T");
    assert_eq!(format_ngram_key(&[phoneme::K, 0, 0, 0], 1), "K");
    assert_eq!(format_ngram_key(&[0, 0, 0, 0], 0), "");
    assert_eq!(default_min_count(), 2);
    assert_eq!(default_min_length(), 2);
    assert_eq!(default_max_patterns(), 50);
}

#[test]
fn select_tail_prefers_primary_then_secondary_stress() {
    assert_eq!(select_tail(&ids("K AE1 T")), (ids("AE1 T"), true));
    assert_eq!(select_tail(&ids("B AE1 T M AE2 N")), (ids("AE1 T M AE2 N"), true));
    assert_eq!(select_tail(&ids("S AH0 M AE2 N")), (ids("AE2 N"), true));
    assert_eq!(select_tail(&ids("DH AH0")), (ids("AH0"), false));
    assert_eq!(select_tail(&ids("SH")), (Vec::new(), false));
}

#[test]
fn suffix_rhyme_cuts_the_longer_tail() {
    // "create" (K R IY1 EY2 T) ends in the tail of "eight" (EY1 T).
    let create = ids("K R IY1 EY2 T");
    let eight = ids("EY1 T");
    let (ta, _) = select_tail(&create);
    let (tb, _) = select_tail(&eight);
    assert_eq!(ta, ids("IY1 EY2 T"));
    assert_eq!(
        find_suffix_rhyme(&create, &eight, &ta, &tb),
        Some((ids("EY2 T"), ids("EY1 T"), false))
    );
    assert_eq!(
        find_suffix_rhyme(&eight, &create, &tb, &ta),
        Some((ids("EY1 T"), ids("EY2 T"), false))
    );
    // Same length: no suffix rhyme.
    let cat = ids("K AE1 T");
    let bat = ids("B AE1 T");
    assert_eq!(find_suffix_rhyme(&cat, &bat, &ids("AE1 T"), &ids("AE1 T")), None);
}

#[test]
fn levenshtein_is_zero_only_on_equal_input() {
    let samples: [&[u8]; 5] = [&[], &[9], &[9, 26, 18], &[1, 26, 18], &[26, 18, 9, 9]];
    for a in samples {
        for b in samples {
            assert_eq!(levenshtein(a, b) == 0, a == b);
        }
    }
    assert_eq!(levenshtein(&[9, 26, 18], &[1, 26, 18]), 1);
}

#[test]
fn levenshtein_obeys_the_triangle_inequality() {
    let samples: [&[u8]; 6] = [&[], &[9], &[9, 26, 18], &[1, 26, 18], &[26, 18, 9, 9], &[18, 26]];
    for a in samples {
        for b in samples {
            for c in samples {
                assert!(levenshtein(a, c) <= levenshtein(a, b) + levenshtein(b, c));
            }
        }
    }
}
