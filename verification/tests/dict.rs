use phonetik::dict::{ends_with_g_drop, patch_g_drop, CmuDict};
use phonetik::phoneme;

const WORDS: &[(&str, &[&str])] = &[
    ("HELLO", &["HH AH0 L OW1", "HH EH0 L OW1"]),
    ("CAT", &["K AE1 T"]),
    ("THE", &["DH AH0", "DH AH1", "DH IY0"]),
    ("RUNNING", &["R AH1 N IH0 NG"]),
    ("WORLD", &["W ER1 L D"]),
];

fn blob(entries: &[(&str, &[&str])]) -> Vec<u8> {
    let mut b = Vec::new();
    b.extend_from_slice(&(entries.len() as u32).to_le_bytes());
    for (word, variants) in entries {
        b.extend_from_slice(&(word.len() as u16).to_le_bytes());
        b.extend_from_slice(word.as_bytes());
        b.push(variants.len() as u8);
        for v in variants.iter() {
            let ids: Vec<u8> = v.split(' ').map(phoneme::encode).collect();
            b.push(ids.len() as u8);
            b.extend_from_slice(&ids);
        }
    }
    b
}

fn load() -> CmuDict {
    CmuDict::load(&blob(WORDS))
}

#[test]
fn get_keys_matches_entry_count() {
    let dict = load();
    assert_eq!(dict.get_keys().len(), dict.entry_count());
}

#[test]
fn dict_lookup_known_word() {
    let dict = load();
    let result = dict.lookup("hello");
    assert!(result.is_some());
    let variants = result.unwrap();
    assert!(!variants.is_empty());
    assert!(variants[0].len() > 2, "HELLO should have >2 phonemes");
}

#[test]
fn lookup_case_insensitive() {
    let dict = load();
    let lower = dict.lookup("cat");
    let upper = dict.lookup("CAT");
    let mixed = dict.lookup("Cat");
    assert!(lower.is_some());
    assert_eq!(lower, upper);
    assert_eq!(lower, mixed);
}

#[test]
fn lookup_nonexistent_word() {
    let dict = load();
    assert!(dict.lookup("xyzzyplugh").is_none());
}

#[test]
fn lookup_word_with_multiple_variants() {
    let dict = load();
    let result = dict.lookup("the");
    assert!(result.is_some());
    let variants = result.unwrap();
    assert!(variants.len() >= 2, "THE should have multiple variants");
}

#[test]
fn normalize_uppercases() {
    assert_eq!(CmuDict::normalize("hello"), "HELLO");
}

#[test]
fn normalize_preserves_apostrophe_and_hyphen() {
    assert_eq!(CmuDict::normalize("don't"), "DON'T");
    assert_eq!(CmuDict::normalize("well-known"), "WELL-KNOWN");
}

#[test]
fn normalize_strips_other_punctuation() {
    assert_eq!(CmuDict::normalize("hello!"), "HELLO");
    assert_eq!(CmuDict::normalize("(test)"), "TEST");
}

#[test]
fn normalize_empty() {
    assert_eq!(CmuDict::normalize(""), "");
}

#[test]
fn normalize_g_drop_rewrites_apostrophe() {
    assert_eq!(CmuDict::normalize("runnin'"), "RUNNING");
    assert_eq!(CmuDict::normalize("singin'"), "SINGING");
}

#[test]
fn normalize_non_g_drop_apostrophe_preserved() {
    assert_eq!(CmuDict::normalize("don't"), "DON'T");
}

#[test]
fn g_drop_positive_cases() {
    assert!(ends_with_g_drop("runnin'"));
    assert!(ends_with_g_drop("singin'"));
    assert!(ends_with_g_drop("lovin'"));
    assert!(ends_with_g_drop("RUNNIN'"));
}

#[test]
fn g_drop_negative_cases() {
    assert!(!ends_with_g_drop("don't"));
    assert!(!ends_with_g_drop("hello"));
    assert!(!ends_with_g_drop("in'"));
    assert!(!ends_with_g_drop(""));
    assert!(!ends_with_g_drop("'"));
}

#[test]
fn patch_g_drop_replaces_ng_with_n() {
    let mut ph = vec![phoneme::R, phoneme::encode("AH1"), phoneme::N, phoneme::IH, phoneme::NG];
    patch_g_drop(&mut ph);
    assert_eq!(*ph.last().unwrap(), phoneme::N);
}

#[test]
fn patch_g_drop_also_patches_ih_to_ah() {
    let mut ph = vec![phoneme::K, phoneme::IH, phoneme::NG];
    patch_g_drop(&mut ph);
    assert_eq!(ph[1], phoneme::AH);
    assert_eq!(ph[2], phoneme::N);
}

#[test]
fn patch_g_drop_patches_stressed_ih2_to_ah2() {
    let ih2 = phoneme::IH + 80;
    let ah2 = phoneme::AH + 80;
    let mut ph = vec![phoneme::K, ih2, phoneme::NG];
    patch_g_drop(&mut ph);
    assert_eq!(ph[1], ah2);
    assert_eq!(ph[2], phoneme::N);
}

#[test]
fn patch_g_drop_no_ng_unchanged() {
    let mut ph = vec![phoneme::K, phoneme::AE, phoneme::T];
    let before = ph.clone();
    patch_g_drop(&mut ph);
    assert_eq!(ph, before);
}

#[test]
fn patch_g_drop_empty_vec() {
    let mut ph: Vec<u8> = vec![];
    patch_g_drop(&mut ph);
    assert!(ph.is_empty());
}

#[test]
fn patch_g_drop_single_ng() {
    let mut ph = vec![phoneme::NG];
    patch_g_drop(&mut ph);
    assert_eq!(ph, vec![phoneme::N]);
}

#[test]
fn lookup_g_drop_word_returns_patched_phonemes() {
    let dict = load();
    let result = dict.lookup("runnin'");
    assert!(result.is_some(), "runnin' should resolve via RUNNING");
    let phonemes = &result.unwrap()[0];
    assert_eq!(*phonemes.last().unwrap(), phoneme::N);
}

#[test]
fn count_syllables_delegates_correctly() {
    let cat = vec![phoneme::K, phoneme::encode("AE1"), phoneme::T];
    assert_eq!(CmuDict::count_syllables(&cat), 1);
}

#[test]
fn load_counts_each_word_once() {
    let mut entries: Vec<(&str, &[&str])> = WORDS.to_vec();
    entries.push(("CAT", &["K AA1 T"]));
    let dict = CmuDict::load(&blob(&entries));
    assert_eq!(dict.entry_count(), WORDS.len());
    let later = dict.lookup("cat").unwrap();
    assert_eq!(later, vec![vec![phoneme::K, phoneme::encode("AA1"), phoneme::T]]);
}

#[test]
fn load_stops_at_a_cut_entry() {
    let mut b = blob(WORDS);
    b.truncate(b.len() - 9);
    let dict = CmuDict::load(&b);
    assert_eq!(dict.entry_count(), WORDS.len() - 1);
    assert!(dict.lookup("world").is_none());
    assert!(CmuDict::load(&[1, 0]).entry_count() == 0);
    let mut b = blob(WORDS);
    b.truncate(b.len() - 2);
    let dict = CmuDict::load(&b);
    assert_eq!(dict.entry_count(), WORDS.len());
    assert_eq!(dict.lookup("world"), Some(vec![]));
}

#[test]
fn get_keys_come_in_order() {
    let dict = load();
    let keys = dict.get_keys();
    assert_eq!(keys, vec!["CAT", "HELLO", "RUNNING", "THE", "WORLD"]);
}

#[test]
fn first_phonemes_of_known_and_unknown() {
    let dict = load();
    assert_eq!(dict.first_phonemes("cat"), vec![phoneme::K, phoneme::encode("AE1"), phoneme::T]);
    assert!(dict.first_phonemes("xyzzyplugh").is_empty());
}

#[test]
fn normalize_ignores_ascii_case() {
    for (a, b) in [("runnin'", "RUNNIN'"), ("Hello", "hELLO"), ("well-known", "WELL-KNOWN"), ("don't", "DON'T")] {
        assert_eq!(CmuDict::normalize(a), CmuDict::normalize(b));
    }
    assert_eq!(CmuDict::normalize("Runnin'"), "RUNNING");
}

#[test]
fn normalize_twice_changes_nothing() {
    for w in ["runnin'", "hello", "Well-Known", "don't", "in'", "a", ""] {
        let once = CmuDict::normalize(w);
        assert_eq!(CmuDict::normalize(&once), once);
        assert!(once.len() <= w.len());
        assert!(once.chars().all(|c| c.is_ascii_uppercase() || c == '\'' || c == '-'));
    }
}
