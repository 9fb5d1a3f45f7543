use std::sync::Arc;

use phonetik::dict::CmuDict;
use phonetik::phoneme;
use phonetik::stress::{estimate_stresses, is_g_drop_apostrophe, tokenize, StressAnalyzer};

const WORDS: &[(&str, &[&str])] = &[
    ("A", &["AH0", "EY1"]),
    ("COMPARE", &["K AH0 M P EH1 R"]),
    ("DAY", &["D EY1"]),
    ("HELLO", &["HH AH0 L OW1", "HH EH0 L OW1"]),
    ("I", &["AY1"]),
    ("SHALL", &["SH AE1 L", "SH AH0 L"]),
    ("SUMMER'S", &["S AH1 M ER0 Z"]),
    ("THEE", &["DH IY1"]),
    ("TO", &["T UW1", "T IH0", "T AH0"]),
    ("WORLD", &["W ER1 L D"]),
];

fn make_analyzer() -> StressAnalyzer {
    let mut b = Vec::new();
    b.extend_from_slice(&(WORDS.len() as u32).to_le_bytes());
    for (word, variants) in WORDS {
        b.extend_from_slice(&(word.len() as u16).to_le_bytes());
        b.extend_from_slice(word.as_bytes());
        b.push(variants.len() as u8);
        for v in variants.iter() {
            let p: Vec<u8> = v.split(' ').map(phoneme::encode).collect();
            b.push(p.len() as u8);
            b.extend_from_slice(&p);
        }
    }
    StressAnalyzer::new(Arc::new(CmuDict::load(&b)))
}

#[test]
fn tokenize_simple_words() {
    assert_eq!(tokenize("hello world"), vec!["hello", "world"]);
}

#[test]
fn tokenize_preserves_apostrophe_contractions() {
    let tokens = tokenize("don't stop");
    assert_eq!(tokens, vec!["don't", "stop"]);
}

#[test]
fn tokenize_g_drop_apostrophe() {
    let tokens = tokenize("runnin' fast");
    assert_eq!(tokens, vec!["runnin'", "fast"]);
}

#[test]
fn tokenize_strips_punctuation() {
    let tokens = tokenize("hello, world!");
    assert_eq!(tokens, vec!["hello", "world"]);
}

#[test]
fn tokenize_empty_string() {
    assert_eq!(tokenize(""), Vec::<String>::new());
}

#[test]
fn is_g_drop_apostrophe_fn() {
    let chars: Vec<char> = "runnin'".chars().collect();
    assert!(is_g_drop_apostrophe(&chars, 0, 6));
    let chars: Vec<char> = "don't".chars().collect();
    assert!(!is_g_drop_apostrophe(&chars, 0, 3));
    let chars: Vec<char> = "in'".chars().collect();
    assert!(!is_g_drop_apostrophe(&chars, 0, 2));
}

#[test]
fn estimate_stresses_monosyllabic() {
    assert_eq!(estimate_stresses("CAT"), vec![1]);
}

#[test]
fn estimate_stresses_multisyllabic() {
    let stresses = estimate_stresses("HELLO");
    assert_eq!(stresses.len(), 2);
    assert_eq!(stresses[0], 1);
    assert_eq!(stresses[1], 0);
}

#[test]
fn estimate_stresses_no_vowels() {
    assert_eq!(estimate_stresses("BRR"), vec![1]);
}

#[test]
fn analyze_known_words() {
    let a = make_analyzer();
    let result = a.analyze_line("hello world");
    assert!(result.syllable_count >= 3);
    assert!(!result.words.is_empty());
    assert!(result.words[0].in_dictionary);
}

#[test]
fn analyze_binary_pattern_is_zero_or_one() {
    let a = make_analyzer();
    let result = a.analyze_line("shall I compare thee to a summer's day");
    for &b in &result.binary_pattern {
        assert!(b == 0 || b == 1);
    }
}

#[test]
fn analyze_unknown_word_marked() {
    let a = make_analyzer();
    let result = a.analyze_line("xyzzyplugh");
    assert_eq!(result.words.len(), 1);
    assert!(!result.words[0].in_dictionary);
}

#[test]
fn analyze_empty_line() {
    let a = make_analyzer();
    let result = a.analyze_line("");
    assert_eq!(result.syllable_count, 0);
    assert!(result.words.is_empty());
}

#[test]
fn stressed_display_is_nonempty_for_known_words() {
    let a = make_analyzer();
    let result = a.analyze_line("hello");
    assert!(!result.stressed_display.is_empty());
}

#[test]
fn analyze_line_pattern_of_a_known_line() {
    let a = make_analyzer();
    let result = a.analyze_line("shall I compare thee");
    assert_eq!(result.stress_pattern, vec![1, 1, 0, 1, 1]);
    assert_eq!(result.binary_pattern, vec![1, 1, 0, 1, 1]);
    assert_eq!(result.syllable_count, 5);
}
