use std::sync::Arc;

use phonetik::dict::CmuDict;
use phonetik::phoneme;
use phonetik::rhymemap::{default_min_count, default_min_length, RhymeMapAnalyzer};
use phonetik::{
    estimate_syllable_count, format_stress_visual, tokenize_words, LineSyllableCount, Phonetik,
    RhymeType, WordInfo, WordSyllableCount,
};

const WORDS: &[(&str, &[&str])] = &[
    ("A", &["AH0", "EY1"]),
    ("BAT", &["B AE1 T"]),
    ("BEAUTIFUL", &["B Y UW1 T AH0 F AH0 L"]),
    ("BROWN", &["B R AW1 N"]),
    ("CAT", &["K AE1 T"]),
    ("CROWN", &["K R AW1 N"]),
    ("DOVE", &["D AH1 V"]),
    ("EXTRAORDINARY", &["IH0 K S T R AO1 R D AH0 N EH2 R IY0"]),
    ("FIGHT", &["F AY1 T"]),
    ("FOX", &["F AA1 K S"]),
    ("GLOVE", &["G L AH1 V"]),
    ("HAT", &["HH AE1 T"]),
    ("HEAD", &["HH EH1 D"]),
    ("HELLO", &["HH AH0 L OW1", "HH EH0 L OW1"]),
    ("LIES", &["L AY1 Z"]),
    ("LOVE", &["L AH1 V"]),
    ("MAT", &["M AE1 T"]),
    ("MOVE", &["M UW1 V"]),
    ("NICE", &["N AY1 S"]),
    ("NIGHT", &["N AY1 T"]),
    ("ON", &["AA1 N", "AO1 N"]),
    ("QUICK", &["K W IH1 K"]),
    ("SAT", &["S AE1 T"]),
    ("THAT", &["DH AE1 T", "DH AH0 T"]),
    ("THE", &["DH AH0", "DH AH1", "DH IY0"]),
    ("UNEASY", &["AH0 N IY1 Z IY0"]),
    ("WEARS", &["W EH1 R Z"]),
    ("WORLD", &["W ER1 L D"]),
];

fn ids(p: &str) -> Vec<u8> {
    p.split(' ').map(phoneme::encode).collect()
}

fn dict_blob() -> Vec<u8> {
    let mut b = Vec::new();
    b.extend_from_slice(&(WORDS.len() as u32).to_le_bytes());
    for (word, variants) in WORDS {
        b.extend_from_slice(&(word.len() as u16).to_le_bytes());
        b.extend_from_slice(word.as_bytes());
        b.push(variants.len() as u8);
        for v in variants.iter() {
            let p = ids(v);
            b.push(p.len() as u8);
            b.extend_from_slice(&p);
        }
    }
    b
}

/// Rhyme groups: each stress-stripped tail with its words.
fn groups_blob() -> Vec<u8> {
    let groups: &[(&str, &[&str])] = &[
        ("AE T", &["BAT", "CAT", "HAT", "MAT", "SAT", "THAT"]),
        ("AH V", &["DOVE", "GLOVE", "LOVE"]),
        ("AY T", &["FIGHT", "NIGHT"]),
    ];
    let mut b = Vec::new();
    b.extend_from_slice(&(groups.len() as u32).to_le_bytes());
    for (tail, words) in groups {
        let t = ids(tail);
        b.push(t.len() as u8);
        b.extend_from_slice(&t);
        b.extend_from_slice(&(words.len() as u32).to_le_bytes());
        for w in words.iter() {
            b.extend_from_slice(&(w.len() as u16).to_le_bytes());
            b.extend_from_slice(w.as_bytes());
        }
    }
    b
}

/// Coda neighbours: T ↔ S, T ↔ F.
fn neighbors_blob() -> Vec<u8> {
    let graph: &[(&str, &[&str])] = &[("T", &["S", "F"]), ("S", &["T"]), ("F", &["T"])];
    let mut b = Vec::new();
    b.extend_from_slice(&(graph.len() as u32).to_le_bytes());
    for (coda, list) in graph {
        let c = ids(coda);
        b.push(c.len() as u8);
        b.extend_from_slice(&c);
        b.extend_from_slice(&(list.len() as u16).to_le_bytes());
        for n in list.iter() {
            let x = ids(n);
            b.push(x.len() as u8);
            b.extend_from_slice(&x);
        }
    }
    b
}

fn ph() -> Phonetik {
    Phonetik::new(&dict_blob(), &groups_blob(), &neighbors_blob())
}

#[test]
fn clone_shares_data() {
    let a = ph();
    let b = a.clone();
    assert_eq!(a.word_count(), b.word_count());
    assert!(a.lookup("cat").is_some());
    assert!(b.lookup("cat").is_some());
}

#[test]
fn lookup_returns_word_info() {
    let p = ph();
    let info = p.lookup("extraordinary").unwrap();
    assert_eq!(info.word, "EXTRAORDINARY");
    assert!(info.syllable_count >= 5);
    assert!(!info.phonemes.is_empty());
    assert!(!info.syllables.is_empty());
    assert!(info.variant_count >= 1);
}

#[test]
fn lookup_unknown_word() {
    let p = ph();
    assert!(p.lookup("xyzzyplugh").is_none());
}

#[test]
fn syllable_count_known_word() {
    let p = ph();
    assert_eq!(p.syllable_count("cat"), 1);
    assert_eq!(p.syllable_count("hello"), 2);
}

#[test]
fn syllable_count_unknown_falls_back_to_estimate() {
    let p = ph();
    let count = p.syllable_count("xyzzyplugh");
    assert!(count >= 1);
}

#[test]
fn lib_syllable_counts_batch() {
    let p = ph();
    let result = p.syllable_counts(&["hello world", "the cat"]);
    assert_eq!(result.len(), 2);
    assert!(result[0].total >= 3);
    assert!(result[1].total >= 2);
}

#[test]
fn contains_known_and_unknown() {
    let p = ph();
    assert!(p.contains("hello"));
    assert!(!p.contains("xyzzyplugh"));
}

#[test]
fn format_stress_visual_fn() {
    assert_eq!(format_stress_visual(&[0, 1, 0, 1]), "x / x /");
    assert_eq!(format_stress_visual(&[]), "");
}

#[test]
fn tokenize_words_fn() {
    assert_eq!(tokenize_words("hello, world!"), vec!["hello", "world"]);
    assert_eq!(tokenize_words("don't stop"), vec!["don't", "stop"]);
    assert!(tokenize_words("").is_empty());
}

#[test]
fn estimate_syllable_count_fn() {
    assert_eq!(estimate_syllable_count("cat"), 1);
    assert_eq!(estimate_syllable_count("hello"), 2);
    assert_eq!(estimate_syllable_count("brr"), 1);
}

#[test]
fn lookup_known_word_returns_word_info() {
    let p = ph();
    let info: WordInfo = p.lookup("extraordinary").unwrap();
    assert_eq!(info.word, "EXTRAORDINARY");
    assert!(info.syllable_count >= 5);
    assert!(!info.phonemes.is_empty());
    assert!(!info.syllables.is_empty());
    assert!(info.variant_count >= 1);
}

#[test]
fn lookup_is_case_insensitive() {
    let p = ph();
    let a = p.lookup("Hello").unwrap();
    let b = p.lookup("HELLO").unwrap();
    let c = p.lookup("hello").unwrap();
    assert_eq!(a.word, b.word);
    assert_eq!(b.word, c.word);
}

#[test]
fn lookup_unknown_returns_none() {
    let p = ph();
    assert!(p.lookup("xyzzyplugh").is_none());
}

#[test]
fn contains_matches_lookup() {
    let p = ph();
    assert!(p.contains("hello"));
    assert!(!p.contains("xyzzyplugh"));
}

#[test]
fn syllable_count_known_words() {
    let p = ph();
    assert_eq!(p.syllable_count("cat"), 1);
    assert_eq!(p.syllable_count("hello"), 2);
    assert_eq!(p.syllable_count("beautiful"), 3);
}

#[test]
fn syllable_count_unknown_word_estimates() {
    let p = ph();
    let count = p.syllable_count("blarglesnarf");
    assert!(count >= 1, "unknown word should still estimate at least 1 syllable");
}

#[test]
fn syllable_counts_batch_returns_per_line() {
    let p = ph();
    let results: Vec<LineSyllableCount> = p.syllable_counts(&["hello world", "the quick brown fox"]);
    assert_eq!(results.len(), 2);
    assert!(results[0].total >= 3);
    assert!(results[1].total >= 4);
    assert!(!results[0].words.is_empty());
    let _: &Vec<WordSyllableCount> = &results[0].words;
}

// ── Rhymes over the fixture ─────────────────────────────────────────────

#[test]
fn perfect_rhymes_of_cat() {
    let p = ph();
    let words: Vec<String> = p.perfect_rhymes("cat").into_iter().map(|m| m.word).collect();
    assert_eq!(words, vec!["BAT", "HAT", "MAT", "SAT", "THAT"]);
    for m in p.perfect_rhymes("cat") {
        assert_eq!(m.rhyme_type, RhymeType::Perfect);
        assert_eq!(m.confidence_pct, 100);
    }
    assert!(p.perfect_rhymes("xyzzyplugh").is_empty());
}

#[test]
fn slant_rhymes_of_love() {
    let p = ph();
    let results = p.slant_rhymes("love", 20);
    let words: Vec<&str> = results.iter().map(|m| m.word.as_str()).collect();
    assert_eq!(words, vec!["MOVE"]);
    // AH and UW are 40 apart: 100 - 40.
    assert_eq!(results[0].confidence_pct, 60);
    assert_eq!(results[0].rhyme_type, RhymeType::Slant);
    assert_eq!(results[0].phonemes, vec!["M", "UW1", "V"]);
}

#[test]
fn near_rhymes_of_night() {
    let p = ph();
    let results = p.near_rhymes("night", 20);
    let words: Vec<&str> = results.iter().map(|m| m.word.as_str()).collect();
    // S is one edit from T; FIGHT shares the coda itself, so it is no near rhyme.
    assert_eq!(words, vec!["NICE"]);
    assert_eq!(results[0].phonemes, vec!["N", "AY1", "S"]);
    assert!(results.iter().all(|m| m.rhyme_type == RhymeType::Near && m.confidence_pct == 50));
}

#[test]
fn slant_and_near_lists_are_ranked_without_repeats() {
    let p = ph();
    for word in ["cat", "love", "night", "fight", "move", "hat", "crown", "head"] {
        for limit in [1usize, 2, 20] {
            let query = word.to_uppercase();
            let slant = p.slant_rhymes(word, limit);
            assert!(slant.len() <= limit);
            for pair in slant.windows(2) {
                let (a, b) = (&pair[0], &pair[1]);
                assert!(
                    a.confidence_pct > b.confidence_pct
                        || (a.confidence_pct == b.confidence_pct && a.word < b.word),
                    "{word}: {} before {}",
                    a.word,
                    b.word
                );
            }
            let near = p.near_rhymes(word, limit);
            assert!(near.len() <= limit);
            let all = p.rhymes(word, limit);
            assert!(all.len() <= limit);
            for list in [&slant, &near, &all] {
                assert!(list.iter().all(|m| m.word != query));
                let mut seen: Vec<&str> = list.iter().map(|m| m.word.as_str()).collect();
                let before = seen.len();
                seen.sort();
                seen.dedup();
                assert_eq!(seen.len(), before);
            }
        }
    }
}

#[test]
fn slant_rhymes_of_cat_rank_by_confidence() {
    let p = ph();
    let results = p.slant_rhymes("cat", 20);
    assert!(!results.is_empty());
    assert!(results.iter().all(|m| m.rhyme_type == RhymeType::Slant && m.word != "CAT"));
    assert_eq!(p.slant_rhymes("cat", 1).len(), 1);
}

#[test]
fn rhymes_merge_kinds_in_order() {
    let p = ph();
    let results = p.rhymes("love", 20);
    let words: Vec<&str> = results.iter().map(|m| m.word.as_str()).collect();
    assert_eq!(words, vec!["DOVE", "GLOVE", "MOVE", "THE"]);
    assert_eq!(results[0].rhyme_type, RhymeType::Perfect);
    assert_eq!(results[2].rhyme_type, RhymeType::Slant);
    assert_eq!(results[3].rhyme_type, RhymeType::Near);
    let capped = p.rhymes("cat", 2);
    assert_eq!(capped.len(), 2);
    let mut all: Vec<String> = p.rhymes("cat", 200).into_iter().map(|m| m.word).collect();
    let before = all.len();
    all.sort();
    all.dedup();
    assert_eq!(all.len(), before);
}

#[test]
fn rhyme_map_finds_patterns() {
    let p = ph();
    let result = p.rhyme_map(&["the cat sat on the mat", "the bat sat on the hat"]);
    assert!(!result.patterns.is_empty());
}

#[test]
fn rhyme_map_detects_patterns() {
    let p = ph();
    let result = p.rhyme_map(&["the cat sat on the mat", "the bat sat on the hat"]);
    assert_eq!(result.lines.len(), 2);
    assert!(!result.words.is_empty());
    assert!(!result.patterns.is_empty());
}

#[test]
fn rhyme_map_single_line() {
    let p = ph();
    let result = p.rhyme_map(&["hello world"]);
    assert_eq!(result.lines.len(), 1);
    assert!(!result.words.is_empty());
}

#[test]
fn rhyme_map_counts_the_at_ngram() {
    let p = ph();
    let mut result = p.rhyme_map(&["the cat sat on the mat", "the bat sat on the hat"]);
    assert_eq!(result.words.len(), 12);
    assert_eq!(result.words[1].word, "cat");
    assert_eq!(result.words[1].stripped_phonemes, vec!["K", "AE0", "T"]);
    assert_eq!((result.words[7].line, result.words[7].position), (1, 1));
    let at = result.patterns.iter().position(|c| c.ngram == "AE0-T").unwrap();
    let pat = &result.patterns[at];
    assert_eq!(pat.length, 2);
    assert_eq!(pat.count, 6);
    assert_eq!(pat.hit_count, 6);
    assert_eq!(pat.end_of_line_count, 2);
    assert!(pat.is_vowel_anchored);
    assert_eq!(pat.members[0].word, "cat");
    assert_eq!(pat.members[0].phoneme_indices, vec![1, 2]);
    // Keys come in increasing order.
    for w in result.patterns.windows(2) {
        assert!(w[0].key < w[1].key);
    }
    let patterns = std::mem::take(&mut result.patterns);
    phonetik::rhymemap::link_patterns(&mut result.words, &patterns);
    let cat_refs: Vec<usize> = result.words[1].patterns.iter().map(|r| r.pattern_id).collect();
    assert!(cat_refs.contains(&at));
    assert!(result.words[0].patterns.iter().all(|r| r.pattern_id != at));
}

#[test]
fn analyze_line_and_pronunciations() {
    let p = ph();
    let line = p.analyze_line("uneasy lies the head that wears the crown");
    assert_eq!(line.syllable_count, 10);
    assert_eq!(line.binary_pattern, vec![0, 1, 0, 1, 0, 1, 1, 1, 0, 1]);
    assert_eq!(p.pronunciations("the").unwrap().len(), 3);
    assert!(p.pronunciations("xyzzyplugh").is_none());
}

#[test]
fn rhymes_returns_perfect_first() {
    let p = ph();
    let results = p.rhymes("cat", 20);
    assert!(!results.is_empty());
    assert_eq!(results[0].rhyme_type, RhymeType::Perfect);
}

#[test]
fn perfect_rhymes_known_pair() {
    let p = ph();
    let results = p.perfect_rhymes("cat");
    let words: Vec<&str> = results.iter().map(|r| r.word.as_str()).collect();
    assert!(words.contains(&"BAT"));
}

#[test]
fn slant_rhymes_returns_results() {
    let p = ph();
    let results = p.slant_rhymes("love", 20);
    assert!(!results.is_empty());
    for r in &results {
        assert_eq!(r.rhyme_type, RhymeType::Slant);
    }
}

#[test]
fn near_rhymes_returns_results() {
    let p = ph();
    let results = p.near_rhymes("night", 20);
    assert!(!results.is_empty());
    for r in &results {
        assert_eq!(r.rhyme_type, RhymeType::Near);
    }
}

#[test]
fn lib_rhymes_respects_limit() {
    let p = ph();
    let results = p.rhymes("the", 5);
    assert!(results.len() <= 5);
}

#[test]
fn rhymes_deduplicates() {
    let p = ph();
    let results = p.rhymes("cat", 200);
    let mut words: Vec<&str> = results.iter().map(|r| r.word.as_str()).collect();
    let len_before = words.len();
    words.sort();
    words.dedup();
    assert_eq!(words.len(), len_before, "duplicates found in rhyme results");
}

#[test]
fn rhymes_returns_mixed_types() {
    let p = ph();
    let matches = p.rhymes("cat", 50);
    assert!(!matches.is_empty());
    assert!(matches.iter().any(|m| m.rhyme_type == RhymeType::Perfect), "cat should have perfect rhymes");
}

#[test]
fn rhymes_deduplicates_across_types() {
    let p = ph();
    let matches = p.rhymes("love", 200);
    let mut words: Vec<&str> = matches.iter().map(|m| m.word.as_str()).collect();
    let before = words.len();
    words.sort();
    words.dedup();
    assert_eq!(words.len(), before, "rhymes should not contain duplicates");
}

#[test]
fn crate_api_rhymes_respects_limit() {
    let p = ph();
    let matches = p.rhymes("the", 10);
    assert!(matches.len() <= 10);
}

#[test]
fn perfect_rhymes_are_all_perfect() {
    let p = ph();
    let matches = p.perfect_rhymes("night");
    assert!(!matches.is_empty());
    for m in &matches {
        assert_eq!(m.rhyme_type, RhymeType::Perfect);
    }
}

#[test]
fn slant_rhymes_are_all_slant() {
    let p = ph();
    let matches = p.slant_rhymes("love", 20);
    assert!(!matches.is_empty());
    for m in &matches {
        assert_eq!(m.rhyme_type, RhymeType::Slant);
    }
}

#[test]
fn near_rhymes_are_all_near() {
    let p = ph();
    let matches = p.near_rhymes("night", 20);
    assert!(!matches.is_empty());
    for m in &matches {
        assert_eq!(m.rhyme_type, RhymeType::Near);
    }
}

#[test]
fn rhyme_match_fields_are_populated() {
    let p = ph();
    let matches = p.perfect_rhymes("cat");
    let m = &matches[0];
    assert!(!m.word.is_empty());
    assert!(!m.phonemes.is_empty());
    assert!(m.syllables >= 1);
    assert!(m.confidence_pct > 0);
}

fn make_analyzer() -> RhymeMapAnalyzer {
    RhymeMapAnalyzer::new(Arc::new(CmuDict::load(&dict_blob())))
}

#[test]
fn analyze_finds_patterns_in_rhyming_couplet() {
    let a = make_analyzer();
    let lines = vec!["the cat sat on the mat".to_string(), "the bat sat on the hat".to_string()];
    let result = a.analyze(&lines, default_min_count(), default_min_length());
    assert!(!result.patterns.is_empty());
    assert_eq!(result.lines.len(), 2);
}

#[test]
fn analyze_words_are_tracked() {
    let a = make_analyzer();
    let lines = vec!["hello world".to_string()];
    let result = a.analyze(&lines, default_min_count(), default_min_length());
    assert_eq!(result.words.len(), 2);
    assert_eq!(result.words[0].line, 0);
    assert_eq!(result.words[0].position, 0);
    assert_eq!(result.words[1].position, 1);
}

#[test]
fn analyze_empty_lines() {
    let a = make_analyzer();
    let result = a.analyze(&[], default_min_count(), default_min_length());
    assert!(result.words.is_empty());
    assert!(result.patterns.is_empty());
}

#[test]
fn unknown_words_marked() {
    let a = make_analyzer();
    let lines = vec!["xyzzyplugh".to_string()];
    let result = a.analyze(&lines, default_min_count(), default_min_length());
    assert_eq!(result.words.len(), 1);
    assert!(!result.words[0].in_dictionary);
}

fn assert_send_sync<T: Send + Sync>() {}

#[test]
fn engine_is_send_and_sync() {
    assert_send_sync::<Phonetik>();
}

#[test]
fn rhyme_confidences_follow_their_kind() {
    let p = ph();
    for word in ["cat", "love", "night", "fight", "move", "hat", "crown", "head", "the"] {
        for m in p.rhymes(word, 50) {
            match m.rhyme_type {
                RhymeType::Perfect => assert_eq!(m.confidence_pct, 100),
                RhymeType::Near => assert_eq!(m.confidence_pct, 50),
                RhymeType::Slant => assert!((15..=90).contains(&m.confidence_pct)),
                RhymeType::NoRhyme => panic!("no-rhyme entry in a rhyme list"),
            }
        }
        let perfect: Vec<String> = p.perfect_rhymes(word).into_iter().map(|m| m.word).collect();
        let mut sorted = perfect.clone();
        sorted.sort();
        sorted.dedup();
        assert_eq!(perfect, sorted);
        let merged: Vec<String> = p
            .rhymes(word, 50)
            .into_iter()
            .filter(|m| m.rhyme_type == RhymeType::Perfect)
            .map(|m| m.word)
            .collect();
        assert_eq!(merged[..], perfect[..merged.len()]);
    }
    assert!(p.rhymes("xyzzyplugh", 20).is_empty());
}

#[test]
fn lookup_syllables_spell_the_word() {
    let p = ph();
    for word in ["hello", "beautiful", "extraordinary", "cat", "Hello"] {
        let info = p.lookup(word).unwrap();
        assert_eq!(info.syllables.concat(), info.word);
        assert!(info.variant_count >= 1);
        assert_eq!(info.syllable_count, info.stress_pattern.len());
    }
    assert_eq!(p.lookup("hello").unwrap().word, p.lookup("HELLO").unwrap().word);
}

#[test]
fn analyze_line_joins_word_displays() {
    let p = ph();
    let a = p.analyze_line("hello world");
    let displays: Vec<String> = a.words.iter().map(|w| w.display.clone()).collect();
    assert_eq!(a.stressed_display, displays.join(" "));
    assert_eq!(a.words.len(), 2);
}
