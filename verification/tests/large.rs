//! Tests that need a dictionary of more than a hundred thousand words: a
//! generated one, every word pronounced W AH1 N.

use phonetik::dict::CmuDict;
use phonetik::phoneme;
use phonetik::Phonetik;

const WORDS: usize = 100_001;

fn large_dict_blob() -> Vec<u8> {
    let pron: Vec<u8> = ["W", "AH1", "N"].iter().map(|p| phoneme::encode(p)).collect();
    let mut b = Vec::new();
    b.extend_from_slice(&(WORDS as u32).to_le_bytes());
    for i in 0..WORDS {
        let word = format!("W{i:06}");
        b.extend_from_slice(&(word.len() as u16).to_le_bytes());
        b.extend_from_slice(word.as_bytes());
        b.push(1);
        b.push(pron.len() as u8);
        b.extend_from_slice(&pron);
    }
    b
}

fn empty_table() -> Vec<u8> {
    0u32.to_le_bytes().to_vec()
}

fn large_engine() -> Phonetik {
    Phonetik::new(&large_dict_blob(), &empty_table(), &empty_table())
}

#[test]
fn dict_loads_with_entries() {
    let dict = CmuDict::load(&large_dict_blob());
    assert!(dict.entry_count() > 100_000, "should have 100K+ entries");
}

#[test]
fn word_count_is_substantial() {
    let p = large_engine();
    assert!(p.word_count() > 100_000);
}

#[test]
fn construct_and_clone() {
    let engine = large_engine();
    assert!(engine.word_count() > 100_000);

    let clone = engine.clone();
    assert_eq!(engine.word_count(), clone.word_count());
}
