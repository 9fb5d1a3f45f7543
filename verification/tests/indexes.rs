use std::sync::Arc;

use phonetik::coda_groups;
use phonetik::dict::CmuDict;
use phonetik::near_index::NearIndex;
use phonetik::phoneme;
use phonetik::rhyme_index::RhymeIndex;
use phonetik::slant_index::SlantIndex;

const WORDS: &[(&str, &[&str])] = &[
    ("BAT", &["B AE1 T"]),
    ("CAT", &["K AE1 T"]),
    ("FIGHT", &["F AY1 T"]),
    ("HAT", &["HH AE1 T"]),
    ("LOVE", &["L AH1 V"]),
    ("MOVE", &["M UW1 V"]),
    ("NICE", &["N AY1 S"]),
    ("NIGHT", &["N AY1 T"]),
];

fn ids(p: &str) -> Vec<u8> {
    p.split(' ').map(phoneme::encode).collect()
}

fn dict() -> Arc<CmuDict> {
    let mut b = Vec::new();
    b.extend_from_slice(&(WORDS.len() as u32).to_le_bytes());
    for (word, variants) in WORDS {
        b.extend_from_slice(&(word.len() as u16).to_le_bytes());
        b.extend_from_slice(word.as_bytes());
        b.push(variants.len() as u8);
        for v in variants.iter() {
            let p = ids(v);
            b.push(p.len() as u8);
            b.extend_from_slice(&p);
        }
    }
    Arc::new(CmuDict::load(&b))
}

fn groups_blob() -> Vec<u8> {
    let groups: &[(&str, &[&str])] = &[("AE T", &["BAT", "CAT", "HAT"]), ("AY T", &["FIGHT", "NIGHT"])];
    let mut b = Vec::new();
    b.extend_from_slice(&(groups.len() as u32).to_le_bytes());
    for (tail, words) in groups {
        let t = ids(tail);
        b.push(t.len() as u8);
        b.extend_from_slice(&t);
        b.extend_from_slice(&(words.len() as u32).to_le_bytes());
        for w in words.iter() {
            b.extend_from_slice(&(w.len() as u16).to_le_bytes());
            b.extend_from_slice(w.as_bytes());
        }
    }
    b
}

fn perfect_words(index: &RhymeIndex, word: &str) -> Vec<String> {
    index.lookup(word).map(|r| r.matches.into_iter().map(|m| m.word).collect()).unwrap_or_default()
}

#[test]
fn added_word_becomes_a_perfect_rhyme() {
    let mut index = RhymeIndex::new(dict(), &groups_blob());
    assert_eq!(perfect_words(&index, "cat"), vec!["BAT", "HAT"]);
    index.add_word("zat", &ids("Z AE1 T"));
    assert_eq!(perfect_words(&index, "cat"), vec!["BAT", "HAT", "ZAT"]);
    assert_eq!(perfect_words(&index, "bat"), vec!["CAT", "HAT", "ZAT"]);
    // No stressed vowel: nothing is added.
    index.add_word("zot", &ids("Z AH0 T"));
    assert_eq!(perfect_words(&index, "cat"), vec!["BAT", "HAT", "ZAT"]);
}

#[test]
fn added_word_becomes_a_slant_rhyme() {
    let d = dict();
    let groups = Arc::new(coda_groups::build(&d));
    let mut index = SlantIndex::new(d, groups);
    let before: Vec<String> =
        index.lookup("love", 20).map(|r| r.matches.into_iter().map(|m| m.word).collect()).unwrap_or_default();
    assert_eq!(before, vec!["MOVE"]);
    index.add_word("groove", &ids("G R UW1 V"));
    let after: Vec<String> =
        index.lookup("love", 20).map(|r| r.matches.into_iter().map(|m| m.word).collect()).unwrap_or_default();
    assert_eq!(after, vec!["GROOVE", "MOVE"]);
}

#[test]
fn near_index_walks_the_coda_graph() {
    let d = dict();
    let groups = Arc::new(coda_groups::build(&d));
    let mut blob = Vec::new();
    let graph: &[(&str, &[&str])] = &[("T", &["S"]), ("S", &["T"])];
    blob.extend_from_slice(&(graph.len() as u32).to_le_bytes());
    for (coda, list) in graph {
        let c = ids(coda);
        blob.push(c.len() as u8);
        blob.extend_from_slice(&c);
        blob.extend_from_slice(&(list.len() as u16).to_le_bytes());
        for n in list.iter() {
            let x = ids(n);
            blob.push(x.len() as u8);
            blob.extend_from_slice(&x);
        }
    }
    let index = NearIndex::new(d, groups, &blob);
    assert_eq!(index.neighbor_count(), 2);
    let r = index.lookup("night", 10).unwrap();
    let words: Vec<String> = r.matches.into_iter().map(|m| m.word).collect();
    assert_eq!(words, vec!["NICE"]);
    let r = index.lookup("nice", 10).unwrap();
    let words: Vec<String> = r.matches.into_iter().map(|m| m.word).collect();
    assert_eq!(words, vec!["FIGHT", "NIGHT"]);
    assert!(index.lookup("love", 10).is_none());
}

fn dict_of(words: &[(&str, &[&str])]) -> CmuDict {
    let mut b = Vec::new();
    b.extend_from_slice(&(words.len() as u32).to_le_bytes());
    for (word, variants) in words {
        b.extend_from_slice(&(word.len() as u16).to_le_bytes());
        b.extend_from_slice(word.as_bytes());
        b.push(variants.len() as u8);
        for v in variants.iter() {
            let p = ids(v);
            b.push(p.len() as u8);
            b.extend_from_slice(&p);
        }
    }
    CmuDict::load(&b)
}

fn grouped_words(g: &coda_groups::CodaGroups, coda: &str, nucleus: u8) -> Vec<String> {
    match g.find_coda(&ids(coda)) {
        Some(i) => g.words_at(i, nucleus).iter().map(|w| w.iter().collect()).collect(),
        None => Vec::new(),
    }
}

#[test]
fn groups_file_keys_by_what_a_lookup_gives() {
    // A g-dropped key with no "-ing" entry: its lookup finds nothing.
    let alone = dict_of(&[("RUNNIN'", &["R AH1 N IH0 N"])]);
    let g = coda_groups::build(&alone);
    assert_eq!(g.coda_count(), 0);

    // With the "-ing" entry, the g-dropped key is filed under the patched
    // pronunciation (final NG becomes N, IH before it becomes AH).
    let both = dict_of(&[("RUNNIN'", &["R AH1 N IH0 N"]), ("RUNNING", &["R AH1 N IH0 NG"])]);
    let g = coda_groups::build(&both);
    assert_eq!(grouped_words(&g, "N AH N", phoneme::AH), vec!["RUNNIN'"]);
    assert_eq!(grouped_words(&g, "N IH NG", phoneme::AH), vec!["RUNNING"]);
    assert!(grouped_words(&g, "N IH N", phoneme::AH).is_empty());
}
