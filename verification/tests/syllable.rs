use phonetik::syllable::SyllableSplitter;

#[test]
fn split_pieces_spell_the_word_for_every_count() {
    for word in ["beautiful", "hello", "strength", "aeiou", "make", "rhythm", "a"] {
        for expected in 0..7 {
            let parts = SyllableSplitter::split(word, expected);
            assert!(!parts.is_empty());
            assert_eq!(parts.concat(), word, "word {word} count {expected}");
        }
    }
}

#[test]
fn split_hello_in_two() {
    assert_eq!(SyllableSplitter::split("hello", 2), vec!["hel".to_string(), "lo".to_string()]);
}

#[test]
fn split_with_one_syllable_keeps_the_word() {
    assert_eq!(SyllableSplitter::split("beautiful", 1), vec!["beautiful".to_string()]);
    assert_eq!(SyllableSplitter::split("", 3), vec![String::new()]);
}

#[test]
fn stress_display_marks_the_stressed_syllable() {
    assert_eq!(SyllableSplitter::stress_display("hello", &[0, 1]), "hel-LO");
}

#[test]
fn stress_display_spells_the_word_in_lower_case() {
    for (word, stresses) in [("HELLO", vec![0, 1]), ("beautiful", vec![1, 0, 0]), ("Cat", vec![1]), ("extraordinary", vec![0, 1, 0, 0, 2, 0])] {
        let shown = SyllableSplitter::stress_display(word, &stresses);
        let pieces: Vec<&str> = shown.split('-').collect();
        assert_eq!(pieces.len(), SyllableSplitter::split(word, stresses.len()).len());
        assert_eq!(shown.replace('-', "").to_ascii_lowercase(), word.to_ascii_lowercase());
        for (k, piece) in pieces.iter().enumerate() {
            if stresses.get(k).copied().unwrap_or(0) > 0 {
                assert_eq!(*piece, piece.to_ascii_uppercase());
            } else {
                assert_eq!(*piece, piece.to_ascii_lowercase());
            }
        }
    }
}
