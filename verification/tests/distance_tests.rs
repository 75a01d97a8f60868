use rspell::edit_distance::compute_levenshtein_distance;

#[test]
fn distance_of_a_word_to_itself_is_zero() {
    assert_eq!(compute_levenshtein_distance("word", "word"), 0);
    assert_eq!(compute_levenshtein_distance("", ""), 0);
    assert_eq!(compute_levenshtein_distance("statement", "statement"), 0);
}

#[test]
fn distance_is_symmetric() {
    let pairs = [
        ("word", "worf"),
        ("kitten", "sitting"),
        ("", "abc"),
        ("flaw", "lawn"),
    ];
    for (a, b) in pairs {
        assert_eq!(
            compute_levenshtein_distance(a, b),
            compute_levenshtein_distance(b, a)
        );
    }
}

#[test]
fn distance_satisfies_triangle_inequality_on_samples() {
    let triples = [
        ("word", "worf", "wore"),
        ("kitten", "sitting", "mitten"),
        ("", "abc", "abcd"),
        ("cat", "dog", "cow"),
    ];
    for (a, b, c) in triples {
        let ac = compute_levenshtein_distance(a, c);
        let ab = compute_levenshtein_distance(a, b);
        let bc = compute_levenshtein_distance(b, c);
        assert!(ac <= ab + bc);
    }
}

#[test]
fn distance_to_empty_string_is_the_other_length() {
    assert_eq!(compute_levenshtein_distance("", "word"), 4);
    assert_eq!(compute_levenshtein_distance("word", ""), 4);
    assert_eq!(compute_levenshtein_distance("", ""), 0);
}

#[test]
fn distance_counts_single_edits() {
    // one substitution
    assert_eq!(compute_levenshtein_distance("worr", "word"), 1);
    // two substitutions
    assert_eq!(compute_levenshtein_distance("wirr", "word"), 2);
    // one deletion
    assert_eq!(compute_levenshtein_distance("wor", "word"), 1);
    // one insertion
    assert_eq!(compute_levenshtein_distance("worda", "word"), 1);
}

#[test]
fn distance_compares_codepoints_not_bytes() {
    // the accented character is a single multi-byte codepoint, one substitution
    assert_eq!(compute_levenshtein_distance("caf\u{e9}", "cafe"), 1);
    assert_eq!(compute_levenshtein_distance("caf\u{e9}", "caf\u{e9}"), 0);
}

#[test]
fn distance_of_classic_pair() {
    assert_eq!(compute_levenshtein_distance("kitten", "sitting"), 3);
}
