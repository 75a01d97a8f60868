use rspell::checker::check;
use rspell::checker::check_word_against_dictionary;
use rspell::checker::perform_spellcheck;
use rspell::checker::Spelling;
use rspell::text::tokenize;
use rspell::trie::get_words_from_file_as_tree;

fn build(words: &[&str]) -> rspell::trie::DictionaryTrie {
    let owned: Vec<String> = words.iter().map(|w| w.to_string()).collect();
    get_words_from_file_as_tree(&owned)
}

#[test]
fn test_get_words_from_file() {
    let result = tokenize("this statement is false");
    assert_eq!(result, vec!["this", "statement", "is", "false"]);
}

#[test]
fn check_word_against_dictionary_returns_correct_spelling_enum_variant() {
    let spelling = check_word_against_dictionary(
        &String::from("word"),
        &vec![
            String::from("dictionary"),
            String::from("with"),
            String::from("word"),
        ],
    )
    .unwrap();
    assert!(match spelling {
        Spelling::Correct => true,
        Spelling::Incorrect(_, _, _) => false,
    });
}

#[test]
fn check_word_against_dictionary_returns_incorrect_spelling_enum_variant() {
    let spelling = check_word_against_dictionary(
        &String::from("worf"),
        &vec![
            String::from("dictionary"),
            String::from("with"),
            String::from("word"),
        ],
    )
    .unwrap();
    assert!(match spelling {
        Spelling::Incorrect(_, _, _) => true,
        Spelling::Correct => false,
    });
}

#[test]
fn check_reports_a_held_word_as_correct() {
    let trie = build(&["dictionary", "with", "word"]);
    let verdict = check(&String::from("word"), &trie).unwrap();
    assert!(matches!(verdict, Spelling::Correct));
}

#[test]
fn check_reports_the_closest_word_and_distance() {
    let trie = build(&["dictionary", "with", "word"]);
    let verdict = check(&String::from("worf"), &trie).unwrap();
    match verdict {
        Spelling::Incorrect(word, closest, distance) => {
            assert_eq!(word, "worf");
            assert_eq!(closest, "word");
            assert_eq!(distance, 1);
        }
        Spelling::Correct => panic!("expected an incorrect verdict"),
    }
}

#[test]
fn check_against_an_empty_dictionary_has_no_verdict() {
    let trie = build(&[]);
    assert!(check(&String::from("word"), &trie).is_none());
    assert!(check_word_against_dictionary(&String::from("word"), &vec![]).is_none());
}

#[test]
fn an_empty_word_is_incorrect_unless_the_dictionary_holds_it() {
    let trie = build(&["ab", "abc"]);
    let verdict = check(&String::from(""), &trie).unwrap();
    match verdict {
        Spelling::Incorrect(word, closest, distance) => {
            assert_eq!(word, "");
            // the shortest dictionary word, at a distance of its length
            assert_eq!(closest, "ab");
            assert_eq!(distance, 2);
        }
        Spelling::Correct => panic!("expected an incorrect verdict"),
    }
    let with_empty = build(&["", "ab"]);
    let verdict = check(&String::from(""), &with_empty).unwrap();
    assert!(matches!(verdict, Spelling::Correct));
}

#[test]
fn scan_and_trie_checks_agree() {
    let list = vec![
        String::from("dictionary"),
        String::from("with"),
        String::from("word"),
    ];
    let trie = build(&["dictionary", "with", "word"]);
    for probe in ["word", "worf", "wirh", "dictionary"] {
        let from_list = check_word_against_dictionary(&String::from(probe), &list).unwrap();
        let from_trie = check(&String::from(probe), &trie).unwrap();
        let same = match (from_list, from_trie) {
            (Spelling::Correct, Spelling::Correct) => true,
            (Spelling::Incorrect(w1, c1, d1), Spelling::Incorrect(w2, c2, d2)) => {
                w1 == w2 && c1 == c2 && d1 == d2
            }
            _ => false,
        };
        assert!(same);
    }
}

#[test]
fn perform_spellcheck_returns_one_verdict_per_word_in_order() {
    let trie = build(&["dictionary", "with", "word"]);
    let words = vec![String::from("word"), String::from("worf")];
    let verdicts = perform_spellcheck(&words, &trie).unwrap();
    assert_eq!(verdicts.len(), 2);
    assert!(matches!(verdicts[0], Spelling::Correct));
    match &verdicts[1] {
        Spelling::Incorrect(word, closest, distance) => {
            assert_eq!(word, "worf");
            assert_eq!(closest, "word");
            assert_eq!(*distance, 1);
        }
        Spelling::Correct => panic!("expected an incorrect verdict"),
    }
}

#[test]
fn perform_spellcheck_needs_a_non_empty_dictionary() {
    let trie = build(&[]);
    let words = vec![String::from("word")];
    assert!(perform_spellcheck(&words, &trie).is_none());
}

#[test]
fn throws_error_on_parse_args_when_no_args_provided() {}

#[test]
fn tokenize_keeps_word_order_and_drops_separators() {
    let result = tokenize("The quick (\"brown\") fox can't jump 32.3 feet, right?");
    assert_eq!(
        result,
        vec!["The", "quick", "brown", "fox", "can't", "jump", "32.3", "feet", "right"]
    );
}
