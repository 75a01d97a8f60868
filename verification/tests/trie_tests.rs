use rspell::trie::get_words_from_file_as_tree;
use rspell::trie::DictionaryTrie;
use rspell::trie::Node;

fn build(words: &[&str]) -> DictionaryTrie {
    let owned: Vec<String> = words.iter().map(|w| w.to_string()).collect();
    get_words_from_file_as_tree(&owned)
}

#[test]
fn every_inserted_word_is_found_and_no_other() {
    let trie = build(&["dictionary", "with", "word"]);
    assert!(trie.contains("dictionary"));
    assert!(trie.contains("with"));
    assert!(trie.contains("word"));
    assert!(!trie.contains("worf"));
    assert!(!trie.contains("wor"));
    assert!(!trie.contains("words"));
    assert!(!trie.contains(""));
}

#[test]
fn a_prefix_of_a_word_is_not_a_word() {
    let trie = build(&["word"]);
    assert!(!trie.contains("w"));
    assert!(!trie.contains("wo"));
    assert!(!trie.contains("wor"));
    assert!(trie.contains("word"));
}

#[test]
fn inserting_twice_gives_the_same_query_results_as_once() {
    let once = build(&["word", "with"]);
    let twice = build(&["word", "with", "word"]);
    for probe in ["word", "with", "worf", "", "wordy"] {
        assert_eq!(once.contains(probe), twice.contains(probe));
        assert_eq!(once.nearest(probe), twice.nearest(probe));
    }
}

#[test]
fn nearest_returns_the_closest_word_and_its_distance() {
    let trie = build(&["dictionary", "with", "word"]);
    assert_eq!(trie.nearest("worf"), Some(("word".to_string(), 1)));
    assert_eq!(trie.nearest("word"), Some(("word".to_string(), 0)));
}

#[test]
fn nearest_breaks_ties_by_traversal_order() {
    // "cat" and "bat" are both at distance one from "rat"; "cat" was
    // inserted first, so its subtree comes first in traversal order
    let trie = build(&["cat", "bat"]);
    assert_eq!(trie.nearest("rat"), Some(("cat".to_string(), 1)));
}

#[test]
fn repeated_nearest_queries_return_identical_results() {
    let trie = build(&["dictionary", "with", "word"]);
    let first = trie.nearest("worf");
    let second = trie.nearest("worf");
    assert_eq!(first, second);
}

#[test]
fn an_empty_dictionary_has_no_nearest_word() {
    let trie = build(&[]);
    assert!(trie.is_empty());
    assert_eq!(trie.nearest("word"), None);
    assert!(!trie.contains("word"));
}

#[test]
fn the_empty_word_can_be_a_dictionary_entry() {
    let with_empty = build(&["", "word"]);
    assert!(with_empty.contains(""));
    let without_empty = build(&["word"]);
    assert!(!without_empty.contains(""));
}

#[test]
fn insert_on_a_fresh_trie_matches_the_builder() {
    let mut trie = DictionaryTrie::new();
    assert!(trie.is_empty());
    trie.insert("word");
    trie.insert("with");
    assert!(!trie.is_empty());
    assert!(trie.contains("word"));
    assert!(trie.contains("with"));
    assert!(!trie.contains("wit"));
}

#[test]
fn add_child_skips_a_duplicate_key() {
    let mut parent = Node::new('w');
    parent.add_child(Node::new('a'));
    parent.add_child(Node::new('b'));
    // a second child keyed 'a' is silently skipped
    parent.add_child(Node::new('a'));
    assert_eq!(parent.children.len(), 2);
    assert_eq!(parent.children[0].data, 'a');
    assert_eq!(parent.children[1].data, 'b');
}
