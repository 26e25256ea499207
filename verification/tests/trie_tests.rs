use boggle::utils::dict_trie::{DictTrie, DictTrieNode};
use std::collections::HashSet;

fn trie_of(words: &[&str]) -> DictTrie {
    let mut trie = DictTrie::new();
    for word in words {
        trie.insert_word(word);
    }
    trie
}

fn set_of(words: &[&str]) -> HashSet<String> {
    words.iter().map(|w| w.to_string()).collect()
}

fn completions(trie: &DictTrie, prefix: &str) -> HashSet<String> {
    let listed = trie.extend_word(prefix);
    let set: HashSet<String> = listed.iter().cloned().collect();
    assert_eq!(set.len(), listed.len());
    set
}

#[test]
fn new_trie_holds_no_word() {
    let trie = DictTrie::new();
    assert!(!trie.check_word(""));
    assert!(!trie.check_word("a"));
    assert!(trie.extend_word("").is_empty());
    assert!(trie.has_extension(""));
    assert!(!trie.has_extension("a"));
}

#[test]
fn inserted_words_are_found_with_all_their_prefixes() {
    let words = ["care", "cat", "dog", "Zebra", "a"];
    let trie = trie_of(&words);
    for word in words {
        assert!(trie.check_word(word));
        for end in 0..word.len() {
            assert!(trie.has_extension(&word[..end]));
        }
        assert!(trie.has_extension(word));
    }
    assert!(!trie.check_word("car"));
    assert!(!trie.check_word("ca"));
    assert!(!trie.check_word("cares"));
    assert!(!trie.has_extension("cares"));
    assert!(!trie.has_extension("x"));
}

#[test]
fn empty_word_is_not_taken_in() {
    let mut trie = trie_of(&["cat"]);
    trie.insert_word("");
    assert!(!trie.check_word(""));
    assert_eq!(completions(&trie, ""), set_of(&["cat"]));
}

#[test]
fn letters_count_in_either_case() {
    let trie = trie_of(&["Cat", "DOG"]);
    assert!(trie.check_word("cat"));
    assert!(trie.check_word("CAT"));
    assert!(trie.check_word("dog"));
    assert!(trie.has_extension("dO"));
    assert_eq!(completions(&trie, ""), set_of(&["cat", "dog"]));
    assert_eq!(completions(&trie, "CA"), set_of(&["CAt"]));
    assert_eq!(completions(&trie, "d"), set_of(&["dog"]));
}

#[test]
fn completions_are_the_words_with_the_prefix() {
    let trie = trie_of(&["cat", "car", "care", "dog", "cart", "ca"]);
    assert_eq!(completions(&trie, "ca"), set_of(&["ca", "cat", "car", "care", "cart"]));
    assert_eq!(completions(&trie, "car"), set_of(&["car", "care", "cart"]));
    assert_eq!(completions(&trie, "care"), set_of(&["care"]));
    assert_eq!(completions(&trie, "cares"), set_of(&[]));
    assert_eq!(completions(&trie, "do"), set_of(&["dog"]));
    assert_eq!(completions(&trie, "x"), set_of(&[]));
    assert_eq!(
        completions(&trie, ""),
        set_of(&["cat", "car", "care", "dog", "cart", "ca"])
    );
}

#[test]
fn order_of_insertion_does_not_matter() {
    let one = trie_of(&["cat", "car", "care", "dog"]);
    let other = trie_of(&["dog", "care", "car", "cat", "car"]);
    for probe in ["", "c", "ca", "car", "care", "d", "do", "dog", "x", "cat"] {
        assert_eq!(one.check_word(probe), other.check_word(probe));
        assert_eq!(one.has_extension(probe), other.has_extension(probe));
        assert_eq!(completions(&one, probe), completions(&other, probe));
    }
}

#[test]
fn words_with_other_characters_are_kept_as_they_are() {
    let trie = trie_of(&["don't", "na\u{ef}ve", "\u{c9}t\u{e9}"]);
    assert!(trie.check_word("don't"));
    assert!(trie.check_word("DON'T"));
    assert!(trie.check_word("na\u{ef}ve"));
    assert!(trie.check_word("\u{c9}t\u{e9}"));
    assert!(!trie.check_word("\u{e9}t\u{e9}"));
    assert_eq!(
        completions(&trie, ""),
        set_of(&["don't", "na\u{ef}ve", "\u{c9}t\u{e9}"])
    );
}

#[test]
fn nodes_are_stepped_through_edge_by_edge() {
    let trie = trie_of(&["at", "ate"]);
    let root = trie.get_start_node();
    assert!(!root.is_end());
    assert!(root.get_child(&'b').is_none());
    let a = root.get_child(&'a').unwrap();
    assert!(!a.is_end());
    let t = a.get_child(&'t').unwrap();
    assert!(t.is_end());
    assert!(t.end);
    let e = t.get_child(&'e').unwrap();
    assert!(e.is_end());
    assert!(e.get_child(&'e').is_none());
    let fresh = DictTrieNode::new();
    assert!(!fresh.is_end());
    assert!(fresh.get_child(&'a').is_none());
}

#[test]
fn long_words_are_taken_in() {
    let long: String = (0..3000).map(|i| (b'a' + (i % 26) as u8) as char).collect();
    let mut trie = trie_of(&["abc"]);
    trie.insert_word(&long);
    assert!(trie.check_word(&long));
    assert!(trie.check_word(&long.to_uppercase()));
    assert!(trie.check_word("abc"));
    assert!(!trie.check_word(&long[..2999]));
    assert!(trie.has_extension(&long[..2999]));
    assert!(!trie.has_extension(&format!("{}a", long)));
    assert_eq!(completions(&trie, &long[..2990]), set_of(&[long.as_str()]));
}

#[test]
fn copy_of_a_trie_answers_alike() {
    let trie = trie_of(&["cat", "car", "care", "dog", "a"]);
    let copy = trie.clone();
    for probe in ["", "a", "c", "ca", "cat", "car", "care", "cares", "do", "dog", "x"] {
        assert_eq!(trie.check_word(probe), copy.check_word(probe));
        assert_eq!(trie.has_extension(probe), copy.has_extension(probe));
        assert_eq!(completions(&trie, probe), completions(&copy, probe));
    }
    let node = trie.get_start_node().clone();
    assert!(node.get_child(&'c').is_some());
    assert!(node.get_child(&'x').is_none());
    assert!(node.get_child(&'a').unwrap().is_end());
}
