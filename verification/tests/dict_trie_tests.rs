use boggle::utils::dict_trie::DictTrie;
use std::collections::HashSet;

fn sample_trie() -> DictTrie {
    let test_words: Vec<String> = vec!["Test", "Testing", "Taught", "Dog", "Door", "Dot"]
        .iter()
        .map(|&s| String::from(s))
        .collect();
    let mut trie = DictTrie::new();
    for word in test_words {
        trie.insert_word(&word);
    }
    trie
}

#[test]
fn dict_trie_checking_words() {
    let trie = sample_trie();

    assert_eq!(trie.check_word(&String::from("Test")), true);
    assert_eq!(trie.check_word(&String::from("Testing")), true);
    assert_eq!(trie.check_word(&String::from("Dog")), true);
    assert_eq!(trie.check_word(&String::from("Do")), false);
    assert_eq!(trie.check_word(&String::from("Test")), true);
    assert_eq!(trie.check_word(&String::from("Dogs")), false);
    assert_eq!(trie.check_word(&String::from("")), false);
}

#[test]
fn dict_trie_test_extend_word() {
    let trie = sample_trie();

    let extensions: HashSet<String> = trie.extend_word(&String::from("Te")).into_iter().collect();
    let expected: HashSet<String> = vec![String::from("Test"), String::from("Testing")]
        .into_iter()
        .collect();

    assert_eq!(extensions, expected);

    let extensions: HashSet<String> = trie.extend_word(&String::from("Do")).into_iter().collect();
    let expected: HashSet<String> = vec![
        String::from("Dog"),
        String::from("Door"),
        String::from("Dot"),
    ]
    .into_iter()
    .collect();

    assert_eq!(extensions, expected);

    let extensions: HashSet<String> = trie.extend_word(&String::from("Ta")).into_iter().collect();
    let expected: HashSet<String> = vec![String::from("Taught")].into_iter().collect();

    assert_eq!(extensions, expected);
}

#[test]
#[allow(non_snake_case)]
fn DictTrie_checking_words() {
    let test_words: Vec<String> = vec!["Test", "Testing", "Taught", "Dog", "Door", "Dot"]
        .iter()
        .map(|&s| String::from(s))
        .collect();
    let mut trie = DictTrie::new();
    for word in test_words {
        trie.insert_word(&word);
    }

    assert_eq!(trie.check_word(&String::from("Test")), true);
    assert_eq!(trie.check_word(&String::from("Testing")), true);
    assert_eq!(trie.check_word(&String::from("Dog")), true);
    assert_eq!(trie.check_word(&String::from("Do")), false);
    assert_eq!(trie.check_word(&String::from("Test")), true);
    assert_eq!(trie.check_word(&String::from("Dogs")), false);
    assert_eq!(trie.check_word(&String::from("")), false);
}

#[test]
#[allow(non_snake_case)]
fn DictTrie_test_extend_word() {
    let test_words: Vec<String> = vec!["Test", "Testing", "Taught", "Dog", "Door", "Dot"]
        .iter()
        .map(|&s| String::from(s))
        .collect();
    let mut trie = DictTrie::new();
    for word in test_words {
        trie.insert_word(&word);
    }

    let extensions: HashSet<String> = trie.extend_word(&String::from("Te")).into_iter().collect();
    let expected: HashSet<String> = vec![String::from("Test"), String::from("Testing")]
        .into_iter()
        .collect();

    assert_eq!(extensions, expected);

    let extensions: HashSet<String> = trie.extend_word(&String::from("Do")).into_iter().collect();
    let expected: HashSet<String> = vec![
        String::from("Dog"),
        String::from("Door"),
        String::from("Dot"),
    ]
    .into_iter()
    .collect();

    assert_eq!(extensions, expected);

    let extensions: HashSet<String> = trie.extend_word(&String::from("Ta")).into_iter().collect();
    let expected: HashSet<String> = vec![String::from("Taught")].into_iter().collect();

    assert_eq!(extensions, expected);
}
