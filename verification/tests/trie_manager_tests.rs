use boggle::utils::dict_trie::DictTrie;
use boggle::utils::trie_manager::{
    alphabetic_words, create_and_serialize_trie, create_trie, deserialize_trie,
    load_words_from_json, serialize_trie, trie_from_cache, TrieError,
};
use std::collections::HashSet;

fn strings(words: &[&str]) -> Vec<String> {
    words.iter().map(|w| w.to_string()).collect()
}

fn all_words(trie: &DictTrie) -> HashSet<String> {
    trie.extend_word("").into_iter().collect()
}

#[test]
fn word_list_is_read_from_json() {
    assert_eq!(
        load_words_from_json("[\"cat\", \"Dog\", \"\"]").ok(),
        Some(strings(&["cat", "Dog", ""]))
    );
    assert_eq!(load_words_from_json("[]").ok(), Some(strings(&[])));
    assert_eq!(
        load_words_from_json("{\"cat\": 1}").err(),
        Some(TrieError::BadWordList)
    );
    assert_eq!(
        load_words_from_json("[\"cat\", 3]").err(),
        Some(TrieError::BadWordList)
    );
    assert_eq!(
        load_words_from_json("[\"cat\"").err(),
        Some(TrieError::BadWordList)
    );
}

#[test]
fn trie_is_built_from_a_word_list() {
    let trie = create_trie(&strings(&["Cat", "dog", "", "cat"]));
    assert_eq!(
        all_words(&trie),
        strings(&["cat", "dog"]).into_iter().collect()
    );
    assert!(all_words(&create_trie(&strings(&[]))).is_empty());
}

#[test]
fn trie_read_back_from_its_bytes_answers_alike() {
    let trie = create_trie(&strings(&["cat", "car", "care", "dog", "na\u{ef}ve"]));
    let bytes = serialize_trie(&trie).ok().unwrap();
    assert!(!bytes.is_empty());
    let back = deserialize_trie(&bytes).ok().unwrap();
    let probes = [
        "", "c", "ca", "cat", "car", "care", "cares", "d", "dog", "x", "na\u{ef}ve", "CAT",
    ];
    for probe in probes {
        assert_eq!(trie.check_word(probe), back.check_word(probe));
        assert_eq!(trie.has_extension(probe), back.has_extension(probe));
        let listed: HashSet<String> = trie.extend_word(probe).into_iter().collect();
        let listed_back: HashSet<String> = back.extend_word(probe).into_iter().collect();
        assert_eq!(listed, listed_back);
    }
    assert_eq!(all_words(&back).len(), 5);
    let empty = serialize_trie(&DictTrie::new()).ok().unwrap();
    assert!(all_words(&deserialize_trie(&empty).ok().unwrap()).is_empty());
}

#[test]
fn bytes_that_hold_no_words_give_no_trie() {
    assert_eq!(
        deserialize_trie(&[1, 2, 3]).err(),
        Some(TrieError::BadBytes)
    );
    assert_eq!(deserialize_trie(&[]).err(), Some(TrieError::BadBytes));
    assert!(trie_from_cache(None).is_none());
    assert!(trie_from_cache(Some(vec![9, 9, 9, 9, 9, 9, 9, 9, 9])).is_none());
    let bytes = serialize_trie(&create_trie(&strings(&["owl"]))).ok().unwrap();
    let cached = trie_from_cache(Some(bytes)).unwrap();
    assert!(cached.check_word("owl"));
}

#[test]
fn trie_and_its_bytes_come_from_a_json_list() {
    let (trie, bytes) = create_and_serialize_trie("[\"Owl\", \"emu\"]").ok().unwrap();
    assert!(trie.check_word("owl"));
    assert!(trie.check_word("emu"));
    let back = deserialize_trie(&bytes).ok().unwrap();
    assert_eq!(all_words(&back), all_words(&trie));
    assert_eq!(
        create_and_serialize_trie("owl").err(),
        Some(TrieError::BadWordList)
    );
}

#[test]
fn words_of_letters_only_are_kept_in_lower_case() {
    assert_eq!(
        alphabetic_words(&strings(&[
            "Cat", "don't", "DOG", "", "e-mail", "na\u{ef}ve", "x1", "emu"
        ])),
        strings(&["cat", "dog", "", "emu"])
    );
}
