pub mod dict_trie;
pub mod letter_case;
pub mod seq_facts;
pub mod std_specs;
pub mod trie_manager;
pub mod word_lists;
