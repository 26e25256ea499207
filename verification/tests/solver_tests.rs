use boggle::boggle_utils::boggle_board::BoggleBoard;
use boggle::{search_from_cell, solve};
use boggle::utils::dict_trie::DictTrie;
use std::collections::HashSet;

fn trie_of(words: &[&str]) -> DictTrie {
    let mut trie = DictTrie::new();
    for word in words {
        trie.insert_word(word);
    }
    trie
}

fn set_of(words: &[&str]) -> HashSet<String> {
    words.iter().map(|w| w.to_string()).collect()
}

fn solved(
    letters: &str,
    size: i32,
    words: &[&str],
    diagonals: bool,
    threads: bool,
) -> HashSet<String> {
    let board = BoggleBoard::from(letters.chars().collect(), size);
    let found = solve(&board, &trie_of(words), diagonals, threads);
    let set: HashSet<String> = found.iter().cloned().collect();
    assert_eq!(set.len(), found.len());
    set
}

// The rows are C A / R T: T is below A, and R is across the corner from A.
#[test]
fn orthogonal_steps_find_cat_only() {
    let found = solved("CART", 2, &["cat", "car", "care", "dog"], false, false);
    assert_eq!(found, set_of(&["CAT"]));
}

#[test]
fn diagonal_steps_find_cat_and_car() {
    let found = solved("CART", 2, &["cat", "car", "care", "dog"], true, false);
    assert_eq!(found, set_of(&["CAT", "CAR"]));
}

// The rows are C A / T R: here R is below A, and T is across the corner from A.
#[test]
fn rows_are_filled_one_after_the_other() {
    let words = ["cat", "car", "care", "dog"];
    assert_eq!(solved("CATR", 2, &words, false, false), set_of(&["CAR"]));
    assert_eq!(solved("CATR", 2, &words, true, false), set_of(&["CAT", "CAR"]));
}

// The rows are Qu I / X T: the walk goes from Qu to I beside it and on to T below.
#[test]
fn qu_tile_is_one_cell_with_two_letters() {
    let found = solved("QIXT", 2, &["QUIT"], false, false);
    assert!(found.contains("QUIT"));
    assert_eq!(found, set_of(&["QUIT"]));
    let three_cells = solved("QIXT", 2, &["qui", "quit", "qit", "uit"], false, false);
    assert_eq!(three_cells, set_of(&["QUI", "QUIT"]));
}

#[test]
fn threads_find_the_same_words() {
    let words = [
        "tea", "eat", "ate", "seat", "east", "tease", "set", "sat", "rat", "tar", "art", "star",
        "rats", "arts", "tars", "at", "as",
    ];
    for diagonals in [false, true] {
        let serial = solved("TEASRATSEASTTARS", 4, &words, diagonals, false);
        let parallel = solved("TEASRATSEASTTARS", 4, &words, diagonals, true);
        assert_eq!(serial, parallel);
        assert!(serial.contains("TEA"));
    }
}

#[test]
fn short_words_are_never_found() {
    let found = solved("ATSO", 2, &["at", "as", "so", "a", "sat", "oat"], true, false);
    assert!(found.iter().all(|w| w.chars().count() >= 3));
    assert_eq!(found, set_of(&["SAT", "OAT"]));
}

#[test]
fn search_from_a_cell_finds_each_walk() {
    let words = ["cat", "car", "cart", "art", "rat", "tar"];
    let board = BoggleBoard::from("CART".chars().collect(), 2);
    let trie = trie_of(&words);
    let mut from_c = search_from_cell(&board, &trie, true, (0, 0));
    from_c.sort();
    assert_eq!(from_c, vec!["CAR", "CART", "CAT"]);
    assert_eq!(search_from_cell(&board, &trie, true, (1, 0)), vec!["ART"]);
    assert_eq!(search_from_cell(&board, &trie, false, (0, 0)), vec!["CAT"]);
    assert!(search_from_cell(&board, &trie, true, (2, 0)).is_empty());
    assert!(search_from_cell(&board, &trie, true, (0, -1)).is_empty());

    // Two walks spell the word: over the O beside the T, and over the one below it.
    let twice = BoggleBoard::from("TOOT".chars().collect(), 2);
    let found = search_from_cell(&twice, &trie_of(&["too"]), true, (0, 0));
    assert_eq!(found, vec!["TOO", "TOO"]);
    assert_eq!(solve(&twice, &trie_of(&["too"]), true, false), vec!["TOO"]);
}

#[test]
fn board_without_cells_has_no_words() {
    let empty = BoggleBoard::from(vec![], 0);
    assert!(solve(&empty, &trie_of(&["cat"]), true, true).is_empty());
    assert!(solve(&empty, &trie_of(&["cat"]), false, false).is_empty());
    let board = BoggleBoard::from("CART".chars().collect(), 2);
    assert!(solve(&board, &DictTrie::new(), true, false).is_empty());
}

fn records(letters: &str, words: &[&str], cell: (i32, i32)) -> Vec<String> {
    let board = BoggleBoard::from(letters.chars().collect(), 2);
    let mut found = search_from_cell(&board, &trie_of(words), false, cell);
    found.sort();
    found
}

#[test]
fn each_walk_leaves_one_record() {
    assert_eq!(records("ABCD", &["abd", "acdb"], (0, 0)), vec!["ABD", "ACDB"]);
    assert_eq!(records("ABBA", &["aba"], (0, 0)), vec!["ABA", "ABA"]);
    assert_eq!(records("ABBA", &["aba"], (1, 1)), vec!["ABA", "ABA"]);
    assert!(records("ABBA", &["aba"], (1, 0)).is_empty());
}

#[test]
fn qu_tile_is_taken_whole_or_not_at_all() {
    assert_eq!(records("SQAT", &["sqi", "sat"], (0, 0)), vec!["SAT"]);
    assert_eq!(records("SQAT", &["squt", "sat"], (0, 0)), vec!["SAT", "SQUT"]);
    assert_eq!(records("QABB", &["qua"], (0, 0)), vec!["QUA"]);
    assert!(records("QABB", &["qa", "qab"], (0, 0)).is_empty());
}

#[test]
fn copies_of_a_solver_hold_the_same_words() {
    let words = ["cat", "car", "cart", "art", "rat", "tar"];
    let letters: Vec<char> = "CART".chars().collect();
    let solver = boggle::BoggleSolver::from(letters, 2, true, trie_of(&words), false);
    let copy = solver.clone();
    assert_eq!(copy.get_possible_words(), solver.get_possible_words());
    assert_eq!(copy.get_board().get_chars(), solver.get_board().get_chars());
}
