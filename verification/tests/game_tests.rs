use boggle::utils::dict_trie::DictTrie;
use boggle::utils::word_lists::{
    contains_word, copy_words, first_words, score, sort_words, without_repeats, word_points,
    words_without,
};
use boggle::{BoggleGame, BoggleSolver, BoggleSolverInterface, GameAction, GameEvent};
use std::collections::HashSet;

fn trie_of(words: &[&str]) -> DictTrie {
    let mut trie = DictTrie::new();
    for word in words {
        trie.insert_word(word);
    }
    trie
}

fn strings(words: &[&str]) -> Vec<String> {
    words.iter().map(|w| w.to_string()).collect()
}

fn set_of(words: &[String]) -> HashSet<String> {
    words.iter().cloned().collect()
}

const WORDS: [&str; 8] = ["cat", "car", "cart", "art", "rat", "tar", "at", "trace"];

#[test]
fn solver_keeps_each_word_of_the_board_once() {
    let solver = BoggleSolver::from("CART".chars().collect(), 2, true, trie_of(&WORDS), false);
    let words = solver.get_possible_words();
    assert_eq!(words.len(), 6);
    assert_eq!(
        set_of(&words),
        set_of(&strings(&["CAT", "CAR", "CART", "ART", "RAT", "TAR"]))
    );
    assert_eq!(solver.get_board().to_string(), "[C, A]\n[R, T]\n");
}

#[test]
fn solver_searches_the_board_again_after_a_reshuffle() {
    let mut solver = BoggleSolver::new(4, true, trie_of(&WORDS), true);
    assert_eq!(solver.get_board().get_size(), 4);
    let first = solver.get_possible_words();
    assert_eq!(set_of(&first).len(), first.len());
    solver.reshuffle();
    assert_eq!(solver.get_board().get_size(), 4);
    let second = solver.get_possible_words();
    assert_eq!(set_of(&second).len(), second.len());
    let again = BoggleSolver::from(
        solver
            .get_board()
            .get_chars()
            .iter()
            .flatten()
            .map(|tile| tile.to_char_vec()[0])
            .collect(),
        4,
        true,
        trie_of(&WORDS),
        false,
    );
    assert_eq!(set_of(&again.get_possible_words()), set_of(&second));
}

#[test]
fn interface_puts_long_words_first_and_equal_ones_by_letters() {
    let interface =
        BoggleSolverInterface::new(String::from("CART"), 2, true, trie_of(&WORDS), false);
    assert_eq!(
        interface.output_words(),
        strings(&["CART", "ART", "CAR", "CAT", "RAT", "TAR"])
    );
    let drawn = BoggleSolverInterface::new(String::new(), 3, false, trie_of(&WORDS), false);
    assert_eq!(drawn.boggle.get_board().get_size(), 3);
}

#[test]
fn game_takes_each_word_of_the_board_once() {
    let mut game = BoggleGame::new(0, 90, false, trie_of(&WORDS), false);
    assert_eq!(game.get_game_time(), 90);
    assert!(game.possible_words().is_empty());
    assert_eq!(game.process_word("cat"), GameAction::NotValid);
    assert_eq!(
        game.handle(GameEvent::Message(String::from("CAT"))),
        GameAction::NotValid
    );
    assert_eq!(
        game.handle(GameEvent::Message(String::from("TIME_UP"))),
        GameAction::TimeUp
    );
    assert_eq!(game.handle(GameEvent::Disconnected), GameAction::ReceiveFailed);
    assert!(game.found_words().is_empty());
    assert!(game.missed_words().is_empty());
    assert_eq!(game.found_score(), 0);
    assert_eq!(game.get_board().get_size(), 0);
}

// Every string of three small letters: whatever is drawn, the board has words.
fn all_three_letter_words() -> DictTrie {
    let mut trie = DictTrie::new();
    for a in 'a'..='z' {
        for b in 'a'..='z' {
            for c in 'a'..='z' {
                trie.insert_word(&String::from_iter([a, b, c]));
            }
        }
    }
    trie
}

#[test]
fn game_on_a_drawn_board_counts_what_was_found() {
    let mut game = BoggleGame::new(5, 1, true, all_three_letter_words(), true);
    let possible = game.possible_words();
    assert!(possible.len() >= 2);
    assert!(possible.iter().all(|w| w.len() == 3));
    let mut expected_score = 0;
    for (i, word) in possible.iter().enumerate() {
        if i % 2 == 0 {
            assert_eq!(game.process_word(&word.to_lowercase()), GameAction::Accepted);
            assert_eq!(
                game.handle(GameEvent::Message(word.clone())),
                GameAction::AlreadyFound
            );
            expected_score += word.len() - 2;
        }
    }
    assert_eq!(game.process_word("zzzz"), GameAction::NotValid);
    assert_eq!(
        game.handle(GameEvent::Message(possible[1].clone())),
        GameAction::Accepted
    );
    expected_score += 1;
    let found = game.found_words();
    let missed = game.missed_words();
    assert_eq!(found.len(), (possible.len() + 1) / 2 + 1);
    assert_eq!(found.len() + missed.len(), possible.len());
    assert!(set_of(&found).is_disjoint(&set_of(&missed)));
    assert!(found.contains(&possible[0]) && found.contains(&possible[1]));
    assert_eq!(game.found_score(), expected_score);
}

#[test]
fn words_are_sorted_by_length_and_then_by_letters() {
    let words = strings(&["bee", "a", "tree", "ant", "zebra", "bat", "be", "apple"]);
    assert_eq!(
        sort_words(&words, true),
        strings(&["apple", "zebra", "tree", "ant", "bat", "bee", "be", "a"])
    );
    assert_eq!(
        sort_words(&words, false),
        strings(&["zebra", "apple", "tree", "bee", "ant", "bat", "be", "a"])
    );
    assert_eq!(sort_words(&strings(&[]), true), strings(&[]));
    assert_eq!(
        sort_words(&strings(&["ab", "aB", "Ab", "a", "abc", "ab"]), true),
        strings(&["abc", "Ab", "aB", "ab", "ab", "a"])
    );
}

#[test]
fn points_are_the_letters_after_the_second() {
    assert_eq!(word_points(&String::from("")), 0);
    assert_eq!(word_points(&String::from("at")), 0);
    assert_eq!(word_points(&String::from("cat")), 1);
    assert_eq!(word_points(&String::from("quartz")), 4);
    assert_eq!(score(&strings(&["cat", "cart", "quartz", "at"])), 7);
    assert_eq!(score(&strings(&[])), 0);
}

#[test]
fn word_lists_are_cut_and_cleared() {
    let words = strings(&["cat", "car", "cat", "art", "car", "cat"]);
    assert_eq!(without_repeats(&words), strings(&["cat", "car", "art"]));
    assert_eq!(copy_words(&words), words);
    assert!(contains_word(&words, &String::from("art")));
    assert!(!contains_word(&words, &String::from("ar")));
    assert_eq!(first_words(&words, 2), strings(&["cat", "car"]));
    assert_eq!(first_words(&words, 0), strings(&[]));
    assert_eq!(first_words(&words, 9), words);
    assert_eq!(
        words_without(&words, &strings(&["car", "dog"])),
        strings(&["cat", "cat", "art", "cat"])
    );
}
