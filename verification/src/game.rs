//! A timed game for one player, as a state and what it does about each event, and the
//! listing of the words of a board.
use crate::boggle_utils::boggle_board::{drawn_for, side_fits, BoggleBoard};
use crate::boggle_utils::boggle_char::is_ascii_letter;
use crate::paths::all_finds;
use crate::utils::dict_trie::{words_of, DictTrie};
use crate::utils::letter_case::{chars_of, to_upper_case, upper_seq};
use crate::utils::word_lists::{
    contains_word, is_ranked, score, sort_words, total_points, words_without,
};
use crate::BoggleSolver;
use vstd::prelude::*;

verus! {

/// What comes in while a game runs.
#[derive(Debug)]
pub enum GameEvent {
    /// A line of text: a word that the player typed, or the notice that the time is up.
    Message(String),
    /// Nothing more can come in.
    Disconnected,
}

/// What the game does about an event.
#[derive(Debug, PartialEq, Eq, Clone, Copy, Structural)]
pub enum GameAction {
    /// The time is up: the game ends.
    TimeUp,
    /// The word is on the board and was not found before: it now counts as found.
    Accepted,
    /// The word was found before.
    AlreadyFound,
    /// The word is not among those that can be found.
    NotValid,
    /// Nothing more can come in: the game ends.
    ReceiveFailed,
}

/// The text of the notice that the time is up.
pub open spec fn time_up_notice() -> Seq<char> {
    seq!['T', 'I', 'M', 'E', '_', 'U', 'P']
}

/// What the game does about the word `word`, given the words that can be found and those
/// that were found.
pub open spec fn word_action(
    possible: Seq<Seq<char>>,
    found: Seq<Seq<char>>,
    word: Seq<char>,
) -> GameAction {
    if !possible.contains(word) {
        GameAction::NotValid
    } else if found.contains(word) {
        GameAction::AlreadyFound
    } else {
        GameAction::Accepted
    }
}

/// What the game does about the event `event`.
pub open spec fn event_action(
    possible: Seq<Seq<char>>,
    found: Seq<Seq<char>>,
    event: GameEvent,
) -> GameAction {
    match event {
        GameEvent::Disconnected => GameAction::ReceiveFailed,
        GameEvent::Message(text) => if text@ == time_up_notice() {
            GameAction::TimeUp
        } else {
            word_action(possible, found, upper_seq(text@))
        },
    }
}

/// A game for one player: a solved board, the words that the player has found on it so
/// far, and the seconds that the game lasts.
pub struct BoggleGame {
    boggle: BoggleSolver,
    found_words: Vec<String>,
    game_time: i32,
}

impl BoggleGame {
    /// The solved board.
    pub closed spec fn solver(self) -> BoggleSolver {
        self.boggle
    }

    /// The words that the player has found, in capitals, in the order in which they came.
    pub closed spec fn found(self) -> Seq<Seq<char>> {
        words_of(self.found_words@)
    }

    /// The seconds that the game lasts.
    pub closed spec fn time(self) -> int {
        self.game_time as int
    }

    /// The board is solved, and each word that was found is on it and was found once.
    pub open spec fn wf(self) -> bool {
        &&& self.solver().wf()
        &&& self.found().no_duplicates()
        &&& forall|i: int|
            0 <= i < self.found().len() ==> self.solver().possible_words().contains(
                #[trigger] self.found()[i],
            )
    }

    /// A game of `game_time` seconds on a board of `board_size` rows and columns with tiles
    /// drawn at random.
    pub fn new(
        board_size: i32,
        game_time: i32,
        diagonals: bool,
        dictionary: DictTrie,
        multi_thread: bool,
    ) -> (r: Self)
        requires
            side_fits(board_size as int),
        ensures
            r.wf(),
            r.found() == Seq::<Seq<char>>::empty(),
            r.time() == game_time,
            r.solver().board().size() == board_size,
            board_size > 0 ==> drawn_for(r.solver().board().flat(), board_size as int),
            r.solver().words() == dictionary@,
            r.solver().diagonals() == diagonals,
    {
        let r = Self {
            boggle: BoggleSolver::new(board_size, diagonals, dictionary, multi_thread),
            found_words: Vec::new(),
            game_time,
        };
        r
    }

    /// A copy of the board.
    pub fn get_board(&self) -> (r: BoggleBoard)
        ensures
            r@ == self.solver().board()@,
            r.size() == self.solver().board().size(),
    {
        self.boggle.get_board()
    }

    /// The seconds that the game lasts.
    pub fn get_game_time(&self) -> (r: i32)
        ensures
            r == self.time(),
    {
        self.game_time
    }

    /// Takes in the word `word`, in either case: it counts as found if it can be found on
    /// the board and was not found before.
    pub fn process_word(&mut self, word: &str) -> (r: GameAction)
        requires
            old(self).wf(),
        ensures
            final(self).wf(),
            r == word_action(
                old(self).solver().possible_words(),
                old(self).found(),
                upper_seq(word@),
            ),
            final(self).solver() == old(self).solver(),
            final(self).time() == old(self).time(),
            final(self).found() == if r == GameAction::Accepted {
                old(self).found().push(upper_seq(word@))
            } else {
                old(self).found()
            },
    {
        let entry = to_upper_case(word);
        let possible = self.boggle.get_possible_words();
        if contains_word(&possible, &entry) {
            if contains_word(&self.found_words, &entry) {
                GameAction::AlreadyFound
            } else {
                let ghost before = self.found();
                self.found_words.push(entry);
                proof {
                    assert(self.found() =~= before.push(upper_seq(word@)));
                }
                GameAction::Accepted
            }
        } else {
            GameAction::NotValid
        }
    }

    /// Takes in what came in while the game runs, and says what is to be done about it.
    /// The notice that the time is up and the end of the input end the game; any other
    /// text is a word of the player.
    pub fn handle(&mut self, event: GameEvent) -> (r: GameAction)
        requires
            old(self).wf(),
        ensures
            final(self).wf(),
            r == event_action(old(self).solver().possible_words(), old(self).found(), event),
            final(self).solver() == old(self).solver(),
            final(self).time() == old(self).time(),
            final(self).found() == match event {
                GameEvent::Message(text) if r == GameAction::Accepted => old(self).found().push(
                    upper_seq(text@),
                ),
                _ => old(self).found(),
            },
    {
        match event {
            GameEvent::Disconnected => GameAction::ReceiveFailed,
            GameEvent::Message(text) => {
                let notice = chars_of(text.as_str());
                if is_time_up(&notice) {
                    GameAction::TimeUp
                } else {
                    self.process_word(text.as_str())
                }
            },
        }
    }

    /// The words that can be found on the board, in capitals, each once.
    pub fn possible_words(&self) -> (r: Vec<String>)
        requires
            self.wf(),
        ensures
            words_of(r@) == self.solver().possible_words(),
    {
        self.boggle.get_possible_words()
    }

    /// The words that the player has found, the longest first.
    pub fn found_words(&self) -> (r: Vec<String>)
        ensures
            words_of(r@).to_multiset() == self.found().to_multiset(),
            is_ranked(words_of(r@), false),
    {
        let r = sort_words(&self.found_words, false);
        proof {
            lemma_words_of_multiset(r@, self.found_words@);
        }
        r
    }

    /// The words on the board that the player has not found, the longest first.
    pub fn missed_words(&self) -> (r: Vec<String>)
        requires
            self.wf(),
        ensures
            words_of(r@).to_multiset() == self.solver().possible_words().filter(
                |w: Seq<char>| !self.found().contains(w),
            ).to_multiset(),
            is_ranked(words_of(r@), false),
    {
        let possible = self.boggle.get_possible_words();
        let missed = words_without(&possible, &self.found_words);
        let r = sort_words(&missed, false);
        proof {
            lemma_words_of_multiset(r@, missed@);
        }
        r
    }

    /// The points of the words that the player has found.
    pub fn found_score(&self) -> (r: usize)
        requires
            total_points(self.found()) <= usize::MAX,
        ensures
            r == total_points(self.found()),
    {
        score(&self.found_words)
    }
}

/// Whether the text is the notice that the time is up.
fn is_time_up(text: &Vec<char>) -> (r: bool)
    ensures
        r == (text@ == time_up_notice()),
{
    let r = text.len() == 7 && text[0] == 'T' && text[1] == 'I' && text[2] == 'M' && text[3] == 'E'
        && text[4] == '_' && text[5] == 'U' && text[6] == 'P';
    if r {
        assert(text@ =~= time_up_notice());
    }
    r
}

/// Two lists with the same strings, each as often, hold the same words, each as often.
pub proof fn lemma_words_of_multiset(a: Seq<String>, b: Seq<String>)
    requires
        a.to_multiset() == b.to_multiset(),
    ensures
        words_of(a).to_multiset() == words_of(b).to_multiset(),
    decreases a.len(),
{
    broadcast use vstd::seq_lib::group_to_multiset_ensures;

    a.to_multiset_ensures();
    b.to_multiset_ensures();
    if a.len() == 0 {
        assert(b.len() == 0);
    } else {
        let last = a.last();
        assert(b.to_multiset().count(last) > 0);
        let i = choose|i: int| 0 <= i < b.len() && b[i] == last;
        assert(a.drop_last().to_multiset() =~= a.to_multiset().remove(last)) by {
            assert(a.remove(a.len() - 1) =~= a.drop_last());
        }
        lemma_words_of_multiset(a.drop_last(), b.remove(i));
        assert(words_of(a) =~= words_of(a.drop_last()).push(last@));
        assert(words_of(b) =~= words_of(b.remove(i)).insert(i, last@));
        vstd::seq_lib::to_multiset_insert(words_of(b.remove(i)), i, last@);
    }
}

/// A solved board for a program that lists its words.
pub struct BoggleSolverInterface {
    pub boggle: BoggleSolver,
}

impl BoggleSolverInterface {
    /// The solver for the board that `board` spells, row after row, or, where `board` is
    /// empty, for a board with tiles drawn at random.
    pub fn new(
        board: String,
        board_size: i32,
        diagonals: bool,
        dictionary: DictTrie,
        multi_thread: bool,
    ) -> (r: Self)
        requires
            side_fits(board_size as int),
            board@.len() == 0 || board@.len() == board_size * board_size,
            forall|i: int| 0 <= i < board@.len() ==> is_ascii_letter(#[trigger] board@[i]),
        ensures
            r.boggle.wf(),
            r.boggle.board().size() == board_size,
            r.boggle.words() == dictionary@,
            r.boggle.diagonals() == diagonals,
            board@.len() > 0 ==> r.boggle.board().shows(board@),
            board@.len() == 0 && board_size > 0 ==> drawn_for(
                r.boggle.board().flat(),
                board_size as int,
            ),
    {
        let letters = chars_of(board.as_str());
        if letters.len() == 0 {
            Self { boggle: BoggleSolver::new(board_size, diagonals, dictionary, multi_thread) }
        } else {
            Self {
                boggle: BoggleSolver::from(
                    letters,
                    board_size,
                    diagonals,
                    dictionary,
                    multi_thread,
                ),
            }
        }
    }

    /// The words found on the board in the order in which they are put out: the longest
    /// first, and those of one length as in a word book.
    pub fn output_words(&self) -> (r: Vec<String>)
        requires
            self.boggle.wf(),
        ensures
            words_of(r@).to_multiset() == self.boggle.possible_words().to_multiset(),
            words_of(r@).to_set() == all_finds(
                self.boggle.board(),
                self.boggle.words(),
                self.boggle.diagonals(),
            ),
            is_ranked(words_of(r@), true),
    {
        let possible = self.boggle.get_possible_words();
        let r = sort_words(&possible, true);
        proof {
            lemma_words_of_multiset(r@, possible@);
            self.boggle.lemma_possible_words();
            let listed = words_of(r@);
            let kept = self.boggle.possible_words();
            listed.to_multiset_ensures();
            kept.to_multiset_ensures();
            assert forall|w: Seq<char>| listed.to_set().contains(w) <==> kept.to_set().contains(
                w,
            ) by {
                assert(listed.contains(w) <==> listed.to_multiset().count(w) > 0);
                assert(kept.contains(w) <==> kept.to_multiset().count(w) > 0);
            }
        }
        r
    }
}

} // verus!
