//! Finds the words of a dictionary on a Boggle board.
//!
//! A word is found where a walk over the board spells it: the walk goes from cell to cell,
//! each time to a neighbour, and is on no cell twice. The dictionary is a prefix tree, so
//! that a walk is given up as soon as no word begins with its letters. The search runs from
//! each cell of the board, on one thread or on several, and [`solve`] gives each word once.
use crate::boggle_utils::boggle_board::{drawn_for, side_fits, BoggleBoard};
use crate::boggle_utils::boggle_char::{is_ascii_letter, BoggleChar};
use crate::paths::{
    all_finds, cell_number, cell_numbers, finds_past, first_walks, is_find_past, is_linked_at,
    is_path, is_step, is_step_number, lemma_begins_with_cell, lemma_cell_number,
    lemma_finds_have_three_letters, lemma_nothing_past_a_dead_end, lemma_nothing_past_a_repeat,
    lemma_path_fits, lemma_records_append, lemma_same_board_same_finds, lemma_spelled_push,
    lemma_walks_end, lemma_walks_give_finds, lemma_walks_skip, lemma_walks_start,
    lemma_walks_step, lists_finds, lists_walks, lists_walks_partly, records_walks, spelled,
    step_offsets, words_of_walks,
};
use crate::utils::dict_trie::{words_of, DictTrie, DictTrieNode};
use crate::utils::letter_case::to_upper_string;
use crate::utils::word_lists::{copy_words, without_repeats};
use rayon::iter::{IntoParallelIterator, ParallelIterator};
use std::collections::HashSet;
use vstd::prelude::*;
use vstd::std_specs::hash::*;

pub mod boggle_utils;
pub mod game;
pub mod paths;
pub mod utils;

pub use crate::game::{BoggleGame, BoggleSolverInterface, GameAction, GameEvent};

verus! {

broadcast use group_hash_axioms;

/// A board with a dictionary, and the words of the dictionary that can be found on it.
pub struct BoggleSolver {
    board: BoggleBoard,
    possible_words: Vec<String>,
    board_size: i32,
    diagonals: bool,
    dictionary: DictTrie,
    multi_thread: bool,
}

/// The steps that lead from a cell to its neighbours.
fn step_list(diagonals: bool) -> (r: Vec<(i32, i32)>)
    ensures
        r@ == step_offsets(diagonals),
{
    let r = if diagonals {
        vec![(1i32, 0i32), (0, 1), (-1, 0), (0, -1), (1, 1), (-1, 1), (1, -1), (-1, -1)]
    } else {
        vec![(1i32, 0i32), (0, 1), (-1, 0), (0, -1)]
    };
    r
}

impl BoggleSolver {
    /// The board that is searched.
    pub closed spec fn board(self) -> BoggleBoard {
        self.board
    }

    /// The words that the search looks for, in lower case.
    pub closed spec fn words(self) -> Set<Seq<char>> {
        self.dictionary@
    }

    /// Whether a step may lead across a corner.
    pub closed spec fn diagonals(self) -> bool {
        self.diagonals
    }

    /// The words that were found, as they are kept.
    pub closed spec fn possible_words(self) -> Seq<Seq<char>> {
        words_of(self.possible_words@)
    }

    /// The side kept beside the board is the side of the board.
    pub closed spec fn consistent(self) -> bool {
        self.board_size == self.board.size()
    }

    /// The words that are kept are the words that can be found on the board, each once.
    pub closed spec fn wf(self) -> bool {
        &&& self.consistent()
        &&& self.possible_words().no_duplicates()
        &&& self.possible_words().to_set() == all_finds(
            self.board,
            self.dictionary@,
            self.diagonals,
        )
    }

    /// What the validity of a solver says of the words that it keeps.
    pub proof fn lemma_possible_words(self)
        requires
            self.wf(),
        ensures
            self.possible_words().no_duplicates(),
            self.possible_words().to_set() == all_finds(
                self.board(),
                self.words(),
                self.diagonals(),
            ),
    {
    }

    /// A solver for a board of `board_size` rows and columns with tiles drawn at random.
    pub fn new(board_size: i32, diagonals: bool, dictionary: DictTrie, multi_thread: bool) -> (r:
        Self)
        requires
            side_fits(board_size as int),
        ensures
            r.wf(),
            r.board().size() == board_size,
            board_size > 0 ==> drawn_for(r.board().flat(), board_size as int),
            r.words() == dictionary@,
            r.diagonals() == diagonals,
    {
        let mut solver = Self {
            board: BoggleBoard::new(board_size),
            possible_words: Vec::new(),
            board_size,
            diagonals,
            dictionary,
            multi_thread,
        };
        solver.store_all_words();
        solver
    }

    /// A solver for the board of `board_size` rows and columns that shows the letters
    /// `board`, row after row.
    pub fn from(
        board: Vec<char>,
        board_size: i32,
        diagonals: bool,
        dictionary: DictTrie,
        multi_thread: bool,
    ) -> (r: Self)
        requires
            side_fits(board_size as int),
            board@.len() == board_size * board_size,
            forall|i: int| 0 <= i < board@.len() ==> is_ascii_letter(#[trigger] board@[i]),
        ensures
            r.wf(),
            r.board().size() == board_size,
            r.board().shows(board@),
            r.words() == dictionary@,
            r.diagonals() == diagonals,
    {
        let mut solver = Self {
            board: BoggleBoard::from(board, board_size),
            possible_words: Vec::new(),
            board_size,
            diagonals,
            dictionary,
            multi_thread,
        };
        solver.store_all_words();
        solver
    }

    /// A copy of the board.
    pub fn get_board(&self) -> (r: BoggleBoard)
        ensures
            r@ == self.board()@,
            r.size() == self.board().size(),
    {
        self.board.clone()
    }

    /// The words of the dictionary that can be found on the board, in capitals, each once.
    pub fn get_possible_words(&self) -> (r: Vec<String>)
        requires
            self.wf(),
        ensures
            words_of(r@) == self.possible_words(),
            words_of(r@).no_duplicates(),
            words_of(r@).to_set() == all_finds(self.board(), self.words(), self.diagonals()),
    {
        let r = copy_words(&self.possible_words);
        r
    }

    /// Searches the board and keeps each word that is found once.
    fn store_all_words(&mut self)
        requires
            old(self).consistent(),
        ensures
            final(self).wf(),
            final(self).board == old(self).board,
            final(self).dictionary == old(self).dictionary,
            final(self).diagonals == old(self).diagonals,
            final(self).board_size == old(self).board_size,
            final(self).multi_thread == old(self).multi_thread,
    {
        if self.possible_words.len() > 0 {
            self.possible_words = Vec::new();
        }
        let search = Search {
            board: &self.board,
            dictionary: &self.dictionary,
            diagonals: self.diagonals,
        };
        let all = search.find_all_words(self.multi_thread);
        self.possible_words = without_repeats(&all);
        proof {
            lemma_listing_is_the_set(
                all@,
                all_finds(self.board, self.dictionary@, self.diagonals),
            );
        }
    }

    /// Draws a new board of the same size and searches it.
    pub fn reshuffle(&mut self)
        requires
            old(self).wf(),
        ensures
            final(self).wf(),
            final(self).board().size() == old(self).board().size(),
            final(self).board().size() > 0 ==> drawn_for(
                final(self).board().flat(),
                final(self).board().size(),
            ),
            final(self).words() == old(self).words(),
            final(self).diagonals() == old(self).diagonals(),
    {
        proof {
            use_type_invariant(&self.board);
            self.board.lemma_shape();
        }
        self.board = BoggleBoard::new(self.board_size);
        self.store_all_words();
    }
}

impl Clone for BoggleSolver {
    /// A solver with a copy of the board, of the dictionary and of the words found.
    fn clone(&self) -> (r: Self)
        ensures
            r.board()@ == self.board()@,
            r.board().size() == self.board().size(),
            r.words() == self.words(),
            r.diagonals() == self.diagonals(),
            r.possible_words() == self.possible_words(),
            self.wf() ==> r.wf(),
    {
        let r = Self {
            board: self.board.clone(),
            possible_words: copy_words(&self.possible_words),
            board_size: self.board_size,
            diagonals: self.diagonals,
            dictionary: self.dictionary.clone(),
            multi_thread: self.multi_thread,
        };
        proof {
            lemma_same_board_same_finds(r.board, self.board, self.dictionary@, self.diagonals);
        }
        r
    }
}

/// What a search reads: the board, the dictionary, and whether a step may lead across a
/// corner.
struct Search<'a> {
    board: &'a BoggleBoard,
    dictionary: &'a DictTrie,
    diagonals: bool,
}

impl<'a> Search<'a> {
    /// The cell with which the search with the number `i` begins.
    spec fn start_cell(self, i: int) -> (i32, i32) {
        ((i % self.board.size()) as i32, (i / self.board.size()) as i32)
    }

    /// Whether `out` holds the records of the finds on walks that begin with the cell of the
    /// number `i`, one record for each walk.
    spec fn is_cell_result(self, i: int, out: Seq<String>) -> bool {
        exists|walks: Seq<Seq<(i32, i32)>>| #[trigger]
            records_walks(
                out,
                0,
                *self.board,
                self.dictionary@,
                self.diagonals,
                seq![self.start_cell(i)],
                walks,
            )
    }

    /// Walks of which `out` holds the records, where it is the result for the number `i`.
    spec fn cell_walks(self, i: int, out: Seq<String>) -> Seq<Seq<(i32, i32)>> {
        choose|walks: Seq<Seq<(i32, i32)>>| #[trigger]
            records_walks(
                out,
                0,
                *self.board,
                self.dictionary@,
                self.diagonals,
                seq![self.start_cell(i)],
                walks,
            )
    }

    /// The walks of the results for the numbers below `n`, one result after the other.
    spec fn walks_up_to(self, results: Seq<Vec<String>>, n: int) -> Seq<Seq<(i32, i32)>>
        decreases n,
    {
        if n <= 0 {
            Seq::<Seq<(i32, i32)>>::empty()
        } else {
            self.walks_up_to(results, n - 1) + self.cell_walks(n - 1, results[n - 1]@)
        }
    }

    /// The results for the numbers below `n`, put together, hold one record for each find
    /// on a walk that begins with one of these cells.
    proof fn lemma_walks_up_to(self, results: Seq<Vec<String>>, n: int)
        requires
            self.board.wf(),
            0 <= n <= results.len(),
            results.len() == self.board.side() * self.board.side(),
            forall|i: int|
                0 <= i < results.len() ==> self.is_cell_result(i, (#[trigger] results[i])@),
        ensures
            self.walks_up_to(results, n).no_duplicates(),
            forall|p: Seq<(i32, i32)>|
                #![trigger self.walks_up_to(results, n).contains(p)]
                self.walks_up_to(results, n).contains(p) <==> is_find_past(
                    *self.board,
                    self.dictionary@,
                    self.diagonals,
                    Seq::<(i32, i32)>::empty(),
                    p,
                ) && cell_number(p[0], self.board.size()) < n,
            words_of(joined(results, n)) == words_of_walks(
                *self.board,
                self.walks_up_to(results, n),
            ),
        decreases n,
    {
        let board = *self.board;
        let words = self.dictionary@;
        let size = board.size();
        let none = Seq::<(i32, i32)>::empty();
        let all = self.walks_up_to(results, n);
        board.lemma_shape();
        if n <= 0 {
            assert forall|p: Seq<(i32, i32)>|
                is_find_past(board, words, self.diagonals, none, p) implies cell_number(
                p[0],
                size,
            ) >= 0 by {
                assert(board.has_cell(p[0]));
                lemma_cell_number(p[0], p[0], size);
            }
            assert(words_of(joined(results, n)) =~= words_of_walks(board, all));
        } else {
            self.lemma_walks_up_to(results, n - 1);
            let walks = self.walks_up_to(results, n - 1);
            let cell = self.start_cell(n - 1);
            let more = self.cell_walks(n - 1, results[n - 1]@);
            assert(self.is_cell_result(n - 1, results[n - 1]@));
            assert(records_walks(
                results[n - 1]@,
                0,
                board,
                words,
                self.diagonals,
                seq![cell],
                more,
            ));
            let side = self.board.side() as int;
            assert(side > 0) by (nonlinear_arith)
                requires
                    0 <= n - 1 < side * side,
                    side >= 0,
            ;
            assert(size == side);
            assert(0 <= (n - 1) % size < size && 0 <= (n - 1) / size < size && (n - 1) == ((n - 1)
                / size) * size + (n - 1) % size) by (nonlinear_arith)
                requires
                    0 <= n - 1 < size * size,
                    size > 0,
            ;
            lemma_cell_number(cell, cell, size);
            assert(cell_number(cell, size) == n - 1);
            // a walk is found past the cell exactly if it is a find that begins with it
            assert forall|p: Seq<(i32, i32)>|
                is_find_past(board, words, self.diagonals, seq![cell], p) <==> is_find_past(
                    board,
                    words,
                    self.diagonals,
                    none,
                    p,
                ) && cell_number(p[0], size) == n - 1 by {
                lemma_begins_with_cell(cell, p);
                if is_path(board, self.diagonals, p) {
                    assert(board.has_cell(p[0]));
                    lemma_cell_number(p[0], cell, size);
                }
            }
            assert forall|i: int, j: int|
                0 <= i < all.len() && 0 <= j < all.len() && i != j implies all[i] != all[j] by {
                if i < walks.len() && j >= walks.len() {
                    assert(walks.contains(all[i]));
                    assert(more.contains(all[j]));
                } else if j < walks.len() && i >= walks.len() {
                    assert(walks.contains(all[j]));
                    assert(more.contains(all[i]));
                } else if i >= walks.len() {
                    assert(all[i] == more[i - walks.len()] && all[j] == more[j - walks.len()]);
                }
            }
            assert forall|p: Seq<(i32, i32)>|
                #![trigger all.contains(p)]
                all.contains(p) <==> is_find_past(board, words, self.diagonals, none, p)
                    && cell_number(p[0], size) < n by {
                if all.contains(p) {
                    let i = choose|i: int| 0 <= i < all.len() && all[i] == p;
                    if i < walks.len() {
                        assert(walks.contains(p));
                    } else {
                        assert(more[i - walks.len()] == p);
                        assert(more.contains(p));
                    }
                }
                if is_find_past(board, words, self.diagonals, none, p) && cell_number(p[0], size)
                    < n {
                    if cell_number(p[0], size) < n - 1 {
                        assert(walks.contains(p));
                        let i = choose|i: int| 0 <= i < walks.len() && walks[i] == p;
                        assert(all[i] == p);
                    } else {
                        assert(more.contains(p));
                        let j = choose|j: int| 0 <= j < more.len() && more[j] == p;
                        assert(all[walks.len() + j] == p);
                    }
                }
            }
            let before = joined(results, n - 1);
            let after = joined(results, n);
            assert(before.skip(0) =~= before);
            assert(after.skip(before.len() as int) =~= results[n - 1]@);
            assert(results[n - 1]@.skip(0) =~= results[n - 1]@);
            assert(before =~= after.subrange(0, before.len() as int));
            lemma_records_append(before, after, 0, board, walks, more);
            assert(after.skip(0) =~= after);
        }
    }

    /// Steps on the cell `loc`, past the cells of `stem`, and appends to `found` a record for
    /// every walk that goes on from there and spells a word: one record for each walk, also
    /// where two walks spell the same word. `seen` holds the numbers of the cells of
    /// `stem`, `cur_word` their letters and `prev_node` is the node of the dictionary that
    /// these letters lead to; all three are as before when the search comes back.
    fn step_and_search(
        &self,
        loc: (i32, i32),
        seen: &mut HashSet<i32>,
        found: &mut Vec<String>,
        cur_word: &mut Vec<char>,
        prev_node: &DictTrieNode,
        Ghost(stem): Ghost<Seq<(i32, i32)>>,
    )
        requires
            self.board.has_cell(loc),
            stem.len() > 0 ==> is_path(*self.board, self.diagonals, stem) && is_step(
                stem.last(),
                loc,
                self.diagonals,
            ),
            old(seen)@ == cell_numbers(stem, self.board.size()),
            old(cur_word)@ == spelled(*self.board, stem),
            self.dictionary.root_node().descend(old(cur_word)@) == Some(*prev_node),
        ensures
            final(seen)@ == old(seen)@,
            final(cur_word)@ == old(cur_word)@,
            old(found)@.is_prefix_of(final(found)@),
            lists_finds(
                final(found)@,
                old(found)@.len() as int,
                finds_past(*self.board, self.dictionary@, self.diagonals, stem.push(loc)),
            ),
            exists|walks: Seq<Seq<(i32, i32)>>| #[trigger]
                records_walks(
                    final(found)@,
                    old(found)@.len() as int,
                    *self.board,
                    self.dictionary@,
                    self.diagonals,
                    stem.push(loc),
                    walks,
                ),
        decreases self.board.size() * self.board.size() - stem.len(),
    {
        let ghost size = self.board.size();
        let ghost longer = stem.push(loc);
        let ghost words = self.dictionary@;
        let ghost root = self.dictionary.root_node();
        let ghost found0 = found@;
        let ghost word0 = cur_word@;
        proof {
            use_type_invariant(self.board);
            self.board.lemma_shape();
            lemma_cell_number(loc, loc, size);
            lemma_spelled_push(*self.board, stem, loc);
            self.board.tile(loc).lemma_letters_shape();
        }
        let side: i32 = self.board.get_size();
        let cell: i32 = loc.1 * side + loc.0;
        if seen.contains(&cell) {
            proof {
                let i = choose|i: int|
                    0 <= i < stem.len() && cell == cell_number(#[trigger] stem[i], size);
                lemma_cell_number(stem[i], loc, size);
                lemma_nothing_past_a_repeat(*self.board, words, self.diagonals, stem, loc);
                self.lemma_nothing_recorded(found@, longer);
            }
            return ;
        }
        let mut cur_node: &DictTrieNode = prev_node;
        let current_letter: BoggleChar = self.board.access((loc.1 as usize, loc.0 as usize));
        match current_letter {
            BoggleChar::Qu => {
                proof {
                    root.lemma_descend_push(word0, 'q');
                    root.lemma_descend_push(word0.push('q'), 'u');
                    assert(word0.push('q').push('u') =~= word0 + seq!['q', 'u']);
                }
                match cur_node.get_child(&'q') {
                    Some(node) => {
                        cur_node = node;
                    },
                    None => {
                        proof {
                            root.lemma_no_word_past_missing_node(spelled(*self.board, longer));
                            lemma_nothing_past_a_dead_end(
                                *self.board,
                                words,
                                self.diagonals,
                                longer,
                            );
                            self.lemma_nothing_recorded(found@, longer);
                        }
                        return ;
                    },
                }
                cur_word.push('q');
                match cur_node.get_child(&'u') {
                    Some(node) => {
                        cur_node = node;
                    },
                    None => {
                        cur_word.pop();
                        proof {
                            root.lemma_no_word_past_missing_node(spelled(*self.board, longer));
                            lemma_nothing_past_a_dead_end(
                                *self.board,
                                words,
                                self.diagonals,
                                longer,
                            );
                            self.lemma_nothing_recorded(found@, longer);
                        }
                        return ;
                    },
                }
                cur_word.push('u');
            },
            _ => {
                let letters = current_letter.to_char_vec();
                let letter: char = letters[0];
                proof {
                    root.lemma_descend_push(word0, letter);
                    assert(word0.push(letter) =~= word0 + seq![letter]);
                }
                match cur_node.get_child(&letter) {
                    Some(node) => {
                        cur_node = node;
                    },
                    None => {
                        proof {
                            root.lemma_no_word_past_missing_node(spelled(*self.board, longer));
                            lemma_nothing_past_a_dead_end(
                                *self.board,
                                words,
                                self.diagonals,
                                longer,
                            );
                            self.lemma_nothing_recorded(found@, longer);
                        }
                        return ;
                    },
                }
                cur_word.push(letter);
            },
        }
        let ghost word1 = cur_word@;

        seen.insert(cell);
        let ghost seen1 = seen@;
        proof {
            assert(seen1 =~= cell_numbers(longer, size)) by {
                assert forall|n: i32| cell_numbers(longer, size).contains(n) implies seen1.contains(
                    n,
                ) by {
                    let i = choose|i: int|
                        0 <= i < longer.len() && n == cell_number(#[trigger] longer[i], size);
                    if i < stem.len() {
                        assert(longer[i] == stem[i]);
                    }
                }
                assert forall|n: i32| seen1.contains(n) implies cell_numbers(longer, size).contains(
                    n,
                ) by {
                    if n == cell {
                        assert(longer[stem.len() as int] == loc);
                    } else {
                        let i = choose|i: int|
                            0 <= i < stem.len() && n == cell_number(#[trigger] stem[i], size);
                        assert(longer[i] == stem[i]);
                    }
                }
            }
            assert(is_path(*self.board, self.diagonals, longer)) by {
                assert forall|i: int| 0 <= i < stem.len() implies stem[i] != loc by {
                    lemma_cell_number(stem[i], loc, size);
                }
                assert forall|i: int| 0 < i < longer.len() implies #[trigger] is_linked_at(
                    longer,
                    self.diagonals,
                    i,
                ) by {
                    if i < stem.len() {
                        assert(is_linked_at(stem, self.diagonals, i));
                    }
                }
            }
            lemma_path_fits(*self.board, self.diagonals, longer);
        }

        if cur_word.len() > 2 && cur_node.is_end() {
            found.push(to_upper_string(cur_word));
        }
        let ghost mut walks = first_walks(*self.board, words, longer);
        proof {
            lemma_walks_start(*self.board, words, self.diagonals, longer);
            assert(words_of(found@.skip(found0.len() as int)) =~= words_of_walks(
                *self.board,
                walks,
            ));
        }

        let steps = step_list(self.diagonals);
        let mut k: usize = 0;
        while k < steps.len()
            invariant
                size == self.board.size(),
                side == size,
                side_fits(size),
                words == self.dictionary@,
                root == self.dictionary.root_node(),
                longer == stem.push(loc),
                self.board.has_cell(loc),
                is_path(*self.board, self.diagonals, longer),
                longer.len() <= size * size,
                steps@ == step_offsets(self.diagonals),
                0 <= k <= steps@.len(),
                seen@ == seen1,
                seen1 == cell_numbers(longer, size),
                cur_word@ == word1,
                word1 == spelled(*self.board, longer),
                root.descend(word1) == Some(*cur_node),
                found0.is_prefix_of(found@),
                lists_walks_partly(walks, *self.board, words, self.diagonals, longer, k as int),
                words_of(found@.skip(found0.len() as int)) == words_of_walks(*self.board, walks),
            decreases steps@.len() - k,
        {
            let step = steps[k];
            let new_pos: (i32, i32) = (loc.0 + step.0, loc.1 + step.1);
            let ghost before = found@;
            if self.board.in_bounds(&new_pos) {
                proof {
                    assert(is_step_number(longer.last(), new_pos, self.diagonals, k as int));
                }
                self.step_and_search(new_pos, seen, found, cur_word, cur_node, Ghost(longer));
                proof {
                    let more = choose|more: Seq<Seq<(i32, i32)>>| #[trigger]
                        records_walks(
                            found@,
                            before.len() as int,
                            *self.board,
                            words,
                            self.diagonals,
                            longer.push(new_pos),
                            more,
                        );
                    lemma_walks_step(
                        walks,
                        more,
                        *self.board,
                        words,
                        self.diagonals,
                        longer,
                        k as int,
                        new_pos,
                    );
                    assert(found0.is_prefix_of(found@)) by {
                        assert(found0 =~= before.subrange(0, found0.len() as int));
                        assert(before =~= found@.subrange(0, before.len() as int));
                        assert(found0 =~= found@.subrange(0, found0.len() as int));
                    }
                    lemma_records_append(
                        before,
                        found@,
                        found0.len() as int,
                        *self.board,
                        walks,
                        more,
                    );
                    walks = walks + more;
                }
            } else {
                proof {
                    lemma_walks_skip(
                        walks,
                        *self.board,
                        words,
                        self.diagonals,
                        longer,
                        k as int,
                    );
                }
            }
            k = k + 1;
        }
        proof {
            lemma_walks_end(walks, *self.board, words, self.diagonals, longer);
            assert(records_walks(
                found@,
                found0.len() as int,
                *self.board,
                words,
                self.diagonals,
                longer,
                walks,
            ));
            lemma_walks_give_finds(
                found@,
                found0.len() as int,
                *self.board,
                words,
                self.diagonals,
                longer,
                walks,
            );
        }

        seen.remove(&cell);

        match current_letter {
            BoggleChar::Qu => {
                cur_word.pop();
                cur_word.pop();
            },
            _ => {
                cur_word.pop();
            },
        }
    }

    /// Where no walk past `stem` is a find, a list to which nothing was appended holds the
    /// records of these finds.
    proof fn lemma_nothing_recorded(self, found: Seq<String>, stem: Seq<(i32, i32)>)
        requires
            lists_walks(
                Seq::<Seq<(i32, i32)>>::empty(),
                *self.board,
                self.dictionary@,
                self.diagonals,
                stem,
            ),
        ensures
            records_walks(
                found,
                found.len() as int,
                *self.board,
                self.dictionary@,
                self.diagonals,
                stem,
                Seq::<Seq<(i32, i32)>>::empty(),
            ),
            lists_finds(
                found,
                found.len() as int,
                finds_past(*self.board, self.dictionary@, self.diagonals, stem),
            ),
    {
        let none = Seq::<Seq<(i32, i32)>>::empty();
        assert(words_of(found.skip(found.len() as int)) =~= words_of_walks(*self.board, none));
        lemma_walks_give_finds(
            found,
            found.len() as int,
            *self.board,
            self.dictionary@,
            self.diagonals,
            stem,
            none,
        );
    }

    /// A record for every find on a walk that begins with the cell of the number `i`,
    /// counted row after row: one record for each walk.
    fn search_from(&self, i: i32) -> (result: Vec<String>)
        requires
            0 <= i < self.board.side() * self.board.side(),
        ensures
            self.is_cell_result(i as int, result@),
    {
        let side: i32 = self.board.get_size();
        proof {
            assert(0 <= i / side < side && 0 <= i % side < side) by (nonlinear_arith)
                requires
                    0 <= i < side * side,
                    side > 0,
            ;
        }
        let y = i / side;
        let x = i % side;
        let mut result: Vec<String> = Vec::new();
        let mut seen: HashSet<i32> = HashSet::new();
        let mut cur_word: Vec<char> = Vec::new();
        let ghost stem = Seq::<(i32, i32)>::empty();
        proof {
            assert(seen@ =~= cell_numbers(stem, self.board.size()));
        }
        self.step_and_search(
            (x, y),
            &mut seen,
            &mut result,
            &mut cur_word,
            self.dictionary.get_start_node(),
            Ghost(stem),
        );
        proof {
            assert(stem.push((x, y)) =~= seq![self.start_cell(i as int)]);
        }
        result
    }

    /// `into_par_iter`, `map` and `collect` of the rayon crate, over the numbers below
    /// `cells`: the search of each cell is run, on whatever thread, and the results come
    /// back as a vector that has the result for the number `i` at position `i`. Each
    /// result is what `search_from` returned for that number.
    #[verifier::external_body]
    fn search_cells_in_parallel(&self, cells: i32) -> (results: Vec<Vec<String>>)
        requires
            cells == self.board.side() * self.board.side(),
        ensures
            results@.len() == cells,
            forall|i: int| 0 <= i < cells ==> self.is_cell_result(i, (#[trigger] results@[i])@),
    {
        (0..cells).into_par_iter().map(|i| self.search_from(i)).collect()
    }

    /// The search of each cell, one after the other.
    fn search_cells_in_turn(&self, cells: i32) -> (results: Vec<Vec<String>>)
        requires
            cells == self.board.side() * self.board.side(),
        ensures
            results@.len() == cells,
            forall|i: int| 0 <= i < cells ==> self.is_cell_result(i, (#[trigger] results@[i])@),
    {
        let mut results: Vec<Vec<String>> = Vec::new();
        for i in 0..cells
            invariant
                cells == self.board.side() * self.board.side(),
                results@.len() == i,
                forall|k: int| 0 <= k < i ==> self.is_cell_result(k, (#[trigger] results@[k])@),
        {
            results.push(self.search_from(i));
        }
        results
    }

    /// A record for every find on the board, one for each walk that spells a word: the
    /// search is run from each cell, on several threads or on one, and what each finds is put
    /// together, cell after cell.
    fn find_all_words(&self, multi_thread: bool) -> (all: Vec<String>)
        ensures
            lists_finds(all@, 0, all_finds(*self.board, self.dictionary@, self.diagonals)),
            exists|walks: Seq<Seq<(i32, i32)>>| #[trigger]
                records_walks(
                    all@,
                    0,
                    *self.board,
                    self.dictionary@,
                    self.diagonals,
                    Seq::<(i32, i32)>::empty(),
                    walks,
                ),
    {
        proof {
            use_type_invariant(self.board);
            self.board.lemma_shape();
        }
        let side: i32 = self.board.get_size();
        let cells = if side > 0 {
            side * side
        } else {
            0
        };
        assert(cells == self.board.side() * self.board.side()) by (nonlinear_arith)
            requires
                side == self.board.size(),
                self.board.side() == if self.board.size() > 0 {
                    self.board.size()
                } else {
                    0
                },
                cells == if side > 0 {
                    side * side
                } else {
                    0
                },
        ;
        let results: Vec<Vec<String>> = if multi_thread {
            self.search_cells_in_parallel(cells)
        } else {
            self.search_cells_in_turn(cells)
        };
        let all = flatten(&results);
        proof {
            let board = *self.board;
            let words = self.dictionary@;
            let none = Seq::<(i32, i32)>::empty();
            let whole = results@.len() as int;
            self.lemma_walks_up_to(results@, whole);
            let walks = self.walks_up_to(results@, whole);
            assert forall|p: Seq<(i32, i32)>|
                #![trigger walks.contains(p)]
                #![trigger is_find_past(board, words, self.diagonals, none, p)]
                walks.contains(p) <==> is_find_past(board, words, self.diagonals, none, p) by {
                if is_find_past(board, words, self.diagonals, none, p) {
                    assert(board.has_cell(p[0]));
                    lemma_cell_number(p[0], p[0], board.size());
                    assert(board.size() * board.size() == whole) by (nonlinear_arith)
                        requires
                            board.size() > 0,
                            whole == board.side() * board.side(),
                            board.side() == board.size(),
                    ;
                }
            }
            assert(all@.skip(0) =~= all@);
            assert(records_walks(all@, 0, board, words, self.diagonals, none, walks));
            lemma_walks_give_finds(all@, 0, board, words, self.diagonals, none, walks);
        }
        all
    }
}

/// The strings of the first `n` vectors of `lists`, one vector after the other.
pub open spec fn joined(lists: Seq<Vec<String>>, n: int) -> Seq<String>
    decreases n,
{
    if n <= 0 {
        Seq::<String>::empty()
    } else {
        joined(lists, n - 1) + lists[n - 1]@
    }
}

/// The strings of all the vectors, one vector after the other.
fn flatten(lists: &Vec<Vec<String>>) -> (all: Vec<String>)
    ensures
        all@ == joined(lists@, lists@.len() as int),
{
    let mut all: Vec<String> = Vec::new();
    for i in 0..lists.len()
        invariant
            all@ == joined(lists@, i as int),
    {
        let list = &lists[i];
        let ghost before = all@;
        for m in 0..list.len()
            invariant
                i < lists@.len(),
                *list == lists@[i as int],
                all@ == before + list@.take(m as int),
        {
            all.push(list[m].clone());
        }
    }
    all
}

/// The words of the dictionary `trie` with three letters or more that can be spelled by a
/// walk over `board`, in capitals, each once and in no particular order. A walk goes from
/// cell to cell by one step, along a row or a column or, with `diagonals`, across a corner,
/// and is on no cell twice. With `multi_thread` the walks from each cell are searched on
/// threads of their own; the words found are the same.
pub fn solve(board: &BoggleBoard, trie: &DictTrie, diagonals: bool, multi_thread: bool) -> (r: Vec<
    String,
>)
    ensures
        words_of(r@).no_duplicates(),
        words_of(r@).to_set() == all_finds(*board, trie@, diagonals),
        forall|j: int| 0 <= j < r@.len() ==> (#[trigger] r@[j])@.len() >= 3,
{
    let search = Search { board, dictionary: trie, diagonals };
    let all = search.find_all_words(multi_thread);
    let r = without_repeats(&all);
    proof {
        lemma_listing_is_the_set(all@, all_finds(*board, trie@, diagonals));
        assert forall|j: int| 0 <= j < r@.len() implies (#[trigger] r@[j])@.len() >= 3 by {
            assert(words_of(r@)[j] == r@[j]@);
            lemma_finds_have_three_letters(*board, trie@, diagonals, r@[j]@);
        }
    }
    r
}

/// The words found on the walks that begin with the cell `cell`, a column and a row: each
/// word of the dictionary `trie` with three letters or more that such a walk spells, in
/// capitals, once for each walk that spells it.
pub fn search_from_cell(
    board: &BoggleBoard,
    trie: &DictTrie,
    diagonals: bool,
    cell: (i32, i32),
) -> (r: Vec<String>)
    ensures
        lists_finds(r@, 0, finds_past(*board, trie@, diagonals, seq![cell])),
        exists|walks: Seq<Seq<(i32, i32)>>| #[trigger]
            records_walks(r@, 0, *board, trie@, diagonals, seq![cell], walks),
{
    let search = Search { board, dictionary: trie, diagonals };
    if !board.in_bounds(&cell) {
        let r: Vec<String> = Vec::new();
        proof {
            assert forall|path: Seq<(i32, i32)>| !is_find_past(
                *board,
                trie@,
                diagonals,
                seq![cell],
                path,
            ) by {
                if seq![cell].is_prefix_of(path) {
                    assert(path[0] == seq![cell][0]);
                }
            }
            assert(lists_walks(
                Seq::<Seq<(i32, i32)>>::empty(),
                *board,
                trie@,
                diagonals,
                seq![cell],
            ));
            search.lemma_nothing_recorded(r@, seq![cell]);
        }
        return r;
    }
    let side: i32 = board.get_size();
    proof {
        lemma_cell_number(cell, cell, side as int);
    }
    let r = search.search_from(cell.1 * side + cell.0);
    proof {
        let i = cell.1 * side + cell.0;
        assert(search.start_cell(i) == cell);
        let walks = search.cell_walks(i, r@);
        assert(records_walks(r@, 0, *board, trie@, diagonals, seq![cell], walks));
        lemma_walks_give_finds(r@, 0, *board, trie@, diagonals, seq![cell], walks);
    }
    r
}

/// A list that holds the strings of a set and no others has the set as the set of its words.
proof fn lemma_listing_is_the_set(all: Seq<String>, goal: Set<Seq<char>>)
    requires
        lists_finds(all, 0, goal),
    ensures
        words_of(all).to_set() == goal,
{
    assert forall|s: Seq<char>| goal.contains(s) implies words_of(all).to_set().contains(s) by {
        let j = choose|j: int| 0 <= j < all.len() && all[j]@ == s;
        assert(words_of(all)[j] == s);
    }
    assert forall|s: Seq<char>| words_of(all).to_set().contains(s) implies goal.contains(s) by {
        let j = choose|j: int| 0 <= j < words_of(all).len() && words_of(all)[j] == s;
        assert(all[j]@ == s);
    }
}

/// Whether the search ran on one thread or on several, the words found are the same.
pub proof fn lemma_threads_do_not_matter(
    serial: Seq<String>,
    parallel: Seq<String>,
    board: BoggleBoard,
    words: Set<Seq<char>>,
    diagonals: bool,
)
    requires
        words_of(serial).to_set() == all_finds(board, words, diagonals),
        words_of(parallel).to_set() == all_finds(board, words, diagonals),
    ensures
        words_of(serial).to_set() == words_of(parallel).to_set(),
{
}

} // verus!
