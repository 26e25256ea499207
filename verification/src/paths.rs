//! Walks over a board, the words that they spell, and what a search past a given
//! beginning of a walk has to find.
use crate::boggle_utils::boggle_board::BoggleBoard;
use crate::utils::dict_trie::words_of;
use crate::utils::letter_case::upper_seq;
use vstd::prelude::*;
use vstd::set_lib::{lemma_int_range, lemma_len_subset, set_int_range};

verus! {

/// The steps that lead from a cell to its neighbours, each as a change of column and of
/// row: the four along a row or a column, and with `diagonals` the four across a corner.
pub open spec fn step_offsets(diagonals: bool) -> Seq<(i32, i32)> {
    if diagonals {
        seq![
            (1i32, 0i32),
            (0i32, 1i32),
            (-1i32, 0i32),
            (0i32, -1i32),
            (1i32, 1i32),
            (-1i32, 1i32),
            (1i32, -1i32),
            (-1i32, -1i32),
        ]
    } else {
        seq![(1i32, 0i32), (0i32, 1i32), (-1i32, 0i32), (0i32, -1i32)]
    }
}

/// Whether the step with the number `k` leads from the cell `from` to the cell `to`.
pub open spec fn is_step_number(from: (i32, i32), to: (i32, i32), diagonals: bool, k: int) -> bool {
    &&& 0 <= k < step_offsets(diagonals).len()
    &&& to.0 == from.0 + step_offsets(diagonals)[k].0
    &&& to.1 == from.1 + step_offsets(diagonals)[k].1
}

/// Whether one step leads from the cell `from` to the cell `to`.
pub open spec fn is_step(from: (i32, i32), to: (i32, i32), diagonals: bool) -> bool {
    exists|k: int| #[trigger] is_step_number(from, to, diagonals, k)
}

/// Whether the cell of `path` at position `i` is one step from the one before it.
pub open spec fn is_linked_at(path: Seq<(i32, i32)>, diagonals: bool, i: int) -> bool {
    is_step(path[i - 1], path[i], diagonals)
}

/// Whether `path` is a walk over the board: it has a cell, every cell is on the board, none
/// comes twice, and each is one step from the one before it.
pub open spec fn is_path(board: BoggleBoard, diagonals: bool, path: Seq<(i32, i32)>) -> bool {
    &&& path.len() > 0
    &&& forall|i: int| 0 <= i < path.len() ==> board.has_cell(#[trigger] path[i])
    &&& path.no_duplicates()
    &&& forall|i: int| 0 < i < path.len() ==> #[trigger] is_linked_at(path, diagonals, i)
}

/// The letters of the tiles along `path`, one tile after the other.
pub open spec fn spelled(board: BoggleBoard, path: Seq<(i32, i32)>) -> Seq<char>
    decreases path.len(),
{
    if path.len() == 0 {
        Seq::<char>::empty()
    } else {
        spelled(board, path.drop_last()) + board.tile(path.last()).letters()
    }
}

/// Whether `path` is a walk that begins with the cells of `stem` and spells a word of
/// `words` with three letters or more.
pub open spec fn is_find_past(
    board: BoggleBoard,
    words: Set<Seq<char>>,
    diagonals: bool,
    stem: Seq<(i32, i32)>,
    path: Seq<(i32, i32)>,
) -> bool {
    &&& stem.is_prefix_of(path)
    &&& is_path(board, diagonals, path)
    &&& spelled(board, path).len() >= 3
    &&& words.contains(spelled(board, path))
}

/// The words, in capitals, that the walks spell which begin with the cells of `stem`.
pub open spec fn finds_past(
    board: BoggleBoard,
    words: Set<Seq<char>>,
    diagonals: bool,
    stem: Seq<(i32, i32)>,
) -> Set<Seq<char>> {
    Set::new(
        |s: Seq<char>|
            exists|path: Seq<(i32, i32)>|
                #[trigger] is_find_past(board, words, diagonals, stem, path) && s == upper_seq(
                    spelled(board, path),
                ),
    )
}

/// The words of `words` with three letters or more that some walk over the board spells,
/// in capitals.
pub open spec fn all_finds(board: BoggleBoard, words: Set<Seq<char>>, diagonals: bool) -> Set<
    Seq<char>,
> {
    finds_past(board, words, diagonals, Seq::<(i32, i32)>::empty())
}

/// Whether the strings of `out` from position `from` on are the strings of `set`: each of
/// them is in the set, and each string of the set is among them, once or more often.
pub open spec fn lists_finds(out: Seq<String>, from: int, set: Set<Seq<char>>) -> bool {
    &&& 0 <= from <= out.len()
    &&& forall|j: int| from <= j < out.len() ==> set.contains(#[trigger] out[j]@)
    &&& forall|s: Seq<char>| #[trigger]
        set.contains(s) ==> exists|j: int| from <= j < out.len() && out[j]@ == s
}

/// Whether `path` ends with `stem` or goes on from it by one of the first `k` steps.
pub(crate) open spec fn goes_on_within(
    stem: Seq<(i32, i32)>,
    path: Seq<(i32, i32)>,
    diagonals: bool,
    k: int,
) -> bool {
    path.len() == stem.len() || exists|i: int|
        0 <= i < k && #[trigger] is_step_number(stem.last(), path[stem.len() as int], diagonals, i)
}

/// The words, in capitals, that the walks of `walks` spell: one for each walk, in their
/// order.
pub open spec fn words_of_walks(board: BoggleBoard, walks: Seq<Seq<(i32, i32)>>) -> Seq<
    Seq<char>,
> {
    walks.map_values(|p: Seq<(i32, i32)>| upper_seq(spelled(board, p)))
}

/// Whether `walks` holds each walk that begins with the cells of `stem` and spells a word of
/// `words` with three letters or more, once, and nothing else.
pub open spec fn lists_walks(
    walks: Seq<Seq<(i32, i32)>>,
    board: BoggleBoard,
    words: Set<Seq<char>>,
    diagonals: bool,
    stem: Seq<(i32, i32)>,
) -> bool {
    &&& walks.no_duplicates()
    &&& forall|p: Seq<(i32, i32)>|
        #![trigger walks.contains(p)]
        #![trigger is_find_past(board, words, diagonals, stem, p)]
        walks.contains(p) <==> is_find_past(board, words, diagonals, stem, p)
}

/// Whether the strings of `out` from position `from` on are the records of the finds past
/// `stem`, one record for each walk: `walks` holds these walks, each once, and the strings
/// are their words in the same order.
pub open spec fn records_walks(
    out: Seq<String>,
    from: int,
    board: BoggleBoard,
    words: Set<Seq<char>>,
    diagonals: bool,
    stem: Seq<(i32, i32)>,
    walks: Seq<Seq<(i32, i32)>>,
) -> bool {
    &&& 0 <= from <= out.len()
    &&& lists_walks(walks, board, words, diagonals, stem)
    &&& words_of(out.skip(from)) == words_of_walks(board, walks)
}

/// The walks recorded before any step is taken from the end of `stem`: `stem` itself, if it
/// spells a word of `words` with three letters or more.
pub(crate) open spec fn first_walks(
    board: BoggleBoard,
    words: Set<Seq<char>>,
    stem: Seq<(i32, i32)>,
) -> Seq<Seq<(i32, i32)>> {
    if spelled(board, stem).len() >= 3 && words.contains(spelled(board, stem)) {
        seq![stem]
    } else {
        Seq::<Seq<(i32, i32)>>::empty()
    }
}

/// Whether `walks` holds, each once, the finds past `stem` that end with `stem` or go on
/// from it by one of the first `k` steps, and nothing else.
#[verifier::opaque]
pub(crate) open spec fn lists_walks_partly(
    walks: Seq<Seq<(i32, i32)>>,
    board: BoggleBoard,
    words: Set<Seq<char>>,
    diagonals: bool,
    stem: Seq<(i32, i32)>,
    k: int,
) -> bool {
    &&& walks.no_duplicates()
    &&& forall|p: Seq<(i32, i32)>|
        #![trigger walks.contains(p)]
        #![trigger is_find_past(board, words, diagonals, stem, p)]
        walks.contains(p) <==> is_find_past(board, words, diagonals, stem, p) && goes_on_within(
            stem,
            p,
            diagonals,
            k,
        )
}

/// The number of a cell, counted row after row on a board of the side `size`.
pub open spec fn cell_number(cell: (i32, i32), size: int) -> int {
    cell.1 * size + cell.0
}

/// The numbers of the cells of `path`.
pub(crate) open spec fn cell_numbers(path: Seq<(i32, i32)>, size: int) -> Set<i32> {
    Set::new(
        |n: i32|
            exists|i: int| 0 <= i < path.len() && n == cell_number(#[trigger] path[i], size),
    )
}

/// On a board of the side `size`, two cells with the same number are the same cell, and
/// every number is below the number of cells.
pub(crate) proof fn lemma_cell_number(a: (i32, i32), b: (i32, i32), size: int)
    requires
        0 <= a.0 < size,
        0 <= a.1 < size,
        0 <= b.0 < size,
        0 <= b.1 < size,
    ensures
        0 <= cell_number(a, size) < size * size,
        cell_number(a, size) == cell_number(b, size) ==> a == b,
        cell_number(a, size) / size == a.1,
        cell_number(a, size) % size == a.0,
{
    let (x, y) = (a.0 as int, a.1 as int);
    let (u, v) = (b.0 as int, b.1 as int);
    assert(0 <= y * size + x < size * size) by (nonlinear_arith)
        requires
            0 <= x < size,
            0 <= y < size,
    ;
    assert(y * size + x == v * size + u ==> y == v) by (nonlinear_arith)
        requires
            0 <= x < size,
            0 <= y < size,
            0 <= u < size,
            0 <= v < size,
    ;
    assert((y * size + x) / size == y && (y * size + x) % size == x) by (nonlinear_arith)
        requires
            0 <= x < size,
            0 <= y < size,
    ;
}

/// A walk has no more cells than the board.
pub(crate) proof fn lemma_path_fits(board: BoggleBoard, diagonals: bool, path: Seq<(i32, i32)>)
    requires
        is_path(board, diagonals, path),
    ensures
        path.len() <= board.size() * board.size(),
{
    let size = board.size();
    let numbers = Seq::new(path.len(), |i: int| cell_number(path[i], size));
    assert forall|i: int, j: int|
        0 <= i < numbers.len() && 0 <= j < numbers.len() && i != j implies numbers[i]
        != numbers[j] by {
        lemma_cell_number(path[i], path[j], size);
    }
    numbers.unique_seq_to_set();
    assert(size * size >= 0) by (nonlinear_arith);
    lemma_int_range(0, size * size);
    assert forall|n: int| numbers.to_set().contains(n) implies set_int_range(
        0,
        size * size,
    ).contains(n) by {
        let i = choose|i: int| 0 <= i < numbers.len() && numbers[i] == n;
        lemma_cell_number(path[i], path[i], size);
    }
    lemma_len_subset(numbers.to_set(), set_int_range(0, size * size));
}

/// What a walk spells once one more cell is added to it.
pub(crate) proof fn lemma_spelled_push(board: BoggleBoard, stem: Seq<(i32, i32)>, cell: (i32, i32))
    ensures
        spelled(board, stem.push(cell)) == spelled(board, stem) + board.tile(cell).letters(),
{
    assert(stem.push(cell).drop_last() =~= stem);
}

/// What the beginning of a walk spells is the beginning of what the walk spells.
pub(crate) proof fn lemma_spelled_prefix(
    board: BoggleBoard,
    stem: Seq<(i32, i32)>,
    path: Seq<(i32, i32)>,
)
    requires
        stem.is_prefix_of(path),
    ensures
        spelled(board, stem).is_prefix_of(spelled(board, path)),
    decreases path.len(),
{
    if stem.len() == path.len() {
        assert(stem =~= path);
    } else {
        let shorter = path.drop_last();
        lemma_spelled_prefix(board, stem, shorter);
        let a = spelled(board, stem);
        let b = spelled(board, shorter);
        let c = spelled(board, path);
        assert(a =~= c.subrange(0, a.len() as int)) by {
            assert(a =~= b.subrange(0, a.len() as int));
        }
    }
}

/// A walk that goes on from `stem` by a cell goes on over that cell.
pub(crate) proof fn lemma_prefix_push<A>(stem: Seq<A>, path: Seq<A>)
    requires
        stem.is_prefix_of(path),
        path.len() > stem.len(),
    ensures
        stem.push(path[stem.len() as int]).is_prefix_of(path),
{
    assert(stem.push(path[stem.len() as int]) =~= path.subrange(0, stem.len() as int + 1));
}

/// What begins with a longer stem begins with the shorter one.
pub(crate) proof fn lemma_prefix_of_push<A>(stem: Seq<A>, item: A, path: Seq<A>)
    requires
        stem.push(item).is_prefix_of(path),
    ensures
        stem.is_prefix_of(path),
        path.len() > stem.len(),
        path[stem.len() as int] == item,
{
    let longer = stem.push(item);
    assert(longer[stem.len() as int] == path.subrange(0, longer.len() as int)[stem.len() as int]);
    assert(stem =~= path.subrange(0, stem.len() as int)) by {
        assert forall|i: int| 0 <= i < stem.len() implies stem[i] == path[i] by {
            assert(longer[i] == path.subrange(0, longer.len() as int)[i]);
        }
    }
}

/// No walk passes a cell twice: past a stem that holds its last cell twice nothing is found.
pub(crate) proof fn lemma_nothing_past_a_repeat(
    board: BoggleBoard,
    words: Set<Seq<char>>,
    diagonals: bool,
    stem: Seq<(i32, i32)>,
    cell: (i32, i32),
)
    requires
        stem.contains(cell),
    ensures
        lists_walks(
            Seq::<Seq<(i32, i32)>>::empty(),
            board,
            words,
            diagonals,
            stem.push(cell),
        ),
{
    let longer = stem.push(cell);
    assert forall|path: Seq<(i32, i32)>| !is_find_past(
        board,
        words,
        diagonals,
        longer,
        path,
    ) by {
        if longer.is_prefix_of(path) {
            lemma_prefix_of_push(stem, cell, path);
            let i = choose|i: int| 0 <= i < stem.len() && stem[i] == cell;
            assert(stem[i] == path.subrange(0, stem.len() as int)[i]);
        }
    }
}

/// Past a stem that spells what no word begins with, nothing is found.
pub(crate) proof fn lemma_nothing_past_a_dead_end(
    board: BoggleBoard,
    words: Set<Seq<char>>,
    diagonals: bool,
    stem: Seq<(i32, i32)>,
)
    requires
        forall|w: Seq<char>| words.contains(w) ==> !spelled(board, stem).is_prefix_of(w),
    ensures
        lists_walks(Seq::<Seq<(i32, i32)>>::empty(), board, words, diagonals, stem),
{
    assert forall|path: Seq<(i32, i32)>| !is_find_past(board, words, diagonals, stem, path) by {
        if stem.is_prefix_of(path) {
            lemma_spelled_prefix(board, stem, path);
        }
    }
}

/// A walk begins with the one cell `cell` exactly if it has a cell and its first is `cell`.
pub(crate) proof fn lemma_begins_with_cell(cell: (i32, i32), path: Seq<(i32, i32)>)
    ensures
        seq![cell].is_prefix_of(path) <==> path.len() > 0 && path[0] == cell,
        Seq::<(i32, i32)>::empty().is_prefix_of(path),
{
    if seq![cell].is_prefix_of(path) {
        assert(seq![cell][0] == path.subrange(0, 1)[0]);
    }
    if path.len() > 0 && path[0] == cell {
        assert(seq![cell] =~= path.subrange(0, 1));
    }
    assert(Seq::<(i32, i32)>::empty() =~= path.subrange(0, 0));
}

/// No two steps lead from a cell to the same cell.
pub(crate) proof fn lemma_steps_differ(
    from: (i32, i32),
    to: (i32, i32),
    diagonals: bool,
    i: int,
    k: int,
)
    requires
        is_step_number(from, to, diagonals, i),
        is_step_number(from, to, diagonals, k),
    ensures
        i == k,
{
    let steps = step_offsets(diagonals);
    assert(steps[i].0 == steps[k].0 && steps[i].1 == steps[k].1);
    assert(forall|a: int, b: int|
        0 <= a < steps.len() && 0 <= b < steps.len() && #[trigger] steps[a] == #[trigger] steps[b]
            ==> a == b);
}

/// The walks before any step is taken: the stem itself, if it is a find.
pub(crate) proof fn lemma_walks_start(
    board: BoggleBoard,
    words: Set<Seq<char>>,
    diagonals: bool,
    stem: Seq<(i32, i32)>,
)
    requires
        is_path(board, diagonals, stem),
    ensures
        lists_walks_partly(first_walks(board, words, stem), board, words, diagonals, stem, 0),
{
    reveal(lists_walks_partly);
    let walks = first_walks(board, words, stem);
    assert(stem.is_prefix_of(stem));
    assert forall|p: Seq<(i32, i32)>|
        #![trigger walks.contains(p)]
        #![trigger is_find_past(board, words, diagonals, stem, p)]
        walks.contains(p) <==> is_find_past(board, words, diagonals, stem, p) && goes_on_within(
            stem,
            p,
            diagonals,
            0,
        ) by {
        if is_find_past(board, words, diagonals, stem, p) && goes_on_within(stem, p, diagonals, 0) {
            assert(p =~= stem);
            assert(walks[0] == p);
        }
        if walks.contains(p) {
            assert(p == stem);
        }
    }
}

/// The walks after the step with the number `k` was taken to the cell `next`: those that
/// were there, and then those found past `next`.
pub(crate) proof fn lemma_walks_step(
    walks: Seq<Seq<(i32, i32)>>,
    more: Seq<Seq<(i32, i32)>>,
    board: BoggleBoard,
    words: Set<Seq<char>>,
    diagonals: bool,
    stem: Seq<(i32, i32)>,
    k: int,
    next: (i32, i32),
)
    requires
        lists_walks_partly(walks, board, words, diagonals, stem, k),
        lists_walks(more, board, words, diagonals, stem.push(next)),
        stem.len() > 0,
        is_step_number(stem.last(), next, diagonals, k),
    ensures
        lists_walks_partly(walks + more, board, words, diagonals, stem, k + 1),
{
    reveal(lists_walks_partly);
    let longer = stem.push(next);
    let all = walks + more;
    let at = stem.len() as int;
    // what the new walks are
    assert forall|j: int| 0 <= j < more.len() implies {
        &&& is_find_past(board, words, diagonals, stem, #[trigger] more[j])
        &&& more[j].len() > at
        &&& more[j][at] == next
    } by {
        assert(more.contains(more[j]));
        lemma_prefix_of_push(stem, next, more[j]);
    }
    assert forall|i: int, j: int| 0 <= i < all.len() && 0 <= j < all.len() && i != j implies all[i]
        != all[j] by {
        if i < walks.len() && j >= walks.len() {
            lemma_old_and_new_differ(
                walks,
                more,
                board,
                words,
                diagonals,
                stem,
                k,
                next,
                i,
                j - walks.len(),
            );
        } else if j < walks.len() && i >= walks.len() {
            lemma_old_and_new_differ(
                walks,
                more,
                board,
                words,
                diagonals,
                stem,
                k,
                next,
                j,
                i - walks.len(),
            );
        }
    }
    assert forall|p: Seq<(i32, i32)>|
        #![trigger all.contains(p)]
        #![trigger is_find_past(board, words, diagonals, stem, p)]
        all.contains(p) <==> is_find_past(board, words, diagonals, stem, p) && goes_on_within(
            stem,
            p,
            diagonals,
            k + 1,
        ) by {
        if all.contains(p) {
            let i = choose|i: int| 0 <= i < all.len() && all[i] == p;
            if i < walks.len() {
                assert(walks.contains(p));
                if p.len() != at {
                    let n = choose|n: int|
                        0 <= n < k && #[trigger] is_step_number(stem.last(), p[at], diagonals, n);
                    assert(is_step_number(stem.last(), p[at], diagonals, n));
                }
            } else {
                assert(more[i - walks.len()] == p);
                assert(is_step_number(stem.last(), p[at], diagonals, k));
            }
        }
        if is_find_past(board, words, diagonals, stem, p) && goes_on_within(
            stem,
            p,
            diagonals,
            k + 1,
        ) {
            if goes_on_within(stem, p, diagonals, k) {
                assert(walks.contains(p));
                let i = choose|i: int| 0 <= i < walks.len() && walks[i] == p;
                assert(all[i] == p);
            } else {
                let n = choose|n: int|
                    0 <= n < k + 1 && #[trigger] is_step_number(stem.last(), p[at], diagonals, n);
                assert(n == k);
                assert(p[at] == next);
                lemma_prefix_push(stem, p);
                assert(is_find_past(board, words, diagonals, longer, p));
                assert(more.contains(p));
                let j = choose|j: int| 0 <= j < more.len() && more[j] == p;
                assert(all[walks.len() + j] == p);
            }
        }
    }
}

/// A walk that was there before the step with the number `k` is none of those found past
/// the cell that this step leads to.
proof fn lemma_old_and_new_differ(
    walks: Seq<Seq<(i32, i32)>>,
    more: Seq<Seq<(i32, i32)>>,
    board: BoggleBoard,
    words: Set<Seq<char>>,
    diagonals: bool,
    stem: Seq<(i32, i32)>,
    k: int,
    next: (i32, i32),
    i: int,
    j: int,
)
    requires
        lists_walks_partly(walks, board, words, diagonals, stem, k),
        lists_walks(more, board, words, diagonals, stem.push(next)),
        stem.len() > 0,
        is_step_number(stem.last(), next, diagonals, k),
        0 <= i < walks.len(),
        0 <= j < more.len(),
    ensures
        walks[i] != more[j],
{
    reveal(lists_walks_partly);
    let at = stem.len() as int;
    let p = walks[i];
    assert(walks.contains(p));
    assert(more.contains(more[j]));
    lemma_prefix_of_push(stem, next, more[j]);
    if p == more[j] {
        assert(p.len() != at);
        let n = choose|n: int|
            0 <= n < k && #[trigger] is_step_number(stem.last(), p[at], diagonals, n);
        lemma_steps_differ(stem.last(), next, diagonals, n, k);
    }
}

/// The walks after the step with the number `k` was passed over because it leads off the
/// board.
pub(crate) proof fn lemma_walks_skip(
    walks: Seq<Seq<(i32, i32)>>,
    board: BoggleBoard,
    words: Set<Seq<char>>,
    diagonals: bool,
    stem: Seq<(i32, i32)>,
    k: int,
)
    requires
        lists_walks_partly(walks, board, words, diagonals, stem, k),
        stem.len() > 0,
        forall|next: (i32, i32)|
            #[trigger] is_step_number(stem.last(), next, diagonals, k) ==> !board.has_cell(next),
    ensures
        lists_walks_partly(walks, board, words, diagonals, stem, k + 1),
{
    reveal(lists_walks_partly);
    let at = stem.len() as int;
    assert forall|p: Seq<(i32, i32)>|
        #![trigger walks.contains(p)]
        #![trigger is_find_past(board, words, diagonals, stem, p)]
        walks.contains(p) <==> is_find_past(board, words, diagonals, stem, p) && goes_on_within(
            stem,
            p,
            diagonals,
            k + 1,
        ) by {
        if walks.contains(p) && p.len() != at {
            let n = choose|n: int|
                0 <= n < k && #[trigger] is_step_number(stem.last(), p[at], diagonals, n);
            assert(is_step_number(stem.last(), p[at], diagonals, n));
        }
        if is_find_past(board, words, diagonals, stem, p) && goes_on_within(
            stem,
            p,
            diagonals,
            k + 1,
        ) && !goes_on_within(stem, p, diagonals, k) {
            let n = choose|n: int|
                0 <= n < k + 1 && #[trigger] is_step_number(stem.last(), p[at], diagonals, n);
            assert(n == k);
            assert(board.has_cell(p[at]));
        }
    }
}

/// Once every step was taken, the walks are all the finds past the stem.
pub(crate) proof fn lemma_walks_end(
    walks: Seq<Seq<(i32, i32)>>,
    board: BoggleBoard,
    words: Set<Seq<char>>,
    diagonals: bool,
    stem: Seq<(i32, i32)>,
)
    requires
        stem.len() > 0,
        lists_walks_partly(
            walks,
            board,
            words,
            diagonals,
            stem,
            step_offsets(diagonals).len() as int,
        ),
    ensures
        lists_walks(walks, board, words, diagonals, stem),
{
    reveal(lists_walks_partly);
    let steps = step_offsets(diagonals).len() as int;
    assert forall|p: Seq<(i32, i32)>|
        #![trigger walks.contains(p)]
        #![trigger is_find_past(board, words, diagonals, stem, p)]
        walks.contains(p) <==> is_find_past(board, words, diagonals, stem, p) by {
        if is_find_past(board, words, diagonals, stem, p) {
            if p.len() > stem.len() {
                let at = stem.len() as int;
                assert(stem.last() == p.subrange(0, at)[at - 1]);
                assert(is_linked_at(p, diagonals, at));
                let i = choose|i: int| #[trigger] is_step_number(p[at - 1], p[at], diagonals, i);
                assert(is_step_number(stem.last(), p[at], diagonals, i));
            }
            assert(goes_on_within(stem, p, diagonals, steps));
        }
    }
}

/// The records after more were appended are the words of the walks that were there and
/// then of those that came.
pub(crate) proof fn lemma_records_append(
    before: Seq<String>,
    after: Seq<String>,
    from: int,
    board: BoggleBoard,
    walks: Seq<Seq<(i32, i32)>>,
    more: Seq<Seq<(i32, i32)>>,
)
    requires
        0 <= from <= before.len(),
        before.is_prefix_of(after),
        words_of(before.skip(from)) == words_of_walks(board, walks),
        words_of(after.skip(before.len() as int)) == words_of_walks(board, more),
    ensures
        words_of(after.skip(from)) == words_of_walks(board, walks + more),
{
    let a = words_of(after.skip(from));
    let b = words_of_walks(board, walks + more);
    let old_part = words_of(before.skip(from));
    let new_part = words_of(after.skip(before.len() as int));
    assert(old_part.len() == walks.len());
    assert(new_part.len() == more.len());
    assert(a.len() == b.len());
    assert forall|j: int| 0 <= j < a.len() implies a[j] == b[j] by {
        if j < walks.len() {
            assert(before[from + j] == after.subrange(0, before.len() as int)[from + j]);
            assert(a[j] == old_part[j]);
            assert((walks + more)[j] == walks[j]);
        } else {
            let m = j - walks.len();
            assert(a[j] == new_part[m]);
            assert((walks + more)[j] == more[m]);
        }
    }
    assert(a =~= b);
}

/// Records of the finds past a stem, one for each walk, list the words found past it.
pub proof fn lemma_walks_give_finds(
    out: Seq<String>,
    from: int,
    board: BoggleBoard,
    words: Set<Seq<char>>,
    diagonals: bool,
    stem: Seq<(i32, i32)>,
    walks: Seq<Seq<(i32, i32)>>,
)
    requires
        records_walks(out, from, board, words, diagonals, stem, walks),
    ensures
        lists_finds(out, from, finds_past(board, words, diagonals, stem)),
{
    let set = finds_past(board, words, diagonals, stem);
    let listed = words_of(out.skip(from));
    assert(listed.len() == walks.len());
    assert forall|j: int| from <= j < out.len() implies set.contains(#[trigger] out[j]@) by {
        let m = j - from;
        assert(listed[m] == out[j]@);
        assert(walks.contains(walks[m]));
        assert(is_find_past(board, words, diagonals, stem, walks[m]));
    }
    assert forall|s: Seq<char>| #[trigger] set.contains(s) implies exists|j: int|
        from <= j < out.len() && out[j]@ == s by {
        let p = choose|p: Seq<(i32, i32)>|
            #[trigger] is_find_past(board, words, diagonals, stem, p) && s == upper_seq(
                spelled(board, p),
            );
        assert(walks.contains(p));
        let m = choose|m: int| 0 <= m < walks.len() && walks[m] == p;
        assert(listed[m] == s);
        assert(out[from + m]@ == s);
    }
}

/// Two boards with the same tiles spell the same along every walk.
pub proof fn lemma_same_tiles_spell_alike(a: BoggleBoard, b: BoggleBoard, path: Seq<(i32, i32)>)
    requires
        a@ == b@,
    ensures
        spelled(a, path) == spelled(b, path),
    decreases path.len(),
{
    if path.len() > 0 {
        lemma_same_tiles_spell_alike(a, b, path.drop_last());
    }
}

/// On two boards of the same size with the same tiles the same words are found.
pub proof fn lemma_same_board_same_finds(
    a: BoggleBoard,
    b: BoggleBoard,
    words: Set<Seq<char>>,
    diagonals: bool,
)
    requires
        a@ == b@,
        a.size() == b.size(),
    ensures
        all_finds(a, words, diagonals) == all_finds(b, words, diagonals),
{
    let none = Seq::<(i32, i32)>::empty();
    assert forall|p: Seq<(i32, i32)>|
        is_find_past(a, words, diagonals, none, p) == is_find_past(b, words, diagonals, none, p)
        && spelled(a, p) == spelled(b, p) by {
        lemma_same_tiles_spell_alike(a, b, p);
        assert(is_path(a, diagonals, p) == is_path(b, diagonals, p)) by {
            assert forall|i: int| 0 <= i < p.len() implies a.has_cell(#[trigger] p[i])
                == b.has_cell(p[i]) by {}
        }
    }
    assert forall|s: Seq<char>|
        all_finds(a, words, diagonals).contains(s) == all_finds(b, words, diagonals).contains(
            s,
        ) by {
        if all_finds(a, words, diagonals).contains(s) {
            let p = choose|p: Seq<(i32, i32)>|
                #[trigger] is_find_past(a, words, diagonals, none, p) && s == upper_seq(
                    spelled(a, p),
                );
            assert(is_find_past(b, words, diagonals, none, p));
        }
        if all_finds(b, words, diagonals).contains(s) {
            let p = choose|p: Seq<(i32, i32)>|
                #[trigger] is_find_past(b, words, diagonals, none, p) && s == upper_seq(
                    spelled(b, p),
                );
            assert(is_find_past(a, words, diagonals, none, p));
        }
    }
    assert(all_finds(a, words, diagonals) =~= all_finds(b, words, diagonals));
}

/// No find has fewer than three letters.
pub proof fn lemma_finds_have_three_letters(
    board: BoggleBoard,
    words: Set<Seq<char>>,
    diagonals: bool,
    s: Seq<char>,
)
    requires
        all_finds(board, words, diagonals).contains(s),
    ensures
        s.len() >= 3,
{
}

} // verus!
