//! The board: a square grid of tiles.
use crate::boggle_utils::boggle_char::{is_ascii_letter, BoggleChar};
use crate::boggle_utils::boggle_dice::{is_fake_tile, scramble_dice, thrown_from_standard_dice};
use crate::utils::letter_case::lower;
use vstd::prelude::*;
use vstd::string::StringExecFns;

verus! {

/// Why a sequence of letters makes no board.
#[derive(Debug, PartialEq, Eq, Clone, Copy, Structural)]
pub enum BoardError {
    /// The side is so long that the number of cells is no `i32`.
    TooLarge,
    /// The number of letters is not the number of cells.
    WrongLength,
    /// One of the characters is no ASCII letter.
    NotALetter,
}

/// A square grid of tiles. It is not changed once made.
pub struct BoggleBoard {
    board: Vec<Vec<BoggleChar>>,
    board_size: i32,
}

/// Whether a board of `size` rows and columns has a number of cells that is an `i32`.
pub open spec fn side_fits(size: int) -> bool {
    size * size <= i32::MAX
}

/// Whether `tiles` can be what is drawn for a board of `size` rows and columns: thrown
/// from the dice of the game for sizes four and five, else drawn tile by tile.
pub open spec fn drawn_for(tiles: Seq<BoggleChar>, size: int) -> bool {
    &&& tiles.len() == size * size
    &&& size == 4 ==> thrown_from_standard_dice(tiles, 16)
    &&& size == 5 ==> thrown_from_standard_dice(tiles, 25)
    &&& size != 4 && size != 5 ==> forall|i: int|
        0 <= i < tiles.len() ==> is_fake_tile(#[trigger] tiles[i])
}

/// The names of the first `n` tiles of `row`, set apart by a comma and a blank.
pub open spec fn tiles_text(row: Seq<BoggleChar>, n: int) -> Seq<char>
    decreases n,
{
    if n <= 0 {
        Seq::<char>::empty()
    } else if n == 1 {
        row[0].label()
    } else {
        tiles_text(row, n - 1) + seq![',', ' '] + row[n - 1].label()
    }
}

/// The first `n` rows of `rows` as text: each on a line of its own, in square brackets.
pub open spec fn rows_text(rows: Seq<Seq<BoggleChar>>, n: int) -> Seq<char>
    decreases n,
{
    if n <= 0 {
        Seq::<char>::empty()
    } else {
        rows_text(rows, n - 1) + seq!['['] + tiles_text(rows[n - 1], rows[n - 1].len() as int)
            + seq![']', '\n']
    }
}

impl View for BoggleBoard {
    type V = Seq<Seq<BoggleChar>>;

    /// The rows of the board, each a sequence of tiles.
    closed spec fn view(&self) -> Seq<Seq<BoggleChar>> {
        Seq::new(self.board@.len(), |row: int| self.board@[row]@)
    }
}

impl BoggleBoard {
    /// The side that the board was made with. A board made with a side below one has no cell.
    pub closed spec fn size(self) -> int {
        self.board_size as int
    }

    /// The number of rows, and of columns.
    pub open spec fn side(self) -> nat {
        if self.size() > 0 {
            self.size() as nat
        } else {
            0
        }
    }

    /// The board has as many rows as its side says, each of that many tiles.
    #[verifier::type_invariant]
    pub closed spec fn wf(self) -> bool {
        &&& side_fits(self.board_size as int)
        &&& self.board@.len() == self.side()
        &&& forall|row: int|
            0 <= row < self.board@.len() ==> (#[trigger] self.board@[row])@.len() == self.side()
    }

    /// What the validity of a board says of its rows.
    pub proof fn lemma_shape(self)
        requires
            self.wf(),
        ensures
            side_fits(self.size()),
            self@.len() == self.side(),
            forall|row: int|
                0 <= row < self.side() ==> (#[trigger] self@[row]).len() == self.side(),
    {
    }

    /// Whether the board has a cell in column `location.0` of row `location.1`.
    pub open spec fn has_cell(self, location: (i32, i32)) -> bool {
        0 <= location.0 < self.size() && 0 <= location.1 < self.size()
    }

    /// The tile in column `location.0` of row `location.1`.
    pub open spec fn tile(self, location: (i32, i32)) -> BoggleChar
        recommends
            self.has_cell(location),
    {
        self@[location.1 as int][location.0 as int]
    }

    /// The tiles of the board, row after row.
    pub open spec fn flat(self) -> Seq<BoggleChar> {
        Seq::new(
            self.side() * self.side(),
            |k: int| self@[k / (self.side() as int)][k % (self.side() as int)],
        )
    }

    /// Whether the board shows, row after row, the tiles of the letters `chars`.
    pub open spec fn shows(self, chars: Seq<char>) -> bool {
        forall|row: int, col: int|
            0 <= row < self.side() && 0 <= col < self.side() ==> (
            #[trigger] self@[row][col]).first_letter() == lower(chars[row * self.side() + col])
    }

    /// The board of `size` rows and columns that holds the tiles `tiles`, row after row, if
    /// they are as many tiles as the board has cells.
    pub fn from_tiles(tiles: Vec<BoggleChar>, size: i32) -> (r: Result<Self, BoardError>)
        ensures
            match r {
                Ok(board) => {
                    &&& side_fits(size as int)
                    &&& tiles@.len() == size * size
                    &&& board.size() == size
                    &&& size > 0 ==> board.flat() == tiles@
                },
                Err(BoardError::TooLarge) => !side_fits(size as int),
                Err(BoardError::WrongLength) => side_fits(size as int) && tiles@.len() != size
                    * size,
                Err(BoardError::NotALetter) => false,
            },
    {
        if size > 46340 || size < -46340 {
            assert(!side_fits(size as int)) by (nonlinear_arith)
                requires
                    size > 46340 || size < -46340,
            ;
            return Err(BoardError::TooLarge);
        }
        assert(0 <= size * size <= i32::MAX) by (nonlinear_arith)
            requires
                -46340 <= size <= 46340,
        ;
        let cells: i32 = size * size;
        if tiles.len() != cells as usize {
            return Err(BoardError::WrongLength);
        }
        let board = Self::fill(&tiles, size);
        proof {
            assert(tiles@.take(size * size) =~= tiles@);
        }
        Ok(board)
    }

    /// Fills the rows of a board from `tiles`, which holds them row after row.
    fn fill(tiles: &Vec<BoggleChar>, size: i32) -> (r: Self)
        requires
            side_fits(size as int),
            size > 0 ==> tiles@.len() >= size * size,
        ensures
            r.size() == size,
            r.flat() == if size > 0 {
                tiles@.take(size * size)
            } else {
                Seq::<BoggleChar>::empty()
            },
    {
        let mut board: Vec<Vec<BoggleChar>> = Vec::new();
        let mut i: i32 = 0;
        while i < size
            invariant
                side_fits(size as int),
                size > 0 ==> tiles@.len() >= size * size,
                0 <= i,
                size > 0 ==> i <= size,
                size <= 0 ==> i == 0,
                board@.len() == i,
                forall|row: int| 0 <= row < i ==> (#[trigger] board@[row])@.len() == size,
                forall|row: int, col: int|
                    0 <= row < i && 0 <= col < size ==> #[trigger] board@[row]@[col] == tiles@[row
                        * size + col],
            decreases size - i,
        {
            let mut row: Vec<BoggleChar> = Vec::new();
            let mut j: i32 = 0;
            while j < size
                invariant
                    side_fits(size as int),
                    tiles@.len() >= size * size,
                    0 <= i < size,
                    0 <= j <= size,
                    row@.len() == j,
                    forall|col: int|
                        0 <= col < j ==> #[trigger] row@[col] == tiles@[i * size + col],
                decreases size - j,
            {
                assert(0 <= i * size + j < size * size) by (nonlinear_arith)
                    requires
                        0 <= i < size,
                        0 <= j < size,
                ;
                let index: usize = (i * size + j) as usize;
                row.push(tiles[index]);
                j = j + 1;
            }
            board.push(row);
            i = i + 1;
        }
        let r = Self { board, board_size: size };
        proof {
            let side = r.side() as int;
            if size > 0 {
                assert forall|k: int| 0 <= k < side * side implies r@[k / side][k % side]
                    == tiles@[k] by {
                    assert(0 <= k / side < side && 0 <= k % side < side && k == (k / side) * side
                        + k % side) by (nonlinear_arith)
                        requires
                            0 <= k < side * side,
                            side > 0,
                    ;
                }
            } else {
                assert(r.flat() =~= Seq::<BoggleChar>::empty());
            }
        }
        r
    }

    /// A board of `size` rows and columns with tiles drawn at random.
    pub fn new(size: i32) -> (r: Self)
        requires
            side_fits(size as int),
        ensures
            r.size() == size,
            size > 0 ==> drawn_for(r.flat(), size as int),
    {
        let full_chars: Vec<BoggleChar> = scramble_dice(size);
        let r = Self::fill(&full_chars, size);
        proof {
            if size > 0 {
                assert(full_chars@.take(size * size) =~= full_chars@);
            }
        }
        r
    }

    /// The board of `size` rows and columns that shows the letters `chars`, row after row.
    /// Letters count in either case, and `q` stands for the tile `Qu`.
    pub fn from(chars: Vec<char>, size: i32) -> (r: Self)
        requires
            side_fits(size as int),
            chars@.len() == size * size,
            forall|i: int| 0 <= i < chars@.len() ==> is_ascii_letter(#[trigger] chars@[i]),
        ensures
            r.size() == size,
            r.shows(chars@),
    {
        let mut full_chars: Vec<BoggleChar> = Vec::new();
        for i in 0..chars.len()
            invariant
                forall|i: int| 0 <= i < chars@.len() ==> is_ascii_letter(#[trigger] chars@[i]),
                full_chars@.len() == i,
                forall|k: int|
                    0 <= k < i ==> (#[trigger] full_chars@[k]).first_letter() == lower(chars@[k]),
        {
            match BoggleChar::from_char(chars[i]) {
                Some(tile) => full_chars.push(tile),
                None => {
                    assert(false);
                },
            }
        }
        let r = Self::fill(&full_chars, size);
        proof {
            let side = r.side() as int;
            assert forall|row: int, col: int| 0 <= row < side && 0 <= col < side implies (
            #[trigger] r@[row][col]).first_letter() == lower(chars@[row * side + col]) by {
                let k = row * side + col;
                assert(0 <= k < side * side && k / side == row && k % side == col)
                    by (nonlinear_arith)
                    requires
                        0 <= row < side,
                        0 <= col < side,
                        k == row * side + col,
                ;
                assert(r.flat()[k] == r@[k / side][k % side]);
            }
        }
        r
    }

    /// The board that `chars` spell, if they are as many letters as a board of `size` rows
    /// and columns has cells.
    pub fn checked_from(chars: Vec<char>, size: i32) -> (r: Result<Self, BoardError>)
        ensures
            match r {
                Ok(board) => {
                    &&& side_fits(size as int)
                    &&& chars@.len() == size * size
                    &&& forall|i: int|
                        0 <= i < chars@.len() ==> is_ascii_letter(#[trigger] chars@[i])
                    &&& board.size() == size
                    &&& board.shows(chars@)
                },
                Err(BoardError::TooLarge) => !side_fits(size as int),
                Err(BoardError::WrongLength) => side_fits(size as int) && chars@.len() != size
                    * size,
                Err(BoardError::NotALetter) => {
                    &&& side_fits(size as int)
                    &&& chars@.len() == size * size
                    &&& exists|i: int|
                        0 <= i < chars@.len() && !is_ascii_letter(#[trigger] chars@[i])
                },
            },
    {
        if size > 46340 || size < -46340 {
            assert(!side_fits(size as int)) by (nonlinear_arith)
                requires
                    size > 46340 || size < -46340,
            ;
            return Err(BoardError::TooLarge);
        }
        assert(0 <= size * size <= i32::MAX) by (nonlinear_arith)
            requires
                -46340 <= size <= 46340,
        ;
        let cells: i32 = size * size;
        if chars.len() != cells as usize {
            return Err(BoardError::WrongLength);
        }
        for i in 0..chars.len()
            invariant
                side_fits(size as int),
                chars@.len() == size * size,
                forall|k: int| 0 <= k < i ==> is_ascii_letter(#[trigger] chars@[k]),
        {
            if BoggleChar::from_char(chars[i]).is_none() {
                return Err(BoardError::NotALetter);
            }
        }
        Ok(Self::from(chars, size))
    }

    /// The board as text: each row on a line of its own, in square brackets, the names of
    /// its tiles set apart by a comma and a blank.
    pub open spec fn text(self) -> Seq<char> {
        rows_text(self@, self@.len() as int)
    }

    /// The board as text, a line for each row.
    pub fn to_string(&self) -> (r: String)
        ensures
            r@ == self.text(),
    {
        let mut out = String::new();
        for i in 0..self.board.len()
            invariant
                out@ == rows_text(self@, i as int),
        {
            let row = &self.board[i];
            let ghost before = out@;
            out.push('[');
            for j in 0..row.len()
                invariant
                    out@ == before + seq!['['] + tiles_text(row@, j as int),
            {
                if j > 0 {
                    out.push(',');
                    out.push(' ');
                }
                let name = row[j].to_string();
                out.append(name.as_str());
                proof {
                    assert(out@ =~= before + seq!['['] + tiles_text(row@, j + 1));
                }
            }
            out.push(']');
            out.push('\n');
            proof {
                assert(row@ == self@[i as int]);
            }
        }
        out
    }

    /// Whether `location`, a column and a row, is a cell of the board.
    pub fn in_bounds(&self, location: &(i32, i32)) -> (r: bool)
        ensures
            r == self.has_cell(*location),
    {
        proof {
            use_type_invariant(self);
            assert(self.board_size > -46341) by (nonlinear_arith)
                requires
                    self.board_size * self.board_size <= i32::MAX,
            ;
        }
        location.0 >= 0 && location.0 <= self.board_size - 1 && location.1 >= 0 && location.1
            <= self.board_size - 1
    }

    /// The tile in row `coords.0`, column `coords.1`.
    pub fn access(&self, coords: (usize, usize)) -> (r: BoggleChar)
        requires
            coords.0 < self.side(),
            coords.1 < self.side(),
        ensures
            r == self@[coords.0 as int][coords.1 as int],
    {
        proof {
            use_type_invariant(self);
        }
        self.board[coords.0][coords.1]
    }

    /// The side that the board was made with.
    pub fn get_size(&self) -> (r: i32)
        ensures
            r == self.size(),
            side_fits(r as int),
    {
        proof {
            use_type_invariant(self);
        }
        self.board_size
    }

    /// A copy of the rows of the board.
    pub fn get_chars(&self) -> (r: Vec<Vec<BoggleChar>>)
        ensures
            r@.len() == self@.len(),
            forall|row: int| 0 <= row < r@.len() ==> (#[trigger] r@[row])@ == self@[row],
    {
        let mut rows: Vec<Vec<BoggleChar>> = Vec::new();
        for i in 0..self.board.len()
            invariant
                rows@.len() == i,
                forall|row: int| 0 <= row < i ==> (#[trigger] rows@[row])@ == self@[row],
        {
            let mut copy: Vec<BoggleChar> = Vec::new();
            let row = &self.board[i];
            for j in 0..row.len()
                invariant
                    copy@ == row@.take(j as int),
            {
                copy.push(row[j]);
            }
            rows.push(copy);
        }
        rows
    }
}

impl Clone for BoggleBoard {
    /// A board with the same tiles.
    fn clone(&self) -> (r: Self)
        ensures
            r@ == self@,
            r.size() == self.size(),
    {
        proof {
            use_type_invariant(self);
        }
        let board = self.get_chars();
        let r = Self { board, board_size: self.board_size };
        r
    }
}

} // verus!
