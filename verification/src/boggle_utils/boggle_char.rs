//! The tiles of the game.
use crate::utils::letter_case::{lower, to_lower, to_upper, upper};
use vstd::prelude::*;

verus! {

/// One tile of the board. Each tile stands for one letter, but for `Qu`, which stands for
/// the two letters "qu" and is stepped on as one cell.
#[derive(Debug, PartialEq, Eq, Hash, Clone, Copy, Structural)]
pub enum BoggleChar {
    A,
    B,
    C,
    D,
    E,
    F,
    G,
    H,
    I,
    J,
    K,
    L,
    M,
    N,
    O,
    P,
    Qu,
    R,
    S,
    T,
    U,
    V,
    W,
    X,
    Y,
    Z,
}

/// Whether `c` is one of the 52 ASCII letters.
pub open spec fn is_ascii_letter(c: char) -> bool {
    ('a' <= c && c <= 'z') || ('A' <= c && c <= 'Z')
}

impl BoggleChar {
    /// The lower-case letter with which the tile's text begins.
    pub open spec fn first_letter(self) -> char {
        match self {
            BoggleChar::A => 'a',
            BoggleChar::B => 'b',
            BoggleChar::C => 'c',
            BoggleChar::D => 'd',
            BoggleChar::E => 'e',
            BoggleChar::F => 'f',
            BoggleChar::G => 'g',
            BoggleChar::H => 'h',
            BoggleChar::I => 'i',
            BoggleChar::J => 'j',
            BoggleChar::K => 'k',
            BoggleChar::L => 'l',
            BoggleChar::M => 'm',
            BoggleChar::N => 'n',
            BoggleChar::O => 'o',
            BoggleChar::P => 'p',
            BoggleChar::Qu => 'q',
            BoggleChar::R => 'r',
            BoggleChar::S => 's',
            BoggleChar::T => 't',
            BoggleChar::U => 'u',
            BoggleChar::V => 'v',
            BoggleChar::W => 'w',
            BoggleChar::X => 'x',
            BoggleChar::Y => 'y',
            BoggleChar::Z => 'z',
        }
    }

    /// The lower-case letters that the tile adds to a word: "qu" for `Qu`, else one letter.
    pub open spec fn letters(self) -> Seq<char> {
        if self == BoggleChar::Qu {
            seq!['q', 'u']
        } else {
            seq![self.first_letter()]
        }
    }

    /// The tile's name as it is shown: its letters, the first one a capital.
    pub open spec fn label(self) -> Seq<char> {
        if self == BoggleChar::Qu {
            seq!['Q', 'u']
        } else {
            seq![upper(self.first_letter())]
        }
    }

    /// A tile's text is one or two small ASCII letters.
    pub proof fn lemma_letters_shape(self)
        ensures
            1 <= self.letters().len() <= 2,
            self.letters()[0] == self.first_letter(),
            forall|i: int|
                0 <= i < self.letters().len() ==> 'a' <= #[trigger] self.letters()[i]
                    && self.letters()[i] <= 'z',
    {
    }

    /// Two tiles that begin with the same letter are the same tile.
    pub proof fn lemma_first_letter_decides(self, other: BoggleChar)
        requires
            self.first_letter() == other.first_letter(),
        ensures
            self == other,
    {
    }

    /// For every ASCII letter there is a tile that begins with it, in either case.
    pub proof fn lemma_every_letter_has_a_tile(c: char)
        requires
            is_ascii_letter(c),
        ensures
            exists|t: BoggleChar| t.first_letter() == lower(c),
    {
        let l = lower(c);
        if l == 'a' {
            assert(BoggleChar::A.first_letter() == l);
        } else if l == 'b' {
            assert(BoggleChar::B.first_letter() == l);
        } else if l == 'c' {
            assert(BoggleChar::C.first_letter() == l);
        } else if l == 'd' {
            assert(BoggleChar::D.first_letter() == l);
        } else if l == 'e' {
            assert(BoggleChar::E.first_letter() == l);
        } else if l == 'f' {
            assert(BoggleChar::F.first_letter() == l);
        } else if l == 'g' {
            assert(BoggleChar::G.first_letter() == l);
        } else if l == 'h' {
            assert(BoggleChar::H.first_letter() == l);
        } else if l == 'i' {
            assert(BoggleChar::I.first_letter() == l);
        } else if l == 'j' {
            assert(BoggleChar::J.first_letter() == l);
        } else if l == 'k' {
            assert(BoggleChar::K.first_letter() == l);
        } else if l == 'l' {
            assert(BoggleChar::L.first_letter() == l);
        } else if l == 'm' {
            assert(BoggleChar::M.first_letter() == l);
        } else if l == 'n' {
            assert(BoggleChar::N.first_letter() == l);
        } else if l == 'o' {
            assert(BoggleChar::O.first_letter() == l);
        } else if l == 'p' {
            assert(BoggleChar::P.first_letter() == l);
        } else if l == 'q' {
            assert(BoggleChar::Qu.first_letter() == l);
        } else if l == 'r' {
            assert(BoggleChar::R.first_letter() == l);
        } else if l == 's' {
            assert(BoggleChar::S.first_letter() == l);
        } else if l == 't' {
            assert(BoggleChar::T.first_letter() == l);
        } else if l == 'u' {
            assert(BoggleChar::U.first_letter() == l);
        } else if l == 'v' {
            assert(BoggleChar::V.first_letter() == l);
        } else if l == 'w' {
            assert(BoggleChar::W.first_letter() == l);
        } else if l == 'x' {
            assert(BoggleChar::X.first_letter() == l);
        } else if l == 'y' {
            assert(BoggleChar::Y.first_letter() == l);
        } else if l == 'z' {
            assert(BoggleChar::Z.first_letter() == l);
        } else {
            assert(false);
        }
    }

    /// Appends the tile's letters to `string`.
    pub fn append_to(&self, string: &mut String)
        ensures
            final(string)@ == old(string)@ + self.letters(),
    {
        let letters = self.to_char_vec();
        for i in 0..letters.len()
            invariant
                letters@ == self.letters(),
                string@ == old(string)@ + letters@.take(i as int),
        {
            string.push(letters[i]);
        }
    }

    /// The tile's letters.
    pub fn to_char_vec(&self) -> (r: Vec<char>)
        ensures
            r@ == self.letters(),
    {
        let r = match self {
            BoggleChar::A => vec!['a'],
            BoggleChar::B => vec!['b'],
            BoggleChar::C => vec!['c'],
            BoggleChar::D => vec!['d'],
            BoggleChar::E => vec!['e'],
            BoggleChar::F => vec!['f'],
            BoggleChar::G => vec!['g'],
            BoggleChar::H => vec!['h'],
            BoggleChar::I => vec!['i'],
            BoggleChar::J => vec!['j'],
            BoggleChar::K => vec!['k'],
            BoggleChar::L => vec!['l'],
            BoggleChar::M => vec!['m'],
            BoggleChar::N => vec!['n'],
            BoggleChar::O => vec!['o'],
            BoggleChar::P => vec!['p'],
            BoggleChar::Qu => vec!['q', 'u'],
            BoggleChar::R => vec!['r'],
            BoggleChar::S => vec!['s'],
            BoggleChar::T => vec!['t'],
            BoggleChar::U => vec!['u'],
            BoggleChar::V => vec!['v'],
            BoggleChar::W => vec!['w'],
            BoggleChar::X => vec!['x'],
            BoggleChar::Y => vec!['y'],
            BoggleChar::Z => vec!['z'],
        };
        r
    }

    /// The tile's name as it is shown: "Qu" for `Qu`, else the capital letter.
    pub fn to_string(&self) -> (r: String)
        ensures
            r@ == self.label(),
    {
        let letters = self.to_char_vec();
        let mut r = String::new();
        r.push(to_upper(letters[0]));
        if letters.len() > 1 {
            r.push(letters[1]);
        }
        r
    }

    /// The tile for the capital letter with the code `c`; `Q` gives `Qu`.
    pub fn from(c: u8) -> (r: Self)
        requires
            'A' <= c as char && c as char <= 'Z',
        ensures
            r.first_letter() == lower(c as char),
    {
        match Self::from_char(c as char) {
            Some(tile) => tile,
            None => BoggleChar::A,
        }
    }

    /// The tile for the letter `c`, in either case; `None` if `c` is no ASCII letter.
    pub fn from_char(c: char) -> (r: Option<Self>)
        ensures
            match r {
                Some(tile) => is_ascii_letter(c) && tile.first_letter() == lower(c),
                None => !is_ascii_letter(c),
            },
    {
        let l = to_lower(c);
        if l == 'a' {
            Some(BoggleChar::A)
        } else if l == 'b' {
            Some(BoggleChar::B)
        } else if l == 'c' {
            Some(BoggleChar::C)
        } else if l == 'd' {
            Some(BoggleChar::D)
        } else if l == 'e' {
            Some(BoggleChar::E)
        } else if l == 'f' {
            Some(BoggleChar::F)
        } else if l == 'g' {
            Some(BoggleChar::G)
        } else if l == 'h' {
            Some(BoggleChar::H)
        } else if l == 'i' {
            Some(BoggleChar::I)
        } else if l == 'j' {
            Some(BoggleChar::J)
        } else if l == 'k' {
            Some(BoggleChar::K)
        } else if l == 'l' {
            Some(BoggleChar::L)
        } else if l == 'm' {
            Some(BoggleChar::M)
        } else if l == 'n' {
            Some(BoggleChar::N)
        } else if l == 'o' {
            Some(BoggleChar::O)
        } else if l == 'p' {
            Some(BoggleChar::P)
        } else if l == 'q' {
            Some(BoggleChar::Qu)
        } else if l == 'r' {
            Some(BoggleChar::R)
        } else if l == 's' {
            Some(BoggleChar::S)
        } else if l == 't' {
            Some(BoggleChar::T)
        } else if l == 'u' {
            Some(BoggleChar::U)
        } else if l == 'v' {
            Some(BoggleChar::V)
        } else if l == 'w' {
            Some(BoggleChar::W)
        } else if l == 'x' {
            Some(BoggleChar::X)
        } else if l == 'y' {
            Some(BoggleChar::Y)
        } else if l == 'z' {
            Some(BoggleChar::Z)
        } else {
            None
        }
    }
}

} // verus!
