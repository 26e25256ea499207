//! The dice of the game, and the drawing of tiles for a board.
use crate::boggle_utils::boggle_char::BoggleChar;
use rand::seq::SliceRandom;
use rand::Rng;
use vstd::prelude::*;

verus! {

/// A die with a tile on each of its six faces.
#[derive(Clone, Copy)]
struct BoggleDie {
    letters: [BoggleChar; 6],
}

/// The faces of each of the sixteen dice of the four-by-four game.
pub open spec fn standard_faces_4x4(die: int) -> Seq<BoggleChar> {
    if die == 0 {
        seq![
            BoggleChar::R,
            BoggleChar::I,
            BoggleChar::F,
            BoggleChar::O,
            BoggleChar::B,
            BoggleChar::X,
        ]
    } else if die == 1 {
        seq![
            BoggleChar::I,
            BoggleChar::F,
            BoggleChar::E,
            BoggleChar::H,
            BoggleChar::E,
            BoggleChar::Y,
        ]
    } else if die == 2 {
        seq![
            BoggleChar::D,
            BoggleChar::E,
            BoggleChar::N,
            BoggleChar::O,
            BoggleChar::W,
            BoggleChar::S,
        ]
    } else if die == 3 {
        seq![
            BoggleChar::U,
            BoggleChar::T,
            BoggleChar::O,
            BoggleChar::K,
            BoggleChar::N,
            BoggleChar::D,
        ]
    } else if die == 4 {
        seq![
            BoggleChar::H,
            BoggleChar::M,
            BoggleChar::S,
            BoggleChar::R,
            BoggleChar::A,
            BoggleChar::O,
        ]
    } else if die == 5 {
        seq![
            BoggleChar::L,
            BoggleChar::U,
            BoggleChar::P,
            BoggleChar::E,
            BoggleChar::T,
            BoggleChar::S,
        ]
    } else if die == 6 {
        seq![
            BoggleChar::A,
            BoggleChar::C,
            BoggleChar::I,
            BoggleChar::T,
            BoggleChar::O,
            BoggleChar::A,
        ]
    } else if die == 7 {
        seq![
            BoggleChar::Y,
            BoggleChar::L,
            BoggleChar::G,
            BoggleChar::K,
            BoggleChar::U,
            BoggleChar::E,
        ]
    } else if die == 8 {
        seq![
            BoggleChar::Qu,
            BoggleChar::B,
            BoggleChar::M,
            BoggleChar::J,
            BoggleChar::O,
            BoggleChar::A,
        ]
    } else if die == 9 {
        seq![
            BoggleChar::E,
            BoggleChar::H,
            BoggleChar::I,
            BoggleChar::S,
            BoggleChar::P,
            BoggleChar::N,
        ]
    } else if die == 10 {
        seq![
            BoggleChar::V,
            BoggleChar::E,
            BoggleChar::T,
            BoggleChar::I,
            BoggleChar::G,
            BoggleChar::N,
        ]
    } else if die == 11 {
        seq![
            BoggleChar::B,
            BoggleChar::A,
            BoggleChar::L,
            BoggleChar::I,
            BoggleChar::Y,
            BoggleChar::T,
        ]
    } else if die == 12 {
        seq![
            BoggleChar::E,
            BoggleChar::Z,
            BoggleChar::A,
            BoggleChar::V,
            BoggleChar::N,
            BoggleChar::D,
        ]
    } else if die == 13 {
        seq![
            BoggleChar::R,
            BoggleChar::A,
            BoggleChar::L,
            BoggleChar::E,
            BoggleChar::S,
            BoggleChar::C,
        ]
    } else if die == 14 {
        seq![
            BoggleChar::U,
            BoggleChar::W,
            BoggleChar::I,
            BoggleChar::L,
            BoggleChar::R,
            BoggleChar::G,
        ]
    } else {
        seq![
            BoggleChar::P,
            BoggleChar::A,
            BoggleChar::C,
            BoggleChar::E,
            BoggleChar::M,
            BoggleChar::D,
        ]
    }
}

/// The faces of each of the twenty-five dice of the five-by-five game.
pub open spec fn standard_faces_5x5(die: int) -> Seq<BoggleChar> {
    if die == 0 {
        seq![
            BoggleChar::Qu,
            BoggleChar::B,
            BoggleChar::Z,
            BoggleChar::J,
            BoggleChar::X,
            BoggleChar::K,
        ]
    } else if die == 1 {
        seq![
            BoggleChar::T,
            BoggleChar::O,
            BoggleChar::U,
            BoggleChar::O,
            BoggleChar::T,
            BoggleChar::O,
        ]
    } else if die == 2 {
        seq![
            BoggleChar::O,
            BoggleChar::V,
            BoggleChar::W,
            BoggleChar::R,
            BoggleChar::G,
            BoggleChar::R,
        ]
    } else if die == 3 {
        seq![
            BoggleChar::A,
            BoggleChar::A,
            BoggleChar::A,
            BoggleChar::F,
            BoggleChar::S,
            BoggleChar::R,
        ]
    } else if die == 4 {
        seq![
            BoggleChar::A,
            BoggleChar::U,
            BoggleChar::M,
            BoggleChar::E,
            BoggleChar::E,
            BoggleChar::G,
        ]
    } else if die == 5 {
        seq![
            BoggleChar::H,
            BoggleChar::H,
            BoggleChar::L,
            BoggleChar::R,
            BoggleChar::D,
            BoggleChar::O,
        ]
    } else if die == 6 {
        seq![
            BoggleChar::N,
            BoggleChar::H,
            BoggleChar::D,
            BoggleChar::T,
            BoggleChar::H,
            BoggleChar::O,
        ]
    } else if die == 7 {
        seq![
            BoggleChar::L,
            BoggleChar::H,
            BoggleChar::N,
            BoggleChar::R,
            BoggleChar::O,
            BoggleChar::D,
        ]
    } else if die == 8 {
        seq![
            BoggleChar::A,
            BoggleChar::F,
            BoggleChar::A,
            BoggleChar::I,
            BoggleChar::S,
            BoggleChar::R,
        ]
    } else if die == 9 {
        seq![
            BoggleChar::Y,
            BoggleChar::I,
            BoggleChar::F,
            BoggleChar::A,
            BoggleChar::S,
            BoggleChar::R,
        ]
    } else if die == 10 {
        seq![
            BoggleChar::T,
            BoggleChar::E,
            BoggleChar::L,
            BoggleChar::P,
            BoggleChar::C,
            BoggleChar::I,
        ]
    } else if die == 11 {
        seq![
            BoggleChar::S,
            BoggleChar::S,
            BoggleChar::N,
            BoggleChar::S,
            BoggleChar::E,
            BoggleChar::U,
        ]
    } else if die == 12 {
        seq![
            BoggleChar::R,
            BoggleChar::I,
            BoggleChar::Y,
            BoggleChar::P,
            BoggleChar::R,
            BoggleChar::H,
        ]
    } else if die == 13 {
        seq![
            BoggleChar::D,
            BoggleChar::O,
            BoggleChar::R,
            BoggleChar::D,
            BoggleChar::L,
            BoggleChar::N,
        ]
    } else if die == 14 {
        seq![
            BoggleChar::C,
            BoggleChar::C,
            BoggleChar::W,
            BoggleChar::N,
            BoggleChar::S,
            BoggleChar::T,
        ]
    } else if die == 15 {
        seq![
            BoggleChar::T,
            BoggleChar::T,
            BoggleChar::O,
            BoggleChar::T,
            BoggleChar::E,
            BoggleChar::M,
        ]
    } else if die == 16 {
        seq![
            BoggleChar::S,
            BoggleChar::C,
            BoggleChar::T,
            BoggleChar::I,
            BoggleChar::E,
            BoggleChar::P,
        ]
    } else if die == 17 {
        seq![
            BoggleChar::E,
            BoggleChar::A,
            BoggleChar::N,
            BoggleChar::D,
            BoggleChar::N,
            BoggleChar::N,
        ]
    } else if die == 18 {
        seq![
            BoggleChar::M,
            BoggleChar::N,
            BoggleChar::N,
            BoggleChar::E,
            BoggleChar::A,
            BoggleChar::G,
        ]
    } else if die == 19 {
        seq![
            BoggleChar::U,
            BoggleChar::O,
            BoggleChar::T,
            BoggleChar::O,
            BoggleChar::W,
            BoggleChar::N,
        ]
    } else if die == 20 {
        seq![
            BoggleChar::A,
            BoggleChar::E,
            BoggleChar::A,
            BoggleChar::E,
            BoggleChar::E,
            BoggleChar::E,
        ]
    } else if die == 21 {
        seq![
            BoggleChar::Y,
            BoggleChar::I,
            BoggleChar::F,
            BoggleChar::P,
            BoggleChar::S,
            BoggleChar::R,
        ]
    } else if die == 22 {
        seq![
            BoggleChar::E,
            BoggleChar::E,
            BoggleChar::E,
            BoggleChar::E,
            BoggleChar::M,
            BoggleChar::A,
        ]
    } else if die == 23 {
        seq![
            BoggleChar::I,
            BoggleChar::T,
            BoggleChar::I,
            BoggleChar::T,
            BoggleChar::I,
            BoggleChar::E,
        ]
    } else {
        seq![
            BoggleChar::E,
            BoggleChar::T,
            BoggleChar::I,
            BoggleChar::L,
            BoggleChar::I,
            BoggleChar::C,
        ]
    }
}

/// The tiles among which a draw `chance`, from 1 to 85, lets a second draw choose. The
/// share of the 85 draws that a group has is the share of its letters in the game.
pub open spec fn fake_faces(chance: int) -> Seq<BoggleChar> {
    if chance <= 19 {
        seq![BoggleChar::E]
    } else if chance <= 32 {
        seq![BoggleChar::T]
    } else if chance <= 44 {
        seq![BoggleChar::R, BoggleChar::A]
    } else if chance <= 55 {
        seq![BoggleChar::I, BoggleChar::N, BoggleChar::O]
    } else if chance <= 64 {
        seq![BoggleChar::S]
    } else if chance <= 70 {
        seq![BoggleChar::D]
    } else if chance <= 75 {
        seq![BoggleChar::C, BoggleChar::H, BoggleChar::L]
    } else if chance <= 79 {
        seq![BoggleChar::F, BoggleChar::M, BoggleChar::U, BoggleChar::P]
    } else if chance <= 82 {
        seq![BoggleChar::G, BoggleChar::Y]
    } else if chance <= 84 {
        seq![BoggleChar::W]
    } else {
        seq![
            BoggleChar::B,
            BoggleChar::J,
            BoggleChar::K,
            BoggleChar::Qu,
            BoggleChar::V,
            BoggleChar::X,
        ]
    }
}

/// The tile that the draws `chance` and `chance2` give: the face of the group of `chance`
/// at place `chance2`, counted from 1. A second draw past the group gives the group's last
/// tile, but in the last group, from 85 on, `Z`.
pub open spec fn fake_tile(chance: int, chance2: int) -> BoggleChar {
    let faces = fake_faces(chance);
    if 1 <= chance2 <= faces.len() {
        faces[chance2 - 1]
    } else if chance > 84 {
        BoggleChar::Z
    } else {
        faces.last()
    }
}

/// Whether `order` holds each of the numbers below `n` once.
pub open spec fn is_order_of(order: Seq<usize>, n: nat) -> bool {
    order.to_multiset() == Seq::new(n, |i: int| i as usize).to_multiset()
}

/// The faces of one die of the game with `count` dice: 16 or, for any other count, 25.
pub open spec fn standard_faces(count: int, die: int) -> Seq<BoggleChar> {
    if count == 16 {
        standard_faces_4x4(die)
    } else {
        standard_faces_5x5(die)
    }
}

/// Whether the tiles `tiles` can come up when each of the `count` dice of a game is put on
/// a place of its own and thrown.
pub open spec fn thrown_from_standard_dice(tiles: Seq<BoggleChar>, count: int) -> bool {
    &&& tiles.len() == count
    &&& exists|order: Seq<usize>| #[trigger]
        is_order_of(order, count as nat) && shows_faces_in_order(tiles, count, order)
}

/// Whether each tile of `tiles` is on a face of the die that `order` has at its place.
pub open spec fn shows_faces_in_order(
    tiles: Seq<BoggleChar>,
    count: int,
    order: Seq<usize>,
) -> bool {
    forall|i: int|
        0 <= i < count ==> standard_faces(count, (#[trigger] order[i]) as int).contains(tiles[i])
}

/// Whether the tile can come up on a board without dice of its own.
pub open spec fn is_fake_tile(tile: BoggleChar) -> bool {
    exists|chance: int| 1 <= chance <= 85 && fake_faces(chance).contains(tile)
}

/// An order of the numbers below `n` has `n` items, each below `n`.
proof fn lemma_order_in_range(order: Seq<usize>, n: nat)
    requires
        is_order_of(order, n),
        n <= usize::MAX,
    ensures
        order.len() == n,
        forall|i: int| 0 <= i < order.len() ==> (#[trigger] order[i]) < n,
{
    let plain = Seq::new(n, |i: int| i as usize);
    order.to_multiset_ensures();
    plain.to_multiset_ensures();
    assert forall|i: int| 0 <= i < order.len() implies (#[trigger] order[i]) < n by {
        assert(order.to_multiset().count(order[i]) > 0);
        let j = choose|j: int| 0 <= j < plain.len() && plain[j] == order[i];
        assert(plain[j] == j as usize);
    }
}

/// `Rng::gen_range` of the rand crate, called on the thread's generator with the range
/// `low..high`: the number drawn is in that range. The call panics on an empty range, which
/// `requires` leaves out. Nothing else is known of the number.
#[verifier::external_body]
fn random_in_range(low: u32, high: u32) -> (r: u32)
    requires
        low < high,
    ensures
        low <= r < high,
{
    rand::thread_rng().gen_range(low..high)
}

/// `SliceRandom::shuffle` of the rand crate, called with the thread's generator: the items
/// are swapped among themselves, so the vector holds the same items as before, each as
/// often as before. Nothing is known of their order.
#[verifier::external_body]
fn shuffle(items: &mut Vec<usize>)
    ensures
        final(items)@.to_multiset() == old(items)@.to_multiset(),
{
    items.shuffle(&mut rand::thread_rng());
}

impl BoggleDie {
    /// The tiles on the six faces.
    spec fn faces(self) -> Seq<BoggleChar> {
        self.letters@
    }

    /// Throws the die: the tile on one of its faces.
    fn roll(&self) -> (r: BoggleChar)
        ensures
            self.faces().contains(r),
    {
        let face = random_in_range(0, 6) as usize;
        self.letters[face]
    }
}

/// One of the sixteen dice of the four-by-four game.
fn standard_die_4x4(die: usize) -> (r: BoggleDie)
    requires
        die < 16,
    ensures
        r.faces() == standard_faces_4x4(die as int),
{
    let letters = match die {
        0 => [
            BoggleChar::R,
            BoggleChar::I,
            BoggleChar::F,
            BoggleChar::O,
            BoggleChar::B,
            BoggleChar::X,
        ],
        1 => [
            BoggleChar::I,
            BoggleChar::F,
            BoggleChar::E,
            BoggleChar::H,
            BoggleChar::E,
            BoggleChar::Y,
        ],
        2 => [
            BoggleChar::D,
            BoggleChar::E,
            BoggleChar::N,
            BoggleChar::O,
            BoggleChar::W,
            BoggleChar::S,
        ],
        3 => [
            BoggleChar::U,
            BoggleChar::T,
            BoggleChar::O,
            BoggleChar::K,
            BoggleChar::N,
            BoggleChar::D,
        ],
        4 => [
            BoggleChar::H,
            BoggleChar::M,
            BoggleChar::S,
            BoggleChar::R,
            BoggleChar::A,
            BoggleChar::O,
        ],
        5 => [
            BoggleChar::L,
            BoggleChar::U,
            BoggleChar::P,
            BoggleChar::E,
            BoggleChar::T,
            BoggleChar::S,
        ],
        6 => [
            BoggleChar::A,
            BoggleChar::C,
            BoggleChar::I,
            BoggleChar::T,
            BoggleChar::O,
            BoggleChar::A,
        ],
        7 => [
            BoggleChar::Y,
            BoggleChar::L,
            BoggleChar::G,
            BoggleChar::K,
            BoggleChar::U,
            BoggleChar::E,
        ],
        8 => [
            BoggleChar::Qu,
            BoggleChar::B,
            BoggleChar::M,
            BoggleChar::J,
            BoggleChar::O,
            BoggleChar::A,
        ],
        9 => [
            BoggleChar::E,
            BoggleChar::H,
            BoggleChar::I,
            BoggleChar::S,
            BoggleChar::P,
            BoggleChar::N,
        ],
        10 => [
            BoggleChar::V,
            BoggleChar::E,
            BoggleChar::T,
            BoggleChar::I,
            BoggleChar::G,
            BoggleChar::N,
        ],
        11 => [
            BoggleChar::B,
            BoggleChar::A,
            BoggleChar::L,
            BoggleChar::I,
            BoggleChar::Y,
            BoggleChar::T,
        ],
        12 => [
            BoggleChar::E,
            BoggleChar::Z,
            BoggleChar::A,
            BoggleChar::V,
            BoggleChar::N,
            BoggleChar::D,
        ],
        13 => [
            BoggleChar::R,
            BoggleChar::A,
            BoggleChar::L,
            BoggleChar::E,
            BoggleChar::S,
            BoggleChar::C,
        ],
        14 => [
            BoggleChar::U,
            BoggleChar::W,
            BoggleChar::I,
            BoggleChar::L,
            BoggleChar::R,
            BoggleChar::G,
        ],
        _ => [
            BoggleChar::P,
            BoggleChar::A,
            BoggleChar::C,
            BoggleChar::E,
            BoggleChar::M,
            BoggleChar::D,
        ],
    };
    BoggleDie { letters }
}

/// One of the twenty-five dice of the five-by-five game.
fn standard_die_5x5(die: usize) -> (r: BoggleDie)
    requires
        die < 25,
    ensures
        r.faces() == standard_faces_5x5(die as int),
{
    let letters = match die {
        0 => [
            BoggleChar::Qu,
            BoggleChar::B,
            BoggleChar::Z,
            BoggleChar::J,
            BoggleChar::X,
            BoggleChar::K,
        ],
        1 => [
            BoggleChar::T,
            BoggleChar::O,
            BoggleChar::U,
            BoggleChar::O,
            BoggleChar::T,
            BoggleChar::O,
        ],
        2 => [
            BoggleChar::O,
            BoggleChar::V,
            BoggleChar::W,
            BoggleChar::R,
            BoggleChar::G,
            BoggleChar::R,
        ],
        3 => [
            BoggleChar::A,
            BoggleChar::A,
            BoggleChar::A,
            BoggleChar::F,
            BoggleChar::S,
            BoggleChar::R,
        ],
        4 => [
            BoggleChar::A,
            BoggleChar::U,
            BoggleChar::M,
            BoggleChar::E,
            BoggleChar::E,
            BoggleChar::G,
        ],
        5 => [
            BoggleChar::H,
            BoggleChar::H,
            BoggleChar::L,
            BoggleChar::R,
            BoggleChar::D,
            BoggleChar::O,
        ],
        6 => [
            BoggleChar::N,
            BoggleChar::H,
            BoggleChar::D,
            BoggleChar::T,
            BoggleChar::H,
            BoggleChar::O,
        ],
        7 => [
            BoggleChar::L,
            BoggleChar::H,
            BoggleChar::N,
            BoggleChar::R,
            BoggleChar::O,
            BoggleChar::D,
        ],
        8 => [
            BoggleChar::A,
            BoggleChar::F,
            BoggleChar::A,
            BoggleChar::I,
            BoggleChar::S,
            BoggleChar::R,
        ],
        9 => [
            BoggleChar::Y,
            BoggleChar::I,
            BoggleChar::F,
            BoggleChar::A,
            BoggleChar::S,
            BoggleChar::R,
        ],
        10 => [
            BoggleChar::T,
            BoggleChar::E,
            BoggleChar::L,
            BoggleChar::P,
            BoggleChar::C,
            BoggleChar::I,
        ],
        11 => [
            BoggleChar::S,
            BoggleChar::S,
            BoggleChar::N,
            BoggleChar::S,
            BoggleChar::E,
            BoggleChar::U,
        ],
        12 => [
            BoggleChar::R,
            BoggleChar::I,
            BoggleChar::Y,
            BoggleChar::P,
            BoggleChar::R,
            BoggleChar::H,
        ],
        13 => [
            BoggleChar::D,
            BoggleChar::O,
            BoggleChar::R,
            BoggleChar::D,
            BoggleChar::L,
            BoggleChar::N,
        ],
        14 => [
            BoggleChar::C,
            BoggleChar::C,
            BoggleChar::W,
            BoggleChar::N,
            BoggleChar::S,
            BoggleChar::T,
        ],
        15 => [
            BoggleChar::T,
            BoggleChar::T,
            BoggleChar::O,
            BoggleChar::T,
            BoggleChar::E,
            BoggleChar::M,
        ],
        16 => [
            BoggleChar::S,
            BoggleChar::C,
            BoggleChar::T,
            BoggleChar::I,
            BoggleChar::E,
            BoggleChar::P,
        ],
        17 => [
            BoggleChar::E,
            BoggleChar::A,
            BoggleChar::N,
            BoggleChar::D,
            BoggleChar::N,
            BoggleChar::N,
        ],
        18 => [
            BoggleChar::M,
            BoggleChar::N,
            BoggleChar::N,
            BoggleChar::E,
            BoggleChar::A,
            BoggleChar::G,
        ],
        19 => [
            BoggleChar::U,
            BoggleChar::O,
            BoggleChar::T,
            BoggleChar::O,
            BoggleChar::W,
            BoggleChar::N,
        ],
        20 => [
            BoggleChar::A,
            BoggleChar::E,
            BoggleChar::A,
            BoggleChar::E,
            BoggleChar::E,
            BoggleChar::E,
        ],
        21 => [
            BoggleChar::Y,
            BoggleChar::I,
            BoggleChar::F,
            BoggleChar::P,
            BoggleChar::S,
            BoggleChar::R,
        ],
        22 => [
            BoggleChar::E,
            BoggleChar::E,
            BoggleChar::E,
            BoggleChar::E,
            BoggleChar::M,
            BoggleChar::A,
        ],
        23 => [
            BoggleChar::I,
            BoggleChar::T,
            BoggleChar::I,
            BoggleChar::T,
            BoggleChar::I,
            BoggleChar::E,
        ],
        _ => [
            BoggleChar::E,
            BoggleChar::T,
            BoggleChar::I,
            BoggleChar::L,
            BoggleChar::I,
            BoggleChar::C,
        ],
    };
    BoggleDie { letters }
}

/// How many tiles the group of the draw `chance` holds.
pub fn fake_group_size(chance: u32) -> (r: u32)
    ensures
        r == fake_faces(chance as int).len(),
        1 <= r <= 6,
{
    if chance <= 19 {
        1
    } else if chance <= 32 {
        1
    } else if chance <= 44 {
        2
    } else if chance <= 55 {
        3
    } else if chance <= 64 {
        1
    } else if chance <= 70 {
        1
    } else if chance <= 75 {
        3
    } else if chance <= 79 {
        4
    } else if chance <= 82 {
        2
    } else if chance <= 84 {
        1
    } else {
        6
    }
}

/// The tile that two draws give on a board without dice of its own.
pub fn pick_fake_tile(chance: u32, chance2: u32) -> (r: BoggleChar)
    ensures
        r == fake_tile(chance as int, chance2 as int),
{
    if chance <= 19 {
        return BoggleChar::E;
    } else if chance <= 32 {
        return BoggleChar::T;
    } else if chance <= 44 {
        if chance2 == 1 {
            return BoggleChar::R;
        } else {
            return BoggleChar::A;
        }
    } else if chance <= 55 {
        if chance2 == 1 {
            return BoggleChar::I;
        } else if chance2 == 2 {
            return BoggleChar::N;
        } else {
            return BoggleChar::O;
        }
    } else if chance <= 64 {
        return BoggleChar::S;
    } else if chance <= 70 {
        return BoggleChar::D;
    } else if chance <= 75 {
        if chance2 == 1 {
            return BoggleChar::C;
        } else if chance2 == 2 {
            return BoggleChar::H;
        } else {
            return BoggleChar::L;
        }
    } else if chance <= 79 {
        if chance2 == 1 {
            return BoggleChar::F;
        } else if chance2 == 2 {
            return BoggleChar::M;
        } else if chance2 == 3 {
            return BoggleChar::U;
        } else {
            return BoggleChar::P;
        }
    } else if chance <= 82 {
        if chance2 == 1 {
            return BoggleChar::G;
        } else {
            return BoggleChar::Y;
        }
    } else if chance <= 84 {
        return BoggleChar::W;
    }
    if chance2 == 1 {
        return BoggleChar::B;
    } else if chance2 == 2 {
        return BoggleChar::J;
    } else if chance2 == 3 {
        return BoggleChar::K;
    } else if chance2 == 4 {
        return BoggleChar::Qu;
    } else if chance2 == 5 {
        return BoggleChar::V;
    } else if chance2 == 6 {
        return BoggleChar::X;
    }
    BoggleChar::Z
}

/// Draws a tile for a board without dice of its own, by the share of each letter in the
/// game: one draw from 1 to 85 picks a group of letters, and a second one, where the group
/// has more than one, the letter.
fn roll_fake_dice() -> (r: BoggleChar)
    ensures
        is_fake_tile(r),
{
    let chance = random_in_range(1, 86);
    let sides = fake_group_size(chance);
    let chance2 = if sides > 1 {
        random_in_range(1, sides + 1)
    } else {
        1
    };
    let r = pick_fake_tile(chance, chance2);
    r
}

/// The numbers below `n`, in rising order.
fn plain_order(n: usize) -> (r: Vec<usize>)
    ensures
        r@ == Seq::new(n as nat, |i: int| i as usize),
{
    let mut r: Vec<usize> = Vec::new();
    for i in 0..n
        invariant
            r@ == Seq::new(i as nat, |i: int| i as usize),
    {
        r.push(i);
    }
    r
}

/// Puts the dice of a game with `count` dice in a random order and throws each.
fn roll_standard_dice(count: usize) -> (r: Vec<BoggleChar>)
    requires
        count == 16 || count == 25,
    ensures
        thrown_from_standard_dice(r@, count as int),
{
    let mut indices = plain_order(count);
    shuffle(&mut indices);
    proof {
        lemma_order_in_range(indices@, count as nat);
    }
    let mut chars: Vec<BoggleChar> = Vec::new();
    for i in 0..count
        invariant
            count == 16 || count == 25,
            indices@.len() == count,
            forall|k: int| 0 <= k < count ==> (#[trigger] indices@[k]) < count,
            chars@.len() == i,
            forall|k: int|
                0 <= k < i ==> standard_faces(
                    count as int,
                    (#[trigger] indices@[k]) as int,
                ).contains(chars@[k]),
    {
        let index = indices[i];
        let die = if count == 16 {
            standard_die_4x4(index)
        } else {
            standard_die_5x5(index)
        };
        chars.push(die.roll());
    }
    assert(is_order_of(indices@, count as nat) && shows_faces_in_order(
        chars@,
        count as int,
        indices@,
    ));
    chars
}

/// The tiles for a board of `board_size` rows and columns, row after row. With four rows
/// the sixteen dice of that game are thrown, with five the twenty-five of that one, each
/// die on a place of its own; for any other size each tile is drawn by the share of its
/// letter in the game.
pub fn scramble_dice(board_size: i32) -> (r: Vec<BoggleChar>)
    requires
        board_size * board_size <= i32::MAX,
    ensures
        r@.len() == board_size * board_size,
        board_size == 4 ==> thrown_from_standard_dice(r@, 16),
        board_size == 5 ==> thrown_from_standard_dice(r@, 25),
        board_size != 4 && board_size != 5 ==> forall|i: int|
            0 <= i < r@.len() ==> is_fake_tile(#[trigger] r@[i]),
{
    match board_size {
        4 => roll_standard_dice(16),
        5 => roll_standard_dice(25),
        _ => {
            assert(board_size * board_size >= 0) by (nonlinear_arith);
            let count = board_size * board_size;
            let mut chars: Vec<BoggleChar> = Vec::new();
            for i in 0..count
                invariant
                    chars@.len() == i,
                    forall|k: int| 0 <= k < chars@.len() ==> is_fake_tile(#[trigger] chars@[k]),
            {
                chars.push(roll_fake_dice());
            }
            chars
        },
    }
}

} // verus!
