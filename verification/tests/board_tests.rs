use boggle::boggle_utils::boggle_board::{BoardError, BoggleBoard};
use boggle::boggle_utils::boggle_char::BoggleChar;
use boggle::boggle_utils::boggle_dice::{fake_group_size, pick_fake_tile, scramble_dice};

const ALL_TILES: [BoggleChar; 26] = [
    BoggleChar::A,
    BoggleChar::B,
    BoggleChar::C,
    BoggleChar::D,
    BoggleChar::E,
    BoggleChar::F,
    BoggleChar::G,
    BoggleChar::H,
    BoggleChar::I,
    BoggleChar::J,
    BoggleChar::K,
    BoggleChar::L,
    BoggleChar::M,
    BoggleChar::N,
    BoggleChar::O,
    BoggleChar::P,
    BoggleChar::Qu,
    BoggleChar::R,
    BoggleChar::S,
    BoggleChar::T,
    BoggleChar::U,
    BoggleChar::V,
    BoggleChar::W,
    BoggleChar::X,
    BoggleChar::Y,
    BoggleChar::Z,
];

#[test]
fn each_tile_has_one_or_two_small_letters() {
    for (i, tile) in ALL_TILES.iter().enumerate() {
        let letters = tile.to_char_vec();
        let first = (b'a' + i as u8) as char;
        if *tile == BoggleChar::Qu {
            assert_eq!(letters, vec!['q', 'u']);
            assert_eq!(tile.to_string(), "Qu");
        } else {
            assert_eq!(letters, vec![first]);
            assert_eq!(tile.to_string(), first.to_ascii_uppercase().to_string());
        }
    }
}

#[test]
fn tiles_are_made_from_letters_in_either_case() {
    for (i, tile) in ALL_TILES.iter().enumerate() {
        let small = (b'a' + i as u8) as char;
        let capital = (b'A' + i as u8) as char;
        assert_eq!(BoggleChar::from_char(small), Some(*tile));
        assert_eq!(BoggleChar::from_char(capital), Some(*tile));
        assert_eq!(BoggleChar::from(b'A' + i as u8), *tile);
    }
    for c in ['1', ' ', '@', '[', '`', '{', '\u{e9}', '\u{141}'] {
        assert_eq!(BoggleChar::from_char(c), None);
    }
}

#[test]
fn append_to_adds_the_letters_of_the_tile() {
    let mut text = String::from("s");
    BoggleChar::Qu.append_to(&mut text);
    BoggleChar::I.append_to(&mut text);
    BoggleChar::T.append_to(&mut text);
    assert_eq!(text, "squit");
}

#[test]
fn board_is_filled_row_after_row() {
    let board = BoggleBoard::from("abcdefqhi".chars().collect(), 3);
    assert_eq!(board.get_size(), 3);
    assert_eq!(board.access((0, 0)), BoggleChar::A);
    assert_eq!(board.access((0, 2)), BoggleChar::C);
    assert_eq!(board.access((1, 0)), BoggleChar::D);
    assert_eq!(board.access((2, 0)), BoggleChar::Qu);
    assert_eq!(board.access((2, 2)), BoggleChar::I);
    assert_eq!(
        board.get_chars(),
        vec![
            vec![BoggleChar::A, BoggleChar::B, BoggleChar::C],
            vec![BoggleChar::D, BoggleChar::E, BoggleChar::F],
            vec![BoggleChar::Qu, BoggleChar::H, BoggleChar::I],
        ]
    );
    assert_eq!(board.to_string(), "[A, B, C]\n[D, E, F]\n[Qu, H, I]\n");
    assert_eq!(board.clone().get_chars(), board.get_chars());
}

#[test]
fn in_bounds_tells_the_cells_of_the_board() {
    let board = BoggleBoard::from("abcd".chars().collect(), 2);
    for x in -2..4 {
        for y in -2..4 {
            let inside = (0..2).contains(&x) && (0..2).contains(&y);
            assert_eq!(board.in_bounds(&(x, y)), inside);
        }
    }
    let empty = BoggleBoard::from(vec![], 0);
    assert!(!empty.in_bounds(&(0, 0)));
    assert_eq!(empty.to_string(), "");
    assert!(empty.get_chars().is_empty());
}

#[test]
fn checked_from_tells_why_there_is_no_board() {
    let letters: Vec<char> = "abcd".chars().collect();
    assert!(BoggleBoard::checked_from(letters.clone(), 2).is_ok());
    assert_eq!(
        BoggleBoard::checked_from(letters.clone(), 3).err(),
        Some(BoardError::WrongLength)
    );
    assert_eq!(
        BoggleBoard::checked_from(letters.clone(), 46341).err(),
        Some(BoardError::TooLarge)
    );
    assert_eq!(
        BoggleBoard::checked_from(letters.clone(), -46341).err(),
        Some(BoardError::TooLarge)
    );
    assert_eq!(
        BoggleBoard::checked_from("ab1d".chars().collect(), 2).err(),
        Some(BoardError::NotALetter)
    );
    assert_eq!(
        BoggleBoard::checked_from(vec![], 2).err(),
        Some(BoardError::WrongLength)
    );
}

#[test]
fn from_tiles_asks_for_as_many_tiles_as_cells() {
    let tiles = vec![BoggleChar::C, BoggleChar::A, BoggleChar::R, BoggleChar::T];
    let board = BoggleBoard::from_tiles(tiles.clone(), 2).ok().unwrap();
    assert_eq!(board.access((1, 0)), BoggleChar::R);
    assert_eq!(
        BoggleBoard::from_tiles(tiles.clone(), 3).err(),
        Some(BoardError::WrongLength)
    );
    assert_eq!(
        BoggleBoard::from_tiles(tiles, 50000).err(),
        Some(BoardError::TooLarge)
    );
}

const DICE_4X4: [&str; 16] = [
    "RIFOBX", "IFEHEY", "DENOWS", "UTOKND", "HMSRAO", "LUPETS", "ACITOA", "YLGKUE", "QBMJOA",
    "EHISPN", "VETIGN", "BALIYT", "EZAVND", "RALESC", "UWILRG", "PACEMD",
];

fn on_die(die: &str, tile: BoggleChar) -> bool {
    die.chars().any(|c| BoggleChar::from_char(c) == Some(tile))
}

// Whether each tile can be given a die of its own that shows it.
fn dice_can_show(tiles: &[BoggleChar], used: &mut Vec<bool>, at: usize) -> bool {
    if at == tiles.len() {
        return true;
    }
    for die in 0..DICE_4X4.len() {
        if !used[die] && on_die(DICE_4X4[die], tiles[at]) {
            used[die] = true;
            if dice_can_show(tiles, used, at + 1) {
                return true;
            }
            used[die] = false;
        }
    }
    false
}

#[test]
fn four_by_four_board_is_thrown_from_the_sixteen_dice() {
    for _ in 0..20 {
        let tiles = scramble_dice(4);
        assert_eq!(tiles.len(), 16);
        assert!(dice_can_show(&tiles, &mut vec![false; 16], 0));
    }
}

#[test]
fn dice_are_put_in_a_new_order_for_each_board() {
    // Were the dice left in their order, the first tile would always be on the first die.
    let moved = (0..200).any(|_| !on_die(DICE_4X4[0], scramble_dice(4)[0]));
    assert!(moved);
}

#[test]
fn dice_show_more_than_one_face() {
    let tiles: Vec<BoggleChar> = (0..40).flat_map(|_| scramble_dice(5)).collect();
    assert_eq!(tiles.len(), 1000);
    assert!(tiles.iter().any(|t| *t != tiles[0]));
    let drawn = scramble_dice(10);
    assert_eq!(drawn.len(), 100);
    assert!(drawn.iter().any(|t| *t != BoggleChar::E));
    assert!(drawn.iter().all(|t| *t != BoggleChar::Z));
}

#[test]
fn scramble_dice_gives_a_tile_for_each_cell() {
    for size in [0, 1, 2, 3, 4, 5, 6, 9] {
        assert_eq!(scramble_dice(size).len(), (size * size) as usize);
    }
    assert_eq!(scramble_dice(-3).len(), 9);
    let board = BoggleBoard::new(6);
    assert_eq!(board.get_size(), 6);
    assert_eq!(board.get_chars().len(), 6);
    assert!(board.get_chars().iter().all(|row| row.len() == 6));
    assert!(BoggleBoard::new(-1).get_chars().is_empty());
}

#[test]
fn fake_tiles_follow_the_table() {
    assert_eq!(pick_fake_tile(1, 1), BoggleChar::E);
    assert_eq!(pick_fake_tile(19, 1), BoggleChar::E);
    assert_eq!(pick_fake_tile(20, 1), BoggleChar::T);
    assert_eq!(pick_fake_tile(32, 1), BoggleChar::T);
    assert_eq!(pick_fake_tile(33, 1), BoggleChar::R);
    assert_eq!(pick_fake_tile(44, 2), BoggleChar::A);
    assert_eq!(pick_fake_tile(45, 1), BoggleChar::I);
    assert_eq!(pick_fake_tile(50, 2), BoggleChar::N);
    assert_eq!(pick_fake_tile(55, 3), BoggleChar::O);
    assert_eq!(pick_fake_tile(56, 1), BoggleChar::S);
    assert_eq!(pick_fake_tile(65, 1), BoggleChar::D);
    assert_eq!(pick_fake_tile(71, 1), BoggleChar::C);
    assert_eq!(pick_fake_tile(73, 2), BoggleChar::H);
    assert_eq!(pick_fake_tile(75, 3), BoggleChar::L);
    assert_eq!(pick_fake_tile(76, 1), BoggleChar::F);
    assert_eq!(pick_fake_tile(77, 2), BoggleChar::M);
    assert_eq!(pick_fake_tile(78, 3), BoggleChar::U);
    assert_eq!(pick_fake_tile(79, 4), BoggleChar::P);
    assert_eq!(pick_fake_tile(80, 1), BoggleChar::G);
    assert_eq!(pick_fake_tile(82, 2), BoggleChar::Y);
    assert_eq!(pick_fake_tile(83, 1), BoggleChar::W);
    assert_eq!(pick_fake_tile(84, 1), BoggleChar::W);
    assert_eq!(pick_fake_tile(85, 1), BoggleChar::B);
    assert_eq!(pick_fake_tile(85, 2), BoggleChar::J);
    assert_eq!(pick_fake_tile(85, 3), BoggleChar::K);
    assert_eq!(pick_fake_tile(85, 4), BoggleChar::Qu);
    assert_eq!(pick_fake_tile(85, 5), BoggleChar::V);
    assert_eq!(pick_fake_tile(85, 6), BoggleChar::X);
    assert_eq!(pick_fake_tile(85, 7), BoggleChar::Z);
    assert_eq!(pick_fake_tile(40, 9), BoggleChar::A);
    let sizes: Vec<u32> = [1, 20, 33, 45, 56, 65, 71, 76, 80, 83, 85]
        .iter()
        .map(|c| fake_group_size(*c))
        .collect();
    assert_eq!(sizes, vec![1, 1, 2, 3, 1, 1, 3, 4, 2, 1, 6]);
}
