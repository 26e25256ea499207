pub mod boggle_board;
pub mod boggle_char;
pub mod boggle_dice;
