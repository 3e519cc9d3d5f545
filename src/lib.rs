//! Rule engine for chess on a board that is unbounded along the rank axis.
pub mod chess_board;
pub mod chess_piece;
pub mod command_input;
pub mod rules;
