//! Perfect-play Connect Four solver on a 7 x 6 board.
pub mod board;
pub mod game;
pub mod move_sorter;
pub mod transposition_table;
pub mod opening_book;
pub mod engine;
pub mod book_generator;
