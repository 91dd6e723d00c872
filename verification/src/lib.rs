//! A chess library: a board-notation decoder that turns the compact
//! six-field textual description of a game state into a structured,
//! validated snapshot of the board.
//!
//! The decoder is a single linear pass: split the text into its six
//! fields, run-length-expand the digit placeholders of the placement
//! field, and classify each piece letter into a colored piece at its
//! row/column square. Every accepted input and every rejection is
//! pinned down by the contract on [`fen::parse_fen`].

pub mod fen;
pub mod pieces;
pub mod text;

pub use fen::{
    parse_fen, placement_is_standard, Fen, FenError, NumericField, MAX_NOTATION_LEN,
};
pub use pieces::{get_piece_type, Color, Piece, PieceKind, Player};
