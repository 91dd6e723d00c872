//! Colors, piece kinds, and the classification of a placement letter
//! into a piece: uppercase letters are White, lowercase Black, and
//! the letter itself names the kind.

use vstd::prelude::*;

verus! {

#[derive(Debug, PartialEq, Eq, Structural, Clone, Copy)]
pub enum Color {
    White,
    Black,
}

#[derive(Debug, PartialEq, Eq, Structural, Clone, Copy)]
pub enum PieceKind {
    Pawn,
    Knight,
    Bishop,
    Rook,
    Queen,
    King,
}

/// A participant of a game: a display name and the side they play.
#[derive(Debug, PartialEq, Eq)]
pub struct Player {
    pub name: String,
    pub color: Color,
}

/// One piece of a decoded board snapshot: its (row, column) square,
/// side, and kind. A freshly decoded piece is alive and unmoved.
#[derive(Debug, PartialEq, Eq, Clone, Copy)]
pub struct Piece {
    pub position: (i32, i32),
    pub color: Color,
    pub kind: PieceKind,
    pub alive: bool,
    pub moved: bool,
}

/// A White placement letter.
pub open spec fn is_white_piece_char(c: char) -> bool {
    c == 'P' || c == 'N' || c == 'B' || c == 'R' || c == 'Q' || c == 'K'
}

/// A Black placement letter.
pub open spec fn is_black_piece_char(c: char) -> bool {
    c == 'p' || c == 'n' || c == 'b' || c == 'r' || c == 'q' || c == 'k'
}

/// One of the twelve recognized piece letters.
pub open spec fn is_piece_char(c: char) -> bool {
    is_white_piece_char(c) || is_black_piece_char(c)
}

/// The kind a recognized letter stands for.
pub open spec fn spec_piece_kind(c: char) -> PieceKind {
    if c == 'P' || c == 'p' {
        PieceKind::Pawn
    } else if c == 'N' || c == 'n' {
        PieceKind::Knight
    } else if c == 'B' || c == 'b' {
        PieceKind::Bishop
    } else if c == 'R' || c == 'r' {
        PieceKind::Rook
    } else if c == 'Q' || c == 'q' {
        PieceKind::Queen
    } else {
        PieceKind::King
    }
}

/// The side a recognized letter stands for: uppercase is White.
pub open spec fn spec_piece_color(c: char) -> Color {
    if is_white_piece_char(c) {
        Color::White
    } else {
        Color::Black
    }
}

/// Whether `c` is one of the twelve recognized piece letters.
pub fn is_piece_letter(c: char) -> (b: bool)
    ensures
        b == is_piece_char(c),
{
    c == 'P' || c == 'N' || c == 'B' || c == 'R' || c == 'Q' || c == 'K' || c == 'p' || c == 'n'
        || c == 'b' || c == 'r' || c == 'q' || c == 'k'
}

/// Classify a recognized piece letter into its kind and color.
pub fn get_piece_type(c: char) -> (r: (PieceKind, Color))
    requires
        is_piece_char(c),
    ensures
        r.0 == spec_piece_kind(c),
        r.1 == spec_piece_color(c),
{
    let kind = match c {
        'P' | 'p' => PieceKind::Pawn,
        'N' | 'n' => PieceKind::Knight,
        'B' | 'b' => PieceKind::Bishop,
        'R' | 'r' => PieceKind::Rook,
        'Q' | 'q' => PieceKind::Queen,
        _ => PieceKind::King,
    };
    let color = if c == 'P' || c == 'N' || c == 'B' || c == 'R' || c == 'Q' || c == 'K' {
        Color::White
    } else {
        Color::Black
    };
    (kind, color)
}

} // verus!
