use chess_core::{parse_fen, Color, Fen, FenError, NumericField, Piece, PieceKind};

fn decode_ok(text: &str) -> Fen {
    match parse_fen(text) {
        Ok(f) => f,
        Err(e) => panic!("expected a decoded position, got {:?}", e),
    }
}

#[test]
fn starting_position_decodes() {
    let f = decode_ok("rnbqkbnr/pppppppp/8/8/8/8/PPPPPPPP/RNBQKBNR w KQkq - 0 1");
    assert_eq!(f.pieces.len(), 32);
    assert_eq!(f.active_color, Color::White);
    assert_eq!(f.castling_rights, (true, true, true, true));
    assert_eq!(f.en_passant, None);
    assert_eq!(f.halfmove_clock, 0);
    assert_eq!(f.fullmove_number, 1);
}

#[test]
fn starting_position_piece_details() {
    let f = decode_ok("rnbqkbnr/pppppppp/8/8/8/8/PPPPPPPP/RNBQKBNR w KQkq - 0 1");
    let first = Piece {
        position: (0, 0),
        color: Color::Black,
        kind: PieceKind::Rook,
        alive: true,
        moved: false,
    };
    assert_eq!(f.pieces[0], first);
    let last = Piece {
        position: (7, 7),
        color: Color::White,
        kind: PieceKind::Rook,
        alive: true,
        moved: false,
    };
    assert_eq!(f.pieces[31], last);
    let queen = Piece {
        position: (0, 3),
        color: Color::Black,
        kind: PieceKind::Queen,
        alive: true,
        moved: false,
    };
    assert_eq!(f.pieces[3], queen);
}

#[test]
fn empty_board_decodes() {
    let f = decode_ok("8/8/8/8/8/8/8/8 b - - 5 10");
    assert_eq!(f.pieces.len(), 0);
    assert_eq!(f.active_color, Color::Black);
    assert_eq!(f.castling_rights, (false, false, false, false));
    assert_eq!(f.en_passant, None);
    assert_eq!(f.halfmove_clock, 5);
    assert_eq!(f.fullmove_number, 10);
}

#[test]
fn five_fields_is_a_format_error() {
    assert_eq!(
        parse_fen("8/8/8/8/8/8/8/8 b - - 5"),
        Err(FenError::Format)
    );
}

#[test]
fn seven_fields_is_a_format_error() {
    assert_eq!(
        parse_fen("8/8/8/8/8/8/8/8 b - - 5 10 extra"),
        Err(FenError::Format)
    );
}

#[test]
fn empty_input_is_a_format_error() {
    assert_eq!(parse_fen(""), Err(FenError::Format));
}

#[test]
fn unknown_letter_is_a_classification_error() {
    assert_eq!(
        parse_fen("X7/8/8/8/8/8/8/8 w - - 0 1"),
        Err(FenError::Classification('X'))
    );
}

#[test]
fn first_bad_character_is_reported() {
    assert_eq!(
        parse_fen("rnbqkbnr/ppppxppp/8/8/8/8/PPPPyPPP/RNBQKBNR w KQkq - 0 1"),
        Err(FenError::Classification('x'))
    );
}

#[test]
fn digit_nine_is_a_classification_error() {
    assert_eq!(
        parse_fen("9/8/8/8/8/8/8/8 w - - 0 1"),
        Err(FenError::Classification('9'))
    );
}

#[test]
fn digit_zero_is_a_classification_error() {
    assert_eq!(
        parse_fen("0/8/8/8/8/8/8/8 w - - 0 1"),
        Err(FenError::Classification('0'))
    );
}

#[test]
fn non_numeric_halfmove_is_rejected() {
    assert_eq!(
        parse_fen("8/8/8/8/8/8/8/8 w - - x 1"),
        Err(FenError::Numeric(NumericField::Halfmove))
    );
}

#[test]
fn signed_halfmove_is_rejected() {
    assert_eq!(
        parse_fen("8/8/8/8/8/8/8/8 w - - -5 1"),
        Err(FenError::Numeric(NumericField::Halfmove))
    );
}

#[test]
fn oversized_halfmove_is_rejected() {
    assert_eq!(
        parse_fen("8/8/8/8/8/8/8/8 w - - 99999999999 1"),
        Err(FenError::Numeric(NumericField::Halfmove))
    );
}

#[test]
fn non_numeric_fullmove_is_rejected() {
    assert_eq!(
        parse_fen("8/8/8/8/8/8/8/8 w - - 0 one"),
        Err(FenError::Numeric(NumericField::Fullmove))
    );
}

#[test]
fn zero_fullmove_is_rejected() {
    assert_eq!(
        parse_fen("8/8/8/8/8/8/8/8 w - - 0 0"),
        Err(FenError::Numeric(NumericField::Fullmove))
    );
}

#[test]
fn classification_is_checked_before_the_counters() {
    assert_eq!(
        parse_fen("Z7/8/8/8/8/8/8/8 w - - x y"),
        Err(FenError::Classification('Z'))
    );
}

#[test]
fn unrecognized_active_color_defaults_to_black() {
    let f = decode_ok("8/8/8/8/8/8/8/8 x - - 0 1");
    assert_eq!(f.active_color, Color::Black);
}

#[test]
fn castling_subset_sets_exactly_its_flags() {
    let f = decode_ok("8/8/8/8/8/8/8/8 w Kq - 0 1");
    assert_eq!(f.castling_rights, (true, false, false, true));
    let g = decode_ok("8/8/8/8/8/8/8/8 w qK - 0 1");
    assert_eq!(g.castling_rights, (true, false, false, true));
}

#[test]
fn en_passant_field_is_read_but_never_recorded() {
    let f = decode_ok("8/8/8/8/8/8/8/8 w - e3 0 1");
    assert_eq!(f.en_passant, None);
}

#[test]
fn single_piece_lands_on_its_square() {
    let f = decode_ok("8/8/8/8/8/8/8/R7 b - - 0 1");
    let rook = Piece {
        position: (7, 0),
        color: Color::White,
        kind: PieceKind::Rook,
        alive: true,
        moved: false,
    };
    assert_eq!(f.pieces, vec![rook]);
}

#[test]
fn pieces_follow_row_major_scan_order() {
    let f = decode_ok("r1b2n2/8/8/4K3/8/8/8/8 w - - 0 1");
    assert_eq!(f.pieces.len(), 4);
    assert_eq!(f.pieces[0].position, (0, 0));
    assert_eq!(f.pieces[0].kind, PieceKind::Rook);
    assert_eq!(f.pieces[1].position, (0, 2));
    assert_eq!(f.pieces[1].kind, PieceKind::Bishop);
    assert_eq!(f.pieces[2].position, (0, 5));
    assert_eq!(f.pieces[2].kind, PieceKind::Knight);
    assert_eq!(f.pieces[3].position, (3, 4));
    assert_eq!(f.pieces[3].kind, PieceKind::King);
    assert_eq!(f.pieces[3].color, Color::White);
}

#[test]
fn piece_count_matches_the_expanded_placement() {
    let f = decode_ok("pp4pp/8/3qq3/8/8/2N5/8/7k w - - 3 9");
    assert_eq!(f.pieces.len(), 8);
}
