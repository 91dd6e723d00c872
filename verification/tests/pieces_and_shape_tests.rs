use chess_core::{get_piece_type, placement_is_standard, Color, PieceKind, Player};

#[test]
fn uppercase_letters_classify_as_white() {
    assert_eq!(get_piece_type('P'), (PieceKind::Pawn, Color::White));
    assert_eq!(get_piece_type('N'), (PieceKind::Knight, Color::White));
    assert_eq!(get_piece_type('B'), (PieceKind::Bishop, Color::White));
    assert_eq!(get_piece_type('R'), (PieceKind::Rook, Color::White));
    assert_eq!(get_piece_type('Q'), (PieceKind::Queen, Color::White));
    assert_eq!(get_piece_type('K'), (PieceKind::King, Color::White));
}

#[test]
fn lowercase_letters_classify_as_black() {
    assert_eq!(get_piece_type('p'), (PieceKind::Pawn, Color::Black));
    assert_eq!(get_piece_type('n'), (PieceKind::Knight, Color::Black));
    assert_eq!(get_piece_type('b'), (PieceKind::Bishop, Color::Black));
    assert_eq!(get_piece_type('r'), (PieceKind::Rook, Color::Black));
    assert_eq!(get_piece_type('q'), (PieceKind::Queen, Color::Black));
    assert_eq!(get_piece_type('k'), (PieceKind::King, Color::Black));
}

#[test]
fn standard_placements_pass_the_shape_check() {
    assert!(placement_is_standard("rnbqkbnr/pppppppp/8/8/8/8/PPPPPPPP/RNBQKBNR"));
    assert!(placement_is_standard("8/8/8/8/8/8/8/8"));
    assert!(placement_is_standard("4k3/8/8/8/8/8/8/R3K2R"));
}

#[test]
fn short_rows_fail_the_shape_check() {
    assert!(!placement_is_standard("ppp/8/8/8/8/8/8/8"));
    assert!(!placement_is_standard("7/8/8/8/8/8/8/8"));
}

#[test]
fn long_rows_fail_the_shape_check() {
    assert!(!placement_is_standard("p8/8/8/8/8/8/8/8"));
    assert!(!placement_is_standard("rnbqkbnrr/pppppppp/8/8/8/8/PPPPPPPP/RNBQKBNR"));
}

#[test]
fn wrong_row_counts_fail_the_shape_check() {
    assert!(!placement_is_standard("8/8/8/8/8/8/8"));
    assert!(!placement_is_standard("8/8/8/8/8/8/8/8/8"));
    assert!(!placement_is_standard(""));
}

#[test]
fn players_compare_by_name_and_side() {
    let a = Player {
        name: String::from("ada"),
        color: Color::White,
    };
    let b = Player {
        name: String::from("ada"),
        color: Color::White,
    };
    let c = Player {
        name: String::from("ada"),
        color: Color::Black,
    };
    assert_eq!(a, b);
    assert_ne!(a, c);
}
