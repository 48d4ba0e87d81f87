use sanlint::board::{Board, Color};
use sanlint::san::{self, Piece};

fn apply_moves(board: &mut Board, moves: &[&str]) {
    for mv in moves {
        let parsed = san::parse(mv, false).unwrap_or_else(|e| panic!("'{mv}' failed to parse: {e:?}"));
        board.apply(&parsed).unwrap_or_else(|e| panic!("'{mv}' rejected: {e}"));
    }
}

#[test]
fn plays_out_a_ruy_lopez_opening() {
    let mut board = Board::start_position();
    apply_moves(&mut board, &["e4", "e5", "Nf3", "Nc6", "Bb5"]);
    assert_eq!(board.piece_at("b5"), Some((Color::White, Piece::Bishop)));
    assert_eq!(board.piece_at("e4"), Some((Color::White, Piece::Pawn)));
    assert_eq!(board.piece_at("f1"), None);
}

#[test]
fn rejects_a_queen_move_blocked_by_its_own_pawn() {
    let mut board = Board::start_position();
    let mv = san::parse("Qh5", false).unwrap();
    assert!(board.apply(&mv).is_err());
}

#[test]
fn rejects_a_move_with_no_matching_piece() {
    let mut board = Board::start_position();
    let mv = san::parse("Nd5", false).unwrap();
    assert!(board.apply(&mv).is_err());
}

#[test]
fn castles_kingside_once_the_path_is_clear() {
    let mut board = Board::start_position();
    apply_moves(&mut board, &["e4", "e5", "Nf3", "Nc6", "Bc4", "Bc5", "O-O"]);
    assert_eq!(board.piece_at("g1"), Some((Color::White, Piece::King)));
    assert_eq!(board.piece_at("f1"), Some((Color::White, Piece::Rook)));
    assert_eq!(board.piece_at("e1"), None);
    assert_eq!(board.piece_at("h1"), None);
}

#[test]
fn captures_en_passant() {
    let mut board = Board::start_position();
    apply_moves(&mut board, &["e4", "a6", "e5", "d5"]);
    assert_eq!(board.piece_at("d5"), Some((Color::Black, Piece::Pawn)));
    apply_moves(&mut board, &["exd6"]);
    assert_eq!(board.piece_at("d6"), Some((Color::White, Piece::Pawn)));
    assert_eq!(board.piece_at("d5"), None);
    assert_eq!(board.piece_at("e5"), None);
}

#[test]
fn parses_fen_placement_and_side_to_move() {
    let board = Board::from_fen("8/8/8/8/8/8/4P3/4K2R w K - 0 1").unwrap();
    assert_eq!(board.piece_at("e2"), Some((Color::White, Piece::Pawn)));
    assert_eq!(board.piece_at("h1"), Some((Color::White, Piece::Rook)));
    assert_eq!(board.side_to_move(), Color::White);
}
