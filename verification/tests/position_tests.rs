use sanlint::board::{Board, Color};
use sanlint::san::{self, Piece};

const STARTING_FEN: &str = "rnbqkbnr/pppppppp/8/8/8/8/PPPPPPPP/RNBQKBNR w KQkq - 0 1";

fn play(board: &mut Board, text: &str) -> Result<(), String> {
    let mv = san::parse(text, false).unwrap();
    board.apply(&mv)
}

fn squares(board: &Board) -> Vec<Option<(Color, Piece)>> {
    let mut v = Vec::new();
    for f in ['a', 'b', 'c', 'd', 'e', 'f', 'g', 'h'] {
        for r in ['1', '2', '3', '4', '5', '6', '7', '8'] {
            v.push(board.piece_at(&format!("{f}{r}")));
        }
    }
    v
}

#[test]
fn start_position_matches_the_standard_fen() {
    let a = Board::start_position();
    let b = Board::from_fen(STARTING_FEN).unwrap();
    assert_eq!(squares(&a), squares(&b));
    assert_eq!(a.side_to_move(), b.side_to_move());
    assert_eq!(a.piece_at("e1"), Some((Color::White, Piece::King)));
    assert_eq!(a.piece_at("d8"), Some((Color::Black, Piece::Queen)));
    assert_eq!(a.piece_at("e4"), None);
    assert_eq!(a.piece_at("z9"), None);
    assert_eq!(a.piece_at("e10"), None);
}

#[test]
fn fen_errors_are_reported() {
    let e = |s: &str| Board::from_fen(s).err().unwrap();
    assert_eq!(e(""), "FEN is missing a piece placement field");
    assert_eq!(e("8/8/8"), "FEN placement has 3 ranks, expected 8");
    assert_eq!(e("9/8/8/8/8/8/8/8"), "FEN rank '9' does not cover all 8 files");
    assert_eq!(e("ppppppppp/8/8/8/8/8/8/8"), "FEN rank 'ppppppppp' has too many squares");
    assert_eq!(e("x7/8/8/8/8/8/8/8"), "'X' is not a valid FEN piece letter");
    assert_eq!(e("8/8/8/8/8/8/8/8 x"), "'x' is not a valid FEN side to move");
    assert_eq!(e("8/8/8/8/8/8/8/8 w - z9"), "'z9' is not a valid FEN en passant square");
}

#[test]
fn fen_defaults_and_black_to_move() {
    let b = Board::from_fen("8/8/8/8/8/8/8/8").unwrap();
    assert_eq!(b.side_to_move(), Color::White);
    let b = Board::from_fen("  4k3/8/8/8/8/8/8/4K3   b  -  e3 ").unwrap();
    assert_eq!(b.side_to_move(), Color::Black);
    assert_eq!(b.piece_at("e8"), Some((Color::Black, Piece::King)));
}

#[test]
fn a_move_switches_sides_and_a_rejected_move_changes_nothing() {
    let mut b = Board::start_position();
    assert_eq!(b.side_to_move(), Color::White);
    play(&mut b, "e4").unwrap();
    assert_eq!(b.side_to_move(), Color::Black);
    let before = squares(&b);
    assert_eq!(
        play(&mut b, "Nd5"),
        Err("no knight can reach d5 from the current position".to_string())
    );
    assert_eq!(squares(&b), before);
    assert_eq!(b.side_to_move(), Color::Black);
}

#[test]
fn castling_errors() {
    let mut b = Board::start_position();
    assert_eq!(play(&mut b, "O-O"), Err("castling is blocked: f1 is occupied".to_string()));
    let mut b = Board::from_fen("r3k3/8/8/8/8/8/8/4K2R w k - 0 1").unwrap();
    assert_eq!(
        play(&mut b, "O-O"),
        Err("castling rights for Kingside-side castling are not available".to_string())
    );
    let mut b = Board::from_fen("r3k3/8/8/8/8/8/8/4K2R w K - 0 1").unwrap();
    play(&mut b, "O-O").unwrap();
    assert_eq!(b.piece_at("g1"), Some((Color::White, Piece::King)));
    assert_eq!(
        play(&mut b, "O-O-O"),
        Err("castling rights for Queenside-side castling are not available".to_string())
    );
    let mut b = Board::from_fen("r3k3/8/8/8/8/8/8/7R b q - 0 1").unwrap();
    play(&mut b, "O-O-O").unwrap();
    assert_eq!(b.piece_at("c8"), Some((Color::Black, Piece::King)));
    assert_eq!(b.piece_at("d8"), Some((Color::Black, Piece::Rook)));
    let mut b = Board::from_fen("8/8/8/8/8/8/8/7R w K - 0 1").unwrap();
    assert_eq!(play(&mut b, "O-O"), Err("no king on its home square to castle".to_string()));
    let mut b = Board::from_fen("8/8/8/8/8/8/8/4K3 w K - 0 1").unwrap();
    assert_eq!(play(&mut b, "O-O"), Err("no rook on its home square to castle".to_string()));
}

#[test]
fn only_the_own_king_and_rook_castle() {
    let mut b = Board::from_fen("4k3/8/8/8/8/8/8/4N2R w K - 0 1").unwrap();
    assert_eq!(play(&mut b, "O-O"), Err("no king on its home square to castle".to_string()));
    assert_eq!(b.piece_at("e1"), Some((Color::White, Piece::Knight)));
    assert_eq!(b.piece_at("h1"), Some((Color::White, Piece::Rook)));
    assert_eq!(b.side_to_move(), Color::White);
    let mut b = Board::from_fen("4k3/8/8/8/8/8/8/4K2r w K - 0 1").unwrap();
    assert_eq!(play(&mut b, "O-O"), Err("no rook on its home square to castle".to_string()));
    assert_eq!(b.piece_at("h1"), Some((Color::Black, Piece::Rook)));
    let mut b = Board::from_fen("4k3/8/8/8/8/8/8/4k2R w K - 0 1").unwrap();
    assert_eq!(play(&mut b, "O-O"), Err("no king on its home square to castle".to_string()));
}

#[test]
fn long_runs_of_fen_digits_are_rejected() {
    let long = "9".repeat(30);
    let fen = format!("{long}/8/8/8/8/8/8/8 w - - 0 1");
    assert_eq!(
        Board::from_fen(&fen).err().unwrap(),
        format!("FEN rank '{long}' does not cover all 8 files")
    );
    let fen = format!("{long}p/8/8/8/8/8/8/8");
    assert_eq!(
        Board::from_fen(&fen).err().unwrap(),
        format!("FEN rank '{long}p' has too many squares")
    );
}

#[test]
fn ambiguous_moves_and_disambiguation() {
    let fen = "4k3/8/8/8/8/8/8/1N2KN2 w - - 0 1";
    let mut b = Board::from_fen(fen).unwrap();
    assert_eq!(
        play(&mut b, "Nd2"),
        Err("move to d2 is ambiguous between 2 pieces".to_string())
    );
    play(&mut b, "Nbd2").unwrap();
    assert_eq!(b.piece_at("d2"), Some((Color::White, Piece::Knight)));
    assert_eq!(b.piece_at("b1"), None);
    assert_eq!(b.piece_at("f1"), Some((Color::White, Piece::Knight)));
}

#[test]
fn promotion_and_captures() {
    let mut b = Board::from_fen("3r4/4P3/8/8/8/8/8/4k2K w - - 0 1").unwrap();
    play(&mut b, "exd8=Q").unwrap();
    assert_eq!(b.piece_at("d8"), Some((Color::White, Piece::Queen)));
    assert_eq!(b.piece_at("e7"), None);
    let mut b = Board::from_fen("4k3/8/8/8/8/8/8/R3K3 w - - 0 1").unwrap();
    assert!(play(&mut b, "Rxa8").is_err());
    play(&mut b, "Ra8").unwrap();
    assert_eq!(b.piece_at("a8"), Some((Color::White, Piece::Rook)));
}

#[test]
fn en_passant_is_only_available_right_after_the_double_step() {
    let mut b = Board::start_position();
    for m in ["e4", "a6", "e5", "d5", "h3", "h6"] {
        play(&mut b, m).unwrap();
    }
    assert!(play(&mut b, "exd6").is_err());
}

#[test]
fn lines_must_be_clear_and_a_rook_leaving_its_corner_loses_its_right() {
    let mut b = Board::from_fen("4k3/8/8/8/8/8/P7/R2NK2R w KQ - 0 1").unwrap();
    assert_eq!(
        play(&mut b, "Ra3"),
        Err("no rook can reach a3 from the current position".to_string())
    );
    play(&mut b, "Rh2").unwrap();
    play(&mut b, "Kd7").unwrap();
    play(&mut b, "Rh1").unwrap();
    play(&mut b, "Ke8").unwrap();
    assert_eq!(
        play(&mut b, "O-O"),
        Err("castling rights for Kingside-side castling are not available".to_string())
    );
    assert_eq!(play(&mut b, "O-O-O"), Err("castling is blocked: d1 is occupied".to_string()));
}
