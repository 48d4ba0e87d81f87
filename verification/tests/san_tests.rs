use sanlint::san::{parse, validate, Castle, Piece, SanError};

#[test]
fn accepts_ordinary_moves() {
    for mv in ["e4", "Nf3", "Bb5", "O-O", "O-O-O", "exd5", "Qh4xe1", "Rfd1", "e8=Q", "Qxe8#"] {
        assert_eq!(validate(mv, false), Ok(()), "expected {mv} to be valid");
    }
}

#[test]
fn rejects_lowercase_piece_when_strict() {
    assert!(validate("nf3", false).is_err());
    assert!(validate("nf3", true).is_ok());
}

#[test]
fn rejects_pawn_capture_without_origin_file() {
    assert_eq!(
        validate("xd5", false),
        Err(SanError::MissingCaptureFile("xd5".to_string()))
    );
}

#[test]
fn requires_promotion_on_last_rank() {
    assert_eq!(
        validate("e8", false),
        Err(SanError::MissingPromotion("e8".to_string()))
    );
    assert_eq!(validate("e8=Q", false), Ok(()));
}

#[test]
fn zero_castling_only_lenient() {
    assert!(validate("0-0", false).is_err());
    assert!(validate("0-0", true).is_ok());
}

#[test]
fn rejects_double_check_symbol() {
    assert_eq!(validate("Qxe8+#", false), Err(SanError::MultipleCheckSymbols));
}

#[test]
fn parse_reports_move_shape() {
    let mv = parse("Nbd7", false).unwrap();
    assert_eq!(mv.piece, Piece::Knight);
    assert_eq!(mv.disambig_file, Some('b'));
    assert_eq!(mv.disambig_rank, None);
    assert!(!mv.capture);
    assert_eq!(mv.dest, Some(('d', '7')));
}

#[test]
fn parse_reports_capture_and_promotion() {
    let mv = parse("exd8=Q", false).unwrap();
    assert_eq!(mv.piece, Piece::Pawn);
    assert_eq!(mv.disambig_file, Some('e'));
    assert!(mv.capture);
    assert_eq!(mv.dest, Some(('d', '8')));
    assert_eq!(mv.promotion, Some(Piece::Queen));
}

#[test]
fn parse_reports_castling_with_no_destination() {
    let mv = parse("O-O", false).unwrap();
    assert_eq!(mv.castle, Some(Castle::Kingside));
    assert_eq!(mv.dest, None);
}
