use sanlint::san::{parse, validate, Castle, Piece, SanError};

fn err(mv: &str, lenient: bool) -> SanError {
    parse(mv, lenient).unwrap_err()
}

#[test]
fn empty_move_is_rejected() {
    assert_eq!(err("", false), SanError::Empty);
    assert_eq!(err("+", false), SanError::Empty);
}

#[test]
fn strict_mode_rejects_a_pawn_letter() {
    assert_eq!(err("Pe4", false), SanError::InvalidPiece('P'));
    let mv = parse("Pe4", true).unwrap();
    assert_eq!(mv.piece, Piece::Pawn);
    assert_eq!(mv.dest, Some(('e', '4')));
}

#[test]
fn malformed_castling_is_rejected() {
    assert_eq!(err("O-O-O-O", false), SanError::InvalidCastling("O-O-O-O".to_string()));
    assert_eq!(err("0-0", false), SanError::InvalidCastling("0-0".to_string()));
    assert_eq!(parse("0-0-0", true).unwrap().castle, Some(Castle::Queenside));
    assert_eq!(parse("O-O-O+", false).unwrap().castle, Some(Castle::Queenside));
}

#[test]
fn bad_destinations_are_rejected() {
    assert_eq!(err("N", false), SanError::InvalidDestination("N".to_string()));
    assert_eq!(err("Nz9", false), SanError::InvalidDestination("z9".to_string()));
    assert_eq!(err("e+4", false), SanError::InvalidDestination("e+4".to_string()));
}

#[test]
fn bad_disambiguations_are_rejected() {
    assert_eq!(err("Nzzd7", false), SanError::InvalidDisambiguation("zz".to_string()));
    assert_eq!(err("Nb1b2d3", false), SanError::InvalidDisambiguation("b1b2".to_string()));
    assert_eq!(err("ad4", false), SanError::InvalidDisambiguation("a".to_string()));
    let mv = parse("Qh4xe1", false).unwrap();
    assert_eq!(mv.disambig_file, Some('h'));
    assert_eq!(mv.disambig_rank, Some('4'));
    assert!(mv.capture);
    let mv = parse("R1a3", false).unwrap();
    assert_eq!(mv.disambig_file, None);
    assert_eq!(mv.disambig_rank, Some('1'));
}

#[test]
fn promotion_rules() {
    assert_eq!(err("e5=Q", false), SanError::UnexpectedPromotion("Q".to_string()));
    assert_eq!(err("Ne8=Q", false), SanError::UnexpectedPromotion("Q".to_string()));
    assert_eq!(err("e8=K", false), SanError::InvalidPromotion("K".to_string()));
    assert_eq!(err("e8=q", false), SanError::InvalidPromotion("q".to_string()));
    assert_eq!(err("e1=QQ", false), SanError::InvalidPromotion("QQ".to_string()));
    assert_eq!(parse("e8=q", true).unwrap().promotion, Some(Piece::Queen));
    assert_eq!(parse("a1=N", false).unwrap().promotion, Some(Piece::Knight));
    assert_eq!(err("a1", true), SanError::MissingPromotion("a1".to_string()));
}

#[test]
fn check_and_mate_symbols() {
    assert_eq!(validate("e4+", false), Ok(()));
    assert_eq!(validate("Qxf7#", false), Ok(()));
    assert_eq!(err("e4++", false), SanError::MultipleCheckSymbols);
    assert_eq!(err("Nxe5+#", false), SanError::MultipleCheckSymbols);
}

#[test]
fn lenient_forms_are_accepted() {
    let mv = parse("N:e5", true).unwrap();
    assert_eq!(mv.piece, Piece::Knight);
    assert!(mv.capture);
    assert!(validate("N:e5", false).is_err());
    for text in ["exd6e.p.", "exd6ep", "exd6E.P.", "exd6EP"] {
        let mv = parse(text, true).unwrap();
        assert_eq!(mv.dest, Some(('d', '6')), "{text}");
        assert_eq!(mv.disambig_file, Some('e'));
        assert!(mv.capture);
        assert!(validate(text, false).is_err());
    }
    assert_eq!(parse("qd1", true).unwrap().piece, Piece::Queen);
}

#[test]
fn lenient_mode_keeps_b_file_pawn_moves() {
    let strict = parse("bxc3", false).unwrap();
    assert_eq!(strict.piece, Piece::Pawn);
    assert_eq!(parse("bxc3", true).unwrap(), strict);
    assert_eq!(parse("b4", true).unwrap(), parse("b4", false).unwrap());
    assert_eq!(parse("b8=Q", true).unwrap().promotion, Some(Piece::Queen));
    // where the pawn reading fails, a lowercase `b` is a bishop
    assert_eq!(parse("bc4", true).unwrap().piece, Piece::Bishop);
}

#[test]
fn lenient_spellings_of_b_file_pawn_moves_stay_pawn_moves() {
    let colon = parse("b:c3", true).unwrap();
    assert_eq!(colon.piece, Piece::Pawn);
    assert_eq!(colon, parse("bxc3", true).unwrap());
    for text in ["bxc6e.p.", "bxc6ep"] {
        let mv = parse(text, true).unwrap();
        assert_eq!(mv.piece, Piece::Pawn, "{text}");
        assert_eq!(mv.disambig_file, Some('b'));
        assert_eq!(mv.dest, Some(('c', '6')));
        assert!(mv.capture);
    }
    let promo = parse("b8=q", true).unwrap();
    assert_eq!(promo.piece, Piece::Pawn);
    assert_eq!(promo.dest, Some(('b', '8')));
    assert_eq!(promo.promotion, Some(Piece::Queen));
    assert_eq!(parse("b:c8=n", true).unwrap().promotion, Some(Piece::Knight));
}

#[test]
fn lenient_mode_keeps_a_missing_promotion() {
    for text in ["bxa8", "b8", "bxc1+", "b:a8", "e8", "gxh1"] {
        assert_eq!(err(text, true), SanError::MissingPromotion(text.to_string()), "{text}");
    }
    assert_eq!(err("bxa8", false), SanError::MissingPromotion("bxa8".to_string()));
    assert_eq!(parse("Bxa8", true).unwrap().piece, Piece::Bishop);
}

#[test]
fn a_colon_reads_as_the_capture_mark() {
    for (colon, x) in [("N:e5", "Nxe5"), ("b:c3", "bxc3"), ("e:d6ep", "exd6ep"), ("Qh4:e1", "Qh4xe1")] {
        assert_eq!(parse(colon, true), parse(x, true), "{colon}");
    }
}

#[test]
fn lenient_mode_only_widens() {
    for text in ["e4", "Nf3", "exd5", "Qh4xe1", "Rfd1", "e8=Q", "Qxe8#", "O-O", "bxa8=R", "Kd2"] {
        assert_eq!(parse(text, true), parse(text, false), "{text}");
    }
    assert_eq!(err("e8", true), SanError::MissingPromotion("e8".to_string()));
}

#[test]
fn error_messages_read_as_documented() {
    assert_eq!(err("Nxe5+#", false).message(), "more than one check/mate symbol");
    assert_eq!(err("xd5", false).message(), "pawn capture 'xd5' is missing its origin file");
    assert_eq!(err("e8", false).message(), "pawn move 'e8' reaches the last rank but has no promotion");
    assert_eq!(err("", false).message(), "empty move");
    assert_eq!(err("Pe4", false).message(), "'P' is not a valid piece letter");
    assert_eq!(err("0-0", false).message(), "'0-0' is not valid castling notation");
    assert_eq!(err("Nz9", false).message(), "'z9' is not a valid destination square");
    assert_eq!(err("Nzzd7", false).message(), "'zz' is not a valid disambiguation");
    assert_eq!(err("e5=Q", false).message(), "'Q' is not a legal place for a promotion");
    assert_eq!(err("e8=K", false).message(), "'K' is not a valid promotion piece");
}
