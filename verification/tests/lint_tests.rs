use sanlint::lint::lint;

#[test]
fn clean_move_list() {
    let report = lint("1. e4 e5 2. Nf3 Nc6 3. Bb5", false);
    assert_eq!(report.checked, 5);
    assert!(report.is_clean());
    assert_eq!(report.summary(), "checked 5 moves, 0 errors");
}

#[test]
fn reports_syntax_and_board_errors_with_lines() {
    let pgn = "[Event \"x\"]\n1. e4 e5\n2. Nf3 Nxe5+#\n3. xd5 Nd5 1-0";
    let report = lint(pgn, false);
    assert_eq!(report.checked, 6);
    let texts: Vec<String> = report.diagnostics.iter().map(|d| d.text()).collect();
    assert_eq!(
        texts,
        vec![
            "line 3: 'Nxe5+#' - more than one check/mate symbol".to_string(),
            "line 4: 'xd5' - pawn capture 'xd5' is missing its origin file".to_string(),
            "line 4: 'Nd5' - no knight can reach d5 from the current position".to_string(),
        ]
    );
    assert_eq!(report.summary(), "checked 6 moves, 3 errors");
    assert!(!report.is_clean());
}

#[test]
fn singular_summary_and_lenient_mode() {
    let report = lint("1. nf3 $1", false);
    assert_eq!(report.summary(), "checked 1 move, 1 error");
    let report = lint("1. nf3 $1", true);
    assert_eq!(report.summary(), "checked 1 move, 0 errors");
}
