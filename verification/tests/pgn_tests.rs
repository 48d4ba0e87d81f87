use sanlint::pgn::{strip_move_number, tokenize};

#[test]
fn skips_headers_and_comments() {
    let pgn = "[Event \"Test\"]\n[Site \"Nowhere\"]\n\n1. e4 {a comment} e5 2. Nf3 Nc6 *";
    let words: Vec<String> = tokenize(pgn).into_iter().map(|t| t.text).collect();
    assert_eq!(words, vec!["1.", "e4", "e5", "2.", "Nf3", "Nc6", "*"]);
}

#[test]
fn skips_variations() {
    let pgn = "1. e4 (1. d4 d5) e5";
    let words: Vec<String> = tokenize(pgn).into_iter().map(|t| t.text).collect();
    assert_eq!(words, vec!["1.", "e4", "e5"]);
}

#[test]
fn strips_move_numbers() {
    assert_eq!(strip_move_number("12."), "");
    assert_eq!(strip_move_number("12...e4"), "e4");
    assert_eq!(strip_move_number("e4"), "e4");
}
