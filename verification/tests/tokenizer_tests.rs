use sanlint::pgn::{is_nag, is_result, strip_move_number, tokenize};

fn lines_and_words(pgn: &str) -> Vec<(u32, String)> {
    tokenize(pgn).into_iter().map(|t| (t.line, t.text)).collect()
}

#[test]
fn tracks_line_numbers_through_comments() {
    let pgn = "1. e4 e5\n2. Nf3 {a\nlong\ncomment} Nc6 ; rest of line\n3. Bb5";
    let got = lines_and_words(pgn);
    let want: Vec<(u32, String)> = vec![
        (1, "1.".to_string()),
        (1, "e4".to_string()),
        (1, "e5".to_string()),
        (2, "2.".to_string()),
        (2, "Nf3".to_string()),
        (4, "Nc6".to_string()),
        (5, "3.".to_string()),
        (5, "Bb5".to_string()),
    ];
    assert_eq!(got, want);
}

#[test]
fn skips_nested_variations_across_lines() {
    let pgn = "1. e4 (1. d4 (1. c4\n c5) d5)\ne5";
    let got = lines_and_words(pgn);
    assert_eq!(got, vec![(1, "1.".to_string()), (1, "e4".to_string()), (3, "e5".to_string())]);
}

#[test]
fn a_bracket_inside_a_word_is_kept() {
    let got = lines_and_words("ab[c d");
    assert_eq!(got, vec![(1, "ab[c".to_string()), (1, "d".to_string())]);
    assert!(tokenize("").is_empty());
    assert!(tokenize("   \n\t ").is_empty());
}

#[test]
fn move_numbers_need_a_dot() {
    assert_eq!(strip_move_number("12"), "12");
    assert_eq!(strip_move_number("3.Nf3"), "Nf3");
    assert_eq!(strip_move_number(""), "");
    assert_eq!(strip_move_number("e4."), "e4.");
}

#[test]
fn recognises_results_and_glyphs() {
    for r in ["1-0", "0-1", "1/2-1/2", "*"] {
        assert!(is_result(r), "{r}");
    }
    assert!(!is_result("1-1"));
    assert!(!is_result("e4"));
    assert!(is_nag("$1"));
    assert!(is_nag("$142"));
    assert!(!is_nag("$"));
    assert!(!is_nag("$1a"));
    assert!(!is_nag("1"));
}
