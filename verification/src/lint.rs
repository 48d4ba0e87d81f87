//! Checking the moves of a PGN text: the computation behind the
//! command-line tool.
//!
//! Each word of the movetext, once a leading move number is taken off, is
//! a move unless it is empty, a game result or a numeric annotation glyph.
//! Each move is checked for SAN syntax and then played on a board that
//! starts from the standard position; a move that fails either check is
//! reported and not played, so later moves are checked against the
//! position before it.
use vstd::prelude::*;
use crate::board::{apply_spec, start_model, Board, BoardModel};
use crate::pgn::{
    is_nag,
    is_nag_text,
    is_result,
    is_result_text,
    lemma_lex_len,
    spec_strip_move_number,
    spec_tokenize,
    strip_move_number,
    tokenize,
    tokens_model,
};
use crate::san::{error_message, parse, spec_parse};
use crate::text::{decimal, push_decimal};

verus! {

/// A move that was rejected: its line, the move text and why.
pub struct Diagnostic {
    pub line: u32,
    pub word: String,
    pub message: String,
}

/// What checking a text found: how many moves it checked and the problems.
pub struct Report {
    pub checked: u32,
    pub diagnostics: Vec<Diagnostic>,
}

/// The state of a check part way through a text.
pub struct LintState {
    pub checked: int,
    /// Line, move text and message of each rejected move, in order.
    pub diagnostics: Seq<(int, Seq<char>, Seq<char>)>,
    pub board: BoardModel,
}

pub open spec fn diagnostics_model(ds: Seq<Diagnostic>) -> Seq<(int, Seq<char>, Seq<char>)> {
    ds.map_values(|d: Diagnostic| (d.line as int, d.word@, d.message@))
}

/// Whether a word (with its move number gone) is a move to check.
pub open spec fn is_move_word(w: Seq<char>) -> bool {
    !(w.len() == 0 || is_result_text(w) || is_nag_text(w))
}

/// The check of one token.
pub open spec fn lint_step(st: LintState, tok: (int, Seq<char>), lenient: bool) -> LintState {
    let word = spec_strip_move_number(tok.1);
    if !is_move_word(word) {
        st
    } else {
        let st1 = LintState { checked: st.checked + 1, ..st };
        match spec_parse(word, lenient) {
            Err(e) => LintState {
                diagnostics: st1.diagnostics.push((tok.0, word, error_message(e))),
                ..st1
            },
            Ok(m) => match apply_spec(st1.board, m) {
                Ok(b) => LintState { board: b, ..st1 },
                Err(msg) => LintState { diagnostics: st1.diagnostics.push((tok.0, word, msg)), ..st1 },
            },
        }
    }
}

/// The state once the first `k` tokens are checked.
pub open spec fn lint_upto(tokens: Seq<(int, Seq<char>)>, k: int, lenient: bool) -> LintState
    decreases k,
{
    if k <= 0 {
        LintState { checked: 0, diagnostics: Seq::empty(), board: start_model() }
    } else {
        lint_step(lint_upto(tokens, k - 1, lenient), tokens[k - 1], lenient)
    }
}

/// The state once all of `input` is checked.
pub open spec fn lint_spec(input: Seq<char>, lenient: bool) -> LintState {
    let ts = spec_tokenize(input);
    lint_upto(ts, ts.len() as int, lenient)
}

/// Checks every move of a PGN text, strictly or leniently.
pub fn lint(input: &str, lenient: bool) -> (r: Report)
    requires
        input@.len() < u32::MAX,
    ensures
        r.checked == lint_spec(input@, lenient).checked,
        diagnostics_model(r.diagnostics@) == lint_spec(input@, lenient).diagnostics,
{
    let tokens = tokenize(input);
    let ghost tm = tokens_model(tokens@);
    proof {
        lemma_lex_len(input@, 0, Seq::empty(), 1);
    }
    let mut board = Board::start_position();
    let mut checked: u32 = 0;
    let mut diagnostics: Vec<Diagnostic> = Vec::new();
    let mut k: usize = 0;
    assert(diagnostics_model(diagnostics@) =~= Seq::empty());
    while k < tokens.len()
        invariant
            tm == tokens_model(tokens@),
            tm == spec_tokenize(input@),
            tokens@.len() <= input@.len() + 1,
            input@.len() < u32::MAX,
            k <= tokens@.len(),
            checked <= k,
            board.wf(),
            lint_upto(tm, k as int, lenient) == (LintState {
                checked: checked as int,
                diagnostics: diagnostics_model(diagnostics@),
                board: board@,
            }),
        decreases tokens@.len() - k,
    {
        let tok = &tokens[k];
        assert(tm[k as int] == (tok.line as int, tok.text@));
        let word = strip_move_number(tok.text.as_str());
        if !(word.is_empty() || is_result(word) || is_nag(word)) {
            checked += 1;
            let ghost before = diagnostics@;
            match parse(word, lenient) {
                Err(e) => {
                    diagnostics.push(
                        Diagnostic { line: tok.line, word: word.to_owned(), message: e.message() },
                    );
                    assert(diagnostics_model(diagnostics@) =~= diagnostics_model(before).push(
                        (tok.line as int, word@, error_message(e@)),
                    ));
                },
                Ok(m) => {
                    match board.apply(&m) {
                        Ok(()) => {},
                        Err(msg) => {
                            let ghost msg_v = msg@;
                            diagnostics.push(Diagnostic { line: tok.line, word: word.to_owned(), message: msg });
                            assert(diagnostics_model(diagnostics@) =~= diagnostics_model(before).push(
                                (tok.line as int, word@, msg_v),
                            ));
                        },
                    }
                },
            }
        }
        k += 1;
    }
    Report { checked, diagnostics }
}

/// Each rejected move was counted as checked: a report never holds more
/// problems than moves.
pub proof fn lemma_errors_within_checked(tokens: Seq<(int, Seq<char>)>, k: int, lenient: bool)
    ensures
        lint_upto(tokens, k, lenient).diagnostics.len() <= lint_upto(tokens, k, lenient).checked,
    decreases k,
{
    if k > 0 {
        lemma_errors_within_checked(tokens, k - 1, lenient);
    }
}

/// `s` when `n` is not one, for plurals.
pub open spec fn plural(n: nat) -> Seq<char> {
    if n == 1 {
        ""@
    } else {
        "s"@
    }
}

/// The closing line of a report.
pub open spec fn summary_text(checked: nat, errors: nat) -> Seq<char> {
    "checked "@ + decimal(checked) + " move"@ + plural(checked) + ", "@ + decimal(errors) + " error"@
        + plural(errors)
}

/// The line that reports a rejected move.
pub open spec fn diagnostic_text(line: nat, word: Seq<char>, message: Seq<char>) -> Seq<char> {
    "line "@ + decimal(line) + ": '"@ + word + "' - "@ + message
}

fn plural_suffix(n: usize) -> (s: &'static str)
    ensures
        s@ == plural(n as nat),
{
    if n == 1 {
        ""
    } else {
        "s"
    }
}

impl Report {
    /// `checked N move(s), E error(s)`.
    pub fn summary(&self) -> (s: String)
        ensures
            s@ == summary_text(self.checked as nat, self.diagnostics@.len()),
    {
        let errors = self.diagnostics.len();
        let mut s = "checked ".to_owned();
        push_decimal(&mut s, self.checked as usize);
        s.append(" move");
        s.append(plural_suffix(self.checked as usize));
        s.append(", ");
        push_decimal(&mut s, errors);
        s.append(" error");
        s.append(plural_suffix(errors));
        s
    }

    /// Whether every move was accepted.
    pub fn is_clean(&self) -> (b: bool)
        ensures
            b == (self.diagnostics@.len() == 0),
    {
        self.diagnostics.len() == 0
    }
}

impl Diagnostic {
    /// `line L: 'WORD' - MESSAGE`.
    pub fn text(&self) -> (s: String)
        ensures
            s@ == diagnostic_text(self.line as nat, self.word@, self.message@),
    {
        let mut s = "line ".to_owned();
        push_decimal(&mut s, self.line as usize);
        s.append(": '");
        s.append(self.word.as_str());
        s.append("' - ");
        s.append(self.message.as_str());
        s
    }
}

} // verus!
