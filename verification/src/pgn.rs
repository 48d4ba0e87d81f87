//! Minimal PGN movetext tokenizer.
//!
//! Enough to pull move tokens out of real PGN: it drops header lines
//! (`[Event "..."]`), brace comments, semicolon comments, and parenthesized
//! variations, and tracks line numbers so errors can point somewhere useful.
//!
//! Headers are assumed to be one per line, which holds for every PGN
//! writer in practice even though the spec allows more.
use vstd::prelude::*;
use crate::text::{
    chars_of,
    is_digit,
    is_digit_char,
    is_whitespace,
    is_whitespace_char,
    lemma_whitespace_is_unicode,
    unicode_white_space,
    push_char,
    same_chars,
    scan_to,
    lemma_scan_to_bounds,
    fields_from,
    word_end,
};

verus! {

/// One word of movetext and the line it starts on.
pub struct Token {
    pub line: u32,
    pub text: String,
}

/// A token as its line number and its characters.
pub open spec fn token_model(t: Token) -> (int, Seq<char>) {
    (t.line as int, t.text@)
}

pub open spec fn tokens_model(ts: Seq<Token>) -> Seq<(int, Seq<char>)> {
    ts.map_values(|t: Token| token_model(t))
}

// ---------------------------------------------------------------------
// The lexer, as a spec
// ---------------------------------------------------------------------

/// The index just after the `)` that closes a variation opened `depth`
/// levels deep before `j`, or `cs.len()` when it never closes.
pub open spec fn paren_end(cs: Seq<char>, j: int, depth: int) -> int
    decreases cs.len() - j,
{
    if j >= cs.len() || depth <= 0 {
        if j >= cs.len() {
            cs.len() as int
        } else {
            j
        }
    } else if cs[j] == '(' {
        paren_end(cs, j + 1, depth + 1)
    } else if cs[j] == ')' {
        paren_end(cs, j + 1, depth - 1)
    } else {
        paren_end(cs, j + 1, depth)
    }
}

/// The number of line breaks in `cs[a..b]`.
pub open spec fn newlines(cs: Seq<char>, a: int, b: int) -> int
    decreases b - a,
{
    if b <= a {
        0
    } else if cs[b - 1] == '\n' {
        newlines(cs, a, b - 1) + 1
    } else {
        newlines(cs, a, b - 1)
    }
}

/// The pending word as a token, if it is not empty.
pub open spec fn flush(word: Seq<char>, line: int) -> Seq<(int, Seq<char>)> {
    if word.len() == 0 {
        Seq::empty()
    } else {
        seq![(line, word)]
    }
}

pub proof fn lemma_newlines_bound(cs: Seq<char>, a: int, b: int)
    requires
        a <= b,
    ensures
        0 <= newlines(cs, a, b) <= b - a,
    decreases b - a,
{
    if a < b {
        lemma_newlines_bound(cs, a, b - 1);
    }
}

pub proof fn lemma_paren_end_bounds(cs: Seq<char>, j: int, depth: int)
    requires
        0 <= j <= cs.len(),
    ensures
        j <= paren_end(cs, j, depth) <= cs.len(),
    decreases cs.len() - j,
{
    if j < cs.len() && depth > 0 {
        if cs[j] == '(' {
            lemma_paren_end_bounds(cs, j + 1, depth + 1);
        } else if cs[j] == ')' {
            lemma_paren_end_bounds(cs, j + 1, depth - 1);
        } else {
            lemma_paren_end_bounds(cs, j + 1, depth);
        }
    }
}

/// The tokens of `cs` from index `i` on, in the middle of `word`, on line
/// `line`.
pub open spec fn lex(cs: Seq<char>, i: int, word: Seq<char>, line: int) -> Seq<(int, Seq<char>)>
    decreases cs.len() + 1 - i,
    when 0 <= i
{
    if i >= cs.len() {
        flush(word, line)
    } else {
        let c = cs[i];
        if c == '\n' {
            flush(word, line) + lex(cs, i + 1, Seq::empty(), line + 1)
        } else if c == '[' && word.len() == 0 {
            // a header line: skip to the end of the line
            proof {
                lemma_scan_to_bounds(cs, i + 1, '\n');
            }
            lex(cs, scan_to(cs, i + 1, '\n'), word, line)
        } else if c == '{' {
            proof {
                lemma_scan_to_bounds(cs, i + 1, '}');
            }
            let e = scan_to(cs, i + 1, '}');
            flush(word, line) + lex(cs, e + 1, Seq::empty(), line + newlines(cs, i + 1, e))
        } else if c == ';' {
            proof {
                lemma_scan_to_bounds(cs, i + 1, '\n');
            }
            flush(word, line) + lex(cs, scan_to(cs, i + 1, '\n'), Seq::empty(), line)
        } else if c == '(' {
            proof {
                lemma_paren_end_bounds(cs, i + 1, 1);
            }
            let e = paren_end(cs, i + 1, 1);
            flush(word, line) + lex(cs, e, Seq::empty(), line + newlines(cs, i + 1, e))
        } else if is_whitespace_char(c) {
            flush(word, line) + lex(cs, i + 1, Seq::empty(), line)
        } else {
            lex(cs, i + 1, word.push(c), line)
        }
    }
}

/// The tokens of a PGN text: its words with their line numbers.
pub open spec fn spec_tokenize(input: Seq<char>) -> Seq<(int, Seq<char>)> {
    lex(input, 0, Seq::empty(), 1)
}

/// A text yields at most one token more than it has characters.
pub proof fn lemma_lex_len(cs: Seq<char>, i: int, word: Seq<char>, line: int)
    requires
        0 <= i,
    ensures
        lex(cs, i, word, line).len() <= (if i < cs.len() {
            cs.len() - i
        } else {
            0
        }) + 1,
    decreases cs.len() + 1 - i,
{
    if i < cs.len() {
        let c = cs[i];
        if c == '\n' {
            lemma_lex_len(cs, i + 1, Seq::empty(), line + 1);
        } else if c == '[' && word.len() == 0 {
            lemma_scan_to_bounds(cs, i + 1, '\n');
            lemma_lex_len(cs, scan_to(cs, i + 1, '\n'), word, line);
        } else if c == '{' {
            lemma_scan_to_bounds(cs, i + 1, '}');
            let e = scan_to(cs, i + 1, '}');
            lemma_lex_len(cs, e + 1, Seq::empty(), line + newlines(cs, i + 1, e));
        } else if c == ';' {
            lemma_scan_to_bounds(cs, i + 1, '\n');
            lemma_lex_len(cs, scan_to(cs, i + 1, '\n'), Seq::empty(), line);
        } else if c == '(' {
            lemma_paren_end_bounds(cs, i + 1, 1);
            let e = paren_end(cs, i + 1, 1);
            lemma_lex_len(cs, e, Seq::empty(), line + newlines(cs, i + 1, e));
        } else if is_whitespace_char(c) {
            lemma_lex_len(cs, i + 1, Seq::empty(), line);
        } else {
            lemma_lex_len(cs, i + 1, word.push(c), line);
        }
    }
}

/// A character that can stand in a token: not whitespace, and not one that
/// opens a comment or a variation.
pub open spec fn is_word_char(c: char) -> bool {
    !is_whitespace_char(c) && c != '{' && c != ';' && c != '('
}

/// Each token is a non-empty run of word characters, no token stands on a
/// line before `line`, and line numbers never go down.
pub open spec fn tokens_well_formed(ts: Seq<(int, Seq<char>)>, line: int) -> bool {
    &&& forall|k: int|
        0 <= k < ts.len() ==> (#[trigger] ts[k]).1.len() > 0 && line <= ts[k].0 && forall|j: int|
            0 <= j < ts[k].1.len() ==> is_word_char(#[trigger] ts[k].1[j])
    &&& forall|k1: int, k2: int| 0 <= k1 < k2 < ts.len() ==> (#[trigger] ts[k1]).0 <= (#[trigger] ts[k2]).0
}

proof fn lemma_flush_then(word: Seq<char>, line: int, rest: Seq<(int, Seq<char>)>, line2: int)
    requires
        forall|j: int| 0 <= j < word.len() ==> is_word_char(#[trigger] word[j]),
        line <= line2,
        tokens_well_formed(rest, line2),
    ensures
        tokens_well_formed(flush(word, line) + rest, line),
{
    let all = flush(word, line) + rest;
    let f = flush(word, line);
    assert forall|k: int| 0 <= k < all.len() implies (#[trigger] all[k]).1.len() > 0 && line
        <= all[k].0 && forall|j: int| 0 <= j < all[k].1.len() ==> is_word_char(#[trigger] all[k].1[j]) by {
        if k >= f.len() {
            assert(all[k] == rest[k - f.len()]);
        }
    }
    assert forall|k1: int, k2: int| 0 <= k1 < k2 < all.len() implies (#[trigger] all[k1]).0 <= (
    #[trigger] all[k2]).0 by {
        if k1 >= f.len() {
            assert(all[k1] == rest[k1 - f.len()]);
            assert(all[k2] == rest[k2 - f.len()]);
        } else {
            assert(all[k2] == rest[k2 - f.len()]);
        }
    }
}

/// The tokens from any point of the text on are well formed.
pub proof fn lemma_lex_well_formed(cs: Seq<char>, i: int, word: Seq<char>, line: int)
    requires
        0 <= i,
        forall|j: int| 0 <= j < word.len() ==> is_word_char(#[trigger] word[j]),
    ensures
        tokens_well_formed(lex(cs, i, word, line), line),
    decreases cs.len() + 1 - i,
{
    let e: Seq<char> = Seq::empty();
    if i >= cs.len() {
        lemma_flush_then(word, line, Seq::empty(), line);
        assert(flush(word, line) + Seq::<(int, Seq<char>)>::empty() == flush(word, line));
    } else {
        let c = cs[i];
        if c == '\n' {
            lemma_lex_well_formed(cs, i + 1, e, line + 1);
            lemma_flush_then(word, line, lex(cs, i + 1, e, line + 1), line + 1);
        } else if c == '[' && word.len() == 0 {
            lemma_scan_to_bounds(cs, i + 1, '\n');
            lemma_lex_well_formed(cs, scan_to(cs, i + 1, '\n'), word, line);
        } else if c == '{' {
            lemma_scan_to_bounds(cs, i + 1, '}');
            let en = scan_to(cs, i + 1, '}');
            lemma_newlines_bound(cs, i + 1, en);
            let l2 = line + newlines(cs, i + 1, en);
            lemma_lex_well_formed(cs, en + 1, e, l2);
            lemma_flush_then(word, line, lex(cs, en + 1, e, l2), l2);
        } else if c == ';' {
            lemma_scan_to_bounds(cs, i + 1, '\n');
            let en = scan_to(cs, i + 1, '\n');
            lemma_lex_well_formed(cs, en, e, line);
            lemma_flush_then(word, line, lex(cs, en, e, line), line);
        } else if c == '(' {
            lemma_paren_end_bounds(cs, i + 1, 1);
            let en = paren_end(cs, i + 1, 1);
            lemma_newlines_bound(cs, i + 1, en);
            let l2 = line + newlines(cs, i + 1, en);
            lemma_lex_well_formed(cs, en, e, l2);
            lemma_flush_then(word, line, lex(cs, en, e, l2), l2);
        } else if is_whitespace_char(c) {
            lemma_lex_well_formed(cs, i + 1, e, line);
            lemma_flush_then(word, line, lex(cs, i + 1, e, line), line);
        } else {
            let w2 = word.push(c);
            assert forall|j: int| 0 <= j < w2.len() implies is_word_char(#[trigger] w2[j]) by {
                if j < word.len() {
                    assert(w2[j] == word[j]);
                }
            }
            lemma_lex_well_formed(cs, i + 1, w2, line);
        }
    }
}

/// Every token of a text is a non-empty run of characters with no
/// whitespace and no comment or variation opener in it; line numbers
/// start at 1 and never go down.
pub proof fn lemma_tokenize_well_formed(input: Seq<char>)
    ensures
        tokens_well_formed(spec_tokenize(input), 1),
{
    lemma_lex_well_formed(input, 0, Seq::empty(), 1);
}

/// No token holds a character with the Unicode `White_Space` property:
/// tabs, carriage returns, line breaks and spaces of every kind separate
/// tokens.
pub proof fn lemma_tokens_hold_no_white_space(input: Seq<char>)
    ensures
        forall|k: int, j: int|
            0 <= k < spec_tokenize(input).len() && 0 <= j < spec_tokenize(input)[k].1.len()
                ==> !unicode_white_space(#[trigger] spec_tokenize(input)[k].1[j]),
{
    lemma_tokenize_well_formed(input);
    let ts = spec_tokenize(input);
    assert forall|k: int, j: int| 0 <= k < ts.len() && 0 <= j < ts[k].1.len() implies !unicode_white_space(
        #[trigger] ts[k].1[j],
    ) by {
        assert(is_word_char(ts[k].1[j]));
        lemma_whitespace_is_unicode(ts[k].1[j]);
    }
}

proof fn lemma_newlines_split(cs: Seq<char>, a: int, b: int, c: int)
    requires
        a <= b <= c,
    ensures
        newlines(cs, a, b) + newlines(cs, b, c) == newlines(cs, a, c),
    decreases c - b,
{
    if b < c {
        lemma_newlines_split(cs, a, b, c - 1);
    }
}

proof fn lemma_newlines_none(cs: Seq<char>, a: int, b: int)
    requires
        a <= b,
        forall|m: int| a <= m < b ==> cs[m] != '\n',
    ensures
        newlines(cs, a, b) == 0,
    decreases b - a,
{
    if a < b {
        lemma_newlines_none(cs, a, b - 1);
    }
}

proof fn lemma_scan_to_skips(cs: Seq<char>, j: int, c: char)
    requires
        0 <= j <= cs.len(),
    ensures
        forall|m: int| j <= m < scan_to(cs, j, c) ==> cs[m] != c,
        scan_to(cs, j, c) < cs.len() ==> cs[scan_to(cs, j, c)] == c,
    decreases cs.len() - j,
{
    if j < cs.len() && cs[j] != c {
        lemma_scan_to_skips(cs, j + 1, c);
    }
}

/// `t` stands in `cs` at index `s`, and `line` is one more than the number
/// of line breaks before it.
pub open spec fn found_at(cs: Seq<char>, s: int, t: Seq<char>, line: int) -> bool {
    &&& 0 <= s
    &&& s + t.len() <= cs.len()
    &&& cs.subrange(s, s + t.len()) == t
    &&& line == 1 + newlines(cs, 0, s)
}

/// Each token is a piece of the text, on the line where it stands:
/// `starts[k]` is where token `k` starts.
pub open spec fn tokens_at(cs: Seq<char>, ts: Seq<(int, Seq<char>)>, starts: Seq<int>) -> bool {
    &&& starts.len() == ts.len()
    &&& forall|k: int| 0 <= k < ts.len() ==> #[trigger] found_at(cs, starts[k], ts[k].1, ts[k].0)
}

/// Each token is a piece of the text, on the line where it stands.
pub open spec fn tokens_located(cs: Seq<char>, ts: Seq<(int, Seq<char>)>) -> bool {
    exists|starts: Seq<int>| #[trigger] tokens_at(cs, ts, starts)
}

proof fn lemma_located_concat(cs: Seq<char>, a: Seq<(int, Seq<char>)>, b: Seq<(int, Seq<char>)>)
    requires
        tokens_located(cs, a),
        tokens_located(cs, b),
    ensures
        tokens_located(cs, a + b),
{
    let sa = choose|starts: Seq<int>| tokens_at(cs, a, starts);
    let sb = choose|starts: Seq<int>| tokens_at(cs, b, starts);
    let ab = a + b;
    let sab = sa + sb;
    assert forall|k: int| 0 <= k < ab.len() implies #[trigger] found_at(cs, sab[k], ab[k].1, ab[k].0) by {
        if k < a.len() {
            assert(ab[k] == a[k]);
            assert(sab[k] == sa[k]);
            assert(found_at(cs, sa[k], a[k].1, a[k].0));
        } else {
            let kb = k - a.len();
            assert(ab[k] == b[kb]);
            assert(sab[k] == sb[kb]);
            assert(found_at(cs, sb[kb], b[kb].1, b[kb].0));
        }
    }
    assert(tokens_at(cs, ab, sab));
}

proof fn lemma_flush_located(cs: Seq<char>, i: int, word: Seq<char>, line: int)
    requires
        word.len() > 0 ==> {
            &&& word.len() <= i <= cs.len()
            &&& cs.subrange(i - word.len(), i) == word
            &&& line == 1 + newlines(cs, 0, i)
            &&& forall|j: int| 0 <= j < word.len() ==> #[trigger] word[j] != '\n'
        },
    ensures
        tokens_located(cs, flush(word, line)),
{
    if word.len() > 0 {
        let s = i - word.len();
        assert forall|m: int| s <= m < i implies cs[m] != '\n' by {
            assert(cs[m] == cs.subrange(s, i)[m - s]);
            assert(word[m - s] != '\n');
        }
        lemma_newlines_none(cs, s, i);
        lemma_newlines_split(cs, 0, s, i);
        assert(cs.subrange(s, s + word.len()) == word);
        assert(found_at(cs, s, word, line));
        let f = flush(word, line);
        assert(f[0] == (line, word));
        assert(tokens_at(cs, f, seq![s]));
    } else {
        assert(tokens_at(cs, flush(word, line), Seq::empty()));
    }
}

/// The tokens from any point of the text on are pieces of the text, each
/// on the line where it stands.
proof fn lemma_lex_located(cs: Seq<char>, i: int, word: Seq<char>, line: int)
    requires
        0 <= i,
        i <= cs.len() ==> line == 1 + newlines(cs, 0, i),
        word.len() > 0 ==> {
            &&& word.len() <= i <= cs.len()
            &&& cs.subrange(i - word.len(), i) == word
            &&& forall|j: int| 0 <= j < word.len() ==> #[trigger] word[j] != '\n'
        },
    ensures
        tokens_located(cs, lex(cs, i, word, line)),
    decreases cs.len() + 1 - i,
{
    let e: Seq<char> = Seq::empty();
    lemma_flush_located(cs, i, word, line);
    if i >= cs.len() {
        assert(lex(cs, i, word, line) == flush(word, line));
    } else {
        let c = cs[i];
        lemma_newlines_split(cs, 0, i, i + 1);
        if c == '\n' {
            lemma_lex_located(cs, i + 1, e, line + 1);
            lemma_located_concat(cs, flush(word, line), lex(cs, i + 1, e, line + 1));
        } else if c == '[' && word.len() == 0 {
            lemma_scan_to_bounds(cs, i + 1, '\n');
            lemma_scan_to_skips(cs, i + 1, '\n');
            let en = scan_to(cs, i + 1, '\n');
            lemma_newlines_none(cs, i + 1, en);
            lemma_newlines_split(cs, 0, i + 1, en);
            lemma_lex_located(cs, en, word, line);
        } else if c == '{' {
            lemma_scan_to_bounds(cs, i + 1, '}');
            lemma_scan_to_skips(cs, i + 1, '}');
            let en = scan_to(cs, i + 1, '}');
            let l2 = line + newlines(cs, i + 1, en);
            lemma_newlines_split(cs, 0, i + 1, en);
            if en < cs.len() {
                lemma_newlines_split(cs, 0, en, en + 1);
            }
            lemma_lex_located(cs, en + 1, e, l2);
            lemma_located_concat(cs, flush(word, line), lex(cs, en + 1, e, l2));
        } else if c == ';' {
            lemma_scan_to_bounds(cs, i + 1, '\n');
            lemma_scan_to_skips(cs, i + 1, '\n');
            let en = scan_to(cs, i + 1, '\n');
            lemma_newlines_none(cs, i + 1, en);
            lemma_newlines_split(cs, 0, i + 1, en);
            lemma_lex_located(cs, en, e, line);
            lemma_located_concat(cs, flush(word, line), lex(cs, en, e, line));
        } else if c == '(' {
            lemma_paren_end_bounds(cs, i + 1, 1);
            let en = paren_end(cs, i + 1, 1);
            let l2 = line + newlines(cs, i + 1, en);
            lemma_newlines_split(cs, 0, i + 1, en);
            lemma_lex_located(cs, en, e, l2);
            lemma_located_concat(cs, flush(word, line), lex(cs, en, e, l2));
        } else if is_whitespace_char(c) {
            lemma_lex_located(cs, i + 1, e, line);
            lemma_located_concat(cs, flush(word, line), lex(cs, i + 1, e, line));
        } else {
            let w2 = word.push(c);
            assert(cs.subrange(i + 1 - w2.len(), i + 1) =~= w2);
            assert forall|j: int| 0 <= j < w2.len() implies #[trigger] w2[j] != '\n' by {
                if j < word.len() {
                    assert(w2[j] == word[j]);
                }
            }
            lemma_lex_located(cs, i + 1, w2, line);
        }
    }
}

/// Each token of a text is a piece of that text, and its line number is
/// one more than the number of line breaks before it.
pub proof fn lemma_tokenize_located(input: Seq<char>)
    ensures
        tokens_located(input, spec_tokenize(input)),
{
    lemma_lex_located(input, 0, Seq::empty(), 1);
}

/// No token stands on a line past the text's last line.
pub proof fn lemma_token_lines_bounded(input: Seq<char>)
    ensures
        forall|k: int|
            0 <= k < spec_tokenize(input).len() ==> 1 <= (#[trigger] spec_tokenize(input)[k]).0 <= 1
                + newlines(input, 0, input.len() as int),
{
    let ts = spec_tokenize(input);
    lemma_tokenize_located(input);
    let starts = choose|starts: Seq<int>| tokens_at(input, ts, starts);
    assert forall|k: int| 0 <= k < ts.len() implies 1 <= (#[trigger] ts[k]).0 <= 1 + newlines(
        input,
        0,
        input.len() as int,
    ) by {
        let st = starts[k];
        assert(found_at(input, st, ts[k].1, ts[k].0));
        lemma_newlines_bound(input, 0, st);
        lemma_newlines_bound(input, st, input.len() as int);
        lemma_newlines_split(input, 0, st, input.len() as int);
    }
}

/// The texts of tokens, in order.
pub open spec fn token_texts(ts: Seq<(int, Seq<char>)>) -> Seq<Seq<char>> {
    ts.map_values(|t: (int, Seq<char>)| t.1)
}

/// Whether a text holds no header, comment or variation opener.
pub open spec fn plain_movetext(cs: Seq<char>) -> bool {
    forall|j: int|
        0 <= j < cs.len() ==> #[trigger] cs[j] != '[' && cs[j] != '{' && cs[j] != ';' && cs[j] != '('
}

proof fn lemma_word_end_run(cs: Seq<char>, j: int, i: int)
    requires
        0 <= j <= i <= cs.len(),
        forall|m: int| j <= m < i ==> !is_whitespace_char(#[trigger] cs[m]),
    ensures
        word_end(cs, j) == word_end(cs, i),
    decreases i - j,
{
    if j < i {
        lemma_word_end_run(cs, j + 1, i);
    }
}

proof fn lemma_lex_plain(cs: Seq<char>, i: int, word: Seq<char>, line: int)
    requires
        0 <= i <= cs.len(),
        plain_movetext(cs),
        word.len() > 0 ==> {
            &&& word.len() <= i
            &&& cs.subrange(i - word.len(), i) == word
            &&& forall|m: int| i - word.len() <= m < i ==> !is_whitespace_char(#[trigger] cs[m])
        },
    ensures
        token_texts(lex(cs, i, word, line)) == (if word.len() == 0 {
            fields_from(cs, i)
        } else {
            fields_from(cs, i - word.len())
        }),
    decreases cs.len() - i,
{
    let e: Seq<char> = Seq::empty();
    let start = i - word.len();
    if word.len() > 0 {
        lemma_word_end_run(cs, start + 1, i);
        assert(!is_whitespace_char(cs[start]));
    }
    if i >= cs.len() {
        if word.len() > 0 {
            assert(word_end(cs, i) == i);
            assert(cs.subrange(start, i) == word);
            assert(token_texts(flush(word, line)) =~= seq![word]);
            assert(fields_from(cs, i) == Seq::<Seq<char>>::empty());
            assert(fields_from(cs, start) == seq![cs.subrange(start, i)] + fields_from(cs, i));
            assert(seq![word] + Seq::<Seq<char>>::empty() =~= seq![word]);
        } else {
            assert(token_texts(flush(word, line)) =~= Seq::<Seq<char>>::empty());
        }
    } else {
        let c = cs[i];
        assert(c != '[' && c != '{' && c != ';' && c != '(');
        if c == '\n' || is_whitespace_char(c) {
            assert(is_whitespace_char(c));
            let l2 = if c == '\n' {
                line + 1
            } else {
                line
            };
            lemma_lex_plain(cs, i + 1, e, l2);
            assert(lex(cs, i, word, line) == flush(word, line) + lex(cs, i + 1, e, l2));
            assert(token_texts(flush(word, line) + lex(cs, i + 1, e, l2)) =~= token_texts(
                flush(word, line),
            ) + token_texts(lex(cs, i + 1, e, l2)));
            if word.len() > 0 {
                assert(word_end(cs, i) == i);
                assert(token_texts(flush(word, line)) =~= seq![word]);
                assert(fields_from(cs, start) == seq![cs.subrange(start, i)] + fields_from(cs, i));
            } else {
                assert(token_texts(flush(word, line)) =~= Seq::<Seq<char>>::empty());
            }
        } else {
            let w2 = word.push(c);
            assert(cs.subrange(i + 1 - w2.len(), i + 1) =~= w2);
            lemma_lex_plain(cs, i + 1, w2, line);
        }
    }
}

/// In movetext with no header, comment or variation, the tokens are the
/// whitespace-separated words, in order.
pub proof fn lemma_plain_tokens_are_words(input: Seq<char>)
    requires
        plain_movetext(input),
    ensures
        token_texts(spec_tokenize(input)) == fields_from(input, 0),
{
    lemma_lex_plain(input, 0, Seq::empty(), 1);
}

// ---------------------------------------------------------------------
// The lexer
// ---------------------------------------------------------------------

fn flush_word(word: &mut String, tokens: &mut Vec<Token>, line: u32)
    ensures
        final(word)@ == Seq::<char>::empty(),
        tokens_model(final(tokens)@) == tokens_model(old(tokens)@) + flush(old(word)@, line as int),
{
    if !word.as_str().is_empty() {
        let mut text = String::new();
        std::mem::swap(&mut text, word);
        let ghost before = tokens@;
        tokens.push(Token { line, text });
        assert(tokens_model(tokens@) =~= tokens_model(before) + flush(old(word)@, line as int));
    } else {
        assert(tokens_model(tokens@) =~= tokens_model(tokens@) + flush(old(word)@, line as int));
    }
}

/// Splits PGN text into its move-text words, each with the line it stands
/// on; headers, comments and variations are dropped.
pub fn tokenize(input: &str) -> (tokens: Vec<Token>)
    requires
        input@.len() < u32::MAX,
    ensures
        tokens_model(tokens@) == spec_tokenize(input@),
{
    let chars = chars_of(input);
    let ghost cs = chars@;
    let n = chars.len();
    let mut tokens: Vec<Token> = Vec::new();
    let mut word = String::new();
    let mut line: u32 = 1;
    let mut i: usize = 0;

    while i < n
        invariant
            cs == chars@,
            n == cs.len(),
            n < u32::MAX,
            i <= n,
            1 <= line <= i + 1,
            tokens_model(tokens@) + lex(cs, i as int, word@, line as int) == spec_tokenize(cs),
        decreases n - i,
    {
        let c = chars[i];
        let ghost i0 = i as int;
        let ghost line0 = line as int;
        let ghost word0 = word@;
        let ghost before = tokens_model(tokens@);
        if c == '\n' {
            flush_word(&mut word, &mut tokens, line);
            line += 1;
            i += 1;
            assert(before + lex(cs, i0, word0, line0) == tokens_model(tokens@) + lex(cs, i as int, word@, line as int));
        } else if c == '[' && word.as_str().is_empty() {
            proof {
                lemma_scan_to_bounds(cs, i0 + 1, '\n');
                assert(scan_to(cs, i0, '\n') == scan_to(cs, i0 + 1, '\n'));
            }
            while i < n && chars[i] != '\n'
                invariant
                    cs == chars@,
                    n == cs.len(),
                    i0 <= i <= n,
                    1 <= line <= i + 1,
                    scan_to(cs, i as int, '\n') == scan_to(cs, i0 + 1, '\n'),
                decreases n - i,
            {
                i += 1;
            }
        } else if c == '{' {
            flush_word(&mut word, &mut tokens, line);
            i += 1;
            proof {
                lemma_scan_to_bounds(cs, i0 + 1, '}');
            }
            while i < n && chars[i] != '}'
                invariant
                    cs == chars@,
                    n == cs.len(),
                    n < u32::MAX,
                    i0 + 1 <= i <= n,
                    1 <= line,
                    scan_to(cs, i as int, '}') == scan_to(cs, i0 + 1, '}'),
                    line == line0 + newlines(cs, i0 + 1, i as int),
                    line <= i + 1,
                decreases n - i,
            {
                proof {
                    lemma_newlines_bound(cs, i0 + 1, i as int);
                }
                if chars[i] == '\n' {
                    line += 1;
                }
                i += 1;
            }
            i += 1;
            assert(before + lex(cs, i0, word0, line0) == tokens_model(tokens@) + lex(cs, i as int, word@, line as int));
            if i > n {
                i = n;
                assert(lex(cs, n as int + 1, word@, line as int) == lex(cs, n as int, word@, line as int));
            }
        } else if c == ';' {
            flush_word(&mut word, &mut tokens, line);
            proof {
                lemma_scan_to_bounds(cs, i0 + 1, '\n');
                assert(scan_to(cs, i0, '\n') == scan_to(cs, i0 + 1, '\n'));
            }
            while i < n && chars[i] != '\n'
                invariant
                    cs == chars@,
                    n == cs.len(),
                    i0 <= i <= n,
                    1 <= line <= i + 1,
                    scan_to(cs, i as int, '\n') == scan_to(cs, i0 + 1, '\n'),
                decreases n - i,
            {
                i += 1;
            }
            assert(before + lex(cs, i0, word0, line0) == tokens_model(tokens@) + lex(cs, i as int, word@, line as int));
        } else if c == '(' {
            flush_word(&mut word, &mut tokens, line);
            let mut depth: usize = 1;
            i += 1;
            proof {
                lemma_paren_end_bounds(cs, i0 + 1, 1);
            }
            while i < n && depth > 0
                invariant
                    cs == chars@,
                    n == cs.len(),
                    n < u32::MAX,
                    i0 + 1 <= i <= n,
                    depth <= i,
                    1 <= line,
                    paren_end(cs, i as int, depth as int) == paren_end(cs, i0 + 1, 1),
                    line == line0 + newlines(cs, i0 + 1, i as int),
                    line <= i + 1,
                decreases n - i,
            {
                proof {
                    lemma_newlines_bound(cs, i0 + 1, i as int);
                }
                let d = chars[i];
                if d == '(' {
                    depth += 1;
                } else if d == ')' {
                    depth -= 1;
                } else if d == '\n' {
                    line += 1;
                }
                i += 1;
            }
            assert(before + lex(cs, i0, word0, line0) == tokens_model(tokens@) + lex(cs, i as int, word@, line as int));
        } else if is_whitespace(c) {
            flush_word(&mut word, &mut tokens, line);
            i += 1;
            assert(before + lex(cs, i0, word0, line0) == tokens_model(tokens@) + lex(cs, i as int, word@, line as int));
        } else {
            push_char(&mut word, c);
            i += 1;
        }
    }
    flush_word(&mut word, &mut tokens, line);
    assert(tokens_model(tokens@) =~= spec_tokenize(cs));
    tokens
}

/// The index of the first character at or after `k` that `digit` says
/// is (or is not) an ASCII digit, or `s.len()`.
pub open spec fn digits_end(s: Seq<char>, k: int) -> int
    decreases s.len() - k,
{
    if k >= s.len() || !is_digit_char(s[k]) {
        k
    } else {
        digits_end(s, k + 1)
    }
}

/// The end of the run of `.` that starts at `k`.
pub open spec fn dots_end(s: Seq<char>, k: int) -> int
    decreases s.len() - k,
{
    if k >= s.len() || s[k] != '.' {
        k
    } else {
        dots_end(s, k + 1)
    }
}

/// What is left of a word once a leading move number (digits followed by
/// at least one dot) is taken off; any other word is left as it is.
pub open spec fn spec_strip_move_number(s: Seq<char>) -> Seq<char> {
    let i = digits_end(s, 0);
    let j = dots_end(s, i);
    if i == 0 || j == i {
        s
    } else {
        s.skip(j)
    }
}

proof fn lemma_digits_run(s: Seq<char>, k: int, e: int)
    requires
        0 <= k <= e <= s.len(),
        forall|i: int| k <= i < e ==> '0' <= #[trigger] s[i] <= '9',
        e == s.len() || !('0' <= s[e] <= '9'),
    ensures
        digits_end(s, k) == e,
    decreases e - k,
{
    if k < e {
        lemma_digits_run(s, k + 1, e);
    }
}

proof fn lemma_dots_run(s: Seq<char>, k: int, e: int)
    requires
        0 <= k <= e <= s.len(),
        forall|i: int| k <= i < e ==> #[trigger] s[i] == '.',
        e == s.len() || s[e] != '.',
    ensures
        dots_end(s, k) == e,
    decreases e - k,
{
    if k < e {
        lemma_dots_run(s, k + 1, e);
    }
}

/// A move number is one or more digits `0`-`9` followed by one or more
/// dots: a word that starts with one loses exactly that prefix.
pub proof fn lemma_strip_move_number_prefix(d: Seq<char>, dots: Seq<char>, w: Seq<char>)
    requires
        d.len() > 0,
        forall|i: int| 0 <= i < d.len() ==> '0' <= #[trigger] d[i] <= '9',
        dots.len() > 0,
        forall|i: int| 0 <= i < dots.len() ==> #[trigger] dots[i] == '.',
        w.len() > 0 ==> w[0] != '.',
    ensures
        spec_strip_move_number(d + dots + w) == w,
{
    let s = d + dots + w;
    let a = d.len() as int;
    let b = a + dots.len();
    assert forall|i: int| 0 <= i < a implies '0' <= #[trigger] s[i] <= '9' by {
        assert(s[i] == d[i]);
    }
    assert(s[a] == dots[0]);
    lemma_digits_run(s, 0, a);
    assert forall|i: int| a <= i < b implies #[trigger] s[i] == '.' by {
        assert(s[i] == dots[i - a]);
    }
    if b < s.len() {
        assert(s[b] == w[0]);
    }
    lemma_dots_run(s, a, b);
    assert(s.skip(b) =~= w);
}

/// A word that does not start with a digit, or whose leading digits are
/// not followed by a dot, is no move number and stays as it is.
pub proof fn lemma_strip_move_number_keeps(s: Seq<char>, e: int)
    requires
        0 <= e <= s.len(),
        forall|i: int| 0 <= i < e ==> '0' <= #[trigger] s[i] <= '9',
        e == s.len() || !('0' <= s[e] <= '9'),
        e == 0 || e == s.len() || s[e] != '.',
    ensures
        spec_strip_move_number(s) == s,
{
    lemma_digits_run(s, 0, e);
    if e > 0 {
        lemma_dots_run(s, e, e);
    }
}

/// Strip a leading move-number marker such as "12." or "12..." from a
/// token, leaving the move itself. Tokens that are not a move number
/// (including plain moves, which never start with a digit) pass through
/// unchanged.
pub fn strip_move_number(word: &str) -> (r: &str)
    ensures
        r@ == spec_strip_move_number(word@),
{
    let cs = chars_of(word);
    let n = cs.len();
    let mut i: usize = 0;
    while i < n && is_digit(cs[i])
        invariant
            n == cs@.len(),
            i <= n,
            digits_end(cs@, i as int) == digits_end(cs@, 0),
        decreases n - i,
    {
        i += 1;
    }
    if i == 0 {
        return word;
    }
    let mut j = i;
    while j < n && cs[j] == '.'
        invariant
            n == cs@.len(),
            i <= j <= n,
            dots_end(cs@, j as int) == dots_end(cs@, i as int),
        decreases n - j,
    {
        j += 1;
    }
    if j == i {
        // digits with no following dot: not a move-number marker
        return word;
    }
    let r = word.substring_char(j, n);
    assert(r@ =~= word@.skip(j as int));
    r
}

/// A word that does not start with a digit is not a move number and is
/// left as it is.
pub proof fn lemma_plain_word_kept(s: Seq<char>)
    requires
        s.len() == 0 || !is_digit_char(s[0]),
    ensures
        spec_strip_move_number(s) == s,
{
}

/// The four game results that PGN movetext may end with.
pub open spec fn is_result_text(s: Seq<char>) -> bool {
    ||| s == seq!['1', '-', '0']
    ||| s == seq!['0', '-', '1']
    ||| s == seq!['1', '/', '2', '-', '1', '/', '2']
    ||| s == seq!['*']
}

pub fn is_result(word: &str) -> (b: bool)
    ensures
        b == is_result_text(word@),
{
    let cs = chars_of(word);
    let a = vec!['1', '-', '0'];
    let b = vec!['0', '-', '1'];
    let c = vec!['1', '/', '2', '-', '1', '/', '2'];
    let d = vec!['*'];
    assert(a@ =~= seq!['1', '-', '0']);
    assert(b@ =~= seq!['0', '-', '1']);
    assert(c@ =~= seq!['1', '/', '2', '-', '1', '/', '2']);
    assert(d@ =~= seq!['*']);
    same_chars(&cs, &a) || same_chars(&cs, &b) || same_chars(&cs, &c) || same_chars(&cs, &d)
}

/// A numeric annotation glyph: `$` followed by one or more digits.
pub open spec fn is_nag_text(s: Seq<char>) -> bool {
    &&& s.len() > 1
    &&& s[0] == '$'
    &&& forall|k: int| 1 <= k < s.len() ==> is_digit_char(#[trigger] s[k])
}

pub fn is_nag(word: &str) -> (b: bool)
    ensures
        b == is_nag_text(word@),
{
    let cs = chars_of(word);
    if cs.len() <= 1 || cs[0] != '$' {
        return false;
    }
    let mut k: usize = 1;
    while k < cs.len()
        invariant
            cs@ == word@,
            1 <= k <= cs@.len(),
            forall|m: int| 1 <= m < k ==> is_digit_char(#[trigger] cs@[m]),
        decreases cs@.len() - k,
    {
        if !is_digit(cs[k]) {
            assert(!is_digit_char(word@[k as int]));
            return false;
        }
        k += 1;
    }
    true
}

} // verus!
