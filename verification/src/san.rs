//! Validation and structural parsing of a single SAN (Standard Algebraic
//! Notation) move token.
//!
//! `validate` checks syntax only: piece letters, square names,
//! disambiguation shape, promotion rules, and the pawn-must-promote rule.
//! `parse` does the same grammar work but returns the pieces it found, so a
//! caller that tracks a board does not have to re-derive them from the raw
//! string. The grammar is stated once, as the spec function `spec_parse`,
//! and both functions are proved against it.
use vstd::prelude::*;
use crate::text::{around_char, chars_of, concat3, contains_between, is_file, is_file_char, string_from};

verus! {

/// Why a move token is not valid SAN.
#[derive(Debug, PartialEq, Eq)]
pub enum SanError {
    Empty,
    InvalidPiece(char),
    InvalidCastling(String),
    InvalidDestination(String),
    InvalidDisambiguation(String),
    MissingCaptureFile(String),
    MissingPromotion(String),
    UnexpectedPromotion(String),
    InvalidPromotion(String),
    MultipleCheckSymbols,
}

/// `SanError` with its strings taken as character sequences.
pub enum SanErrorModel {
    Empty,
    InvalidPiece(char),
    InvalidCastling(Seq<char>),
    InvalidDestination(Seq<char>),
    InvalidDisambiguation(Seq<char>),
    MissingCaptureFile(Seq<char>),
    MissingPromotion(Seq<char>),
    UnexpectedPromotion(Seq<char>),
    InvalidPromotion(Seq<char>),
    MultipleCheckSymbols,
}

impl View for SanError {
    type V = SanErrorModel;

    open spec fn view(&self) -> SanErrorModel {
        match self {
            SanError::Empty => SanErrorModel::Empty,
            SanError::InvalidPiece(c) => SanErrorModel::InvalidPiece(*c),
            SanError::InvalidCastling(s) => SanErrorModel::InvalidCastling(s@),
            SanError::InvalidDestination(s) => SanErrorModel::InvalidDestination(s@),
            SanError::InvalidDisambiguation(s) => SanErrorModel::InvalidDisambiguation(s@),
            SanError::MissingCaptureFile(s) => SanErrorModel::MissingCaptureFile(s@),
            SanError::MissingPromotion(s) => SanErrorModel::MissingPromotion(s@),
            SanError::UnexpectedPromotion(s) => SanErrorModel::UnexpectedPromotion(s@),
            SanError::InvalidPromotion(s) => SanErrorModel::InvalidPromotion(s@),
            SanError::MultipleCheckSymbols => SanErrorModel::MultipleCheckSymbols,
        }
    }
}

/// The text that describes an error.
pub open spec fn error_message(e: SanErrorModel) -> Seq<char> {
    match e {
        SanErrorModel::Empty => "empty move"@,
        SanErrorModel::InvalidPiece(c) => "'"@.push(c) + "' is not a valid piece letter"@,
        SanErrorModel::InvalidCastling(s) => "'"@ + s + "' is not valid castling notation"@,
        SanErrorModel::InvalidDestination(s) => "'"@ + s + "' is not a valid destination square"@,
        SanErrorModel::InvalidDisambiguation(s) => "'"@ + s + "' is not a valid disambiguation"@,
        SanErrorModel::MissingCaptureFile(s) => "pawn capture '"@ + s
            + "' is missing its origin file"@,
        SanErrorModel::MissingPromotion(s) => "pawn move '"@ + s
            + "' reaches the last rank but has no promotion"@,
        SanErrorModel::UnexpectedPromotion(s) => "'"@ + s
            + "' is not a legal place for a promotion"@,
        SanErrorModel::InvalidPromotion(s) => "'"@ + s + "' is not a valid promotion piece"@,
        SanErrorModel::MultipleCheckSymbols => "more than one check/mate symbol"@,
    }
}

impl SanError {
    /// The text that describes this error.
    pub fn message(&self) -> (m: String)
        ensures
            m@ == error_message(self@),
    {
        match self {
            SanError::Empty => "empty move".to_owned(),
            SanError::InvalidPiece(c) => around_char("'", *c, "' is not a valid piece letter"),
            SanError::InvalidCastling(s) => concat3("'", s.as_str(), "' is not valid castling notation"),
            SanError::InvalidDestination(s) => concat3(
                "'",
                s.as_str(),
                "' is not a valid destination square",
            ),
            SanError::InvalidDisambiguation(s) => concat3(
                "'",
                s.as_str(),
                "' is not a valid disambiguation",
            ),
            SanError::MissingCaptureFile(s) => concat3(
                "pawn capture '",
                s.as_str(),
                "' is missing its origin file",
            ),
            SanError::MissingPromotion(s) => concat3(
                "pawn move '",
                s.as_str(),
                "' reaches the last rank but has no promotion",
            ),
            SanError::UnexpectedPromotion(s) => concat3(
                "'",
                s.as_str(),
                "' is not a legal place for a promotion",
            ),
            SanError::InvalidPromotion(s) => concat3(
                "'",
                s.as_str(),
                "' is not a valid promotion piece",
            ),
            SanError::MultipleCheckSymbols => "more than one check/mate symbol".to_owned(),
        }
    }
}

#[derive(Debug, Clone, Copy, PartialEq, Eq, Structural)]
pub enum Piece {
    King,
    Queen,
    Rook,
    Bishop,
    Knight,
    Pawn,
}

#[derive(Debug, Clone, Copy, PartialEq, Eq, Structural)]
pub enum Castle {
    Kingside,
    Queenside,
}

/// The structural content of a syntactically valid move: which piece moved,
/// any disambiguating file/rank, whether it captured, where it landed, and
/// what it promoted to. `dest` is `None` only for castling, where the
/// landing square depends on which side is moving rather than on the move
/// text itself.
#[derive(Debug, Clone, Copy, PartialEq, Eq)]
pub struct Move {
    pub castle: Option<Castle>,
    pub piece: Piece,
    pub disambig_file: Option<char>,
    pub disambig_rank: Option<char>,
    pub capture: bool,
    pub dest: Option<(char, char)>,
    pub promotion: Option<Piece>,
}

impl Move {
    /// Every character the move holds names a file or a rank where it
    /// should, as is the case for each move that `parse` returns.
    pub open spec fn well_formed(self) -> bool {
        &&& (self.dest matches Some((f, r)) ==> is_file_char(f) && is_rank_char(r))
        &&& (self.disambig_file matches Some(f) ==> is_file_char(f))
        &&& (self.disambig_rank matches Some(r) ==> is_rank_char(r))
    }
}

// ---------------------------------------------------------------------
// The grammar
// ---------------------------------------------------------------------

pub open spec fn is_check_mark(c: char) -> bool {
    c == '+' || c == '#'
}

/// The move without its trailing check or mate symbol; `None` when a second
/// symbol stands before the last one.
pub open spec fn strip_check(mv: Seq<char>) -> Option<Seq<char>> {
    if mv.len() > 0 && is_check_mark(mv.last()) {
        let c = mv.drop_last();
        if c.len() > 0 && is_check_mark(c.last()) {
            None
        } else {
            Some(c)
        }
    } else {
        Some(mv)
    }
}

/// `O-O` (short) or `O-O-O` (long) written with the letter `z`.
pub open spec fn castle_text(z: char, long: bool) -> Seq<char> {
    if long {
        seq![z, '-', z, '-', z]
    } else {
        seq![z, '-', z]
    }
}

pub open spec fn castle_of(core: Seq<char>, lenient: bool) -> Option<Castle> {
    if core == castle_text('O', false) {
        Some(Castle::Kingside)
    } else if core == castle_text('O', true) {
        Some(Castle::Queenside)
    } else if lenient && core == castle_text('0', false) {
        Some(Castle::Kingside)
    } else if lenient && core == castle_text('0', true) {
        Some(Castle::Queenside)
    } else {
        None
    }
}

pub open spec fn castle_move(castle: Castle) -> Move {
    Move {
        castle: Some(castle),
        piece: Piece::King,
        disambig_file: None,
        disambig_rank: None,
        capture: false,
        dest: None,
        promotion: None,
    }
}

pub open spec fn is_piece_letter(c: char) -> bool {
    c == 'K' || c == 'Q' || c == 'R' || c == 'B' || c == 'N'
}

pub open spec fn is_lower_piece_letter(c: char) -> bool {
    c == 'k' || c == 'q' || c == 'r' || c == 'b' || c == 'n'
}

/// The piece an uppercase letter `KQRBN` names.
pub open spec fn piece_of_letter(c: char) -> Piece {
    if c == 'K' {
        Piece::King
    } else if c == 'Q' {
        Piece::Queen
    } else if c == 'R' {
        Piece::Rook
    } else if c == 'B' {
        Piece::Bishop
    } else {
        Piece::Knight
    }
}

/// The piece a lowercase letter `kqrbn` names.
pub open spec fn piece_of_lower_letter(c: char) -> Piece {
    if c == 'k' {
        Piece::King
    } else if c == 'q' {
        Piece::Queen
    } else if c == 'r' {
        Piece::Rook
    } else if c == 'b' {
        Piece::Bishop
    } else {
        Piece::Knight
    }
}

/// What the first character of the move says: the piece letter (if any)
/// and how many characters it takes; `None` for a `P` in strict mode.
pub open spec fn lead_piece(c: char, lenient: bool) -> Option<(Option<Piece>, int)> {
    if is_piece_letter(c) {
        Some((Some(piece_of_letter(c)), 1))
    } else if c == 'P' {
        if lenient {
            Some((None, 1))
        } else {
            None
        }
    } else if lenient && is_lower_piece_letter(c) {
        Some((Some(piece_of_lower_letter(c)), 1))
    } else {
        Some((None, 0))
    }
}

/// `c` is the ASCII letter `lower` in either case.
pub open spec fn either_case(c: char, lower: char, upper: char) -> bool {
    c == lower || c == upper
}

/// How many trailing characters form an en passant marker (`e.p.` or `ep`,
/// in any case, but not `=ep`) that lenient mode drops.
pub open spec fn ep_marker_len(rest: Seq<char>, lenient: bool) -> int {
    let n = rest.len() as int;
    if !lenient {
        0
    } else if n >= 4 && either_case(rest[n - 4], 'e', 'E') && rest[n - 3] == '.' && either_case(
        rest[n - 2],
        'p',
        'P',
    ) && rest[n - 1] == '.' {
        4
    } else if n >= 2 && either_case(rest[n - 2], 'e', 'E') && either_case(rest[n - 1], 'p', 'P')
        && !(n >= 3 && rest[n - 3] == '=') {
        2
    } else {
        0
    }
}

/// The index of the first `c` in `s`, or `s.len()` when there is none.
pub open spec fn first_index(s: Seq<char>, c: char) -> int {
    if s.contains(c) {
        choose|i: int| 0 <= i < s.len() && s[i] == c && forall|j: int| 0 <= j < i ==> s[j] != c
    } else {
        s.len() as int
    }
}

proof fn lemma_earliest(s: Seq<char>, c: char, w: int) -> (m: int)
    requires
        0 <= w < s.len(),
        s[w] == c,
    ensures
        0 <= m <= w,
        s[m] == c,
        forall|j: int| 0 <= j < m ==> s[j] != c,
    decreases w,
{
    if exists|j: int| 0 <= j < w && s[j] == c {
        let j = choose|j: int| 0 <= j < w && s[j] == c;
        lemma_earliest(s, c, j)
    } else {
        w
    }
}

/// `first_index` is the index of the first `c`, or the length when there
/// is none.
pub proof fn lemma_first_index(s: Seq<char>, c: char)
    ensures
        0 <= first_index(s, c) <= s.len(),
        first_index(s, c) < s.len() ==> s[first_index(s, c)] == c,
        forall|j: int| 0 <= j < first_index(s, c) ==> s[j] != c,
{
    if s.contains(c) {
        let w = choose|i: int| 0 <= i < s.len() && s[i] == c;
        let m = lemma_earliest(s, c, w);
        assert(0 <= m < s.len() && s[m] == c && forall|j: int| 0 <= j < m ==> s[j] != c);
    } else {
        assert forall|j: int| 0 <= j < s.len() implies s[j] != c by {
            if s[j] == c {
                assert(s.contains(c));
            }
        }
    }
}

pub open spec fn is_rank_char(c: char) -> bool {
    '1' <= c <= '8'
}

/// The disambiguating file and rank, given the moving piece (`None` for a
/// pawn), whether the move captures, and the characters between the piece
/// letter and the capture mark or destination.
pub open spec fn disambiguation(
    mv: Seq<char>,
    piece: Option<Piece>,
    capture: bool,
    d: Seq<char>,
) -> Result<(Option<char>, Option<char>), SanErrorModel> {
    if piece is None {
        if capture {
            if d.len() == 1 && is_file_char(d[0]) {
                Ok((Some(d[0]), None))
            } else {
                Err(SanErrorModel::MissingCaptureFile(mv))
            }
        } else if d.len() != 0 {
            Err(SanErrorModel::InvalidDisambiguation(d))
        } else {
            Ok((None, None))
        }
    } else if d.len() == 0 {
        Ok((None, None))
    } else if d.len() == 1 {
        if is_file_char(d[0]) {
            Ok((Some(d[0]), None))
        } else if is_rank_char(d[0]) {
            Ok((None, Some(d[0])))
        } else {
            Err(SanErrorModel::InvalidDisambiguation(d))
        }
    } else if d.len() == 2 && is_file_char(d[0]) && is_rank_char(d[1]) {
        Ok((Some(d[0]), Some(d[1])))
    } else {
        Err(SanErrorModel::InvalidDisambiguation(d))
    }
}

pub open spec fn is_promotion_letter(c: char, lenient: bool) -> bool {
    c == 'Q' || c == 'R' || c == 'B' || c == 'N' || (lenient && (c == 'q' || c == 'r' || c == 'b'
        || c == 'n'))
}

/// The piece a promotion letter names, in either case.
pub open spec fn promotion_piece(c: char) -> Piece {
    if is_piece_letter(c) {
        piece_of_letter(c)
    } else {
        piece_of_lower_letter(c)
    }
}

/// The promotion, given the moving piece, the text after `=` (if any) and
/// the destination rank.
pub open spec fn promotion(
    mv: Seq<char>,
    piece: Option<Piece>,
    promo: Option<Seq<char>>,
    dest_rank: char,
    lenient: bool,
) -> Result<Option<Piece>, SanErrorModel> {
    let on_last_rank = dest_rank == '1' || dest_rank == '8';
    match (piece, promo) {
        (None, Some(p)) => if on_last_rank {
            if p.len() == 1 && is_promotion_letter(p[0], lenient) {
                Ok(Some(promotion_piece(p[0])))
            } else {
                Err(SanErrorModel::InvalidPromotion(p))
            }
        } else {
            Err(SanErrorModel::UnexpectedPromotion(p))
        },
        (None, None) => if on_last_rank {
            Err(SanErrorModel::MissingPromotion(mv))
        } else {
            Ok(None)
        },
        (Some(_), Some(p)) => Err(SanErrorModel::UnexpectedPromotion(p)),
        (Some(_), None) => Ok(None),
    }
}

/// The move from the text before `=` (`bp`, which ends in the destination
/// square) and the text after it (`promo`).
pub open spec fn finish_move(
    mv: Seq<char>,
    piece: Option<Piece>,
    bp: Seq<char>,
    promo: Option<Seq<char>>,
    lenient: bool,
) -> Result<Move, SanErrorModel> {
    let n = bp.len() as int;
    let prefix = bp.take(n - 2);
    let capture = prefix.len() > 0 && (prefix.last() == 'x' || (lenient && prefix.last() == ':'));
    let d = if capture {
        prefix.drop_last()
    } else {
        prefix
    };
    match disambiguation(mv, piece, capture, d) {
        Err(e) => Err(e),
        Ok((dfile, drank)) => match promotion(mv, piece, promo, bp[n - 1], lenient) {
            Err(e) => Err(e),
            Ok(pr) => Ok(
                Move {
                    castle: None,
                    piece: match piece {
                        Some(pc) => pc,
                        None => Piece::Pawn,
                    },
                    disambig_file: dfile,
                    disambig_rank: drank,
                    capture,
                    dest: Some((bp[n - 2], bp[n - 1])),
                    promotion: pr,
                },
            ),
        },
    }
}

/// The grammar after the piece letter: `rest` is what follows it (with any
/// en passant marker already dropped).
#[verifier::opaque]
pub open spec fn parse_body(
    mv: Seq<char>,
    piece: Option<Piece>,
    rest: Seq<char>,
    lenient: bool,
) -> Result<Move, SanErrorModel> {
    let p = first_index(rest, '=');
    let bp = rest.take(p);
    let promo = if p < rest.len() {
        Some(rest.skip(p + 1))
    } else {
        None::<Seq<char>>
    };
    let n = bp.len() as int;
    if n < 2 {
        Err(SanErrorModel::InvalidDestination(mv))
    } else if !(is_file_char(bp[n - 2]) && is_rank_char(bp[n - 1])) {
        Err(SanErrorModel::InvalidDestination(bp))
    } else {
        finish_move(mv, piece, bp, promo, lenient)
    }
}

/// The grammar after the piece letter (if any): `rest` is what follows it;
/// in lenient mode a trailing en passant marker is dropped first.
pub open spec fn after_lead(mv: Seq<char>, piece: Option<Piece>, rest: Seq<char>, lenient: bool) -> Result<
    Move,
    SanErrorModel,
> {
    parse_body(mv, piece, rest.take(rest.len() - ep_marker_len(rest, lenient)), lenient)
}

/// A parse that fails for a pawn move reaching the last rank without a
/// promotion.
pub open spec fn is_missing_promotion(r: Result<Move, SanErrorModel>) -> bool {
    r matches Err(SanErrorModel::MissingPromotion(_))
}

/// The grammar once the check or mate symbol is gone.
pub open spec fn parse_core(mv: Seq<char>, core: Seq<char>, lenient: bool) -> Result<
    Move,
    SanErrorModel,
> {
    match castle_of(core, lenient) {
        Some(c) => Ok(castle_move(c)),
        None => if core.contains('O') || core.contains('-') {
            Err(SanErrorModel::InvalidCastling(mv))
        } else if core.len() == 0 {
            Err(SanErrorModel::Empty)
        } else {
            match lead_piece(core[0], lenient) {
                None => Err(SanErrorModel::InvalidPiece('P')),
                Some((piece, k)) => if lenient && core[0] == 'b' {
                    // a leading `b` names the b-file first, and the bishop
                    // only when the pawn reading fails for want of a valid
                    // text: a pawn reaching the last rank without a
                    // promotion is still that error
                    let pawn = after_lead(mv, None, core, lenient);
                    if pawn is Ok || is_missing_promotion(pawn) {
                        pawn
                    } else {
                        after_lead(mv, piece, core.skip(k), lenient)
                    }
                } else {
                    after_lead(mv, piece, core.skip(k), lenient)
                },
            }
        },
    }
}

/// What SAN makes of the move text `mv`, strictly or leniently.
pub open spec fn spec_parse(mv: Seq<char>, lenient: bool) -> Result<Move, SanErrorModel> {
    if mv.len() == 0 {
        Err(SanErrorModel::Empty)
    } else {
        match strip_check(mv) {
            None => Err(SanErrorModel::MultipleCheckSymbols),
            Some(core) => parse_core(mv, core, lenient),
        }
    }
}

pub open spec fn parse_view(r: Result<Move, SanError>) -> Result<Move, SanErrorModel> {
    match r {
        Ok(m) => Ok(m),
        Err(e) => Err(e@),
    }
}

// ---------------------------------------------------------------------
// Executable parser
// ---------------------------------------------------------------------

fn is_check_symbol(c: char) -> (b: bool)
    ensures
        b == is_check_mark(c),
{
    c == '+' || c == '#'
}

fn is_rank(c: char) -> (b: bool)
    ensures
        b == is_rank_char(c),
{
    '1' <= c && c <= '8'
}

/// Whether `cs[0..n]` is the castling text `castle_text(z, long)`.
fn is_castle_text(cs: &Vec<char>, n: usize, z: char, long: bool) -> (b: bool)
    requires
        n <= cs@.len(),
    ensures
        b == (cs@.take(n as int) == castle_text(z, long)),
{
    let ok = if long {
        n == 5 && cs[0] == z && cs[1] == '-' && cs[2] == z && cs[3] == '-' && cs[4] == z
    } else {
        n == 3 && cs[0] == z && cs[1] == '-' && cs[2] == z
    };
    if ok {
        assert(cs@.take(n as int) =~= castle_text(z, long));
    } else {
        proof {
        let t = castle_text(z, long);
        if cs@.take(n as int) == t {
            assert(cs@.take(n as int).len() == t.len());
            assert(cs@.take(n as int)[0] == t[0]);
            assert(cs@.take(n as int)[1] == t[1]);
            assert(cs@.take(n as int)[2] == t[2]);
            if long {
                assert(cs@.take(n as int)[3] == t[3]);
                assert(cs@.take(n as int)[4] == t[4]);
            }
        }
        }
    }
    ok
}

/// The first index in `lo..hi` that holds `c`, or `hi`.
fn find_between(cs: &Vec<char>, lo: usize, hi: usize, c: char) -> (p: usize)
    requires
        lo <= hi <= cs@.len(),
    ensures
        lo <= p <= hi,
        p - lo == first_index(cs@.subrange(lo as int, hi as int), c),
{
    let ghost s = cs@.subrange(lo as int, hi as int);
    let mut i = lo;
    while i < hi
        invariant
            lo <= i <= hi <= cs@.len(),
            s == cs@.subrange(lo as int, hi as int),
            forall|j: int| lo <= j < i ==> cs@[j] != c,
        decreases hi - i,
    {
        if cs[i] == c {
            proof {
                let k = (i - lo) as int;
                assert(s[k] == c);
                assert(s.contains(c));
                let q = first_index(s, c);
                assert(forall|j: int| 0 <= j < k ==> s[j] == cs@[lo + j]);
                if q < k {
                    assert(s[q] == c);
                } else if q > k {
                    assert(s[k] != c);
                }
            }
            return i;
        }
        i += 1;
    }
    proof {
        if s.contains(c) {
            let j = choose|j: int| 0 <= j < s.len() && s[j] == c;
            assert(cs@[lo + j] == c);
        }
    }
    hi
}

/// The piece an uppercase letter `KQRBN` names.
fn piece_from_char(c: char) -> (p: Piece)
    requires
        is_piece_letter(c),
    ensures
        p == piece_of_letter(c),
{
    match c {
        'K' => Piece::King,
        'Q' => Piece::Queen,
        'R' => Piece::Rook,
        'B' => Piece::Bishop,
        _ => Piece::Knight,
    }
}

fn piece_from_lower_char(c: char) -> (p: Piece)
    ensures
        p == piece_of_lower_letter(c),
{
    match c {
        'k' => Piece::King,
        'q' => Piece::Queen,
        'r' => Piece::Rook,
        'b' => Piece::Bishop,
        _ => Piece::Knight,
    }
}

fn castle_result(castle: Castle) -> (r: Result<Move, SanError>)
    ensures
        parse_view(r) == Ok::<Move, SanErrorModel>(castle_move(castle)),
{
    Ok(
        Move {
            castle: Some(castle),
            piece: Piece::King,
            disambig_file: None,
            disambig_rank: None,
            capture: false,
            dest: None,
            promotion: None,
        },
    )
}

/// Number of trailing characters of `cs[lo..hi]` that form an en passant
/// marker.
fn marker_len(cs: &Vec<char>, lo: usize, hi: usize, lenient: bool) -> (m: usize)
    requires
        lo <= hi <= cs@.len(),
    ensures
        m == ep_marker_len(cs@.subrange(lo as int, hi as int), lenient),
        m <= hi - lo,
{
    let ghost rest = cs@.subrange(lo as int, hi as int);
    let n = hi - lo;
    if !lenient {
        0
    } else if n >= 4 && (cs[hi - 4] == 'e' || cs[hi - 4] == 'E') && cs[hi - 3] == '.' && (cs[hi
        - 2] == 'p' || cs[hi - 2] == 'P') && cs[hi - 1] == '.' {
        assert(rest[n - 4] == cs@[hi - 4]);
        assert(rest[n - 3] == cs@[hi - 3]);
        assert(rest[n - 2] == cs@[hi - 2]);
        assert(rest[n - 1] == cs@[hi - 1]);
        4
    } else if n >= 2 && (cs[hi - 2] == 'e' || cs[hi - 2] == 'E') && (cs[hi - 1] == 'p' || cs[hi
        - 1] == 'P') && !(n >= 3 && cs[hi - 3] == '=') {
        assert(rest[n - 2] == cs@[hi - 2]);
        assert(rest[n - 1] == cs@[hi - 1]);
        assert(n >= 3 ==> rest[n - 3] == cs@[hi - 3]);
        2
    } else {
        assert(n >= 4 ==> rest[n - 4] == cs@[hi - 4] && rest[n - 3] == cs@[hi - 3]);
        assert(n >= 2 ==> rest[n - 2] == cs@[hi - 2] && rest[n - 1] == cs@[hi - 1]);
        assert(n >= 3 ==> rest[n - 3] == cs@[hi - 3]);
        0
    }
}

/// The disambiguation of `cs[lo..hi]`; see `disambiguation`.
fn disambiguate(
    mv: &str,
    cs: &Vec<char>,
    lo: usize,
    hi: usize,
    piece: Option<Piece>,
    capture: bool,
) -> (r: Result<(Option<char>, Option<char>), SanError>)
    requires
        lo <= hi <= cs@.len(),
    ensures
        match r {
            Ok(v) => disambiguation(mv@, piece, capture, cs@.subrange(lo as int, hi as int)) == Ok::<
                _,
                SanErrorModel,
            >(v),
            Err(e) => disambiguation(mv@, piece, capture, cs@.subrange(lo as int, hi as int))
                == Err::<(Option<char>, Option<char>), _>(e@),
        },
{
    let ghost d = cs@.subrange(lo as int, hi as int);
    let n = hi - lo;
    assert(n >= 1 ==> d[0] == cs@[lo as int]);
    assert(n >= 2 ==> d[1] == cs@[lo + 1]);
    if piece.is_none() {
        if capture {
            if n == 1 && is_file(cs[lo]) {
                Ok((Some(cs[lo]), None))
            } else {
                Err(SanError::MissingCaptureFile(mv.to_owned()))
            }
        } else if n != 0 {
            Err(SanError::InvalidDisambiguation(string_from(cs, lo, hi)))
        } else {
            Ok((None, None))
        }
    } else if n == 0 {
        Ok((None, None))
    } else if n == 1 {
        let c = cs[lo];
        if is_file(c) {
            Ok((Some(c), None))
        } else if is_rank(c) {
            Ok((None, Some(c)))
        } else {
            Err(SanError::InvalidDisambiguation(string_from(cs, lo, hi)))
        }
    } else if n == 2 && is_file(cs[lo]) && is_rank(cs[lo + 1]) {
        Ok((Some(cs[lo]), Some(cs[lo + 1])))
    } else {
        Err(SanError::InvalidDisambiguation(string_from(cs, lo, hi)))
    }
}

/// The promotion; `promo` is the range after `=`, if there is one.
fn promote(
    mv: &str,
    cs: &Vec<char>,
    piece: Option<Piece>,
    promo: Option<(usize, usize)>,
    dest_rank: char,
    lenient: bool,
) -> (r: Result<Option<Piece>, SanError>)
    requires
        promo matches Some((lo, hi)) ==> lo <= hi <= cs@.len(),
    ensures
        ({
            let pv = match promo {
                Some((lo, hi)) => Some(cs@.subrange(lo as int, hi as int)),
                None => None,
            };
            match r {
                Ok(v) => promotion(mv@, piece, pv, dest_rank, lenient) == Ok::<_, SanErrorModel>(v),
                Err(e) => promotion(mv@, piece, pv, dest_rank, lenient) == Err::<
                    Option<Piece>,
                    _,
                >(e@),
            }
        }),
{
    let on_last_rank = dest_rank == '1' || dest_rank == '8';
    match promo {
        Some((lo, hi)) => {
            let ghost p = cs@.subrange(lo as int, hi as int);
            assert(hi - lo >= 1 ==> p[0] == cs@[lo as int]);
            if piece.is_some() || !on_last_rank {
                Err(SanError::UnexpectedPromotion(string_from(cs, lo, hi)))
            } else if hi - lo == 1 {
                let c = cs[lo];
                if c == 'Q' || c == 'R' || c == 'B' || c == 'N' {
                    Ok(Some(piece_from_char(c)))
                } else if lenient && (c == 'q' || c == 'r' || c == 'b' || c == 'n') {
                    Ok(Some(piece_from_lower_char(c)))
                } else {
                    Err(SanError::InvalidPromotion(string_from(cs, lo, hi)))
                }
            } else {
                Err(SanError::InvalidPromotion(string_from(cs, lo, hi)))
            }
        },
        None => {
            if piece.is_none() && on_last_rank {
                Err(SanError::MissingPromotion(mv.to_owned()))
            } else {
                Ok(None)
            }
        },
    }
}

/// The grammar after the piece letter, on `cs[lo..hi]`; see `parse_body`.
#[verifier::spinoff_prover]
#[verifier::rlimit(60)]
fn parse_rest(mv: &str, cs: &Vec<char>, lo: usize, hi: usize, piece: Option<Piece>, lenient: bool) -> (r:
    Result<Move, SanError>)
    requires
        lo <= hi <= cs@.len(),
    ensures
        parse_view(r) == parse_body(mv@, piece, cs@.subrange(lo as int, hi as int), lenient),
{
    reveal(parse_body);
    let ghost rest = cs@.subrange(lo as int, hi as int);
    let pos = find_between(cs, lo, hi, '=');
    let ghost p = first_index(rest, '=');
    let ghost bp = rest.take(p);
    assert(bp =~= cs@.subrange(lo as int, pos as int));
    let promo: Option<(usize, usize)> = if pos < hi {
        assert(rest.skip(p + 1) =~= cs@.subrange(pos + 1, hi as int));
        Some((pos + 1, hi))
    } else {
        None
    };
    if pos - lo < 2 {
        return Err(SanError::InvalidDestination(mv.to_owned()));
    }
    let df = cs[pos - 2];
    let dr = cs[pos - 1];
    assert(df == bp[bp.len() - 2]);
    assert(dr == bp[bp.len() - 1]);
    if !(is_file(df) && is_rank(dr)) {
        return Err(SanError::InvalidDestination(string_from(cs, lo, pos)));
    }
    finish(mv, cs, lo, pos, promo, piece, lenient)
}

/// The move from `cs[lo..end]`, which ends in a destination square, and the
/// promotion text `promo`; see `finish_move`.
#[verifier::spinoff_prover]
fn finish(
    mv: &str,
    cs: &Vec<char>,
    lo: usize,
    end: usize,
    promo: Option<(usize, usize)>,
    piece: Option<Piece>,
    lenient: bool,
) -> (r: Result<Move, SanError>)
    requires
        lo + 2 <= end <= cs@.len(),
        promo matches Some((a, b)) ==> a <= b <= cs@.len(),
    ensures
        parse_view(r) == finish_move(
            mv@,
            piece,
            cs@.subrange(lo as int, end as int),
            match promo {
                Some((a, b)) => Some(cs@.subrange(a as int, b as int)),
                None => None,
            },
            lenient,
        ),
{
    let ghost bp = cs@.subrange(lo as int, end as int);
    let df = cs[end - 2];
    let dr = cs[end - 1];
    assert(df == bp[bp.len() - 2]);
    assert(dr == bp[bp.len() - 1]);
    let pre_end = end - 2;
    let ghost prefix = bp.take(bp.len() - 2);
    assert(prefix =~= cs@.subrange(lo as int, pre_end as int));
    let capture = pre_end > lo && (cs[pre_end - 1] == 'x' || (lenient && cs[pre_end - 1] == ':'));
    assert(prefix.len() > 0 ==> prefix.last() == cs@[pre_end - 1]);
    let d_end = if capture {
        pre_end - 1
    } else {
        pre_end
    };
    assert(capture ==> prefix.drop_last() =~= cs@.subrange(lo as int, d_end as int));
    let (dfile, drank) = match disambiguate(mv, cs, lo, d_end, piece, capture) {
        Ok(v) => v,
        Err(e) => return Err(e),
    };
    let pr = match promote(mv, cs, piece, promo, dr, lenient) {
        Ok(v) => v,
        Err(e) => return Err(e),
    };
    let kind = match piece {
        Some(pc) => pc,
        None => Piece::Pawn,
    };
    Ok(
        Move {
            castle: None,
            piece: kind,
            disambig_file: dfile,
            disambig_rank: drank,
            capture,
            dest: Some((df, dr)),
            promotion: pr,
        },
    )
}

/// Validate a single move token (no move number, no surrounding whitespace).
///
/// In strict mode this enforces standard SAN exactly: uppercase piece
/// letters, `O-O`/`O-O-O` castling, a mandatory origin file on pawn
/// captures, and uppercase `QRBN` promotions.
///
/// In lenient mode it additionally accepts: `0-0`/`0-0-0` castling written
/// with digit zero, a lowercase piece or promotion letter, a `:` in place
/// of `x` for captures, and a trailing `e.p.`/`ep` marker on an en passant
/// capture.
pub fn validate(mv: &str, lenient: bool) -> (r: Result<(), SanError>)
    ensures
        r is Ok <==> spec_parse(mv@, lenient) is Ok,
        r matches Err(e) ==> spec_parse(mv@, lenient) == Err::<Move, SanErrorModel>(e@),
{
    match parse(mv, lenient) {
        Ok(_) => Ok(()),
        Err(e) => Err(e),
    }
}

/// Same grammar as `validate`, but returns the parsed move on success
/// instead of discarding it.
pub fn parse(mv: &str, lenient: bool) -> (r: Result<Move, SanError>)
    ensures
        parse_view(r) == spec_parse(mv@, lenient),
        r matches Ok(m) ==> m.well_formed(),
{
    proof {
        lemma_parse_well_formed(mv@, lenient);
    }
    parse_text(mv, lenient)
}

#[verifier::spinoff_prover]
#[verifier::rlimit(60)]
fn parse_text(mv: &str, lenient: bool) -> (r: Result<Move, SanError>)
    ensures
        parse_view(r) == spec_parse(mv@, lenient),
{
    let cs = chars_of(mv);
    let n = cs.len();
    if n == 0 {
        return Err(SanError::Empty);
    }
    // Strip at most one trailing check/mate symbol; a second one left over
    // afterwards means the move had two.
    let mut core_len = n;
    if is_check_symbol(cs[n - 1]) {
        core_len = n - 1;
        if core_len > 0 && is_check_symbol(cs[core_len - 1]) {
            return Err(SanError::MultipleCheckSymbols);
        }
        assert(cs@.drop_last() =~= cs@.take(core_len as int));
    } else {
        assert(cs@ =~= cs@.take(core_len as int));
    }
    let ghost core = cs@.take(core_len as int);
    assert(strip_check(mv@) == Some(core));
    if is_castle_text(&cs, core_len, 'O', false) {
        return castle_result(Castle::Kingside);
    }
    if is_castle_text(&cs, core_len, 'O', true) {
        return castle_result(Castle::Queenside);
    }
    if lenient && is_castle_text(&cs, core_len, '0', false) {
        return castle_result(Castle::Kingside);
    }
    if lenient && is_castle_text(&cs, core_len, '0', true) {
        return castle_result(Castle::Queenside);
    }
    assert(core =~= cs@.subrange(0, core_len as int));
    if contains_between(&cs, 0, core_len, 'O') || contains_between(&cs, 0, core_len, '-') {
        return Err(SanError::InvalidCastling(mv.to_owned()));
    }
    if core_len == 0 {
        return Err(SanError::Empty);
    }
    let c0 = cs[0];
    assert(core[0] == c0);
    let (piece, idx): (Option<Piece>, usize) = if c0 == 'K' || c0 == 'Q' || c0 == 'R' || c0 == 'B'
        || c0 == 'N' {
        (Some(piece_from_char(c0)), 1)
    } else if c0 == 'P' {
        if lenient {
            (None, 1)
        } else {
            return Err(SanError::InvalidPiece('P'));
        }
    } else if lenient && (c0 == 'k' || c0 == 'q' || c0 == 'r' || c0 == 'b' || c0 == 'n') {
        (Some(piece_from_lower_char(c0)), 1)
    } else {
        (None, 0)
    };
    assert(lead_piece(core[0], lenient) == Some((piece, idx as int)));
    if lenient && c0 == 'b' {
        // a leading `b` names the b-file first
        let pawn = read_after_lead(mv, &cs, 0, core_len, None, lenient);
        let keep = match &pawn {
            Ok(_) => true,
            Err(SanError::MissingPromotion(_)) => true,
            Err(_) => false,
        };
        if keep {
            return pawn;
        }
    }
    assert(core.skip(idx as int) =~= cs@.subrange(idx as int, core_len as int));
    read_after_lead(mv, &cs, idx, core_len, piece, lenient)
}

/// The grammar after the piece letter, on `cs[lo..hi]`; see `after_lead`.
fn read_after_lead(
    mv: &str,
    cs: &Vec<char>,
    lo: usize,
    hi: usize,
    piece: Option<Piece>,
    lenient: bool,
) -> (r: Result<Move, SanError>)
    requires
        lo <= hi <= cs@.len(),
    ensures
        parse_view(r) == after_lead(mv@, piece, cs@.subrange(lo as int, hi as int), lenient),
{
    let m = marker_len(cs, lo, hi, lenient);
    let ghost rest = cs@.subrange(lo as int, hi as int);
    assert(rest.take(rest.len() - m) =~= cs@.subrange(lo as int, (hi - m) as int));
    parse_rest(mv, cs, lo, hi - m, piece, lenient)
}

// ---------------------------------------------------------------------
// Laws of the grammar
// ---------------------------------------------------------------------

/// The text before `=` and the text after it, as `parse_body` splits `r`.
pub open spec fn body_split(r: Seq<char>) -> (Seq<char>, Option<Seq<char>>) {
    let p = first_index(r, '=');
    (r.take(p), if p < r.len() {
        Some(r.skip(p + 1))
    } else {
        None::<Seq<char>>
    })
}

/// `parse_body` as `finish_move` on the split text, once the destination
/// is found valid.
proof fn lemma_body_unfold(mv: Seq<char>, piece: Option<Piece>, r: Seq<char>, lenient: bool)
    ensures
        ({
            let (bp, promo) = body_split(r);
            let n = bp.len() as int;
            &&& parse_body(mv, piece, r, lenient) is Ok ==> n >= 2 && is_file_char(bp[n - 2])
                && is_rank_char(bp[n - 1])
            &&& n >= 2 && is_file_char(bp[n - 2]) && is_rank_char(bp[n - 1]) ==> parse_body(
                mv,
                piece,
                r,
                lenient,
            ) == finish_move(mv, piece, bp, promo, lenient)
            &&& !(n >= 2 && is_file_char(bp[n - 2]) && is_rank_char(bp[n - 1])) ==> !is_missing_promotion(
                parse_body(mv, piece, r, lenient),
            )
        }),
{
    reveal(parse_body);
}

/// `r` is its text before `=`, then `=` and the text after it, if any.
proof fn lemma_body_split_parts(r: Seq<char>)
    ensures
        ({
            let (bp, promo) = body_split(r);
            &&& forall|j: int| 0 <= j < bp.len() ==> #[trigger] bp[j] != '='
            &&& match promo {
                Some(q) => r == bp + seq!['='] + q,
                None => r == bp,
            }
        }),
{
    lemma_first_index(r, '=');
    let p = first_index(r, '=');
    let (bp, promo) = body_split(r);
    assert forall|j: int| 0 <= j < bp.len() implies #[trigger] bp[j] != '=' by {
        assert(bp[j] == r[j]);
    }
    if p < r.len() {
        assert(r =~= bp + seq!['='] + r.skip(p + 1));
    } else {
        assert(r =~= bp);
    }
}

proof fn lemma_finish_well_formed(
    mv: Seq<char>,
    piece: Option<Piece>,
    bp: Seq<char>,
    promo: Option<Seq<char>>,
    lenient: bool,
)
    requires
        bp.len() >= 2,
        is_file_char(bp[bp.len() - 2]),
        is_rank_char(bp[bp.len() - 1]),
    ensures
        finish_move(mv, piece, bp, promo, lenient) matches Ok(m) ==> m.well_formed(),
{
}

proof fn lemma_after_lead_well_formed(
    mv: Seq<char>,
    piece: Option<Piece>,
    rest: Seq<char>,
    lenient: bool,
)
    ensures
        after_lead(mv, piece, rest, lenient) matches Ok(m) ==> m.well_formed(),
{
    let r = rest.take(rest.len() - ep_marker_len(rest, lenient));
    lemma_body_unfold(mv, piece, r, lenient);
    let (bp, promo) = body_split(r);
    let n = bp.len() as int;
    if n >= 2 && is_file_char(bp[n - 2]) && is_rank_char(bp[n - 1]) {
        lemma_finish_well_formed(mv, piece, bp, promo, lenient);
    }
}

/// Each move that the grammar accepts is well formed.
proof fn lemma_parse_well_formed(mv: Seq<char>, lenient: bool)
    ensures
        spec_parse(mv, lenient) matches Ok(m) ==> m.well_formed(),
{
    if mv.len() > 0 {
        if let Some(core) = strip_check(mv) {
            if castle_of(core, lenient) is None && core.len() > 0 {
                if let Some((piece, k)) = lead_piece(core[0], lenient) {
                    lemma_after_lead_well_formed(mv, piece, core.skip(k), lenient);
                    lemma_after_lead_well_formed(mv, None, core, lenient);
                }
            }
        }
    }
}

/// What every move that the grammar accepts satisfies: a pawn move that
/// lands on the first or last rank names a promotion, no other move does,
/// and a pawn capture names the file it comes from.
pub open spec fn move_rules(m: Move) -> bool {
    m.castle is None ==> {
        &&& (m.promotion is Some <==> (m.piece == Piece::Pawn && (m.dest matches Some((f, r)) && (r
            == '1' || r == '8'))))
        &&& (m.piece == Piece::Pawn && m.capture ==> m.disambig_file is Some)
        &&& m.dest is Some
    }
}

proof fn lemma_finish_rules(
    mv: Seq<char>,
    piece: Option<Piece>,
    bp: Seq<char>,
    promo: Option<Seq<char>>,
    lenient: bool,
)
    requires
        bp.len() >= 2,
        piece != Some(Piece::Pawn),
    ensures
        finish_move(mv, piece, bp, promo, lenient) matches Ok(m) ==> move_rules(m),
{
}

proof fn lemma_after_lead_rules(mv: Seq<char>, piece: Option<Piece>, rest: Seq<char>, lenient: bool)
    requires
        piece != Some(Piece::Pawn),
    ensures
        after_lead(mv, piece, rest, lenient) matches Ok(m) ==> move_rules(m),
{
    let r = rest.take(rest.len() - ep_marker_len(rest, lenient));
    lemma_body_unfold(mv, piece, r, lenient);
    let (bp, promo) = body_split(r);
    if bp.len() >= 2 {
        lemma_finish_rules(mv, piece, bp, promo, lenient);
    }
}

/// A pawn move that reaches the first or last rank must name a
/// promotion, and only such a move may; a pawn capture must name its
/// origin file.
pub proof fn lemma_parse_rules(mv: Seq<char>, lenient: bool)
    ensures
        spec_parse(mv, lenient) matches Ok(m) ==> move_rules(m),
{
    if mv.len() > 0 {
        if let Some(core) = strip_check(mv) {
            if castle_of(core, lenient) is None && core.len() > 0 {
                if let Some((piece, k)) = lead_piece(core[0], lenient) {
                    lemma_after_lead_rules(mv, piece, core.skip(k), lenient);
                    lemma_after_lead_rules(mv, None, core, lenient);
                }
            }
        }
    }
}

/// The characters a valid move may hold before a final check or mate
/// symbol: files, ranks, piece letters, `x`, `=`, and the `O` and `-` of
/// castling; in lenient mode also `P`, lowercase piece letters, `:`, `0`
/// and the characters of an en passant marker.
pub open spec fn syntax_char(c: char, lenient: bool) -> bool {
    ||| is_file_char(c)
    ||| is_rank_char(c)
    ||| is_piece_letter(c)
    ||| c == 'x'
    ||| c == '='
    ||| c == 'O'
    ||| c == '-'
    ||| (lenient && (c == 'P' || is_lower_piece_letter(c) || c == ':' || c == '0' || c == 'E' || c
        == '.' || c == 'p'))
}

pub open spec fn all_syntax(s: Seq<char>, lenient: bool) -> bool {
    forall|j: int| 0 <= j < s.len() ==> syntax_char(#[trigger] s[j], lenient)
}

proof fn lemma_all_syntax_concat(a: Seq<char>, b: Seq<char>, lenient: bool)
    requires
        all_syntax(a, lenient),
        all_syntax(b, lenient),
    ensures
        all_syntax(a + b, lenient),
{
    assert forall|j: int| 0 <= j < (a + b).len() implies syntax_char(#[trigger] (a + b)[j], lenient) by {
        if j >= a.len() {
            assert((a + b)[j] == b[j - a.len()]);
        }
    }
}

proof fn lemma_finish_syntax(
    mv: Seq<char>,
    piece: Option<Piece>,
    bp: Seq<char>,
    promo: Option<Seq<char>>,
    lenient: bool,
)
    requires
        bp.len() >= 2,
        is_file_char(bp[bp.len() - 2]),
        is_rank_char(bp[bp.len() - 1]),
    ensures
        finish_move(mv, piece, bp, promo, lenient) is Ok ==> all_syntax(bp, lenient) && (
        promo matches Some(p) ==> p.len() == 1 && is_promotion_letter(p[0], lenient) && all_syntax(
            p,
            lenient,
        )),
{
    let n = bp.len() as int;
    let prefix = bp.take(n - 2);
    let capture = prefix.len() > 0 && (prefix.last() == 'x' || (lenient && prefix.last() == ':'));
    let d = if capture {
        prefix.drop_last()
    } else {
        prefix
    };
    if finish_move(mv, piece, bp, promo, lenient) is Ok {
        assert(disambiguation(mv, piece, capture, d) is Ok);
        assert(all_syntax(d, lenient));
        assert(all_syntax(prefix, lenient)) by {
            if capture {
                assert forall|j: int| 0 <= j < prefix.len() implies syntax_char(
                    #[trigger] prefix[j],
                    lenient,
                ) by {
                    if j < d.len() {
                        assert(prefix[j] == d[j]);
                    }
                }
            }
        }
        let dest = bp.skip(n - 2);
        assert(all_syntax(dest, lenient)) by {
            assert forall|j: int| 0 <= j < dest.len() implies syntax_char(#[trigger] dest[j], lenient) by {
                assert(dest[j] == bp[n - 2 + j]);
            }
        }
        lemma_all_syntax_concat(prefix, dest, lenient);
        assert(prefix + dest =~= bp);
        if let Some(p) = promo {
            assert(promotion(mv, piece, promo, bp[n - 1], lenient) is Ok);
            assert(p.len() == 1 && is_promotion_letter(p[0], lenient));
        }
    }
}

proof fn lemma_after_lead_syntax(mv: Seq<char>, piece: Option<Piece>, rest: Seq<char>, lenient: bool)
    ensures
        after_lead(mv, piece, rest, lenient) is Ok ==> all_syntax(rest, lenient),
{
    let m = ep_marker_len(rest, lenient);
    let r = rest.take(rest.len() - m);
    lemma_body_unfold(mv, piece, r, lenient);
    lemma_body_split_parts(r);
    let (bp, promo) = body_split(r);
    if after_lead(mv, piece, rest, lenient) is Ok {
        lemma_finish_syntax(mv, piece, bp, promo, lenient);
        match promo {
            Some(q) => {
                assert(all_syntax(seq!['='], lenient));
                lemma_all_syntax_concat(bp, seq!['='], lenient);
                lemma_all_syntax_concat(bp + seq!['='], q, lenient);
            },
            None => {},
        }
        let tail = rest.skip(rest.len() - m);
        assert(all_syntax(tail, lenient)) by {
            assert forall|j: int| 0 <= j < tail.len() implies syntax_char(#[trigger] tail[j], lenient) by {
                assert(tail[j] == rest[rest.len() - m + j]);
            }
        }
        lemma_all_syntax_concat(r, tail, lenient);
        assert(r + tail =~= rest);
    }
}

/// The text before any final check or mate symbol of an accepted move.
proof fn lemma_core_syntax(mv: Seq<char>, lenient: bool)
    ensures
        spec_parse(mv, lenient) is Ok ==> (strip_check(mv) matches Some(core) && all_syntax(
            core,
            lenient,
        )),
{
    if spec_parse(mv, lenient) is Ok {
        let core = strip_check(mv)->0;
        match castle_of(core, lenient) {
            Some(_) => {},
            None => {
                let (piece, k) = lead_piece(core[0], lenient)->0;
                lemma_after_lead_syntax(mv, piece, core.skip(k), lenient);
                lemma_after_lead_syntax(mv, None, core, lenient);
                if after_lead(mv, piece, core.skip(k), lenient) is Ok {
                    let head = core.take(k);
                    assert(all_syntax(head, lenient)) by {
                        if k == 1 {
                            assert(head[0] == core[0]);
                        }
                    }
                    lemma_all_syntax_concat(head, core.skip(k), lenient);
                    assert(head + core.skip(k) =~= core);
                }
            },
        }
    }
}

/// At most one check or mate symbol, and only as the last character: a
/// move with a symbol anywhere else is not valid.
pub proof fn lemma_check_mark_only_last(mv: Seq<char>, lenient: bool)
    ensures
        spec_parse(mv, lenient) is Ok ==> forall|k: int|
            0 <= k < mv.len() - 1 ==> !is_check_mark(#[trigger] mv[k]),
{
    lemma_core_syntax(mv, lenient);
    if spec_parse(mv, lenient) is Ok {
        let core = strip_check(mv)->0;
        assert forall|k: int| 0 <= k < mv.len() - 1 implies !is_check_mark(#[trigger] mv[k]) by {
            assert(mv[k] == core[k]);
            assert(syntax_char(core[k], lenient));
        }
    }
}

/// A pawn reading of the text accepted by the grammar starts with the
/// pawn's file.
proof fn lemma_pawn_starts_with_file(mv: Seq<char>, r: Seq<char>, lenient: bool)
    ensures
        parse_body(mv, None, r, lenient) is Ok ==> r.len() > 0 && is_file_char(r[0]),
{
    lemma_body_unfold(mv, None, r, lenient);
    let (bp, promo) = body_split(r);
    let n = bp.len() as int;
    if parse_body(mv, None, r, lenient) is Ok {
        let prefix = bp.take(n - 2);
        let capture = prefix.len() > 0 && (prefix.last() == 'x' || (lenient && prefix.last()
            == ':'));
        let d = if capture {
            prefix.drop_last()
        } else {
            prefix
        };
        assert(disambiguation(mv, None, capture, d) is Ok);
        lemma_first_index(r, '=');
        assert(bp == r.take(first_index(r, '=')));
        assert(bp.len() <= r.len());
        assert(bp[0] == r[0]);
        assert(prefix.len() > 0 ==> prefix[0] == bp[0]);
        if capture {
            assert(d[0] == prefix[0]);
        }
    }
}

/// What a move text that strict mode accepts looks like: no `:` and no
/// `0` in it, its first character a piece letter, a file or the `O` of
/// castling, a check or mate symbol only as its last character, and each
/// `=` followed by a promotion letter.
pub open spec fn strict_shape(mv: Seq<char>) -> bool {
    &&& !mv.contains(':')
    &&& !mv.contains('0')
    &&& mv.len() > 0
    &&& (is_piece_letter(mv[0]) || is_file_char(mv[0]) || mv[0] == 'O')
    &&& forall|k: int| 0 <= k < mv.len() - 1 ==> !is_check_mark(#[trigger] mv[k])
    &&& forall|k: int|
        0 <= k < mv.len() && #[trigger] mv[k] == '=' ==> k + 1 < mv.len() && is_promotion_letter(
            mv[k + 1],
            false,
        )
}

/// In `after_lead`'s text of a strictly accepted move, each `=` is
/// followed by a promotion letter.
proof fn lemma_after_lead_equals(mv: Seq<char>, piece: Option<Piece>, rest: Seq<char>)
    ensures
        after_lead(mv, piece, rest, false) is Ok ==> forall|k: int|
            0 <= k < rest.len() && #[trigger] rest[k] == '=' ==> k + 1 < rest.len()
                && is_promotion_letter(rest[k + 1], false),
{
    assert(rest.take(rest.len() - 0) =~= rest);
    let r = rest;
    lemma_body_unfold(mv, piece, r, false);
    lemma_body_split_parts(r);
    let (bp, promo) = body_split(r);
    if after_lead(mv, piece, rest, false) is Ok {
        lemma_finish_syntax(mv, piece, bp, promo, false);
        assert forall|k: int| 0 <= k < rest.len() && #[trigger] rest[k] == '=' implies k + 1
            < rest.len() && is_promotion_letter(rest[k + 1], false) by {
            match promo {
                Some(q) => {
                    if k < bp.len() {
                        assert(rest[k] == bp[k]);
                    } else if k > bp.len() {
                        assert(rest[k] == q[k - bp.len() - 1]);
                    } else {
                        assert(rest[k + 1] == q[0]);
                    }
                },
                None => {
                    assert(rest[k] == bp[k]);
                },
            }
        }
    }
}

proof fn lemma_finish_strict_lenient(
    mv: Seq<char>,
    piece: Option<Piece>,
    bp: Seq<char>,
    promo: Option<Seq<char>>,
)
    requires
        bp.len() >= 2,
        is_file_char(bp[bp.len() - 2]),
        is_rank_char(bp[bp.len() - 1]),
    ensures
        finish_move(mv, piece, bp, promo, false) is Ok ==> finish_move(mv, piece, bp, promo, true)
            == finish_move(mv, piece, bp, promo, false),
{
    lemma_finish_syntax(mv, piece, bp, promo, false);
    if finish_move(mv, piece, bp, promo, false) is Ok {
        let n = bp.len() as int;
        let prefix = bp.take(n - 2);
        if prefix.len() > 0 {
            assert(prefix.last() == bp[n - 3]);
            assert(syntax_char(bp[n - 3], false));
        }
    }
}

proof fn lemma_after_lead_strict_lenient(mv: Seq<char>, piece: Option<Piece>, rest: Seq<char>)
    ensures
        after_lead(mv, piece, rest, false) is Ok ==> after_lead(mv, piece, rest, true)
            == after_lead(mv, piece, rest, false),
{
    lemma_after_lead_syntax(mv, piece, rest, false);
    if after_lead(mv, piece, rest, false) is Ok {
        assert(rest.take(rest.len() - 0) =~= rest);
        let n = rest.len() as int;
        if n > 0 {
            assert(syntax_char(rest[n - 1], false));
        }
        assert(ep_marker_len(rest, true) == 0);
        lemma_body_unfold(mv, piece, rest, false);
        lemma_body_unfold(mv, piece, rest, true);
        let (bp, promo) = body_split(rest);
        lemma_finish_strict_lenient(mv, piece, bp, promo);
    }
}

/// The reading after the piece letter that ends in a missing promotion
/// strictly ends in it leniently too.
proof fn lemma_missing_promotion_strict_lenient(mv: Seq<char>, piece: Option<Piece>, rest: Seq<char>)
    ensures
        is_missing_promotion(after_lead(mv, piece, rest, false)) ==> after_lead(mv, piece, rest, true)
            == after_lead(mv, piece, rest, false),
        is_missing_promotion(after_lead(mv, piece, rest, false)) ==> piece is None && rest.len() > 0
            && is_file_char(rest[0]),
{
    assert(rest.take(rest.len() - 0) =~= rest);
    if is_missing_promotion(after_lead(mv, piece, rest, false)) {
        lemma_body_unfold(mv, piece, rest, false);
        lemma_body_split_parts(rest);
        let (bp, promo) = body_split(rest);
        let n = bp.len() as int;
        let fin = finish_move(mv, piece, bp, promo, false);
        assert(fin == parse_body(mv, piece, rest, false));
        assert(piece is None && promo is None);
        assert(bp == rest);
        assert(ep_marker_len(rest, true) == 0);
        lemma_body_unfold(mv, piece, rest, true);
        let prefix = bp.take(n - 2);
        let capture = prefix.len() > 0 && prefix.last() == 'x';
        if capture {
            assert(prefix.drop_last()[0] == rest[0]);
        } else {
            assert(prefix.len() == 0);
            assert(rest[0] == bp[n - 2]);
        }
    }
}

/// Lenient mode only widens what counts as valid: a move that is valid in
/// strict mode is valid in lenient mode too, with the same meaning.
pub proof fn lemma_lenient_widens(mv: Seq<char>)
    ensures
        spec_parse(mv, false) is Ok ==> spec_parse(mv, true) == spec_parse(mv, false),
{
    if spec_parse(mv, false) is Ok {
        let core = strip_check(mv)->0;
        match castle_of(core, false) {
            Some(_) => {},
            None => {
                assert(!core.contains('-'));
                if core == castle_text('0', false) || core == castle_text('0', true) {
                    assert(core[1] == '-');
                }
                let c = core[0];
                let (piece, k) = lead_piece(c, false)->0;
                lemma_after_lead_strict_lenient(mv, piece, core.skip(k));
                if k == 0 {
                    assert(core.skip(0) =~= core);
                    assert(core.take(core.len() - 0) =~= core);
                    lemma_pawn_starts_with_file(mv, core, false);
                }
            },
        }
    }
}

/// Lenient mode never hides a missing promotion: a pawn move that reaches
/// the last rank without one is rejected for it in both modes alike.
pub proof fn lemma_lenient_keeps_missing_promotion(mv: Seq<char>)
    ensures
        spec_parse(mv, false) is Err && spec_parse(mv, false)->Err_0 is MissingPromotion
            ==> spec_parse(mv, true) == spec_parse(mv, false),
{
    if spec_parse(mv, false) is Err && spec_parse(mv, false)->Err_0 is MissingPromotion {
        let core = strip_check(mv)->0;
        assert(castle_of(core, false) is None);
        assert(!core.contains('-'));
        assert(!core.contains('O'));
        if core == castle_text('0', false) || core == castle_text('0', true) {
            assert(core[1] == '-');
        }
        let c = core[0];
        let (piece, k) = lead_piece(c, false)->0;
        assert(core.skip(0) =~= core);
        lemma_missing_promotion_strict_lenient(mv, piece, core.skip(k));
        if k == 1 {
            assert(core.skip(1)[0] == core[1]);
        }
    }
}

/// The digit `0` written as the letter `O`.
pub open spec fn zero_as_o(c: char) -> char {
    if c == '0' {
        'O'
    } else {
        c
    }
}

/// The text with every digit `0` written as the letter `O`.
pub open spec fn zeros_as_o(s: Seq<char>) -> Seq<char> {
    s.map_values(|c: char| zero_as_o(c))
}

/// Castling is written with one hyphen for the kingside (`O-O`) and two
/// for the queenside (`O-O-O`), with an optional check or mate symbol after
/// it; the move it gives is the king's, with no square named.
pub proof fn lemma_castle_notation(mv: Seq<char>, lenient: bool)
    ensures
        spec_parse(mv, lenient) matches Ok(m) ==> m.castle is Some ==> {
            let core = if is_check_mark(mv.last()) {
                mv.drop_last()
            } else {
                mv
            };
            &&& m.castle == Some(Castle::Kingside) ==> core.len() == 3
            &&& m.castle == Some(Castle::Queenside) ==> core.len() == 5
            &&& core[1] == '-' && core[0] == core[2]
            &&& (core[0] == 'O' || (lenient && core[0] == '0'))
            &&& m.piece == Piece::King
            &&& m.dest is None
            &&& !m.capture
            &&& m.promotion is None
        },
{
    if let Ok(m) = spec_parse(mv, lenient) {
        let core = strip_check(mv)->0;
        if castle_of(core, lenient) is None {
            lemma_parse_well_formed_castle(mv, lenient);
        }
    }
}

proof fn lemma_parse_well_formed_castle(mv: Seq<char>, lenient: bool)
    requires
        mv.len() > 0,
        strip_check(mv) is Some,
        castle_of(strip_check(mv)->0, lenient) is None,
    ensures
        spec_parse(mv, lenient) matches Ok(m) ==> m.castle is None,
{
    let core = strip_check(mv)->0;
    if !(core.contains('O') || core.contains('-')) && core.len() > 0 {
        if let Some((piece, k)) = lead_piece(core[0], lenient) {
            lemma_after_lead_no_castle(mv, piece, core.skip(k), lenient);
            lemma_after_lead_no_castle(mv, None, core, lenient);
        }
    }
}

proof fn lemma_after_lead_no_castle(mv: Seq<char>, piece: Option<Piece>, rest: Seq<char>, lenient: bool)
    ensures
        after_lead(mv, piece, rest, lenient) matches Ok(m) ==> m.castle is None,
{
    let r = rest.take(rest.len() - ep_marker_len(rest, lenient));
    lemma_body_unfold(mv, piece, r, lenient);
}

/// In lenient mode castling may be written with the digit `0` in place of
/// the letter `O`, and means the same move: a text without the letter `O`
/// that reads as castling once its zeros are written as `O` reads as that
/// same castling as it is.
pub proof fn lemma_zero_castling(mv: Seq<char>)
    requires
        !mv.contains('O'),
    ensures
        spec_parse(zeros_as_o(mv), true) matches Ok(m) ==> m.castle is Some ==> spec_parse(mv, true)
            == spec_parse(zeros_as_o(mv), true),
{
    let u = zeros_as_o(mv);
    if spec_parse(u, true) is Ok && spec_parse(u, true)->Ok_0.castle is Some {
        lemma_castle_notation(u, true);
        let n = mv.len() as int;
        assert(u.len() == n);
        assert(forall|j: int| 0 <= j < n ==> #[trigger] u[j] == zero_as_o(mv[j]));
        assert(!u.contains('0')) by {
            if u.contains('0') {
                let j = choose|j: int| 0 <= j < u.len() && u[j] == '0';
                assert(u[j] == zero_as_o(mv[j]));
            }
        }
        let cu = strip_check(u)->0;
        if castle_of(cu, true) is None {
            lemma_parse_well_formed_castle(u, true);
        }
        assert(castle_of(cu, true) is Some);
        assert(cu[0] != '0') by {
            assert(cu[0] == u[0]);
        }
        assert(cu == castle_text('O', false) || cu == castle_text('O', true));
        assert(u.last() == zero_as_o(mv.last()));
        assert(is_check_mark(u.last()) == is_check_mark(mv.last()));
        let ct = if is_check_mark(mv.last()) {
            mv.drop_last()
        } else {
            mv
        };
        if is_check_mark(mv.last()) {
            assert(n >= 2 ==> u[n - 2] == zero_as_o(mv[n - 2]));
        }
        assert(strip_check(mv) == Some(ct));
        assert(ct.len() == cu.len());
        assert forall|j: int| 0 <= j < ct.len() implies #[trigger] ct[j] == (if cu[j] == 'O' {
            '0'
        } else {
            cu[j]
        }) by {
            assert(ct[j] == mv[j]);
            assert(cu[j] == u[j]);
            assert(mv[j] != 'O');
        }
        if cu == castle_text('O', false) {
            assert(ct =~= castle_text('0', false));
        } else {
            assert(ct =~= castle_text('0', true));
        }
    }
}

/// `:` written as `x`.
pub open spec fn colon_as_x(c: char) -> char {
    if c == ':' {
        'x'
    } else {
        c
    }
}

/// The text with every `:` written as `x`.
pub open spec fn colons_as_x(s: Seq<char>) -> Seq<char> {
    s.map_values(|c: char| colon_as_x(c))
}

pub open spec fn colons_as_x_opt(o: Option<Seq<char>>) -> Option<Seq<char>> {
    match o {
        Some(s) => Some(colons_as_x(s)),
        None => None,
    }
}

/// The move a parse accepts, if any.
pub open spec fn accepted(r: Result<Move, SanErrorModel>) -> Option<Move> {
    match r {
        Ok(m) => Some(m),
        Err(_) => None,
    }
}

proof fn lemma_colons_slices(s: Seq<char>, k: int)
    requires
        0 <= k <= s.len(),
    ensures
        colons_as_x(s).len() == s.len(),
        colons_as_x(s.take(k)) == colons_as_x(s).take(k),
        colons_as_x(s.skip(k)) == colons_as_x(s).skip(k),
        forall|j: int| 0 <= j < s.len() ==> #[trigger] colons_as_x(s)[j] == colon_as_x(s[j]),
{
    assert(colons_as_x(s.take(k)) =~= colons_as_x(s).take(k));
    assert(colons_as_x(s.skip(k)) =~= colons_as_x(s).skip(k));
}

proof fn lemma_disambiguation_colons(
    mv: Seq<char>,
    mv2: Seq<char>,
    piece: Option<Piece>,
    capture: bool,
    d: Seq<char>,
)
    ensures
        (disambiguation(mv, piece, capture, d) is Ok) == (disambiguation(
            mv2,
            piece,
            capture,
            colons_as_x(d),
        ) is Ok),
        disambiguation(mv, piece, capture, d) is Ok ==> disambiguation(mv, piece, capture, d)
            == disambiguation(mv2, piece, capture, colons_as_x(d)),
{
    lemma_colons_slices(d, 0);
    let d2 = colons_as_x(d);
    if d.len() >= 1 {
        assert(d2[0] == colon_as_x(d[0]));
    }
    if d.len() >= 2 {
        assert(d2[1] == colon_as_x(d[1]));
    }
}

proof fn lemma_promotion_colons(
    mv: Seq<char>,
    mv2: Seq<char>,
    piece: Option<Piece>,
    promo: Option<Seq<char>>,
    dr: char,
)
    ensures
        (promotion(mv, piece, promo, dr, true) is Ok) == (promotion(
            mv2,
            piece,
            colons_as_x_opt(promo),
            dr,
            true,
        ) is Ok),
        promotion(mv, piece, promo, dr, true) is Ok ==> promotion(mv, piece, promo, dr, true)
            == promotion(mv2, piece, colons_as_x_opt(promo), dr, true),
        (promotion(mv, piece, promo, dr, true) matches Err(SanErrorModel::MissingPromotion(_)))
            == (promotion(mv2, piece, colons_as_x_opt(promo), dr, true) matches Err(
            SanErrorModel::MissingPromotion(_),
        )),
{
    if let Some(p) = promo {
        lemma_colons_slices(p, 0);
        if p.len() >= 1 {
            assert(colons_as_x(p)[0] == colon_as_x(p[0]));
        }
    }
}

proof fn lemma_finish_colons(
    mv: Seq<char>,
    mv2: Seq<char>,
    piece: Option<Piece>,
    bp: Seq<char>,
    promo: Option<Seq<char>>,
)
    requires
        bp.len() >= 2,
        is_file_char(bp[bp.len() - 2]),
        is_rank_char(bp[bp.len() - 1]),
    ensures
        accepted(finish_move(mv, piece, bp, promo, true)) == accepted(
            finish_move(mv2, piece, colons_as_x(bp), colons_as_x_opt(promo), true),
        ),
        is_missing_promotion(finish_move(mv, piece, bp, promo, true)) == is_missing_promotion(
            finish_move(mv2, piece, colons_as_x(bp), colons_as_x_opt(promo), true),
        ),
{
    let n = bp.len() as int;
    lemma_colons_slices(bp, n - 2);
    let bp2 = colons_as_x(bp);
    assert(bp2[n - 2] == bp[n - 2]);
    assert(bp2[n - 1] == bp[n - 1]);
    let prefix = bp.take(n - 2);
    let prefix2 = bp2.take(n - 2);
    assert(prefix2 == colons_as_x(prefix));
    lemma_colons_slices(prefix, 0);
    if prefix.len() > 0 {
        assert(prefix2.last() == colon_as_x(prefix.last()));
        lemma_colons_slices(prefix, prefix.len() - 1);
        assert(prefix.drop_last() == prefix.take(prefix.len() - 1));
        assert(prefix2.drop_last() == prefix2.take(prefix2.len() - 1));
    }
    let capture = prefix.len() > 0 && (prefix.last() == 'x' || prefix.last() == ':');
    let d = if capture {
        prefix.drop_last()
    } else {
        prefix
    };
    assert(colons_as_x(d) == (if capture {
        prefix2.drop_last()
    } else {
        prefix2
    }));
    lemma_disambiguation_colons(mv, mv2, piece, capture, d);
    lemma_promotion_colons(mv, mv2, piece, promo, bp[n - 1]);
}

proof fn lemma_first_index_colons(r: Seq<char>)
    ensures
        first_index(colons_as_x(r), '=') == first_index(r, '='),
{
    let r2 = colons_as_x(r);
    lemma_colons_slices(r, 0);
    lemma_first_index(r, '=');
    lemma_first_index(r2, '=');
    let p = first_index(r, '=');
    let q = first_index(r2, '=');
    if p < q {
        assert(r2[p] == colon_as_x(r[p]));
    } else if q < p {
        assert(r2[q] == colon_as_x(r[q]));
    }
}

proof fn lemma_body_colons(mv: Seq<char>, mv2: Seq<char>, piece: Option<Piece>, r: Seq<char>)
    ensures
        accepted(parse_body(mv, piece, r, true)) == accepted(
            parse_body(mv2, piece, colons_as_x(r), true),
        ),
        is_missing_promotion(parse_body(mv, piece, r, true)) == is_missing_promotion(
            parse_body(mv2, piece, colons_as_x(r), true),
        ),
{
    let r2 = colons_as_x(r);
    lemma_first_index_colons(r);
    lemma_first_index(r, '=');
    let p = first_index(r, '=');
    lemma_colons_slices(r, p);
    if p < r.len() {
        lemma_colons_slices(r, p + 1);
    }
    let (bp, promo) = body_split(r);
    let (bp2, promo2) = body_split(r2);
    assert(bp2 == colons_as_x(bp));
    assert(promo2 == colons_as_x_opt(promo));
    lemma_body_unfold(mv, piece, r, true);
    lemma_body_unfold(mv2, piece, r2, true);
    let n = bp.len() as int;
    lemma_colons_slices(bp, 0);
    if n >= 2 {
        assert(bp2[n - 2] == colon_as_x(bp[n - 2]));
        assert(bp2[n - 1] == colon_as_x(bp[n - 1]));
        if is_file_char(bp[n - 2]) && is_rank_char(bp[n - 1]) {
            lemma_finish_colons(mv, mv2, piece, bp, promo);
        }
    }
}

proof fn lemma_after_lead_colons(mv: Seq<char>, mv2: Seq<char>, piece: Option<Piece>, rest: Seq<char>)
    ensures
        accepted(after_lead(mv, piece, rest, true)) == accepted(
            after_lead(mv2, piece, colons_as_x(rest), true),
        ),
        is_missing_promotion(after_lead(mv, piece, rest, true)) == is_missing_promotion(
            after_lead(mv2, piece, colons_as_x(rest), true),
        ),
{
    let rest2 = colons_as_x(rest);
    lemma_colons_slices(rest, 0);
    let n = rest.len() as int;
    if n >= 1 {
        assert(rest2[n - 1] == colon_as_x(rest[n - 1]));
    }
    if n >= 2 {
        assert(rest2[n - 2] == colon_as_x(rest[n - 2]));
    }
    if n >= 3 {
        assert(rest2[n - 3] == colon_as_x(rest[n - 3]));
    }
    if n >= 4 {
        assert(rest2[n - 4] == colon_as_x(rest[n - 4]));
    }
    let m = ep_marker_len(rest, true);
    assert(ep_marker_len(rest2, true) == m);
    lemma_colons_slices(rest, n - m);
    lemma_body_colons(mv, mv2, piece, rest.take(n - m));
}

/// A text without `x` or `:` is the same with colons written as `x`, and
/// only then.
proof fn lemma_colons_plain(s: Seq<char>, t: Seq<char>)
    requires
        forall|j: int| 0 <= j < t.len() ==> #[trigger] t[j] != 'x' && t[j] != ':',
    ensures
        (colons_as_x(s) == t) == (s == t),
{
    lemma_colons_slices(s, 0);
    if s == t {
        assert(colons_as_x(s) =~= t);
    }
    if colons_as_x(s) == t {
        assert forall|j: int| 0 <= j < s.len() implies s[j] == t[j] by {
            assert(colons_as_x(s)[j] == colon_as_x(s[j]));
        }
        assert(s =~= t);
    }
}

proof fn lemma_contains_colons(s: Seq<char>, c: char)
    requires
        c != 'x',
        c != ':',
    ensures
        colons_as_x(s).contains(c) == s.contains(c),
{
    lemma_colons_slices(s, 0);
    if s.contains(c) {
        let j = choose|j: int| 0 <= j < s.len() && s[j] == c;
        assert(colons_as_x(s)[j] == c);
    }
    if colons_as_x(s).contains(c) {
        let j = choose|j: int| 0 <= j < s.len() && colons_as_x(s)[j] == c;
        assert(s[j] == c);
    }
}

proof fn lemma_castle_of_colons(core: Seq<char>)
    ensures
        castle_of(colons_as_x(core), true) == castle_of(core, true),
{
    lemma_colons_plain(core, castle_text('O', false));
    lemma_colons_plain(core, castle_text('O', true));
    lemma_colons_plain(core, castle_text('0', false));
    lemma_colons_plain(core, castle_text('0', true));
}

/// In lenient mode `:` is just another way to write the capture mark `x`:
/// a text and the same text with each `:` written as `x` are accepted
/// alike, as the same move.
pub proof fn lemma_colon_is_capture_mark(mv: Seq<char>)
    ensures
        accepted(spec_parse(mv, true)) == accepted(spec_parse(colons_as_x(mv), true)),
{
    let mv2 = colons_as_x(mv);
    lemma_colons_slices(mv, 0);
    if mv.len() > 0 {
        let n = mv.len() as int;
        assert(mv2.last() == colon_as_x(mv.last()));
        lemma_colons_slices(mv, n - 1);
        assert(mv.drop_last() == mv.take(n - 1));
        assert(mv2.drop_last() == mv2.take(n - 1));
        if n >= 2 {
            assert(mv2[n - 2] == colon_as_x(mv[n - 2]));
            assert(mv.drop_last().last() == mv[n - 2]);
            assert(mv2.drop_last().last() == mv2[n - 2]);
        }
        match strip_check(mv) {
            None => {},
            Some(core) => {
                let core2 = colons_as_x(core);
                assert(strip_check(mv2) == Some(core2));
                lemma_castle_of_colons(core);
                lemma_contains_colons(core, 'O');
                lemma_contains_colons(core, '-');
                lemma_colons_slices(core, 0);
                if castle_of(core, true) is None && core.len() > 0 {
                    assert(core2[0] == colon_as_x(core[0]));
                    let (piece, k) = lead_piece(core[0], true)->0;
                    assert(lead_piece(core2[0], true) == lead_piece(core[0], true));
                    lemma_colons_slices(core, k);
                    lemma_after_lead_colons(mv, mv2, piece, core.skip(k));
                    lemma_after_lead_colons(mv, mv2, None, core);
                }
            },
        }
    }
}

/// A move text that strict mode accepts has the shape `strict_shape`
/// says.
#[verifier::spinoff_prover]
#[verifier::rlimit(50)]
pub proof fn lemma_strict_shape(mv: Seq<char>)
    ensures
        spec_parse(mv, false) is Ok ==> strict_shape(mv),
{
    lemma_core_syntax(mv, false);
    lemma_check_mark_only_last(mv, false);
    if spec_parse(mv, false) is Ok {
        let core = strip_check(mv)->0;
        assert(core.len() > 0);
        assert(mv[0] == core[0]);
        assert(forall|j: int| 0 <= j < core.len() ==> mv[j] == core[j]);
        assert(mv.len() == core.len() || (mv.len() == core.len() + 1 && is_check_mark(mv.last())));
        assert(!mv.contains(':')) by {
            if mv.contains(':') {
                let j = choose|j: int| 0 <= j < mv.len() && mv[j] == ':';
                if j < core.len() {
                    assert(syntax_char(core[j], false));
                }
            }
        }
        assert(!mv.contains('0')) by {
            if mv.contains('0') {
                let j = choose|j: int| 0 <= j < mv.len() && mv[j] == '0';
                if j < core.len() {
                    assert(syntax_char(core[j], false));
                }
            }
        }
        match castle_of(core, false) {
            Some(_) => {
                assert(core[0] == 'O');
                assert forall|k: int| 0 <= k < mv.len() && #[trigger] mv[k] == '=' implies k + 1
                    < mv.len() && is_promotion_letter(mv[k + 1], false) by {
                    assert(k < core.len());
                    assert(mv[k] == core[k]);
                }
            },
            None => {
                let (piece, k0) = lead_piece(core[0], false)->0;
                let rest = core.skip(k0);
                lemma_after_lead_equals(mv, piece, rest);
                if k0 == 0 {
                    assert(rest =~= core);
                    assert(rest.take(rest.len() - 0) =~= rest);
                    lemma_pawn_starts_with_file(mv, rest, false);
                }
                assert forall|k: int| 0 <= k < mv.len() && #[trigger] mv[k] == '=' implies k + 1
                    < mv.len() && is_promotion_letter(mv[k + 1], false) by {
                    if k < core.len() {
                        assert(mv[k] == core[k]);
                        if k0 == 1 && k == 0 {
                        } else {
                            assert(rest[k - k0] == core[k]);
                            assert(rest[k - k0 + 1] == core[k + 1]);
                        }
                    }
                }
            },
        }
    }
}

} // verus!

