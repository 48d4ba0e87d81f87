//! A minimal board model used to check whether a syntactically valid move
//! actually has a piece that can make it.
//!
//! This tracks piece placement, side to move, castling rights, and the en
//! passant square through a sequence of moves, starting from a FEN
//! position (the standard start position by default). For each move it
//! finds which piece of the right kind, on the right side, matching any
//! disambiguator, can reach the destination square given where pieces
//! currently sit on the board. It rejects moves with no such piece, or
//! more than one.
//!
//! What it does not do: verify that a move doesn't leave the mover's own
//! king in check. Pin and check detection require generating the
//! opponent's replies too, which this board does not do yet. So a move
//! that is otherwise well-formed and geometrically possible is accepted
//! even if it would illegally expose the king.
use vstd::prelude::*;
use crate::san::{Castle, Move, Piece};
use crate::text::{
    ascii_upper,
    ascii_upper_char,
    chars_of,
    concat3,
    decimal,
    is_digit,
    is_digit_char,
    is_file_char,
    is_whitespace,
    is_whitespace_char,
    lemma_scan_to_bounds,
    fields_from,
    word_end,
    lemma_word_end_bounds,
    push_char,
    push_decimal,
    scan_forward,
    scan_to,
    string_from,
    sub_chars,
};
use crate::san::is_rank_char;
use crate::text::{contains_between, same_chars};

verus! {

#[derive(Debug, Clone, Copy, PartialEq, Eq, Structural)]
pub enum Color {
    White,
    Black,
}

pub open spec fn opposite(c: Color) -> Color {
    match c {
        Color::White => Color::Black,
        Color::Black => Color::White,
    }
}

impl Color {
    fn other(self) -> (c: Color)
        ensures
            c == opposite(self),
    {
        match self {
            Color::White => Color::Black,
            Color::Black => Color::White,
        }
    }
}

/// What stands on a square: its colour and its kind.
pub type Occupant = (Color, Piece);

struct CastleRights {
    white_k: bool,
    white_q: bool,
    black_k: bool,
    black_q: bool,
}

/// A position: piece placement (file-major, `file * 8 + rank`), side to
/// move, castling rights and the en passant square.
pub struct Board {
    squares: Vec<Option<Occupant>>,
    side_to_move: Color,
    castling: CastleRights,
    en_passant: Option<(u8, u8)>,
}

/// The mathematical content of a `Board`.
pub struct BoardModel {
    /// `squares[file * 8 + rank]`, files and ranks counted from 0.
    pub squares: Seq<Option<Occupant>>,
    pub side_to_move: Color,
    pub white_k: bool,
    pub white_q: bool,
    pub black_k: bool,
    pub black_q: bool,
    pub en_passant: Option<(int, int)>,
}

pub open spec fn on_board(f: int, r: int) -> bool {
    0 <= f < 8 && 0 <= r < 8
}

impl BoardModel {
    pub open spec fn wf(self) -> bool {
        &&& self.squares.len() == 64
        &&& (self.en_passant matches Some((f, r)) ==> on_board(f, r))
    }

    /// What stands on file `f`, rank `r`.
    pub open spec fn at(self, f: int, r: int) -> Option<Occupant> {
        self.squares[f * 8 + r]
    }

    /// The position with `o` on file `f`, rank `r`.
    pub open spec fn put(self, f: int, r: int, o: Option<Occupant>) -> BoardModel {
        BoardModel { squares: self.squares.update(f * 8 + r, o), ..self }
    }
}

impl View for Board {
    type V = BoardModel;

    closed spec fn view(&self) -> BoardModel {
        BoardModel {
            squares: self.squares@,
            side_to_move: self.side_to_move,
            white_k: self.castling.white_k,
            white_q: self.castling.white_q,
            black_k: self.castling.black_k,
            black_q: self.castling.black_q,
            en_passant: match self.en_passant {
                Some((f, r)) => Some((f as int, r as int)),
                None => None,
            },
        }
    }
}

// ---------------------------------------------------------------------
// Squares and names
// ---------------------------------------------------------------------

/// The file index of a file letter `a`..`h`.
pub open spec fn file_of(c: char) -> int {
    c as int - 'a' as int
}

/// The rank index of a rank digit `1`..`8`.
pub open spec fn rank_of(c: char) -> int {
    c as int - '1' as int
}

fn file_index(c: char) -> (f: u8)
    requires
        is_file_char(c),
    ensures
        f == file_of(c),
        f < 8,
{
    (c as u32 - 'a' as u32) as u8
}

fn rank_index(c: char) -> (r: u8)
    requires
        is_rank_char(c),
    ensures
        r == rank_of(c),
        r < 8,
{
    (c as u32 - '1' as u32) as u8
}

/// The letter of file `f`.
pub open spec fn file_letter_of(f: int) -> char {
    seq!['a', 'b', 'c', 'd', 'e', 'f', 'g', 'h'][f]
}

fn file_letter(f: u8) -> (c: char)
    requires
        f < 8,
    ensures
        c == file_letter_of(f as int),
{
    match f {
        0 => 'a',
        1 => 'b',
        2 => 'c',
        3 => 'd',
        4 => 'e',
        5 => 'f',
        6 => 'g',
        _ => 'h',
    }
}

/// The square a two-character name such as `e4` names.
pub open spec fn square_of(s: Seq<char>) -> Option<(int, int)> {
    if s.len() == 2 && is_file_char(s[0]) && is_rank_char(s[1]) {
        Some((file_of(s[0]), rank_of(s[1])))
    } else {
        None
    }
}

fn square_from_chars(cs: &Vec<char>) -> (sq: Option<(u8, u8)>)
    ensures
        match sq {
            Some((f, r)) => square_of(cs@) == Some((f as int, r as int)) && f < 8 && r < 8,
            None => square_of(cs@) is None,
        },
{
    if cs.len() != 2 {
        return None;
    }
    let file = cs[0];
    let rank = cs[1];
    if !('a' <= file && file <= 'h') || !('1' <= rank && rank <= '8') {
        return None;
    }
    Some((file_index(file), rank_index(rank)))
}

fn square_from_str(s: &str) -> (sq: Option<(u8, u8)>)
    ensures
        match sq {
            Some((f, r)) => square_of(s@) == Some((f as int, r as int)) && f < 8 && r < 8,
            None => square_of(s@) is None,
        },
{
    let chars = chars_of(s);
    square_from_chars(&chars)
}

/// The English name of a piece.
pub open spec fn piece_name_of(p: Piece) -> Seq<char> {
    match p {
        Piece::King => "king"@,
        Piece::Queen => "queen"@,
        Piece::Rook => "rook"@,
        Piece::Bishop => "bishop"@,
        Piece::Knight => "knight"@,
        Piece::Pawn => "pawn"@,
    }
}

fn piece_name(p: Piece) -> (s: &'static str)
    ensures
        s@ == piece_name_of(p),
{
    match p {
        Piece::King => "king",
        Piece::Queen => "queen",
        Piece::Rook => "rook",
        Piece::Bishop => "bishop",
        Piece::Knight => "knight",
        Piece::Pawn => "pawn",
    }
}

// ---------------------------------------------------------------------
// Movement rules
// ---------------------------------------------------------------------

pub open spec fn abs(x: int) -> int {
    if x < 0 {
        -x
    } else {
        x
    }
}

pub open spec fn sign(x: int) -> int {
    if x > 0 {
        1
    } else if x < 0 {
        -1
    } else {
        0
    }
}

/// `a` moved `k` steps in direction `s` (`-1`, `0` or `1`).
pub open spec fn step(a: int, s: int, k: int) -> int {
    if s > 0 {
        a + k
    } else if s < 0 {
        a - k
    } else {
        a
    }
}

/// Every square strictly between `from` and `to` on their common line is
/// empty.
pub open spec fn path_clear(b: BoardModel, from: (int, int), to: (int, int)) -> bool {
    let sf = sign(to.0 - from.0);
    let sr = sign(to.1 - from.1);
    let n = if abs(to.0 - from.0) > abs(to.1 - from.1) {
        abs(to.0 - from.0)
    } else {
        abs(to.1 - from.1)
    };
    forall|k: int| 0 < k < n ==> (#[trigger] b.at(step(from.0, sf, k), step(from.1, sr, k))) is None
}

/// A non-pawn may land on an empty square when it does not capture, and on
/// an enemy piece when it does.
pub open spec fn dest_ok_spec(dest: Option<Occupant>, capture: bool, side: Color) -> bool {
    match dest {
        None => !capture,
        Some(o) => capture && o.0 != side,
    }
}

/// Whether `piece` of the side to move, standing on `from`, can move to
/// `to` (capturing or not) given where pieces sit.
pub open spec fn can_reach_spec(
    b: BoardModel,
    from: (int, int),
    to: (int, int),
    piece: Piece,
    capture: bool,
) -> bool {
    let df = to.0 - from.0;
    let dr = to.1 - from.1;
    let dest = b.at(to.0, to.1);
    let side = b.side_to_move;
    match piece {
        Piece::Pawn => {
            let dir: int = if side == Color::White {
                1
            } else {
                -1
            };
            let start: int = if side == Color::White {
                1
            } else {
                6
            };
            if capture {
                abs(df) == 1 && dr == dir && ((dest matches Some(o) && o.0 != side)
                    || b.en_passant == Some(to))
            } else {
                df == 0 && dest is None && (dr == dir || (from.1 == start && dr == 2 * dir
                    && b.at(from.0, from.1 + dir) is None))
            }
        },
        Piece::Knight => (abs(df) == 1 && abs(dr) == 2 || abs(df) == 2 && abs(dr) == 1)
            && dest_ok_spec(dest, capture, side),
        Piece::King => abs(df) <= 1 && abs(dr) <= 1 && (df != 0 || dr != 0) && dest_ok_spec(
            dest,
            capture,
            side,
        ),
        Piece::Bishop => abs(df) == abs(dr) && df != 0 && path_clear(b, from, to) && dest_ok_spec(
            dest,
            capture,
            side,
        ),
        Piece::Rook => (df == 0) != (dr == 0) && path_clear(b, from, to) && dest_ok_spec(
            dest,
            capture,
            side,
        ),
        Piece::Queen => ((df == 0) != (dr == 0) || (abs(df) == abs(dr) && df != 0)) && path_clear(
            b,
            from,
            to,
        ) && dest_ok_spec(dest, capture, side),
    }
}

fn dest_ok(dest_occupant: Option<Occupant>, capture: bool, side_to_move: Color) -> (b: bool)
    ensures
        b == dest_ok_spec(dest_occupant, capture, side_to_move),
{
    match dest_occupant {
        None => !capture,
        Some(o) => capture && o.0 != side_to_move,
    }
}

fn abs_small(x: i32) -> (a: i32)
    requires
        -100 < x < 100,
    ensures
        a == abs(x as int),
{
    if x < 0 {
        -x
    } else {
        x
    }
}

fn sign_small(x: i32) -> (s: i32)
    ensures
        s == sign(x as int),
{
    if x > 0 {
        1
    } else if x < 0 {
        -1
    } else {
        0
    }
}

// ---------------------------------------------------------------------
// Castling rights
// ---------------------------------------------------------------------

/// Castling rights once `moving` has left `from`.
pub open spec fn rights_after_move(b: BoardModel, from: (int, int), moving: Occupant) -> BoardModel {
    match (moving.0, moving.1) {
        (Color::White, Piece::King) => BoardModel { white_k: false, white_q: false, ..b },
        (Color::Black, Piece::King) => BoardModel { black_k: false, black_q: false, ..b },
        (Color::White, Piece::Rook) => if from == (0int, 0int) {
            BoardModel { white_q: false, ..b }
        } else if from == (7int, 0int) {
            BoardModel { white_k: false, ..b }
        } else {
            b
        },
        (Color::Black, Piece::Rook) => if from == (0int, 7int) {
            BoardModel { black_q: false, ..b }
        } else if from == (7int, 7int) {
            BoardModel { black_k: false, ..b }
        } else {
            b
        },
        _ => b,
    }
}

/// Castling rights once a piece has landed on `at` (a rook there, if any,
/// is gone).
pub open spec fn rights_after_capture(b: BoardModel, at: (int, int)) -> BoardModel {
    if at == (0int, 0int) {
        BoardModel { white_q: false, ..b }
    } else if at == (7int, 0int) {
        BoardModel { white_k: false, ..b }
    } else if at == (0int, 7int) {
        BoardModel { black_q: false, ..b }
    } else if at == (7int, 7int) {
        BoardModel { black_k: false, ..b }
    } else {
        b
    }
}

// ---------------------------------------------------------------------
// Making a move
// ---------------------------------------------------------------------

/// The position after the piece on `from` moves to `to` as `mv` says: an
/// en passant capture removes the pawn beside the mover, a promotion
/// replaces the pawn, castling rights and the en passant square are
/// updated, and it is the other side's turn.
pub open spec fn make_move_spec(b: BoardModel, from: (int, int), to: (int, int), mv: Move) -> BoardModel {
    let moving = b.at(from.0, from.1)->Some_0;
    let b1 = if moving.1 == Piece::Pawn && mv.capture && b.at(to.0, to.1) is None {
        // the captured pawn sits beside the mover, on the mover's own
        // departure rank
        b.put(to.0, from.1, None)
    } else {
        b
    };
    let b2 = b1.put(from.0, from.1, None);
    let placed = match mv.promotion {
        Some(p) => (moving.0, p),
        None => moving,
    };
    let b3 = b2.put(to.0, to.1, Some(placed));
    let b4 = rights_after_capture(rights_after_move(b3, from, moving), to);
    BoardModel {
        en_passant: if moving.1 == Piece::Pawn && abs(to.1 - from.1) == 2 {
            Some((from.0, (from.1 + to.1) / 2))
        } else {
            None
        },
        side_to_move: opposite(b.side_to_move),
        ..b4
    }
}

/// The name of a castling side as messages spell it.
pub open spec fn castle_name(c: Castle) -> Seq<char> {
    match c {
        Castle::Kingside => "Kingside"@,
        Castle::Queenside => "Queenside"@,
    }
}

fn castle_label(c: Castle) -> (s: &'static str)
    ensures
        s@ == castle_name(c),
{
    match c {
        Castle::Kingside => "Kingside",
        Castle::Queenside => "Queenside",
    }
}

/// The first file between king and rook that is occupied, if any.
pub open spec fn castle_blocker(b: BoardModel, castle: Castle, rank: int) -> Option<int> {
    match castle {
        Castle::Kingside => if b.at(5, rank) is Some {
            Some(5)
        } else if b.at(6, rank) is Some {
            Some(6)
        } else {
            None
        },
        Castle::Queenside => if b.at(1, rank) is Some {
            Some(1)
        } else if b.at(2, rank) is Some {
            Some(2)
        } else if b.at(3, rank) is Some {
            Some(3)
        } else {
            None
        },
    }
}

/// Whether the side to move still has the right to castle on `castle`.
pub open spec fn castle_allowed(b: BoardModel, castle: Castle) -> bool {
    match (b.side_to_move, castle) {
        (Color::White, Castle::Kingside) => b.white_k,
        (Color::White, Castle::Queenside) => b.white_q,
        (Color::Black, Castle::Kingside) => b.black_k,
        (Color::Black, Castle::Queenside) => b.black_q,
    }
}

/// The result of castling: the mover's king, on its home square, goes two
/// files towards the mover's rook in the corner, and the rook jumps over
/// it; the side loses both castling rights. Anything else on those squares
/// cannot castle.
pub open spec fn castle_spec(b: BoardModel, castle: Castle) -> Result<BoardModel, Seq<char>> {
    let rank: int = if b.side_to_move == Color::White {
        0
    } else {
        7
    };
    let (king_to, rook_from, rook_to) = match castle {
        Castle::Kingside => (6int, 7int, 5int),
        Castle::Queenside => (2int, 0int, 3int),
    };
    if !castle_allowed(b, castle) {
        Err("castling rights for "@ + castle_name(castle) + "-side castling are not available"@)
    } else if castle_blocker(b, castle, rank) is Some {
        Err(
            "castling is blocked: "@.push(file_letter_of(castle_blocker(b, castle, rank)->0)).push(
                if rank == 0 {
                    '1'
                } else {
                    '8'
                },
            ) + " is occupied"@,
        )
    } else if b.at(4, rank) != Some((b.side_to_move, Piece::King)) {
        Err("no king on its home square to castle"@)
    } else if b.at(rook_from, rank) != Some((b.side_to_move, Piece::Rook)) {
        Err("no rook on its home square to castle"@)
    } else {
        let king = b.at(4, rank)->Some_0;
        let rook = b.at(rook_from, rank)->Some_0;
        let b1 = b.put(4, rank, None).put(rook_from, rank, None).put(king_to, rank, Some(king)).put(
            rook_to,
            rank,
            Some(rook),
        );
        let b2 = if b.side_to_move == Color::White {
            BoardModel { white_k: false, white_q: false, ..b1 }
        } else {
            BoardModel { black_k: false, black_q: false, ..b1 }
        };
        Ok(BoardModel { en_passant: None, side_to_move: opposite(b.side_to_move), ..b2 })
    }
}

/// Whether the piece on file `f`, rank `r` is one that could make `mv` to
/// `dest`: the mover's, of the right kind, matching the disambiguation,
/// and able to reach `dest`.
pub open spec fn is_candidate(b: BoardModel, mv: Move, dest: (int, int), f: int, r: int) -> bool {
    &&& b.at(f, r) matches Some(o) && o.0 == b.side_to_move && o.1 == mv.piece
    &&& (mv.disambig_file matches Some(c) ==> f == file_of(c))
    &&& (mv.disambig_rank matches Some(c) ==> r == rank_of(c))
    &&& can_reach_spec(b, (f, r), dest, mv.piece, mv.capture)
}

/// The candidate squares with index `k` or more, in file-major order.
pub open spec fn candidates_from(b: BoardModel, mv: Move, dest: (int, int), k: int) -> Seq<
    (int, int),
>
    decreases 64 - k,
{
    if k >= 64 {
        Seq::empty()
    } else {
        let rest = candidates_from(b, mv, dest, k + 1);
        if is_candidate(b, mv, dest, k / 8, k % 8) {
            seq![(k / 8, k % 8)] + rest
        } else {
            rest
        }
    }
}

// ---------------------------------------------------------------------
// FEN
// ---------------------------------------------------------------------

/// The pieces of `s` from index `j` on between the separators `c`
/// (`str::split`, empty pieces included).
pub open spec fn split_from(s: Seq<char>, j: int, c: char) -> Seq<Seq<char>>
    decreases s.len() + 1 - j,
    when 0 <= j <= s.len()
{
    proof {
        lemma_scan_to_bounds(s, j, c);
    }
    let e = scan_to(s, j, c);
    if e >= s.len() {
        seq![s.subrange(j, s.len() as int)]
    } else {
        seq![s.subrange(j, e)] + split_from(s, e + 1, c)
    }
}

/// The occupant a FEN piece letter names: uppercase for White, lowercase
/// for Black.
pub open spec fn fen_piece(c: char) -> Option<Occupant> {
    if c == 'K' {
        Some((Color::White, Piece::King))
    } else if c == 'Q' {
        Some((Color::White, Piece::Queen))
    } else if c == 'R' {
        Some((Color::White, Piece::Rook))
    } else if c == 'B' {
        Some((Color::White, Piece::Bishop))
    } else if c == 'N' {
        Some((Color::White, Piece::Knight))
    } else if c == 'P' {
        Some((Color::White, Piece::Pawn))
    } else if c == 'k' {
        Some((Color::Black, Piece::King))
    } else if c == 'q' {
        Some((Color::Black, Piece::Queen))
    } else if c == 'r' {
        Some((Color::Black, Piece::Rook))
    } else if c == 'b' {
        Some((Color::Black, Piece::Bishop))
    } else if c == 'n' {
        Some((Color::Black, Piece::Knight))
    } else if c == 'p' {
        Some((Color::Black, Piece::Pawn))
    } else {
        None
    }
}

/// How reading the text of one rank ends.
pub enum RankScan {
    /// All characters read: the file reached and the squares filled in.
    Filled(int, Seq<Option<Occupant>>),
    /// The rank is malformed, with this message.
    Failed(Seq<char>),
}

/// Reads rank text `rs` from index `j` on, at file `file`, onto rank
/// `rank` of `sq`: a digit skips that many files, a piece letter places a
/// piece.
pub open spec fn scan_rank(rs: Seq<char>, j: int, file: int, rank: int, sq: Seq<Option<Occupant>>) -> RankScan
    decreases rs.len() - j,
{
    if j >= rs.len() {
        RankScan::Filled(file, sq)
    } else {
        let c = rs[j];
        if is_digit_char(c) {
            scan_rank(rs, j + 1, file + (c as int - '0' as int), rank, sq)
        } else if file >= 8 {
            RankScan::Failed("FEN rank '"@ + rs + "' has too many squares"@)
        } else {
            match fen_piece(c) {
                None => RankScan::Failed(
                    "'"@.push(ascii_upper_char(c)) + "' is not a valid FEN piece letter"@,
                ),
                Some(o) => scan_rank(rs, j + 1, file + 1, rank, sq.update(file * 8 + rank, Some(o))),
            }
        }
    }
}

/// How reading the eight ranks of a placement ends.
pub enum PlacementScan {
    Placed(Seq<Option<Occupant>>),
    Failed(Seq<char>),
}

/// Reads ranks `i..8` of `ranks` (the first is rank 8) onto `sq`.
pub open spec fn place_ranks(ranks: Seq<Seq<char>>, i: int, sq: Seq<Option<Occupant>>) -> PlacementScan
    decreases 8 - i,
{
    if i >= 8 {
        PlacementScan::Placed(sq)
    } else {
        match scan_rank(ranks[i], 0, 0, 7 - i, sq) {
            RankScan::Failed(m) => PlacementScan::Failed(m),
            RankScan::Filled(f, sq2) => if f != 8 {
                PlacementScan::Failed("FEN rank '"@ + ranks[i] + "' does not cover all 8 files"@)
            } else {
                place_ranks(ranks, i + 1, sq2)
            },
        }
    }
}

/// How reading a FEN text ends.
pub enum FenOutcome {
    Parsed(BoardModel),
    Rejected(Seq<char>),
}

pub open spec fn empty_squares() -> Seq<Option<Occupant>> {
    Seq::new(64, |i: int| None::<Occupant>)
}

/// What the FEN text `fen` describes: its first four fields are the piece
/// placement, the side to move (`w` when absent), the castling rights (`-`
/// when absent) and the en passant square (`-` when absent); the others
/// are ignored.
pub open spec fn fen_spec(fen: Seq<char>) -> FenOutcome {
    let fields = fields_from(fen, 0);
    if fields.len() == 0 {
        FenOutcome::Rejected("FEN is missing a piece placement field"@)
    } else {
        let side = if fields.len() > 1 {
            fields[1]
        } else {
            seq!['w']
        };
        let castling = if fields.len() > 2 {
            fields[2]
        } else {
            seq!['-']
        };
        let ep = if fields.len() > 3 {
            fields[3]
        } else {
            seq!['-']
        };
        let ranks = split_from(fields[0], 0, '/');
        if ranks.len() != 8 {
            FenOutcome::Rejected("FEN placement has "@ + decimal(ranks.len()) + " ranks, expected 8"@)
        } else {
            match place_ranks(ranks, 0, empty_squares()) {
                PlacementScan::Failed(m) => FenOutcome::Rejected(m),
                PlacementScan::Placed(sq) => if side != seq!['w'] && side != seq!['b'] {
                    FenOutcome::Rejected("'"@ + side + "' is not a valid FEN side to move"@)
                } else if ep != seq!['-'] && square_of(ep) is None {
                    FenOutcome::Rejected("'"@ + ep + "' is not a valid FEN en passant square"@)
                } else {
                    FenOutcome::Parsed(
                        BoardModel {
                            squares: sq,
                            side_to_move: if side == seq!['w'] {
                                Color::White
                            } else {
                                Color::Black
                            },
                            white_k: castling.contains('K'),
                            white_q: castling.contains('Q'),
                            black_k: castling.contains('k'),
                            black_q: castling.contains('q'),
                            en_passant: if ep == seq!['-'] {
                                None
                            } else {
                                square_of(ep)
                            },
                        },
                    )
                },
            }
        }
    }
}

/// A character that may stand in the text of a rank: a digit or a FEN
/// piece letter.
pub open spec fn fen_rank_char(c: char) -> bool {
    is_digit_char(c) || fen_piece(c) is Some
}

/// The squares of a rank, file by file, as its text describes them: a
/// digit stands for that many empty squares, a piece letter for the piece.
pub open spec fn rank_cells(rs: Seq<char>) -> Seq<Option<Occupant>>
    decreases rs.len(),
{
    if rs.len() == 0 {
        Seq::empty()
    } else {
        let c = rs[0];
        let head = if is_digit_char(c) {
            Seq::new((c as int - '0' as int) as nat, |k: int| None::<Occupant>)
        } else {
            seq![fen_piece(c)]
        };
        head + rank_cells(rs.drop_first())
    }
}

/// The text of a rank is well formed: only digits and piece letters, eight
/// squares in all.
pub open spec fn rank_well_formed(rs: Seq<char>) -> bool {
    &&& forall|j: int| 0 <= j < rs.len() ==> fen_rank_char(#[trigger] rs[j])
    &&& rank_cells(rs).len() == 8
}

/// What reading rank text from index `j` on, starting at `file`, does to
/// rank `rank` of `sq`: each square the text names a piece for gets it.
pub open spec fn ranks_written(
    sq: Seq<Option<Occupant>>,
    sq2: Seq<Option<Occupant>>,
    cells: Seq<Option<Occupant>>,
    file: int,
    rank: int,
) -> bool {
    forall|f: int, r: int|
        on_board(f, r) ==> #[trigger] sq2[f * 8 + r] == (if r == rank && file <= f < file
            + cells.len() && cells[f - file] is Some {
            cells[f - file]
        } else {
            sq[f * 8 + r]
        })
}

/// Reading a rank succeeds within the board exactly when its text is made
/// of digits and piece letters that fit; it then places what the text
/// names.
proof fn lemma_scan_rank_cells(rs: Seq<char>, j: int, file: int, rank: int, sq: Seq<Option<Occupant>>)
    requires
        0 <= j <= rs.len(),
        0 <= file,
        0 <= rank < 8,
        sq.len() == 64,
    ensures
        ({
            let rest = rs.skip(j);
            let cells = rank_cells(rest);
            let res = scan_rank(rs, j, file, rank, sq);
            &&& (res is Filled && res->Filled_0 <= 8) ==> {
                &&& forall|m: int| 0 <= m < rest.len() ==> fen_rank_char(#[trigger] rest[m])
                &&& res->Filled_0 == file + cells.len()
                &&& res->Filled_1.len() == 64
                &&& ranks_written(sq, res->Filled_1, cells, file, rank)
            }
            &&& ((forall|m: int| 0 <= m < rest.len() ==> fen_rank_char(#[trigger] rest[m]))
                && file + cells.len() <= 8) ==> (res is Filled && res->Filled_0 == file
                + cells.len())
        }),
    decreases rs.len() - j,
{
    let rest = rs.skip(j);
    let cells = rank_cells(rest);
    if j >= rs.len() {
        assert(rest.len() == 0);
        assert(cells.len() == 0);
        assert forall|f: int, r: int| on_board(f, r) implies #[trigger] sq[f * 8 + r] == (if r == rank
            && file <= f < file + cells.len() && cells[f - file] is Some {
            cells[f - file]
        } else {
            sq[f * 8 + r]
        }) by {}
    } else {
        let c = rs[j];
        assert(rest[0] == c);
        let rest2 = rs.skip(j + 1);
        assert(rest.drop_first() =~= rest2);
        let cells2 = rank_cells(rest2);
        assert(forall|m: int| 0 <= m < rest2.len() ==> rest2[m] == rest[m + 1]);
        if is_digit_char(c) {
            let d = c as int - '0' as int;
            let head = Seq::new(d as nat, |k: int| None::<Occupant>);
            assert(cells == head + cells2);
            lemma_scan_rank_cells(rs, j + 1, file + d, rank, sq);
            let res = scan_rank(rs, j, file, rank, sq);
            assert(res == scan_rank(rs, j + 1, file + d, rank, sq));
            if let RankScan::Filled(fe, sq2) = res {
                if fe <= 8 {
                    assert forall|m: int| 0 <= m < rest.len() implies fen_rank_char(#[trigger] rest[m]) by {
                        if m > 0 {
                            assert(rest[m] == rest2[m - 1]);
                        }
                    }
                    assert forall|f: int, r: int| on_board(f, r) implies #[trigger] sq2[f * 8 + r]
                        == (if r == rank && file <= f < file + cells.len() && cells[f - file] is Some {
                        cells[f - file]
                    } else {
                        sq[f * 8 + r]
                    }) by {
                        if r == rank && file <= f < file + cells.len() {
                            if f < file + d {
                                assert(cells[f - file] == head[f - file]);
                            } else {
                                assert(cells[f - file] == cells2[f - file - d]);
                            }
                        }
                    }
                }
            }
            if (forall|m: int| 0 <= m < rest.len() ==> fen_rank_char(#[trigger] rest[m])) && file
                + cells.len() <= 8 {
                assert forall|m: int| 0 <= m < rest2.len() implies fen_rank_char(#[trigger] rest2[m]) by {
                    assert(rest2[m] == rest[m + 1]);
                }
            }
        } else if file >= 8 {
            if fen_rank_char(c) {
                assert(cells == seq![fen_piece(c)] + cells2);
            }
        } else {
            match fen_piece(c) {
                None => {
                    assert(!fen_rank_char(rest[0]));
                },
                Some(o) => {
                    let sq1 = sq.update(file * 8 + rank, Some(o));
                    assert(cells == seq![Some(o)] + cells2);
                    lemma_scan_rank_cells(rs, j + 1, file + 1, rank, sq1);
                    let res = scan_rank(rs, j, file, rank, sq);
                    assert(res == scan_rank(rs, j + 1, file + 1, rank, sq1));
                    if let RankScan::Filled(fe, sq2) = res {
                        if fe <= 8 {
                            assert forall|m: int| 0 <= m < rest.len() implies fen_rank_char(#[trigger] rest[m]) by {
                                if m > 0 {
                                    assert(rest[m] == rest2[m - 1]);
                                }
                            }
                            assert forall|f: int, r: int| on_board(f, r) implies #[trigger] sq2[f * 8 + r]
                                == (if r == rank && file <= f < file + cells.len() && cells[f - file] is Some {
                                cells[f - file]
                            } else {
                                sq[f * 8 + r]
                            }) by {
                                if r == rank && f == file {
                                    assert(cells[0] == Some(o));
                                } else if r == rank && file < f < file + cells.len() {
                                    assert(cells[f - file] == cells2[f - file - 1]);
                                    assert(f * 8 + r != file * 8 + rank);
                                } else {
                                    assert(f * 8 + r != file * 8 + rank);
                                }
                            }
                        }
                    }
                    if (forall|m: int| 0 <= m < rest.len() ==> fen_rank_char(#[trigger] rest[m]))
                        && file + cells.len() <= 8 {
                        assert forall|m: int| 0 <= m < rest2.len() implies fen_rank_char(#[trigger] rest2[m]) by {
                            assert(rest2[m] == rest[m + 1]);
                        }
                    }
                },
            }
        }
    }
}

proof fn lemma_place_ranks_cells(ranks: Seq<Seq<char>>, i: int, sq: Seq<Option<Occupant>>)
    requires
        ranks.len() == 8,
        0 <= i <= 8,
        sq.len() == 64,
    ensures
        ({
            let res = place_ranks(ranks, i, sq);
            &&& res is Placed ==> {
                &&& forall|k: int| i <= k < 8 ==> rank_well_formed(#[trigger] ranks[k])
                &&& res->Placed_0.len() == 64
                &&& forall|f: int, r: int|
                    on_board(f, r) ==> #[trigger] res->Placed_0[f * 8 + r] == (if r <= 7 - i
                        && rank_cells(ranks[7 - r])[f] is Some {
                        rank_cells(ranks[7 - r])[f]
                    } else {
                        sq[f * 8 + r]
                    })
            }
            &&& (forall|k: int| i <= k < 8 ==> rank_well_formed(#[trigger] ranks[k])) ==> res is Placed
        }),
    decreases 8 - i,
{
    if i < 8 {
        let rs = ranks[i];
        assert(rs.skip(0) =~= rs);
        lemma_scan_rank_cells(rs, 0, 0, 7 - i, sq);
        let cells = rank_cells(rs);
        let scan = scan_rank(rs, 0, 0, 7 - i, sq);
        if let RankScan::Filled(fe, sq1) = scan {
            if fe == 8 {
                lemma_place_ranks_cells(ranks, i + 1, sq1);
                let res = place_ranks(ranks, i, sq);
                assert(res == place_ranks(ranks, i + 1, sq1));
                if res is Placed {
                    let sq2 = res->Placed_0;
                    assert forall|k: int| i <= k < 8 implies rank_well_formed(#[trigger] ranks[k]) by {
                        if k == i {
                            assert forall|j: int| 0 <= j < rs.len() implies fen_rank_char(#[trigger] rs[j]) by {
                                assert(rs.skip(0)[j] == rs[j]);
                            }
                        }
                    }
                    assert forall|f: int, r: int| on_board(f, r) implies #[trigger] sq2[f * 8 + r] == (if r
                        <= 7 - i && rank_cells(ranks[7 - r])[f] is Some {
                        rank_cells(ranks[7 - r])[f]
                    } else {
                        sq[f * 8 + r]
                    }) by {
                        assert(sq1[f * 8 + r] == (if r == 7 - i && 0 <= f < cells.len() && cells[f] is Some {
                            cells[f]
                        } else {
                            sq[f * 8 + r]
                        }));
                    }
                }
            }
        }
        if forall|k: int| i <= k < 8 ==> rank_well_formed(#[trigger] ranks[k]) {
            assert(rank_well_formed(ranks[i]));
            assert forall|m: int| 0 <= m < rs.skip(0).len() implies fen_rank_char(#[trigger] rs.skip(0)[m]) by {
                assert(rs.skip(0)[m] == rs[m]);
            }
        }
    }
}

/// The ranks of the placement field of a FEN text, the eighth rank first.
pub open spec fn fen_ranks(fen: Seq<char>) -> Seq<Seq<char>> {
    split_from(fields_from(fen, 0)[0], 0, '/')
}

/// A FEN text that `from_fen` accepts: a placement field of eight well
/// formed ranks, a side to move of `w` or `b` (if given) and an en passant
/// field of `-` or a square (if given); the castling field can be anything.
pub open spec fn fen_well_formed(fen: Seq<char>) -> bool {
    let fields = fields_from(fen, 0);
    &&& fields.len() > 0
    &&& fen_ranks(fen).len() == 8
    &&& forall|k: int| 0 <= k < 8 ==> rank_well_formed(#[trigger] fen_ranks(fen)[k])
    &&& fields.len() > 1 ==> (fields[1] == seq!['w'] || fields[1] == seq!['b'])
    &&& fields.len() > 3 ==> (fields[3] == seq!['-'] || square_of(fields[3]) is Some)
}

/// A FEN text is read exactly when it is well formed; each square then
/// holds what its rank's text names for it, the top rank first.
pub proof fn lemma_fen_reading(fen: Seq<char>)
    ensures
        fen_spec(fen) is Parsed <==> fen_well_formed(fen),
        fen_spec(fen) matches FenOutcome::Parsed(b) ==> forall|f: int, r: int|
            on_board(f, r) ==> #[trigger] b.at(f, r) == rank_cells(fen_ranks(fen)[7 - r])[f],
{
    let fields = fields_from(fen, 0);
    if fields.len() > 0 && fen_ranks(fen).len() == 8 {
        let ranks = fen_ranks(fen);
        lemma_place_ranks_cells(ranks, 0, empty_squares());
        let res = place_ranks(ranks, 0, empty_squares());
        if let FenOutcome::Parsed(b) = fen_spec(fen) {
            assert(res is Placed);
            assert forall|f: int, r: int| on_board(f, r) implies #[trigger] b.at(f, r) == rank_cells(
                ranks[7 - r],
            )[f] by {
                assert(b.squares == res->Placed_0);
                assert(empty_squares()[f * 8 + r] == None::<Occupant>);
            }
        }
    }
}

/// The piece that starts the game on file `f` of the back rank.
pub open spec fn back_rank_piece(f: int) -> Piece {
    seq![
        Piece::Rook,
        Piece::Knight,
        Piece::Bishop,
        Piece::Queen,
        Piece::King,
        Piece::Bishop,
        Piece::Knight,
        Piece::Rook,
    ][f]
}

/// What stands on file `f`, rank `r` in the standard starting position.
pub open spec fn start_square(f: int, r: int) -> Option<Occupant> {
    if r == 0 {
        Some((Color::White, back_rank_piece(f)))
    } else if r == 1 {
        Some((Color::White, Piece::Pawn))
    } else if r == 6 {
        Some((Color::Black, Piece::Pawn))
    } else if r == 7 {
        Some((Color::Black, back_rank_piece(f)))
    } else {
        None
    }
}

fn back_rank_piece_of(f: u8) -> (p: Piece)
    requires
        f < 8,
    ensures
        p == back_rank_piece(f as int),
{
    match f {
        0 => Piece::Rook,
        1 => Piece::Knight,
        2 => Piece::Bishop,
        3 => Piece::Queen,
        4 => Piece::King,
        5 => Piece::Bishop,
        6 => Piece::Knight,
        _ => Piece::Rook,
    }
}

fn start_square_of(f: u8, r: u8) -> (o: Option<Occupant>)
    requires
        f < 8,
    ensures
        o == start_square(f as int, r as int),
{
    if r == 0 {
        Some((Color::White, back_rank_piece_of(f)))
    } else if r == 1 {
        Some((Color::White, Piece::Pawn))
    } else if r == 6 {
        Some((Color::Black, Piece::Pawn))
    } else if r == 7 {
        Some((Color::Black, back_rank_piece_of(f)))
    } else {
        None
    }
}

/// The standard starting position, White to move, all castling rights, no
/// en passant square.
pub open spec fn start_model() -> BoardModel {
    BoardModel {
        squares: Seq::new(64, |k: int| start_square(k / 8, k % 8)),
        side_to_move: Color::White,
        white_k: true,
        white_q: true,
        black_k: true,
        black_q: true,
        en_passant: None,
    }
}

/// Pairs of indices as the pieces of `cs` they delimit.
pub open spec fn ranges_model(cs: Seq<char>, v: Seq<(usize, usize)>) -> Seq<Seq<char>> {
    v.map_values(|p: (usize, usize)| cs.subrange(p.0 as int, p.1 as int))
}

fn fen_piece_of(c: char) -> (o: Option<Occupant>)
    ensures
        o == fen_piece(c),
{
    match c {
        'K' => Some((Color::White, Piece::King)),
        'Q' => Some((Color::White, Piece::Queen)),
        'R' => Some((Color::White, Piece::Rook)),
        'B' => Some((Color::White, Piece::Bishop)),
        'N' => Some((Color::White, Piece::Knight)),
        'P' => Some((Color::White, Piece::Pawn)),
        'k' => Some((Color::Black, Piece::King)),
        'q' => Some((Color::Black, Piece::Queen)),
        'r' => Some((Color::Black, Piece::Rook)),
        'b' => Some((Color::Black, Piece::Bishop)),
        'n' => Some((Color::Black, Piece::Knight)),
        'p' => Some((Color::Black, Piece::Pawn)),
        _ => None,
    }
}

/// The ranges of the whitespace-separated fields of `cs`.
fn split_fields(cs: &Vec<char>) -> (fields: Vec<(usize, usize)>)
    ensures
        ranges_model(cs@, fields@) == fields_from(cs@, 0),
        forall|k: int| 0 <= k < fields@.len() ==> (#[trigger] fields@[k]).0 <= fields@[k].1 <= cs@.len(),
{
    let n = cs.len();
    let mut fields: Vec<(usize, usize)> = Vec::new();
    let mut i: usize = 0;
    while i < n
        invariant
            n == cs@.len(),
            i <= n,
            ranges_model(cs@, fields@) + fields_from(cs@, i as int) == fields_from(cs@, 0),
            forall|k: int| 0 <= k < fields@.len() ==> (#[trigger] fields@[k]).0 <= fields@[k].1 <= cs@.len(),
        decreases n - i,
    {
        if is_whitespace(cs[i]) {
            i += 1;
        } else {
            let start = i;
            i += 1;
            proof {
                lemma_word_end_bounds(cs@, i as int);
            }
            while i < n && !is_whitespace(cs[i])
                invariant
                    n == cs@.len(),
                    start < i <= n,
                    word_end(cs@, i as int) == word_end(cs@, start + 1),
                decreases n - i,
            {
                i += 1;
            }
            let ghost before = fields@;
            fields.push((start, i));
            assert(ranges_model(cs@, fields@) =~= ranges_model(cs@, before).push(
                cs@.subrange(start as int, i as int),
            ));
        }
    }
    fields
}

/// The ranges of the pieces of `cs` between the separators `c`.
fn split_on(cs: &Vec<char>, c: char) -> (pieces: Vec<(usize, usize)>)
    ensures
        ranges_model(cs@, pieces@) == split_from(cs@, 0, c),
        forall|k: int| 0 <= k < pieces@.len() ==> (#[trigger] pieces@[k]).0 <= pieces@[k].1 <= cs@.len(),
{
    let n = cs.len();
    let mut pieces: Vec<(usize, usize)> = Vec::new();
    let mut j: usize = 0;
    loop
        invariant
            n == cs@.len(),
            j <= n,
            ranges_model(cs@, pieces@) + split_from(cs@, j as int, c) == split_from(cs@, 0, c),
            forall|k: int| 0 <= k < pieces@.len() ==> (#[trigger] pieces@[k]).0 <= pieces@[k].1 <= cs@.len(),
        decreases n + 1 - j,
    {
        let e = scan_forward(cs, j, c);
        let ghost before = pieces@;
        pieces.push((j, e));
        assert(ranges_model(cs@, pieces@) =~= ranges_model(cs@, before).push(
            cs@.subrange(j as int, e as int),
        ));
        if e >= n {
            assert(ranges_model(cs@, pieces@) =~= split_from(cs@, 0, c));
            return pieces;
        }
        j = e + 1;
    }
}

/// The file count `file` held in a byte: past the board every count
/// reads alike, so it stops at 9.
pub open spec fn capped_file(file: int) -> int {
    if file > 9 {
        9
    } else {
        file
    }
}

/// Reads one rank of a FEN placement onto `squares`; on success, the file
/// reached (a count past the board is given as 9).
fn read_rank(rs: &Vec<char>, rank: u8, squares: &mut Vec<Option<Occupant>>) -> (r: Result<
    u8,
    String,
>)
    requires
        rank < 8,
        old(squares)@.len() == 64,
    ensures
        final(squares)@.len() == 64,
        r matches Ok(f) ==> scan_rank(rs@, 0, 0, rank as int, old(squares)@) matches RankScan::Filled(
            fe,
            sq,
        ) && f == capped_file(fe) && sq == final(squares)@,
        r matches Err(e) ==> scan_rank(rs@, 0, 0, rank as int, old(squares)@) == RankScan::Failed(
            e@,
        ),
{
    let ghost goal = scan_rank(rs@, 0, 0, rank as int, old(squares)@);
    let ghost mut full: int = 0;
    let mut file: u8 = 0;
    let mut j: usize = 0;
    while j < rs.len()
        invariant
            rank < 8,
            squares@.len() == 64,
            j <= rs@.len(),
            full >= 0,
            file == capped_file(full),
            scan_rank(rs@, j as int, full, rank as int, squares@) == goal,
            goal == scan_rank(rs@, 0, 0, rank as int, old(squares)@),
        decreases rs@.len() - j,
    {
        let c = rs[j];
        if is_digit(c) {
            let skip = (c as u32 - '0' as u32) as u8;
            proof {
                full = full + skip;
            }
            file = if file + skip > 9 {
                9
            } else {
                file + skip
            };
            j += 1;
        } else {
            if file >= 8 {
                let msg = concat3("FEN rank '", string_from(rs, 0, rs.len()).as_str(), "' has too many squares");
                assert(rs@.subrange(0, rs@.len() as int) =~= rs@);
                return Err(msg);
            }
            let o = match fen_piece_of(c) {
                Some(o) => o,
                None => {
                    let mut msg = "'".to_owned();
                    push_char(&mut msg, ascii_upper(c));
                    msg.append("' is not a valid FEN piece letter");
                    return Err(msg);
                },
            };
            squares.set(file as usize * 8 + rank as usize, Some(o));
            file += 1;
            proof {
                full = full + 1;
            }
            j += 1;
        }
    }
    Ok(file)
}

/// A move other than castling is played exactly when one piece of the side
/// to move qualifies for it: of the right kind, matching the
/// disambiguation, and able to reach the destination by its rule.
pub proof fn lemma_apply_ok_iff_unique(b: BoardModel, mv: Move)
    requires
        b.wf(),
        mv.castle is None,
        mv.dest is Some,
    ensures
        ({
            let (fc, rc) = mv.dest->0;
            apply_spec(b, mv) is Ok <==> candidates(b, mv, (file_of(fc), rank_of(rc))).len() == 1
        }),
{
}

/// What a played move other than castling does: the one qualifying piece
/// leaves its square and stands (promoted, if the move says so) on the
/// destination; an en passant capture also empties the square beside it;
/// every other square stays as it was, and the turn passes.
#[verifier::spinoff_prover]
#[verifier::rlimit(60)]
pub proof fn lemma_apply_moves_candidate(b: BoardModel, mv: Move)
    requires
        b.wf(),
        mv.well_formed(),
        mv.castle is None,
        mv.dest is Some,
    ensures
        ({
            let (fc, rc) = mv.dest->0;
            let dest = (file_of(fc), rank_of(rc));
            let from = candidates(b, mv, dest)[0];
            let side = b.side_to_move;
            let placed = match mv.promotion {
                Some(p) => p,
                None => mv.piece,
            };
            let en_passant_capture = mv.piece == Piece::Pawn && mv.capture && b.at(dest.0, dest.1)
                is None;
            apply_spec(b, mv) matches Ok(after) ==> {
                &&& is_candidate(b, mv, dest, from.0, from.1)
                &&& from != dest
                &&& after.wf()
                &&& after.side_to_move == opposite(side)
                &&& after.at(from.0, from.1) is None
                &&& after.at(dest.0, dest.1) == Some((side, placed))
                &&& (en_passant_capture ==> after.at(dest.0, from.1) is None)
                &&& forall|f: int, r: int|
                    on_board(f, r) && (f, r) != from && (f, r) != dest && !(en_passant_capture && (
                    f, r) == (dest.0, from.1)) ==> #[trigger] after.at(f, r) == b.at(f, r)
            }
        }),
{
    let (fc, rc) = mv.dest->0;
    let dest = (file_of(fc), rank_of(rc));
    let cands = candidates(b, mv, dest);
    if apply_spec(b, mv) is Ok {
        lemma_candidates_from(b, mv, dest, 0);
        let from = cands[0];
        assert(is_candidate(b, mv, dest, from.0, from.1));
        assert(on_board(from.0, from.1));
        let after = apply_spec(b, mv)->Ok_0;
        assert forall|f: int, r: int|
            on_board(f, r) && (f, r) != from && (f, r) != dest && !(mv.piece == Piece::Pawn
                && mv.capture && b.at(dest.0, dest.1) is None && (f, r) == (dest.0, from.1))
            implies #[trigger] after.at(f, r) == b.at(f, r) by {
            assert(f * 8 + r != from.0 * 8 + from.1);
            assert(f * 8 + r != dest.0 * 8 + dest.1);
            assert((f, r) != (dest.0, from.1) ==> f * 8 + r != dest.0 * 8 + from.1);
        }
    }
}

/// What castling does: the king leaves the e-file and the rook its corner;
/// the king lands two files towards the rook and the rook beside it on the
/// other side; every other square stays as it was; the side loses both
/// castling rights, the other side keeps its own, no en passant square
/// remains and the turn passes.
pub proof fn lemma_castle_moves(b: BoardModel, castle: Castle)
    requires
        b.wf(),
    ensures
        ({
            let side = b.side_to_move;
            let rank: int = if side == Color::White {
                0
            } else {
                7
            };
            let (king_to, rook_from, rook_to) = match castle {
                Castle::Kingside => (6int, 7int, 5int),
                Castle::Queenside => (2int, 0int, 3int),
            };
            castle_spec(b, castle) matches Ok(after) ==> {
                &&& castle_allowed(b, castle)
                &&& b.at(4, rank) == Some((side, Piece::King))
                &&& b.at(rook_from, rank) == Some((side, Piece::Rook))
                &&& after.wf()
                &&& after.at(4, rank) is None
                &&& after.at(rook_from, rank) is None
                &&& after.at(king_to, rank) == Some((side, Piece::King))
                &&& after.at(rook_to, rank) == Some((side, Piece::Rook))
                &&& forall|f: int, r: int|
                    on_board(f, r) && r != rank ==> #[trigger] after.at(f, r) == b.at(f, r)
                &&& forall|f: int|
                    0 <= f < 8 && f != 4 && f != rook_from && f != king_to && f != rook_to
                        ==> #[trigger] after.at(f, rank) == b.at(f, rank)
                &&& (if side == Color::White {
                    !after.white_k && !after.white_q && after.black_k == b.black_k && after.black_q
                        == b.black_q
                } else {
                    !after.black_k && !after.black_q && after.white_k == b.white_k && after.white_q
                        == b.white_q
                })
                &&& after.en_passant is None
                &&& after.side_to_move == opposite(side)
            }
        }),
{
}

/// Castling is played exactly when the side still holds the right, the
/// squares between king and rook are empty, and its own king and rook stand
/// on their home squares.
pub proof fn lemma_castle_ok_iff(b: BoardModel, castle: Castle)
    requires
        b.wf(),
    ensures
        ({
            let side = b.side_to_move;
            let rank: int = if side == Color::White {
                0
            } else {
                7
            };
            let (rook_from, path_empty) = match castle {
                Castle::Kingside => (7int, b.at(5, rank) is None && b.at(6, rank) is None),
                Castle::Queenside => (0int, b.at(1, rank) is None && b.at(2, rank) is None && b.at(
                    3,
                    rank,
                ) is None),
            };
            castle_spec(b, castle) is Ok <==> {
                &&& castle_allowed(b, castle)
                &&& path_empty
                &&& b.at(4, rank) == Some((side, Piece::King))
                &&& b.at(rook_from, rank) == Some((side, Piece::Rook))
            }
        }),
{
}

/// How castling rights follow a move: a king that moves takes away both of
/// its side's rights, a rook leaving its corner the right on that side, and
/// a piece landing on a corner the right of that corner's rook; every other
/// right, and the squares, the side to move and the en passant square, stay
/// as they were.
pub proof fn lemma_rights_rules(b: BoardModel, from: (int, int), to: (int, int), moving: Occupant)
    ensures
        ({
            let m = rights_after_move(b, from, moving);
            let a = rights_after_capture(m, to);
            &&& a.squares == b.squares
            &&& a.side_to_move == b.side_to_move
            &&& a.en_passant == b.en_passant
            &&& a.white_k == (b.white_k && moving != (Color::White, Piece::King) && !(moving == (
                Color::White,
                Piece::Rook,
            ) && from == (7int, 0int)) && to != (7int, 0int))
            &&& a.white_q == (b.white_q && moving != (Color::White, Piece::King) && !(moving == (
                Color::White,
                Piece::Rook,
            ) && from == (0int, 0int)) && to != (0int, 0int))
            &&& a.black_k == (b.black_k && moving != (Color::Black, Piece::King) && !(moving == (
                Color::Black,
                Piece::Rook,
            ) && from == (7int, 7int)) && to != (7int, 7int))
            &&& a.black_q == (b.black_q && moving != (Color::Black, Piece::King) && !(moving == (
                Color::Black,
                Piece::Rook,
            ) && from == (0int, 7int)) && to != (0int, 7int))
        }),
{
}

/// On a file, a rank or a diagonal, the path between two squares is clear
/// exactly when every square strictly between them is empty.
pub proof fn lemma_path_clear_lines(b: BoardModel, from: (int, int), to: (int, int))
    requires
        from != to,
    ensures
        from.1 == to.1 ==> (path_clear(b, from, to) <==> forall|f: int|
            (from.0 < f < to.0 || to.0 < f < from.0) ==> #[trigger] b.at(f, from.1) is None),
        from.0 == to.0 ==> (path_clear(b, from, to) <==> forall|r: int|
            (from.1 < r < to.1 || to.1 < r < from.1) ==> #[trigger] b.at(from.0, r) is None),
        abs(to.0 - from.0) == abs(to.1 - from.1) ==> (path_clear(b, from, to) <==> forall|k: int|
            0 < k < abs(to.0 - from.0) ==> #[trigger] b.at(
                step(from.0, sign(to.0 - from.0), k),
                step(from.1, sign(to.1 - from.1), k),
            ) is None),
{
    let sf = sign(to.0 - from.0);
    let sr = sign(to.1 - from.1);
    if from.1 == to.1 {
        if path_clear(b, from, to) {
            assert forall|f: int| (from.0 < f < to.0 || to.0 < f < from.0) implies #[trigger] b.at(
                f,
                from.1,
            ) is None by {
                let k = abs(f - from.0);
                assert(step(from.0, sf, k) == f);
                assert(step(from.1, sr, k) == from.1);
            }
        } else {
            let k = choose|k: int|
                0 < k < abs(to.0 - from.0) && !(b.at(step(from.0, sf, k), step(from.1, sr, k)) is None);
            assert(b.at(step(from.0, sf, k), from.1) is Some);
        }
    }
    if from.0 == to.0 {
        if path_clear(b, from, to) {
            assert forall|r: int| (from.1 < r < to.1 || to.1 < r < from.1) implies #[trigger] b.at(
                from.0,
                r,
            ) is None by {
                let k = abs(r - from.1);
                assert(step(from.0, sf, k) == from.0);
                assert(step(from.1, sr, k) == r);
            }
        } else {
            let k = choose|k: int|
                0 < k < abs(to.1 - from.1) && !(b.at(step(from.0, sf, k), step(from.1, sr, k)) is None);
            assert(b.at(from.0, step(from.1, sr, k)) is Some);
        }
    }
}

/// The movement rules, the other way round: a king may step to any of the
/// eight neighbouring squares, a knight may make any of its eight jumps, a
/// rook (or queen) may move along its file or rank and a bishop (or queen)
/// along a diagonal over empty squares, and a pawn may advance one rank (two
/// from its starting rank, over an empty square) or capture one square
/// diagonally ahead, whenever the destination fits: empty for a move, an
/// enemy piece (or, for a pawn, the en passant square) for a capture.
pub proof fn lemma_reach_complete(b: BoardModel, from: (int, int), to: (int, int), capture: bool)
    requires
        b.wf(),
        on_board(from.0, from.1),
        on_board(to.0, to.1),
        from != to,
    ensures
        ({
            let df = to.0 - from.0;
            let dr = to.1 - from.1;
            let side = b.side_to_move;
            let dest = b.at(to.0, to.1);
            let fits = if capture {
                dest matches Some(o) && o.0 != side
            } else {
                dest is None
            };
            let dir: int = if side == Color::White {
                1
            } else {
                -1
            };
            let start: int = if side == Color::White {
                1
            } else {
                6
            };
            let along_file = df == 0 && forall|r: int|
                (from.1 < r < to.1 || to.1 < r < from.1) ==> #[trigger] b.at(from.0, r) is None;
            let along_rank = dr == 0 && forall|f: int|
                (from.0 < f < to.0 || to.0 < f < from.0) ==> #[trigger] b.at(f, from.1) is None;
            let along_diagonal = (df == dr || df == -dr) && forall|f: int, r: int|
                (from.0 < f < to.0 || to.0 < f < from.0) && (df == dr ==> r - from.1 == f - from.0)
                    && (df == -dr ==> r - from.1 == from.0 - f) ==> #[trigger] b.at(f, r) is None;
            &&& (fits && -1 <= df <= 1 && -1 <= dr <= 1) ==> can_reach_spec(
                b,
                from,
                to,
                Piece::King,
                capture,
            )
            &&& (fits && (((df == 1 || df == -1) && (dr == 2 || dr == -2)) || ((df == 2 || df
                == -2) && (dr == 1 || dr == -1)))) ==> can_reach_spec(
                b,
                from,
                to,
                Piece::Knight,
                capture,
            )
            &&& (fits && (along_file || along_rank)) ==> can_reach_spec(
                b,
                from,
                to,
                Piece::Rook,
                capture,
            ) && can_reach_spec(b, from, to, Piece::Queen, capture)
            &&& (fits && along_diagonal) ==> can_reach_spec(b, from, to, Piece::Bishop, capture)
                && can_reach_spec(b, from, to, Piece::Queen, capture)
            &&& (!capture && dest is None && df == 0 && dr == dir) ==> can_reach_spec(
                b,
                from,
                to,
                Piece::Pawn,
                capture,
            )
            &&& (!capture && dest is None && df == 0 && from.1 == start && dr == 2 * dir && b.at(
                from.0,
                from.1 + dir,
            ) is None) ==> can_reach_spec(b, from, to, Piece::Pawn, capture)
            &&& (capture && (df == 1 || df == -1) && dr == dir && (fits || b.en_passant == Some(
                to,
            ))) ==> can_reach_spec(b, from, to, Piece::Pawn, capture)
        }),
{
    lemma_path_clear_lines(b, from, to);
    let df = to.0 - from.0;
    let dr = to.1 - from.1;
    if (df == dr || df == -dr) && df != 0 {
        let sf = sign(df);
        let sr = sign(dr);
        if forall|f: int, r: int|
            (from.0 < f < to.0 || to.0 < f < from.0) && (df == dr ==> r - from.1 == f - from.0) && (
            df == -dr ==> r - from.1 == from.0 - f) ==> #[trigger] b.at(f, r) is None {
            assert forall|k: int| 0 < k < abs(df) implies #[trigger] b.at(
                step(from.0, sf, k),
                step(from.1, sr, k),
            ) is None by {
                let f = step(from.0, sf, k);
                let r = step(from.1, sr, k);
                assert(from.0 < f < to.0 || to.0 < f < from.0);
                assert(df == dr ==> r - from.1 == f - from.0);
                assert(df == -dr ==> r - from.1 == from.0 - f);
            }
        }
    }
}

/// The castling rights, side to move and en passant square of a FEN text
/// are those its fields name: `K`, `Q`, `k` and `q` in the third field give
/// White's and Black's kingside and queenside rights (none when the field
/// is absent), `b` in the second field gives Black the move (White
/// otherwise), and a square in the fourth field is the en passant square.
pub proof fn lemma_fen_fields(fen: Seq<char>)
    ensures
        fen_spec(fen) matches FenOutcome::Parsed(b) ==> {
            let fields = fields_from(fen, 0);
            &&& b.white_k == (fields.len() > 2 && fields[2].contains('K'))
            &&& b.white_q == (fields.len() > 2 && fields[2].contains('Q'))
            &&& b.black_k == (fields.len() > 2 && fields[2].contains('k'))
            &&& b.black_q == (fields.len() > 2 && fields[2].contains('q'))
            &&& b.side_to_move == (if fields.len() > 1 && fields[1] == seq!['b'] {
                Color::Black
            } else {
                Color::White
            })
            &&& b.en_passant == (if fields.len() > 3 && fields[3] != seq!['-'] {
                square_of(fields[3])
            } else {
                None
            })
        },
{
    let dash = seq!['-'];
    assert forall|c: char| c != '-' implies !dash.contains(c) by {
        if dash.contains(c) {
            let i = choose|i: int| 0 <= i < dash.len() && dash[i] == c;
            assert(dash[i] == '-');
        }
    }
    if let FenOutcome::Parsed(b) = fen_spec(fen) {
        let fields = fields_from(fen, 0);
        let castling = if fields.len() > 2 {
            fields[2]
        } else {
            dash
        };
        assert(b.white_k == castling.contains('K'));
        assert(b.black_q == castling.contains('q'));
        assert(seq!['w'][0] != seq!['b'][0]);
        assert(seq!['w'] != seq!['b']);
    }
}

/// The opposite of the opposite colour is the colour itself.
pub proof fn lemma_opposite_involutive(c: Color)
    ensures
        opposite(opposite(c)) == c,
        opposite(c) != c,
{
}

/// A move that is played hands the turn to the other side and keeps the
/// position well formed.
pub proof fn lemma_apply_switches_side(b: BoardModel, mv: Move)
    requires
        b.wf(),
        mv.well_formed(),
    ensures
        apply_spec(b, mv) matches Ok(after) ==> after.side_to_move == opposite(b.side_to_move),
{
}

/// Castling, and any king move, takes away both castling rights of the
/// side that made it.
pub proof fn lemma_king_moves_end_castling(b: BoardModel, mv: Move)
    requires
        b.wf(),
        mv.well_formed(),
        mv.piece == Piece::King,
    ensures
        apply_spec(b, mv) matches Ok(after) ==> (if b.side_to_move == Color::White {
            !after.white_k && !after.white_q
        } else {
            !after.black_k && !after.black_q
        }),
{
    if mv.castle is None {
        if let Some((fc, rc)) = mv.dest {
            let dest = (file_of(fc), rank_of(rc));
            let cands = candidates(b, mv, dest);
            if cands.len() == 1 {
                lemma_candidates_from(b, mv, dest, 0);
                assert(is_candidate(b, mv, dest, cands[0].0, cands[0].1));
            }
        }
    }
}

/// Castling rights are only ever lost: a right that holds after a move
/// held before it.
pub proof fn lemma_rights_only_lost(b: BoardModel, mv: Move)
    requires
        b.wf(),
        mv.well_formed(),
    ensures
        apply_spec(b, mv) matches Ok(after) ==> {
            &&& after.white_k ==> b.white_k
            &&& after.white_q ==> b.white_q
            &&& after.black_k ==> b.black_k
            &&& after.black_q ==> b.black_q
        },
{
}

/// After a move other than castling, the en passant square is the one a
/// pawn skipped over by advancing two ranks, and there is none after any
/// other move.
pub proof fn lemma_en_passant_square(b: BoardModel, mv: Move)
    requires
        b.wf(),
        mv.well_formed(),
        mv.castle is None,
        mv.dest is Some,
    ensures
        ({
            let (fc, rc) = mv.dest->0;
            let dest = (file_of(fc), rank_of(rc));
            let from = candidates(b, mv, dest)[0];
            apply_spec(b, mv) matches Ok(after) ==> after.en_passant == if mv.piece == Piece::Pawn
                && abs(dest.1 - from.1) == 2 {
                Some((from.0, (from.1 + dest.1) / 2))
            } else {
                None
            }
        }),
{
    let (fc, rc) = mv.dest->0;
    let dest = (file_of(fc), rank_of(rc));
    if apply_spec(b, mv) is Ok {
        lemma_candidates_from(b, mv, dest, 0);
        let from = candidates(b, mv, dest)[0];
        assert(is_candidate(b, mv, dest, from.0, from.1));
    }
}

/// The movement rule of each kind of piece: a knight jumps two squares one
/// way and one the other; a king steps to a neighbouring square; a bishop,
/// rook or queen moves along a diagonal, a file or a rank over empty
/// squares; a pawn advances one rank towards the other side (two from its
/// starting rank, over an empty square) onto an empty square, or captures
/// one square diagonally ahead. A capture lands on an enemy piece (or, for
/// a pawn, on the en passant square), any other move on an empty square.
pub proof fn lemma_reach_rules(
    b: BoardModel,
    from: (int, int),
    to: (int, int),
    piece: Piece,
    capture: bool,
)
    requires
        b.wf(),
        on_board(from.0, from.1),
        on_board(to.0, to.1),
    ensures
        ({
            let df = to.0 - from.0;
            let dr = to.1 - from.1;
            let side = b.side_to_move;
            let dir: int = if side == Color::White {
                1
            } else {
                -1
            };
            let start: int = if side == Color::White {
                1
            } else {
                6
            };
            can_reach_spec(b, from, to, piece, capture) ==> {
                &&& from != to
                &&& (if capture {
                    (b.at(to.0, to.1) matches Some(o) && o.0 != side) || (piece == Piece::Pawn
                        && b.en_passant == Some(to))
                } else {
                    b.at(to.0, to.1) is None
                })
                &&& (piece == Piece::Knight ==> (abs(df) == 1 && abs(dr) == 2) || (abs(df) == 2
                    && abs(dr) == 1))
                &&& (piece == Piece::King ==> abs(df) <= 1 && abs(dr) <= 1)
                &&& (piece == Piece::Bishop ==> abs(df) == abs(dr) && path_clear(b, from, to))
                &&& (piece == Piece::Rook ==> (df == 0 || dr == 0) && path_clear(b, from, to))
                &&& (piece == Piece::Queen ==> (df == 0 || dr == 0 || abs(df) == abs(dr))
                    && path_clear(b, from, to))
                &&& (piece == Piece::Pawn ==> if capture {
                    abs(df) == 1 && dr == dir
                } else {
                    df == 0 && (dr == dir || (from.1 == start && dr == 2 * dir && b.at(
                        from.0,
                        from.1 + dir,
                    ) is None))
                })
            }
        }),
{
}

/// Squares as pairs of integers.
pub open spec fn squares_model(v: Seq<(u8, u8)>) -> Seq<(int, int)> {
    v.map_values(|p: (u8, u8)| (p.0 as int, p.1 as int))
}

/// The squares whose piece could make `mv` to `dest`, in file-major order.
pub open spec fn candidates(b: BoardModel, mv: Move, dest: (int, int)) -> Seq<(int, int)> {
    candidates_from(b, mv, dest, 0)
}

/// Each square that `candidates_from` lists is on the board and holds a
/// candidate.
pub proof fn lemma_candidates_from(b: BoardModel, mv: Move, dest: (int, int), k: int)
    requires
        0 <= k,
    ensures
        forall|j: int|
            0 <= j < candidates_from(b, mv, dest, k).len() ==> {
                let c = #[trigger] candidates_from(b, mv, dest, k)[j];
                &&& on_board(c.0, c.1)
                &&& is_candidate(b, mv, dest, c.0, c.1)
            },
    decreases 64 - k,
{
    if k < 64 {
        lemma_candidates_from(b, mv, dest, k + 1);
        let rest = candidates_from(b, mv, dest, k + 1);
        if is_candidate(b, mv, dest, k / 8, k % 8) {
            let all = candidates_from(b, mv, dest, k);
            assert forall|j: int| 0 <= j < all.len() implies {
                let c = #[trigger] all[j];
                &&& on_board(c.0, c.1)
                &&& is_candidate(b, mv, dest, c.0, c.1)
            } by {
                if j > 0 {
                    assert(all[j] == rest[j - 1]);
                }
            }
        }
    }
}

/// The message for a move that no piece can make.
pub open spec fn no_piece_message(p: Piece, f: char, r: char) -> Seq<char> {
    "no "@ + piece_name_of(p) + " can reach "@.push(f).push(r) + " from the current position"@
}

/// The message for a move that more than one piece can make.
pub open spec fn ambiguous_message(f: char, r: char, n: nat) -> Seq<char> {
    "move to "@.push(f).push(r) + " is ambiguous between "@ + decimal(n) + " pieces"@
}

/// The result of playing `mv` on `b`: the position after it, or the reason
/// it cannot be played.
pub open spec fn apply_spec(b: BoardModel, mv: Move) -> Result<BoardModel, Seq<char>> {
    match mv.castle {
        Some(c) => castle_spec(b, c),
        None => match mv.dest {
            None => Err("move has no destination square"@),
            Some((fc, rc)) => {
                let dest = (file_of(fc), rank_of(rc));
                let cands = candidates(b, mv, dest);
                if cands.len() == 0 {
                    Err(no_piece_message(mv.piece, fc, rc))
                } else if cands.len() == 1 {
                    Ok(make_move_spec(b, cands[0], dest, mv))
                } else {
                    Err(ambiguous_message(fc, rc, cands.len()))
                }
            },
        },
    }
}

pub open spec fn apply_view(r: Result<(), String>, after: BoardModel) -> Result<BoardModel, Seq<char>> {
    match r {
        Ok(()) => Ok(after),
        Err(e) => Err(e@),
    }
}

impl Board {
    pub open spec fn wf(&self) -> bool {
        self@.wf()
    }

    /// Every board holds 64 squares, and its en passant square (if any) is
    /// on the board.
    #[verifier::type_invariant]
    spec fn inv(self) -> bool {
        &&& self.squares@.len() == 64
        &&& (self.en_passant matches Some((f, r)) ==> f < 8 && r < 8)
    }

    /// What stands on file `f`, rank `r`.
    fn get(&self, f: u8, r: u8) -> (o: Option<Occupant>)
        requires
            self.wf(),
            f < 8,
            r < 8,
        ensures
            o == self@.at(f as int, r as int),
    {
        self.squares[f as usize * 8 + r as usize]
    }

    /// Puts `o` on file `f`, rank `r`.
    fn put(&mut self, f: u8, r: u8, o: Option<Occupant>)
        requires
            old(self).wf(),
            f < 8,
            r < 8,
        ensures
            final(self)@ == old(self)@.put(f as int, r as int, o),
            final(self).wf(),
    {
        self.squares[f as usize * 8 + r as usize] = o;
        assert(self@.squares =~= old(self)@.squares.update(f * 8 + r, o));
    }

    fn path_clear(&self, from: (u8, u8), to: (u8, u8)) -> (b: bool)
        requires
            self.wf(),
            from.0 < 8 && from.1 < 8 && to.0 < 8 && to.1 < 8,
            from != to,
            ({
                let df = to.0 - from.0;
                let dr = to.1 - from.1;
                df == 0 || dr == 0 || abs(df) == abs(dr)
            }),
        ensures
            b == path_clear(self@, (from.0 as int, from.1 as int), (to.0 as int, to.1 as int)),
    {
        let ghost fi = (from.0 as int, from.1 as int);
        let ghost ti = (to.0 as int, to.1 as int);
        let step_f = sign_small(to.0 as i32 - from.0 as i32);
        let step_r = sign_small(to.1 as i32 - from.1 as i32);
        let ghost n: int = if abs(ti.0 - fi.0) > abs(ti.1 - fi.1) {
            abs(ti.0 - fi.0)
        } else {
            abs(ti.1 - fi.1)
        };
        let mut f: i32 = from.0 as i32 + step_f;
        let mut r: i32 = from.1 as i32 + step_r;
        let ghost mut k: int = 1;
        while f != to.0 as i32 || r != to.1 as i32
            invariant
                self.wf(),
                fi == (from.0 as int, from.1 as int),
                ti == (to.0 as int, to.1 as int),
                from.0 < 8 && from.1 < 8 && to.0 < 8 && to.1 < 8,
                fi != ti,
                ti.0 - fi.0 == 0 || ti.1 - fi.1 == 0 || abs(ti.0 - fi.0) == abs(ti.1 - fi.1),
                step_f == sign(ti.0 - fi.0),
                step_r == sign(ti.1 - fi.1),
                n == (if abs(ti.0 - fi.0) > abs(ti.1 - fi.1) {
                    abs(ti.0 - fi.0)
                } else {
                    abs(ti.1 - fi.1)
                }),
                1 <= k <= n,
                f == step(fi.0, step_f as int, k),
                r == step(fi.1, step_r as int, k),
                forall|j: int|
                    0 < j < k ==> (#[trigger] self@.at(step(fi.0, step_f as int, j), step(
                        fi.1,
                        step_r as int,
                        j,
                    ))) is None,
            decreases n - k,
        {
            if self.get(f as u8, r as u8).is_some() {
                return false;
            }
            f += step_f;
            r += step_r;
            proof {
                k = k + 1;
            }
        }
        true
    }

    fn can_reach(&self, from: (u8, u8), to: (u8, u8), piece: Piece, capture: bool) -> (b: bool)
        requires
            self.wf(),
            from.0 < 8 && from.1 < 8 && to.0 < 8 && to.1 < 8,
        ensures
            b == can_reach_spec(
                self@,
                (from.0 as int, from.1 as int),
                (to.0 as int, to.1 as int),
                piece,
                capture,
            ),
    {
        let df = to.0 as i32 - from.0 as i32;
        let dr = to.1 as i32 - from.1 as i32;
        let adf = abs_small(df);
        let adr = abs_small(dr);
        let dest_occupant = self.get(to.0, to.1);
        let side = self.side_to_move;
        match piece {
            Piece::Pawn => {
                let dir: i32 = if side == Color::White {
                    1
                } else {
                    -1
                };
                let start_rank: i32 = if side == Color::White {
                    1
                } else {
                    6
                };
                if capture {
                    if adf != 1 || dr != dir {
                        return false;
                    }
                    let is_enemy = match dest_occupant {
                        Some(o) => o.0 != side,
                        None => false,
                    };
                    let ep = match self.en_passant {
                        Some((f, r)) => f == to.0 && r == to.1,
                        None => false,
                    };
                    is_enemy || ep
                } else {
                    if df != 0 || dest_occupant.is_some() {
                        return false;
                    }
                    if dr == dir {
                        return true;
                    }
                    if from.1 as i32 == start_rank && dr == 2 * dir {
                        let mid_rank = (from.1 as i32 + dir) as u8;
                        return self.get(from.0, mid_rank).is_none();
                    }
                    false
                }
            },
            Piece::Knight => {
                (adf == 1 && adr == 2 || adf == 2 && adr == 1) && dest_ok(
                    dest_occupant,
                    capture,
                    side,
                )
            },
            Piece::King => {
                adf <= 1 && adr <= 1 && (df != 0 || dr != 0) && dest_ok(
                    dest_occupant,
                    capture,
                    side,
                )
            },
            Piece::Bishop => {
                adf == adr && df != 0 && self.path_clear(from, to) && dest_ok(
                    dest_occupant,
                    capture,
                    side,
                )
            },
            Piece::Rook => {
                (df == 0) != (dr == 0) && self.path_clear(from, to) && dest_ok(
                    dest_occupant,
                    capture,
                    side,
                )
            },
            Piece::Queen => {
                ((df == 0) != (dr == 0) || (adf == adr && df != 0)) && self.path_clear(from, to)
                    && dest_ok(dest_occupant, capture, side)
            },
        }
    }

    fn update_castling_rights(&mut self, from: (u8, u8), moving: Occupant)
        requires
            old(self).wf(),
        ensures
            final(self).wf(),
            final(self)@ == rights_after_move(old(self)@, (from.0 as int, from.1 as int), moving),
    {
        match (moving.0, moving.1) {
            (Color::White, Piece::King) => {
                self.castling.white_k = false;
                self.castling.white_q = false;
            },
            (Color::Black, Piece::King) => {
                self.castling.black_k = false;
                self.castling.black_q = false;
            },
            (Color::White, Piece::Rook) => {
                if from.0 == 0 && from.1 == 0 {
                    self.castling.white_q = false;
                } else if from.0 == 7 && from.1 == 0 {
                    self.castling.white_k = false;
                }
            },
            (Color::Black, Piece::Rook) => {
                if from.0 == 0 && from.1 == 7 {
                    self.castling.black_q = false;
                } else if from.0 == 7 && from.1 == 7 {
                    self.castling.black_k = false;
                }
            },
            _ => {},
        }
    }

    fn update_castling_rights_on_capture(&mut self, at: (u8, u8))
        requires
            old(self).wf(),
        ensures
            final(self).wf(),
            final(self)@ == rights_after_capture(old(self)@, (at.0 as int, at.1 as int)),
    {
        if at.0 == 0 && at.1 == 0 {
            self.castling.white_q = false;
        } else if at.0 == 7 && at.1 == 0 {
            self.castling.white_k = false;
        } else if at.0 == 0 && at.1 == 7 {
            self.castling.black_q = false;
        } else if at.0 == 7 && at.1 == 7 {
            self.castling.black_k = false;
        }
    }

    fn make_move(&mut self, from: (u8, u8), to: (u8, u8), mv: &Move) -> (r: Result<(), String>)
        requires
            old(self).wf(),
            from.0 < 8 && from.1 < 8 && to.0 < 8 && to.1 < 8,
            old(self)@.at(from.0 as int, from.1 as int) is Some,
        ensures
            r is Ok,
            final(self).wf(),
            final(self)@ == make_move_spec(
                old(self)@,
                (from.0 as int, from.1 as int),
                (to.0 as int, to.1 as int),
                *mv,
            ),
    {
        let moving = match self.get(from.0, from.1) {
            Some(o) => o,
            None => return Err("internal error: candidate square has no piece".to_owned()),
        };
        if moving.1 == Piece::Pawn && mv.capture && self.get(to.0, to.1).is_none() {
            // En passant: the captured pawn sits beside the mover, on the
            // mover's own departure rank, not on the destination square.
            self.put(to.0, from.1, None);
        }
        self.put(from.0, from.1, None);
        let placed = match mv.promotion {
            Some(p) => (moving.0, p),
            None => moving,
        };
        self.put(to.0, to.1, Some(placed));
        self.update_castling_rights(from, moving);
        self.update_castling_rights_on_capture(to);
        let d = abs_small(to.1 as i32 - from.1 as i32);
        self.en_passant = if moving.1 == Piece::Pawn && d == 2 {
            Some((from.0, ((from.1 as u32 + to.1 as u32) / 2) as u8))
        } else {
            None
        };
        self.side_to_move = self.side_to_move.other();
        Ok(())
    }

    fn apply_castle(&mut self, castle: Castle) -> (r: Result<(), String>)
        requires
            old(self).wf(),
        ensures
            final(self).wf(),
            apply_view(r, final(self)@) == castle_spec(old(self)@, castle),
            r is Err ==> final(self)@ == old(self)@,
    {
        let white = self.side_to_move == Color::White;
        let rank: u8 = if white {
            0
        } else {
            7
        };
        let allowed = match (self.side_to_move, castle) {
            (Color::White, Castle::Kingside) => self.castling.white_k,
            (Color::White, Castle::Queenside) => self.castling.white_q,
            (Color::Black, Castle::Kingside) => self.castling.black_k,
            (Color::Black, Castle::Queenside) => self.castling.black_q,
        };
        if !allowed {
            return Err(
                concat3("castling rights for ", castle_label(castle), "-side castling are not available"),
            );
        }
        let (king_to, rook_from, rook_to): (u8, u8, u8) = match castle {
            Castle::Kingside => (6, 7, 5),
            Castle::Queenside => (2, 0, 3),
        };
        let blocker: Option<u8> = match castle {
            Castle::Kingside => if self.get(5, rank).is_some() {
                Some(5)
            } else if self.get(6, rank).is_some() {
                Some(6)
            } else {
                None
            },
            Castle::Queenside => if self.get(1, rank).is_some() {
                Some(1)
            } else if self.get(2, rank).is_some() {
                Some(2)
            } else if self.get(3, rank).is_some() {
                Some(3)
            } else {
                None
            },
        };
        if let Some(f) = blocker {
            let mut msg = "castling is blocked: ".to_owned();
            push_char(&mut msg, file_letter(f));
            push_char(
                &mut msg,
                if rank == 0 {
                    '1'
                } else {
                    '8'
                },
            );
            msg.append(" is occupied");
            return Err(msg);
        }
        // Only the mover's own king and rook, on their home squares, castle.
        let side = self.side_to_move;
        let king_ok = match self.get(4, rank) {
            Some(o) => o.0 == side && o.1 == Piece::King,
            None => false,
        };
        if !king_ok {
            return Err("no king on its home square to castle".to_owned());
        }
        let rook_ok = match self.get(rook_from, rank) {
            Some(o) => o.0 == side && o.1 == Piece::Rook,
            None => false,
        };
        if !rook_ok {
            return Err("no rook on its home square to castle".to_owned());
        }
        let king: Occupant = (side, Piece::King);
        let rook: Occupant = (side, Piece::Rook);
        self.put(4, rank, None);
        self.put(rook_from, rank, None);
        self.put(king_to, rank, Some(king));
        self.put(rook_to, rank, Some(rook));
        if white {
            self.castling.white_k = false;
            self.castling.white_q = false;
        } else {
            self.castling.black_k = false;
            self.castling.black_q = false;
        }
        self.en_passant = None;
        self.side_to_move = self.side_to_move.other();
        Ok(())
    }

    /// The squares whose piece could make `mv` to `dest`, in file-major
    /// order.
    #[verifier::spinoff_prover]
    fn find_candidates(&self, mv: &Move, dest: (u8, u8)) -> (cands: Vec<(u8, u8)>)
        requires
            self.wf(),
            mv.well_formed(),
            dest.0 < 8 && dest.1 < 8,
        ensures
            squares_model(cands@) == candidates(self@, *mv, (dest.0 as int, dest.1 as int)),
            forall|j: int| 0 <= j < cands@.len() ==> (#[trigger] cands@[j]).0 < 8 && cands@[j].1 < 8,
    {
        let ghost d = (dest.0 as int, dest.1 as int);
        let mut cands: Vec<(u8, u8)> = Vec::new();
        let mut k: u8 = 0;
        while k < 64
            invariant
                self.wf(),
                mv.well_formed(),
                dest.0 < 8 && dest.1 < 8,
                d == (dest.0 as int, dest.1 as int),
                k <= 64,
                squares_model(cands@) + candidates_from(self@, *mv, d, k as int) == candidates(
                    self@,
                    *mv,
                    d,
                ),
                forall|j: int| 0 <= j < cands@.len() ==> (#[trigger] cands@[j]).0 < 8 && cands@[j].1 < 8,
            decreases 64 - k,
        {
            let file = k / 8;
            let rank = k % 8;
            let ok = match self.get(file, rank) {
                Some(occ) => {
                    if occ.0 != self.side_to_move || occ.1 != mv.piece {
                        false
                    } else if match mv.disambig_file {
                        Some(df) => file != file_index(df),
                        None => false,
                    } {
                        false
                    } else if match mv.disambig_rank {
                        Some(dr) => rank != rank_index(dr),
                        None => false,
                    } {
                        false
                    } else {
                        self.can_reach((file, rank), dest, mv.piece, mv.capture)
                    }
                },
                None => false,
            };
            assert(ok == is_candidate(self@, *mv, d, k as int / 8, k as int % 8));
            let ghost before = cands@;
            if ok {
                cands.push((file, rank));
                assert(squares_model(cands@) =~= squares_model(before).push((k as int / 8, k as int % 8)));
            }
            k += 1;
        }
        cands
    }

    /// Apply a parsed move to the board. On success the board reflects the
    /// position after the move and it becomes the other side's turn. On
    /// failure the board is left unchanged.
    pub fn apply(&mut self, mv: &Move) -> (r: Result<(), String>)
        requires
            mv.well_formed(),
        ensures
            final(self).wf(),
            apply_view(r, final(self)@) == apply_spec(old(self)@, *mv),
            r is Err ==> final(self)@ == old(self)@,
    {
        proof {
            use_type_invariant(&*self);
        }
        if let Some(castle) = mv.castle {
            return self.apply_castle(castle);
        }
        let (dest_file_c, dest_rank_c) = match mv.dest {
            Some(d) => d,
            None => return Err("move has no destination square".to_owned()),
        };
        let dest = (file_index(dest_file_c), rank_index(dest_rank_c));
        let found = self.find_candidates(mv, dest);
        let n = found.len();
        if n == 0 {
            let mut msg = "no ".to_owned();
            msg.append(piece_name(mv.piece));
            msg.append(" can reach ");
            push_char(&mut msg, dest_file_c);
            push_char(&mut msg, dest_rank_c);
            msg.append(" from the current position");
            assert(msg@ =~= no_piece_message(mv.piece, dest_file_c, dest_rank_c));
            Err(msg)
        } else if n == 1 {
            let from = found[0];
            assert(squares_model(found@)[0] == (from.0 as int, from.1 as int));
            proof {
                lemma_candidates_from(old(self)@, *mv, (dest.0 as int, dest.1 as int), 0);
                assert(candidates(old(self)@, *mv, (dest.0 as int, dest.1 as int))[0] == (
                    from.0 as int,
                    from.1 as int,
                ));
            }
            self.make_move(from, dest, mv)
        } else {
            let mut msg = "move to ".to_owned();
            push_char(&mut msg, dest_file_c);
            push_char(&mut msg, dest_rank_c);
            msg.append(" is ambiguous between ");
            push_decimal(&mut msg, n);
            msg.append(" pieces");
            assert(msg@ =~= ambiguous_message(dest_file_c, dest_rank_c, n as nat));
            Err(msg)
        }
    }

    /// The standard starting position.
    pub fn start_position() -> (b: Board)
        ensures
            b.wf(),
            b@ == start_model(),
    {
        let mut squares: Vec<Option<Occupant>> = Vec::new();
        let mut k: u8 = 0;
        while k < 64
            invariant
                k <= 64,
                squares@.len() == k,
                forall|j: int| 0 <= j < k ==> #[trigger] squares@[j] == start_square(j / 8, j % 8),
            decreases 64 - k,
        {
            squares.push(start_square_of(k / 8, k % 8));
            k += 1;
        }
        let b = Board {
            squares,
            side_to_move: Color::White,
            castling: CastleRights { white_k: true, white_q: true, black_k: true, black_q: true },
            en_passant: None,
        };
        assert(b@.squares =~= start_model().squares);
        b
    }

    /// Reads a position from FEN text: piece placement, then optionally the
    /// side to move, castling rights and en passant square.
    pub fn from_fen(fen: &str) -> (r: Result<Board, String>)
        ensures
            r matches Ok(b) ==> b.wf() && fen_spec(fen@) == FenOutcome::Parsed(b@),
            r matches Err(e) ==> fen_spec(fen@) == FenOutcome::Rejected(e@),
    {
        let cs = chars_of(fen);
        let fields = split_fields(&cs);
        let ghost fm = fields_from(cs@, 0);
        if fields.len() == 0 {
            return Err("FEN is missing a piece placement field".to_owned());
        }
        assert(ranges_model(cs@, fields@)[0] == fm[0]);
        let placement = sub_chars(&cs, fields[0].0, fields[0].1);
        let side = if fields.len() > 1 {
            assert(ranges_model(cs@, fields@)[1] == fm[1]);
            sub_chars(&cs, fields[1].0, fields[1].1)
        } else {
            let v = vec!['w'];
            assert(v@ =~= seq!['w']);
            v
        };
        let castling = if fields.len() > 2 {
            assert(ranges_model(cs@, fields@)[2] == fm[2]);
            sub_chars(&cs, fields[2].0, fields[2].1)
        } else {
            let v = vec!['-'];
            assert(v@ =~= seq!['-']);
            v
        };
        let ep = if fields.len() > 3 {
            assert(ranges_model(cs@, fields@)[3] == fm[3]);
            sub_chars(&cs, fields[3].0, fields[3].1)
        } else {
            let v = vec!['-'];
            assert(v@ =~= seq!['-']);
            v
        };
        let ranks = split_on(&placement, '/');
        let ghost rm = split_from(placement@, 0, '/');
        if ranks.len() != 8 {
            let mut msg = "FEN placement has ".to_owned();
            push_decimal(&mut msg, ranks.len());
            msg.append(" ranks, expected 8");
            return Err(msg);
        }
        let mut squares: Vec<Option<Occupant>> = Vec::new();
        let mut k: u8 = 0;
        while k < 64
            invariant
                k <= 64,
                squares@.len() == k,
                forall|j: int| 0 <= j < k ==> #[trigger] squares@[j] == None::<Occupant>,
            decreases 64 - k,
        {
            squares.push(None);
            k += 1;
        }
        assert(squares@ =~= empty_squares());
        let ghost goal = place_ranks(rm, 0, empty_squares());
        assert(goal is Failed ==> fen_spec(fen@) == FenOutcome::Rejected(goal->Failed_0));
        let mut i: usize = 0;
        while i < 8
            invariant
                i <= 8,
                ranks@.len() == 8,
                rm == split_from(placement@, 0, '/'),
                ranges_model(placement@, ranks@) == rm,
                forall|k: int| 0 <= k < ranks@.len() ==> (#[trigger] ranks@[k]).0 <= ranks@[k].1 <= placement@.len(),
                squares@.len() == 64,
                place_ranks(rm, i as int, squares@) == goal,
                goal is Failed ==> fen_spec(fen@) == FenOutcome::Rejected(goal->Failed_0),
            decreases 8 - i,
        {
            let (a, b) = ranks[i];
            let rs = sub_chars(&placement, a, b);
            assert(rs@ == rm[i as int]);
            let rank = (7 - i) as u8;
            let file = match read_rank(&rs, rank, &mut squares) {
                Ok(f) => f,
                Err(e) => return Err(e),
            };
            if file != 8 {
                let msg = concat3("FEN rank '", string_from(&rs, 0, rs.len()).as_str(), "' does not cover all 8 files");
                assert(rs@.subrange(0, rs@.len() as int) =~= rs@);
                return Err(msg);
            }
            i += 1;
        }
        let w = vec!['w'];
        let bl = vec!['b'];
        let dash = vec!['-'];
        assert(w@ =~= seq!['w']);
        assert(bl@ =~= seq!['b']);
        assert(dash@ =~= seq!['-']);
        let side_to_move = if same_chars(&side, &w) {
            Color::White
        } else if same_chars(&side, &bl) {
            Color::Black
        } else {
            let msg = concat3("'", string_from(&side, 0, side.len()).as_str(), "' is not a valid FEN side to move");
            assert(side@.subrange(0, side@.len() as int) =~= side@);
            return Err(msg);
        };
        assert(castling@.subrange(0, castling@.len() as int) =~= castling@);
        let rights = CastleRights {
            white_k: contains_between(&castling, 0, castling.len(), 'K'),
            white_q: contains_between(&castling, 0, castling.len(), 'Q'),
            black_k: contains_between(&castling, 0, castling.len(), 'k'),
            black_q: contains_between(&castling, 0, castling.len(), 'q'),
        };
        let en_passant = if same_chars(&ep, &dash) {
            None
        } else {
            match square_from_chars(&ep) {
                Some(sq) => Some(sq),
                None => {
                    let msg = concat3("'", string_from(&ep, 0, ep.len()).as_str(), "' is not a valid FEN en passant square");
                    assert(ep@.subrange(0, ep@.len() as int) =~= ep@);
                    return Err(msg);
                },
            }
        };
        Ok(Board { squares, side_to_move, castling: rights, en_passant })
    }

    /// What stands on the square named by `square` (such as `e4`); `None`
    /// for an empty square or a name that is not a square.
    pub fn piece_at(&self, square: &str) -> (o: Option<(Color, Piece)>)
        ensures
            o == match square_of(square@) {
                Some((f, r)) => self@.at(f, r),
                None => None,
            },
    {
        proof {
            use_type_invariant(self);
        }
        let (file, rank) = square_from_str(square)?;
        self.get(file, rank)
    }

    pub fn side_to_move(&self) -> (c: Color)
        ensures
            c == self@.side_to_move,
    {
        self.side_to_move
    }
}

} // verus!
