# sanlint

Checks that chess moves in PGN movetext are written in valid SAN, and plays
them on a board from the standard starting position to catch moves that no
piece could make. The library is verified with Verus.

- `src/san.rs` — the SAN grammar (`spec_parse`) and the parser proved
  against it; error messages.
- `src/pgn.rs` — the movetext tokenizer (`spec_tokenize`), move-number
  stripping, results and annotation glyphs.
- `src/board.rs` — the board model (`BoardModel`), FEN reading
  (`fen_spec`), the movement rules and `apply` (`apply_spec`).
- `src/lint.rs` — checking a whole text: syntax, then the board.
- `src/text.rs` — character and string helpers.
- `app/main.rs` — the command-line tool: arguments, reading the input,
  printing the report.

Lenient mode also accepts `:` for `x`, a `P` or lowercase piece letter, a lowercase promotion
letter, `0-0` castling and an `e.p.`/`ep` marker; a leading lowercase `b`
is read as a b-file pawn move first and as a bishop move only where that
reading fails for another reason than a missing promotion (so `bxa8` is
still a missing promotion). Castling needs the side's own king on the e-file and its own
rook in the corner, with the right still held and the squares between empty.

Usage: `sanlint [--lenient] [FILE]`; reads stdin when no file is given.
