# swap_and_match

A verified engine for swap-and-match puzzle games: a board of pieces with barriers between
spaces, gravity that lets pieces fall and slide into empty space, and a match board that
finds matches of user-given patterns and the moves that would complete one.

The library is written in Verus. Every function in `src/` carries a contract that Verus
proves, except the trusted wrappers around outside code, whose contracts are taken as
given: those around the `bitvec` bit-vector in `src/bitboard.rs` (`Bits` and its
`repeat_bits`, `clone_bits`, `bit_at`, `set_bit`, `swap_bits`), `first_of` around
`BTreeSet::first` in `src/board/gravity.rs`, and `push_char` around `String::push` in
`src/text.rs`.

## Layout

- `src/position.rs`: positions and columns on a board of fixed size, with checked
  addition and subtraction.
- `src/board.rs`: the board state (pieces and barriers), reading and writing pieces,
  barriers, the surface of a column and gravity in one column. The laws of swapping and
  writing pieces stand here as proof functions.
- `src/board/gravity.rs`: gravity on the whole board, with its air bookkeeping.
- `src/matching.rs`: match patterns, matches and match moves.
- `src/match_board.rs`: the match board, which keeps the matches of the current board.
- `src/match_board/moves.rs`: the moves that complete a match.
- `src/piece.rs`: a ready-made piece type with the directions it may move in.
- `src/bitboard.rs`: a board of bits, kept in a `bitvec` bit-vector.
- `tests/`: tests of the library.
- `app/`: serialization (serde) and display for the library's types.
