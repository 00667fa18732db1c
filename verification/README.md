# bobot

A small Go engine core on a 13×13 board, written in Verus: every function of the
library carries a contract that Verus proves.

## Layout

- `src/bitboard.rs`: `Bitboard16`, a 16×16 set of cells kept as sixteen `u16` rows.
  Its view is a `Set<(int, int)>`; shifts, dilation, flood fill, groups, iteration
  and the ASCII form are specified over that set (`dilation`, `flood`, `groups`,
  `cells`, `marks`), with laws such as distributivity and idempotence of the flood
  fill and symmetry under transposition.
- `src/ascii.rs`: the text layout shared by bitboards and boards, and the parser's
  model of it (`ascii_text`, `marked_cells`).
- `src/board.rs`: `Board`, a valid position (no overlap, no stones off the board, no
  group without liberties) with its Zobrist hash. Playing a stone, legal moves, random
  play, area scoring and the ASCII form are specified over `play_outcome`,
  `legal_cells`, `score_of` and `ascii_board_result`.
- `src/color.rs`: `Color` and `ColorMap`, a pair indexed by color.
- `src/zobrist.rs`, `src/util.rs`: Zobrist hashes and the `Splitmix64` generator
  that fills their tables.
- `src/random.rs`: the calls into `rand`, the only outside code the library trusts
  besides `bit-iter` and a few conversions of `std`.
- `app/main.rs`: a small web server (axum, tokio) that plays against a browser; it
  only does I/O around the library.
- `tests/`: examples and concrete checks of the laws.
