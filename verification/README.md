# Roxie core, verified

A chess engine core in Rust whose behaviour is stated in `requires` /
`ensures` contracts and proved with Verus.

## Layout

- `src/` — the verified library (crate `lib`):
  - `bits`, `attacks`, `magics`, `square`: bitboards, leaper attack sets,
    slider rays, square coordinates.
  - `items`, `board`: pieces, moves, castling rights, the board with its
    mailbox/bitboard invariant, FEN parsing, making and taking back moves.
  - `movegen`, `perft`, `position`: legal move generation, the `sane`
    position invariant kept by every legal move, check detection, Zobrist keys.
  - `see`, `evaluation`, `network`: static exchange evaluation, the
    hand-written evaluation (PeSTO, mobility, pawns, king safety) and the
    NNUE network with its incrementally updated accumulators; `symmetry`:
    swapping the colours and mirroring the ranks negates the mobility and
    king safety scores.
  - `tt`, `engine`, `move_pick`, `search`: transposition table, history
    heuristics, staged move picking, alpha-beta search with iterative
    deepening.
  - `uci`, `render`, `clock`, `text`, `zobrist`, `consts`: command parsing,
    board drawing, the wall clock, string building, key generation.
- `tests/` — tests run against the compiled library.
- `app/` — the UCI program: standard input, threads, printing, the network
  file and the floating-point late-move-reduction table.
