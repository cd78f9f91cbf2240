# shatranj

A move generator for shatranj, the old Persian form of chess (alfil, ferz,
one-step pawns that promote to a ferz), written in Verus and proved against
its specifications.

## Layout

- `src/core_types.rs` – colors, piece types, pieces, directions, squares.
- `src/bitboard.rs` – 64-bit boards with their operations, shifts, bit
  counting and the walk over their squares.
- `src/attacks.rs`, `src/rays.rs` – the squares each piece attacks, and the
  squares between and past two squares on a line.
- `src/shatranjmove.rs` – a move packed in 16 bits.
- `src/keys.rs` – the Zobrist keys, drawn from a small generator.
- `src/position.rs` – the position: board, bitboards, checks, pins, threats,
  key and counters; legality of a move, making a move.
- `src/movegen.rs` – generation of all legal moves into a fixed-capacity
  list (`arrayvec`).
- `src/legality.rs` – a legal move never leaves the mover's king attacked.
- `src/fen.rs`, `src/roundtrip.rs` – reading and writing FEN, and the proof
  that a written position reads back as itself.
- `src/builder.rs` – setting up a position piece by piece.
- `src/outcome.rs` – the outcome of a game.
- `src/perft.rs` – counting the leaves of the tree of legal moves.
- `src/play.rs` – the positions that play reaches from the start position
  or a FEN record, and what holds of them.
- `app/lib.rs` – printing a perft split with its timing.
