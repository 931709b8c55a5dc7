# chess_engine

A bitboard chess engine whose core is verified with Verus: board
representation, move generation, making and taking back moves, legality,
evaluation, alpha-beta search with a transposition table, FEN reading and
writing, and Zobrist hashing. A thin program around it plays on Lichess.

## Layout

- `src/` — the verified library.
  - `position.rs`, `make_unmake.rs` — the mathematical position and what a
    move does to it; taking a move back restores the position.
  - `movegen.rs`, `legality.rs`, `legal_moves.rs` — pseudo-legal and legal
    move generation, check, checkmate and stalemate, move ordering.
  - `evaluation.rs`, `search.rs` — material and square tables, the
    alpha-beta search and iterative deepening.
  - `fen.rs`, `fen_round_trip.rs` — reading and writing FEN, and reading back
    what was written.
  - `minimax_value.rs` — the plain minimax value, and the alpha-beta search
    returning it from an empty table at small depths.
  - `hashing.rs` — the hash computed from scratch, kept equal by every move.
  - `laws.rs` — round trips between text forms and values.
  - `bot.rs` — the Lichess bot's decisions: which challenges it accepts,
    and what it does on each event of a game (wait, report, play, stop).
  - `playability.rs` — run-time checks of what the engine requires of a
    game (correct tables, a consistent board, a playable position).
  - `rays.rs` — slider rays; a slider's attacks depend only on the
    occupancy inside its relevance mask.
  - `clock.rs`, `text.rs`, `runtime_calculated_constants.rs` — the few calls
    into the standard library and `rand`, each behind a stated contract.
- `tests/` — tests on concrete positions.
- `app/` — the network streams, JSON parsing, environment and terminal
  I/O around the library; it hands each game event to `next_action` and
  carries out the action returned.
