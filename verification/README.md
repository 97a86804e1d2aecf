# pikarust_core

A verified core for a Xiangqi (Chinese chess) engine, written in Verus.

- `src/bitboard`: 90-square bitboards, attack sets, lines and segments.
- `src/position`: positions, FEN, making and taking back moves, legal move
  generation (proved to list only legal moves and, with consistent check
  information, every one of them; once each except under a single check),
  perft, repetition and
  chase rules, threat lists.
- `src/nnue`: network weights, the model file format (LEB128 blocks, zstd
  frames), feature indices, accumulators and the scalar inference path.
- `src/engine`: options, search limits, the engine front (position set-up
  from FEN and UCI moves) and the engine pool's capacity accounting.
- `src/search/time.rs`: the limits a search runs under.
- `app/main.rs`: the UCI front end: arguments, model files, standard input
  and output.
