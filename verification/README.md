# aquarii

A chess engine whose rules and evaluation are a verified Verus library.

- `src/types`: squares, pieces, colors and bitboards.
- `src/chess`: attack sets, moves, castling, the board with FEN reading and writing, move
  generation, static exchange evaluation and direct checks. `fen_round_trip` proves that
  reading the FEN a position writes gives the position back (`laws::law_fen_round_trip`).
- `src/eval`: the tapered evaluation over integer score pairs, with its tuned tables.
- `src/policy.rs`: the move ordering policy, generic over the weights' value type.
- `src/search.rs`: the decisions of the tree search that need no floating point: game
  results, proven mates and the stopping rules.
- `src/history.rs`, `src/tune.rs`, `src/uci.rs`, `src/text.rs`: history scores, the layout
  of tunable parameters, resolving UCI move names, and text helpers.
- `src/laws.rs`: properties that relate several functions.
- `app/`: the UCI program, the Monte Carlo tree search with its floating-point statistics,
  the policy weights, and self-play data generation.
