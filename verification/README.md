# strategy_discovery

A verified library for discovering game strategies from self-play, written in Verus, with
tic-tac-toe as the first game.

- `src/framework/`: the game-facing traits (rules, canonicalization, primitives, strategies),
  symmetry groups, features and text helpers.
- `src/games/tictactoe/`: the board, rules, D4 canonicalizer, structural primitives, features,
  evaluator, benchmark roster and the game bundle.
- `src/discovery/`: sweep configuration and cell enumeration, the match engine, corpus
  expansion, exhaustive solver, annotation, corpus checks and summary counts, the Markdown
  summary section, tournaments against a roster, engine agreement, the dataset builder and its
  manifest counts, CART trees (compared exactly, with no row limit) and decision-list mining
  with per-rule evidence, the candidate thresholds of concept induction, the strategy archive
  index, and stage selection. Games are specified exactly: strategies are deterministic machines
  specified by their implementations, and the seeded random opening draws are named.
- `src/io/`: record schemas, hashing and action replay.
- `tests/`: the test suite, run against the compiled library.
- `app/`: the command-line program around the library: file reading and writing, JSON,
  seeded strategies, floating-point fractions, and concept induction (information-gain
  scoring over the library's dataset, with the library's miner as its probe).

Each public function states its behaviour in `requires` / `ensures`; properties that relate
several functions are public proof functions (`lemma_*`) next to the code they speak of.
