# quantik_core

Quantik is a board game for two players on a four by four board. This crate holds its
rules, three search engines, opening books, and the records and reports with which engines
are compared. The library under `src/` is verified with Verus: each function states in its
contract what it returns, and the laws that relate functions are public proof functions
whose names begin with `law_`.

- `bitboard`, `moves`, `game`, `board`, `qfen`, `state`, `symmetry`, `invariance`: boards,
  rules, texts, and the canonical form of a board under symmetry.
- `game_value`, `evaluation`, `minimax`, `mcts`, `beam_search`, `search_telemetry`: the value
  of a position and the engines that look for it. `minimax_trace`, `mcts_trace` and
  `beam_trace` say what a search visits, how a search tree grows and what the levels of a
  beam search keep; `rng` names the draws on which the playouts rest.
- `clock`: time limits, and what a clock may have said of them.
- `book`: exploration of positions, selective search, and solved positions.
- `bench`: JSON values, contract rows, datasets, runs, checkpoints and reports.
- `api`: requests for a move and their answers.

Scores are whole numbers and values are ratios; floating-point numbers in JSON are kept as
texts in scientific notation. What needs floating point, files, a database or the network
stands in `app/`, which drives the library.
