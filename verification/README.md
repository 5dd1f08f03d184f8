# swift_swallow_tree_search

Game-tree search with machine-checked contracts, written in Verus.

- `src/game.rs` — the `GameState` interface the searches drive (moves are
  `u64` handles, chains of forced moves are finite, scores lie within
  `[-INF, INF]`), and
  `TableGame`, a finite game given as an explicit table of positions.
- `src/pvs.rs` — principal variation search with one-reply extensions,
  internal iterative deepening, late move reductions and a history heuristic
  trained by ridge regression. `search` is proved to compute exactly the
  recursive specification `pvs_spec`, with bounded scores. It asks only
  that the weights it can update (those of the legal moves of the positions
  it can reach with depth left, and of the moves of the line it tries
  first) lie within the bound that keeps their update inside `i32` at their
  node, and a depth of at most `MAX_DEPTH`; other weights are never read or
  changed. One ply
  deep with the full window, that specification is the negamax value, and
  the principal variation it stores is always a legal line.
- `src/mcts.rs` — the flattened tree of Monte Carlo Tree Search: expansion,
  most-visited child, principal variation, and the mark-and-sweep compaction
  behind pruning and rerooting, proved to keep the tree well formed and each
  move's visit count equal to the total visits of the nodes it reaches, and
  the budget arithmetic of timed searches.
- `src/sarsa.rs` — the flattened tree of tabular SARSA.
- `src/interner.rs` — stable handles for distinct values, in the order in
  which they were first interned.
- `app/` — the floating-point statistics and policies around the trees
  (running means, the Normal-Inverse-Gamma posterior, ε-greedy and MC-RAVE
  selection, random playouts, timed searches), which Verus does not verify.
- `tests/` — tests on concrete games and trees.
