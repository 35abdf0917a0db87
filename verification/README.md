# puzzle_solver

An 8-puzzle solver whose behaviour is specified and proved with Verus.

- `src/board.rs` — the 3x3 board, its key, the moves of the blank, the
  Manhattan distance, the inversion-parity test, and the lemmas about them
  (moves change the distance by at most one, keep the parity of a
  permutation, exchanging two tiles flips it, and the distance never
  exceeds the moves needed).
- `src/reach.rs` — which positions can be played to the solved board:
  walks of the blank rotate three consecutive cells, and those rotations
  sort every permutation with an even number of inversions, so a
  permutation is solvable exactly when its inversions are even.
- `src/search.rs` — A* search nodes, the solver state (open set, closed set,
  node store, best costs), path reconstruction and `solve_astar`, proved to
  return a shortest sequence of moves to `1 2 3 / 4 5 6 / 7 8 _`, or `None`
  exactly when no sequence of moves gets there.
- `src/heap.rs` — the open set as a binary heap: pushing and taking the
  root keep the heap order and the multiset of nodes, and the root is
  never preceded by another node.
- `src/parse.rs` — reading a board from nine digits, with the error message
  of the first rule broken; it accepts exactly the permutations of `0`–`8`.
- `src/format.rs` — grouping a numeral in threes with commas.
- `src/text.rs` — trimming, decimal numerals and character lists.
- `app/main.rs` — the command-line program.
- `tests/` — the tests.
