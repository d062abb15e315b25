# flipull

A verified search for high scores in the arcade puzzle Plotting (Flipull), written in
Verus.

- `src/board.rs`: the round state `BoardState` and its mathematical view `BoardModel`.
- `src/grid.rs`: squares of the grid, blocks falling when one is cleared, block counts.
- `src/throw.rs`: the path of a throw and when a throw is legal (`is_legal_move`).
- `src/play.rs`: what a move does (`make_move`), and the laws about it.
- `src/search.rs`: the order in which moves are tried and the depth-first search
  (`SolutionFinder::find_best_solution`), with the proof that it finds the best score
  among the moves it tries (one move per target, nearest the previous one first).
- `src/openings.rs`: the distinct first moves searched in parallel, and picking the best result.
- `src/level.rs`: reading a level file.
- `src/render.rs`: the text that shows a board.
- `src/checks.rs`: run-time checks of the preconditions, for callers outside Verus.
- `src/text.rs`: decimal numbers in strings.
- `app/main.rs`: the program: reads `plottinga_levels.txt`, searches every round on
  threads, writes `PlottingOutput.txt`.
