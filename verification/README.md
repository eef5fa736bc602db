# sudoku

A sudoku solver written in Verus. Each cell keeps the set of digits (1 to 9) it may
still take; units (squares, rows, columns) take their known values away from their other
cells; when nothing changes any more, the search guesses on the first cell with the fewest candidates
and searches each guess in turn.

Layout of `src/`:

- `cell.rs`: the error type, the digit helpers, and `cell` with its candidate set.
- `board.rs`: the abstract view of the grid (a candidate set per cell), the units, and the
  specifications of reductions, validity, puzzles, guesses and solutions.
- `units.rs`: cell lists, squares and lines, and the `Solver` trait they implement.
- `grid.rs`: the grid: set-up, filling, validation, reduction passes, puzzles, guesses.
- `solver.rs`: the search, specified exactly by `search`, and proved sound and complete.
- `lemmas.rs`, `laws.rs`: the facts the search rests on and the properties of the library.
