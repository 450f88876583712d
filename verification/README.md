# rs-sudoku

Sudoku with technique-based grading, written in Verus: the rules of the board, the
solver, the grader, the puzzle generator and the game in play are a library whose
behaviour is stated in contracts and proved. A desktop application around it paints the
window and does the input and output.

## Layout

- `src/` is the verified library.
  - `mask`, `geometry`, `seqs`, `combos`: sets of digits as bits, rows, columns, boxes and
    peers, facts about lists, combinations.
  - `board`: the board, brute-force solving and counting of solutions.
  - `grid`, `solver`: the model of a grid under solution, and its representation.
  - `singles`, `spots`, `locked`, `subsets`, `fish`, `chains`, `kites`, `wings`,
    `rectangle`, `bifurcation`: the techniques; `subset_laws`, `chain_laws` and
    `wing_laws`: what holds of them.
  - `difficulty`, `grade`, `grade_laws`: the tiers, the rating, and what a rating means.
  - `random`, `generator`: random full grids and the dig for a puzzle.
  - `settings`, `theme`, `text`, `game`, `screens`, `replay`, `export`: the game, what the
    screens show, the log and its export; `game_laws` and `replay_laws`: undo and replay.
- `tests/` runs the library on concrete values.
- `app/` is the desktop application: the window, sounds, files, the clipboard and the
  thread that makes puzzles. Its window is an `eframe` one; `Cargo.toml` lists what the
  library, the tests and the rest of the application need, and leaves `eframe`, which
  brings a whole graphics stack, to whoever builds the window.

## What is proved

- `Board::solve` leaves the first completion in reading order, and `count_solutions` counts
  completions up to two.
- Every technique is a function of the grid, never makes digits clash, never undoes a
  deduction and keeps every solution; the unique rectangle, which takes it for granted that
  there is just one, keeps that one. A trial of a grid with a solution never fails.
- The rating is the hardest tier of the steps that fill the grid. A board rated below
  Ultimate is solved by those steps, one rated below Evil has just one solution, and Easy
  are exactly the boards that naked and hidden singles fill. A run on a board with one
  solution keeps that solution to its end.
- A generated puzzle has its solution as its only one and is not harder than its target;
  to take any further given away would break the one or the other. It is dug, pass by pass,
  out of the first completion of a seeding of the diagonal boxes, or of the empty board
  should the seeding have none.
- Undo takes back what entering a number or clearing a cell did, to the last pencil mark;
  a note that is entered twice brings the grid back.
- The log of a session replays to its digits and its notes: both follow from the givens and
  the moves, among which are those that switch smart notes.
