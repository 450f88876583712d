//! The state of a game and the player's actions.
//!
//! Actions take the milliseconds since the game began, and return the sounds to be
//! played.

use crate::board::{Board, CELLS};
use crate::difficulty;
use crate::difficulty::Difficulty;
use crate::geometry;
use crate::replay;
use crate::replay::{GameSessionReport, Move, MoveRecord};
use crate::seqs;
use crate::settings::{AppTheme, NoteMode, Screen, Settings};
use crate::solver;
use vstd::prelude::*;

verus! {

/// A cell as the player sees it. Notes are sets of digits, one bit for each.
#[derive(Debug, PartialEq, Eq, Clone, Copy, Structural)]
pub struct CellState {
    pub given: bool,
    pub value: u8,
    pub corner_notes: u16,
    pub center_notes: u16,
}

/// What a cell held before an action.
#[derive(Debug, PartialEq, Eq, Clone, Copy, Structural)]
pub struct CellSnapshot {
    pub idx: usize,
    pub value: u8,
    pub corner_notes: u16,
    pub center_notes: u16,
}

/// What an action can be undone with: every cell that it touches, as it was.
pub struct UndoEntry {
    pub cells: Vec<CellSnapshot>,
    pub mistakes_count: usize,
    /// The number of the step that the action is in the log, from 1.
    pub step: usize,
}

/// A sound to be played.
#[derive(Debug, PartialEq, Eq, Clone, Copy, Structural)]
pub enum Cue {
    Click,
    Error,
    Success,
    Tick,
}

/// The application state, apart from what belongs to the machine: clocks, threads,
/// the window and the sound device.
pub struct SudokuApp {
    pub screen: Screen,
    pub options_return_to: Screen,
    /// In a game, smart notes are switched by `apply_options`, which logs it.
    pub settings: Settings,
    pub theme: AppTheme,
    pub difficulty: Difficulty,
    pub note_mode: NoteMode,
    pub selected_cell: Option<usize>,
    pub initial_board: Board,
    pub solution_board: Board,
    pub grid: Vec<CellState>,
    pub started_at_unix_ms: u128,
    pub moves_log: Vec<MoveRecord>,
    pub mistakes_count: usize,
    pub solved: bool,
    pub undo_stack: Vec<UndoEntry>,
    pub generating: bool,
}

// ---- Model ----

/// An undo entry as a value of the model.
#[verifier::ext_equal]
pub struct Entry {
    pub cells: Seq<CellSnapshot>,
    pub mistakes: usize,
    pub step: usize,
}

/// The application state as a value of the model.
#[verifier::ext_equal]
pub struct Game {
    pub screen: Screen,
    pub return_to: Screen,
    pub settings: Settings,
    pub theme: AppTheme,
    pub difficulty: Difficulty,
    pub mode: NoteMode,
    pub selected: Option<usize>,
    pub givens: Seq<u8>,
    pub solution: Seq<u8>,
    pub grid: Seq<CellState>,
    pub started: u128,
    pub log: Seq<Move>,
    pub mistakes: usize,
    pub solved: bool,
    pub stack: Seq<Entry>,
    pub generating: bool,
}

pub open spec fn entry_of(e: UndoEntry) -> Entry {
    Entry { cells: e.cells@, mistakes: e.mistakes_count, step: e.step }
}

pub open spec fn to_entry() -> spec_fn(UndoEntry) -> Entry {
    |e: UndoEntry| entry_of(e)
}

pub open spec fn entries_of(es: Seq<UndoEntry>) -> Seq<Entry> {
    es.map_values(to_entry())
}

impl View for SudokuApp {
    type V = Game;

    open spec fn view(&self) -> Game {
        Game {
            screen: self.screen,
            return_to: self.options_return_to,
            settings: self.settings,
            theme: self.theme,
            difficulty: self.difficulty,
            mode: self.note_mode,
            selected: self.selected_cell,
            givens: self.initial_board@,
            solution: self.solution_board@,
            grid: self.grid@,
            started: self.started_at_unix_ms,
            log: replay::moves_of(self.moves_log@),
            mistakes: self.mistakes_count,
            solved: self.solved,
            stack: entries_of(self.undo_stack@),
            generating: self.generating,
        }
    }
}

/// An undo entry names cells of the board, and a step that is in the log.
pub open spec fn entry_ok(e: Entry, steps: nat) -> bool {
    &&& e.cells.len() > 0
    &&& forall|k: int| 0 <= k < e.cells.len() ==> (#[trigger] e.cells[k]).idx < 81
    &&& 1 <= e.step <= steps
    &&& e.mistakes <= steps
}

/// There is no grid, or one of 81 cells; without a grid no cell is selected and
/// nothing can be undone; and there were no more mistakes than moves.
pub open spec fn wf(g: Game) -> bool {
    &&& g.givens.len() == 81
    &&& g.solution.len() == 81
    &&& g.grid.len() == 0 || g.grid.len() == 81
    &&& g.selected matches Some(i) ==> i < 81 && g.grid.len() == 81
    &&& g.stack.len() > 0 ==> g.grid.len() == 81
    &&& forall|k: int| 0 <= k < g.stack.len() ==> entry_ok(#[trigger] g.stack[k], g.log.len())
    &&& g.mistakes <= g.log.len()
}

// ---- Peers, in the order in which smart notes visit them ----

/// The peers along the row and the column of `i` in the first `n` columns and rows,
/// in turn.
pub open spec fn line_walk(i: int, n: nat) -> Seq<usize>
    decreases n,
{
    if n == 0 {
        Seq::empty()
    } else {
        let k = n - 1;
        let before = line_walk(i, k as nat);
        let with_row = if k == geometry::col(i) {
            before
        } else {
            before.push(geometry::row_mate(i, k) as usize)
        };
        if k == geometry::row(i) {
            with_row
        } else {
            with_row.push(geometry::col_mate(i, k) as usize)
        }
    }
}

/// The peers of cell `i`: along its row and column in turn, then what is left of its
/// box.
pub open spec fn peer_walk(i: int) -> Seq<usize> {
    line_walk(i, 9) + geometry::box_cells(geometry::box_no(i)).filter(geometry::off_lines_of(i))
}

/// The cell is a peer of `i` along its row or column, in the first `n` columns or
/// rows.
pub open spec fn on_lines(i: int, p: int, n: int) -> bool {
    p != i && ((geometry::row(p) == geometry::row(i) && geometry::col(p) < n) || (geometry::col(p)
        == geometry::col(i) && geometry::row(p) < n))
}

proof fn lemma_on_lines_step(i: int, p: int, k: int)
    requires
        0 <= i < 81,
        0 <= p < 81,
        0 <= k < 9,
    ensures
        on_lines(i, p, k + 1) <==> on_lines(i, p, k) || (k != geometry::col(i) && p
            == geometry::row_mate(i, k)) || (k != geometry::row(i) && p == geometry::col_mate(i, k)),
        p == geometry::row_mate(i, k) ==> !on_lines(i, p, k) || k == geometry::col(i),
        p == geometry::col_mate(i, k) ==> !on_lines(i, p, k) || k == geometry::row(i),
        k != geometry::col(i) ==> geometry::row_mate(i, k) != geometry::col_mate(i, k) || k
            == geometry::row(i),
{
}

proof fn lemma_line_walk(i: int, n: nat)
    requires
        0 <= i < 81,
        n <= 9,
    ensures
        line_walk(i, n).no_duplicates(),
        forall|p: usize| #[trigger]
            line_walk(i, n).contains(p) <==> p < 81 && on_lines(i, p as int, n as int),
    decreases n,
{
    if n > 0 {
        let k = n - 1;
        lemma_line_walk(i, k as nat);
        geometry::lemma_mates(i, k);
        let before = line_walk(i, k as nat);
        let (a, b) = (geometry::row_mate(i, k) as usize, geometry::col_mate(i, k) as usize);
        let with_row = if k == geometry::col(i) {
            before
        } else {
            before.push(a)
        };
        solver::lemma_push_members(before, a);
        solver::lemma_push_members(with_row, b);
        assert forall|p: usize| #[trigger] line_walk(i, n).contains(p) <==> p < 81 && on_lines(
            i,
            p as int,
            n as int,
        ) by {
            if p < 81 {
                lemma_on_lines_step(i, p as int, k);
            }
            assert(before.contains(p) <==> p < 81 && on_lines(i, p as int, k));
        }
        lemma_on_lines_step(i, a as int, k);
        lemma_on_lines_step(i, b as int, k);
        assert(before.contains(a) <==> a < 81 && on_lines(i, a as int, k));
        assert(before.contains(b) <==> b < 81 && on_lines(i, b as int, k));
        lemma_push_fresh(before, a);
        lemma_push_fresh(with_row, b);
    }
}

/// A list free of duplicates stays so with one more element that it does not hold.
proof fn lemma_push_fresh(s: Seq<usize>, v: usize)
    ensures
        s.no_duplicates() && !s.contains(v) ==> s.push(v).no_duplicates(),
{
    if s.no_duplicates() && !s.contains(v) {
        let w = s.push(v);
        assert forall|a: int, b: int| 0 <= a < b < w.len() implies w[a] != w[b] by {
            if b == s.len() {
                assert(s[a] == w[a]);
                assert(s.contains(s[a]));
            }
        }
    }
}

/// The walk visits each of the twenty peers once, and nothing else.
pub proof fn law_peer_walk(i: int)
    requires
        0 <= i < 81,
    ensures
        peer_walk(i).len() == 20,
        peer_walk(i).no_duplicates(),
        forall|p: usize| #[trigger]
            peer_walk(i).contains(p) <==> p < 81 && geometry::peer(i, p as int),
{
    let a = line_walk(i, 9);
    let u = 18 + geometry::box_no(i);
    let b = geometry::unit(u).filter(geometry::off_lines_of(i));
    lemma_line_walk(i, 9);
    geometry::lemma_unit(u);
    seqs::lemma_filter_members(geometry::unit(u), geometry::off_lines_of(i));
    let s = peer_walk(i);
    assert(s == a + b);
    assert forall|p: usize| #[trigger] geometry::unit(u).contains(p) implies p < 81
        && geometry::box_no(p as int) == geometry::box_no(i) by {
        let k = geometry::unit(u).index_of(p);
        assert(geometry::unit(u)[k] == p);
    }
    assert forall|p: usize| #[trigger] s.contains(p) <==> a.contains(p) || b.contains(p) by {
        if a.contains(p) {
            assert(s[a.index_of(p)] == p);
        }
        if b.contains(p) {
            assert(s[a.len() + b.index_of(p)] == p);
        }
        if s.contains(p) {
            let k = s.index_of(p);
            if k < a.len() {
                assert(a[k] == p);
            } else {
                assert(b[k - a.len()] == p);
            }
        }
    }
    assert forall|x: int, y: int| 0 <= x < y < s.len() implies s[x] != s[y] by {
        if x < a.len() {
            assert(a.contains(a[x]));
        } else {
            assert(b.contains(b[x - a.len()]));
        }
        if y < a.len() {
            assert(a.contains(a[y]));
        } else {
            assert(b.contains(b[y - a.len()]));
        }
    }
    let t = geometry::peer_list(i);
    geometry::law_peer_list(i);
    assert forall|p: usize| #[trigger] s.to_set().contains(p) <==> t.to_set().contains(p) by {
        assert(s.contains(p) <==> t.contains(p));
    }
    assert(s.to_set() =~= t.to_set());
    s.unique_seq_to_set();
    t.unique_seq_to_set();
}

/// The peers of cell `idx`: same row, same column, same box.
pub fn peers_of_cell(idx: usize) -> (out: Vec<usize>)
    requires
        idx < 81,
    ensures
        out@ == peer_walk(idx as int),
{
    let (r, c): (usize, usize) = (idx / 9, idx % 9);
    let ghost at = idx as int;
    let mut out: Vec<usize> = Vec::new();
    let mut i: usize = 0;
    while i < 9
        invariant
            i <= 9,
            idx < 81,
            at == idx,
            r == geometry::row(at),
            c == geometry::col(at),
            out@ == line_walk(at, i as nat),
        decreases 9 - i,
    {
        if i != c {
            out.push(r * 9 + i);
        }
        if i != r {
            out.push(i * 9 + c);
        }
        i = i + 1;
    }
    let cells = geometry::cells_in_box(geometry::box_of(idx));
    let ghost lines = out@;
    let ghost pred = geometry::off_lines_of(at);
    let mut k: usize = 0;
    proof {
        seqs::lemma_filter_ends(cells@, pred);
    }
    while k < cells.len()
        invariant
            k <= cells@.len(),
            idx < 81,
            at == idx,
            r == geometry::row(at),
            c == geometry::col(at),
            pred == geometry::off_lines_of(at),
            out@ == lines + cells@.take(k as int).filter(pred),
        decreases cells@.len() - k,
    {
        proof {
            seqs::lemma_filter_step(cells@, k as int, pred);
        }
        let p = cells[k];
        let ghost before = cells@.take(k as int).filter(pred);
        if p / 9 != r && p % 9 != c {
            out.push(p);
            assert(out@ =~= lines + before.push(p));
        }
        k = k + 1;
    }
    out
}

/// Where a peer of `i` comes in the walk: those of its row by column and those of its
/// column by row, in turn; then the others, in reading order.
pub open spec fn walk_place(i: int, p: int) -> int {
    if geometry::row(p) == geometry::row(i) {
        2 * geometry::col(p)
    } else if geometry::col(p) == geometry::col(i) {
        2 * geometry::row(p) + 1
    } else {
        18 + p
    }
}

proof fn lemma_walk_places(i: int, n: nat)
    requires
        0 <= i < 81,
        n <= 9,
    ensures
        forall|k: int|
            0 <= k < line_walk(i, n).len() ==> #[trigger] line_walk(i, n)[k] < 81 && walk_place(
                i,
                line_walk(i, n)[k] as int,
            ) < 2 * n,
        forall|j: int, k: int|
            0 <= j < k < line_walk(i, n).len() ==> walk_place(i, #[trigger] line_walk(i, n)[j] as int)
                < walk_place(i, #[trigger] line_walk(i, n)[k] as int),
    decreases n,
{
    if n > 0 {
        let m = n - 1;
        lemma_walk_places(i, m as nat);
        geometry::lemma_mates(i, m);
        let (a, b) = (geometry::row_mate(i, m), geometry::col_mate(i, m));
        assert(geometry::row(a) == geometry::row(i) && geometry::col(a) == m);
        assert(geometry::col(b) == geometry::col(i) && geometry::row(b) == m);
        assert(0 <= a < 81 && 0 <= b < 81);
        let before = line_walk(i, m as nat);
        let with_row = if m == geometry::col(i) {
            before
        } else {
            before.push(a as usize)
        };
        let walk = line_walk(i, n);
        assert(walk == if m == geometry::row(i) {
            with_row
        } else {
            with_row.push(b as usize)
        });
        assert(walk_place(i, a) == 2 * m);
        assert(m != geometry::row(i) ==> walk_place(i, b) == 2 * m + 1);
        assert forall|k: int| 0 <= k < walk.len() implies #[trigger] walk[k] < 81 && (if k
            < before.len() {
            walk[k] == before[k]
        } else if k < with_row.len() {
            walk[k] == a
        } else {
            walk[k] == b && m != geometry::row(i)
        }) by {}
        assert forall|j: int, k: int| 0 <= j < k < walk.len() implies walk_place(
            i,
            #[trigger] walk[j] as int,
        ) < walk_place(i, #[trigger] walk[k] as int) by {
            if j < before.len() {
                assert(walk_place(i, before[j] as int) < 2 * m);
            }
        }
    }
}

/// The walk visits the peers in that order.
pub proof fn law_peer_walk_in_order(i: int, j: int, k: int)
    requires
        0 <= i < 81,
        0 <= j < k < peer_walk(i).len(),
    ensures
        walk_place(i, peer_walk(i)[j] as int) < walk_place(i, peer_walk(i)[k] as int),
{
    lemma_walk_places(i, 9);
    geometry::lemma_unit_part(18 + geometry::box_no(i), geometry::off_lines_of(i));
    let lines = line_walk(i, 9);
    assert(geometry::unit(18 + geometry::box_no(i)) == geometry::box_cells(geometry::box_no(i)));
    let rest = geometry::box_cells(geometry::box_no(i)).filter(geometry::off_lines_of(i));
    assert forall|n: int| 0 <= n < peer_walk(i).len() implies #[trigger] peer_walk(i)[n] == if n
        < lines.len() {
        lines[n]
    } else {
        rest[n - lines.len()]
    } by {}
    assert forall|n: int| 0 <= n < rest.len() implies walk_place(i, #[trigger] rest[n] as int) == 18
        + rest[n] by {
        assert(geometry::off_lines_of(i)(rest[n]));
    }
    if j >= lines.len() {
        let (m, n) = (j - lines.len(), k - lines.len());
        assert(rest[m] < rest[n]);
    } else if k < lines.len() {
        assert(walk_place(i, lines[j] as int) < walk_place(i, lines[k] as int));
    } else {
        assert(walk_place(i, lines[j] as int) < 18);
    }
}

// ---- Actions ----

pub open spec fn snapshot(grid: Seq<CellState>, i: usize) -> CellSnapshot {
    let c = grid[i as int];
    CellSnapshot {
        idx: i,
        value: c.value,
        corner_notes: c.corner_notes,
        center_notes: c.center_notes,
    }
}

pub open spec fn to_snapshot(grid: Seq<CellState>) -> spec_fn(usize) -> CellSnapshot {
    |i: usize| snapshot(grid, i)
}

/// What the next action can be undone with, where it touches the cells `touched`.
pub open spec fn entry_for(g: Game, touched: Seq<usize>) -> Entry {
    Entry {
        cells: touched.map_values(to_snapshot(g.grid)),
        mistakes: g.mistakes,
        step: (g.log.len() + 1) as usize,
    }
}

pub open spec fn move_at(i: usize, code: Seq<char>, digit: u8, ms: u128, extra: usize) -> Move {
    Move { cell: i, code, digit, ms, extra }
}

/// Every cell holds the digit of the solution.
pub open spec fn all_right(grid: Seq<CellState>, solution: Seq<u8>) -> bool {
    forall|i: int| #![trigger grid[i]] 0 <= i < 81 ==> grid[i].value == solution[i]
}

/// A cell without the note `num`.
pub open spec fn wiped(c: CellState, num: u8) -> CellState {
    CellState {
        given: c.given,
        value: c.value,
        corner_notes: c.corner_notes & !(1u16 << num),
        center_notes: c.center_notes & !(1u16 << num),
    }
}

/// A cell with the note `num`.
pub open spec fn is_marked(grid: Seq<CellState>, num: u8) -> spec_fn(usize) -> bool {
    |p: usize|
        grid[p as int].corner_notes & (1u16 << num) != 0 || grid[p as int].center_notes & (1u16
            << num) != 0
}

/// The cells that placing `num` in cell `i` touches: the cell itself, and with smart
/// notes its peers that have the digit as a note.
pub open spec fn touched_by(g: Game, i: usize, num: u8) -> Seq<usize> {
    if g.settings.smart_notes {
        seq![i] + peer_walk(i as int).filter(is_marked(g.grid, num))
    } else {
        seq![i]
    }
}

/// The grid with `num` placed in cell `i`, whose notes go; with smart notes the note
/// `num` goes from every peer too.
pub open spec fn placed(grid: Seq<CellState>, smart: bool, i: int, num: u8) -> Seq<CellState> {
    Seq::new(
        81,
        |j: int|
            if j == i {
                CellState { given: grid[i].given, value: num, corner_notes: 0, center_notes: 0 }
            } else if smart && geometry::peer(i, j) {
                wiped(grid[j], num)
            } else {
                grid[j]
            },
    )
}

pub open spec fn emptied(grid: Seq<CellState>, i: int) -> Seq<CellState> {
    grid.update(i, CellState { value: 0, ..grid[i] })
}

pub open spec fn unmarked(grid: Seq<CellState>, i: int) -> Seq<CellState> {
    grid.update(i, CellState { corner_notes: 0, center_notes: 0, ..grid[i] })
}

/// The grid with the corner note `num` of cell `i` switched.
pub open spec fn corner_switched(grid: Seq<CellState>, i: int, num: u8) -> Seq<CellState> {
    grid.update(
        i,
        CellState { corner_notes: grid[i].corner_notes ^ (1u16 << num), ..grid[i] },
    )
}

/// The grid with the center note `num` of cell `i` switched.
pub open spec fn center_switched(grid: Seq<CellState>, i: int, num: u8) -> Seq<CellState> {
    grid.update(
        i,
        CellState { center_notes: grid[i].center_notes ^ (1u16 << num), ..grid[i] },
    )
}

/// The game after an action on cell `i` that turns the grid into `grid`, makes
/// `wrong` mistakes, and touches the cells `touched`.
pub open spec fn acted(
    g: Game,
    grid: Seq<CellState>,
    wrong: int,
    touched: Seq<usize>,
    m: Move,
) -> Game {
    Game {
        grid,
        mistakes: (g.mistakes + wrong) as usize,
        log: g.log.push(m),
        stack: g.stack.push(entry_for(g, touched)),
        ..g
    }
}

pub open spec fn checked(g: Game) -> Game {
    Game { solved: all_right(g.grid, g.solution), ..g }
}

pub open spec fn cue_if(yes: bool, c: Cue) -> Seq<Cue> {
    if yes {
        seq![c]
    } else {
        Seq::empty()
    }
}

/// How many mistakes placing `num` in cell `i` makes.
pub open spec fn wrong_by(solution: Seq<u8>, i: int, num: u8) -> int {
    if solution[i] == num {
        0
    } else {
        1
    }
}

/// The game after placing `num` in cell `i`.
pub open spec fn digit_placed(g: Game, i: usize, num: u8, ms: u128) -> Game {
    acted(
        g,
        placed(g.grid, g.settings.smart_notes, i as int, num),
        wrong_by(g.solution, i as int, num),
        touched_by(g, i, num),
        move_at(i, "P"@, num, ms, 0),
    )
}

/// Digit `num` in cell `i`: placed, or cleared where it stands there already.
pub open spec fn digit_input(g: Game, i: usize, num: u8, ms: u128) -> (Game, Seq<Cue>) {
    let sound = g.settings.sound_enabled;
    if g.grid[i as int].value == num {
        let h = checked(
            acted(g, emptied(g.grid, i as int), 0, seq![i], move_at(i, "C"@, num, ms, 0)),
        );
        (h, cue_if(sound && !g.solved && h.solved, Cue::Success))
    } else {
        let right = g.solution[i as int] == num;
        let h = checked(digit_placed(g, i, num, ms));
        let first = if right {
            Cue::Click
        } else {
            Cue::Error
        };
        (h, cue_if(sound, first) + cue_if(sound && !g.solved && h.solved, Cue::Success))
    }
}

/// Corner note `num` of cell `i`, added or removed.
pub open spec fn corner_input(g: Game, i: usize, num: u8, ms: u128) -> (Game, Seq<Cue>) {
    let code = if g.grid[i as int].corner_notes & (1u16 << num) == 0 {
        "x+"@
    } else {
        "x-"@
    };
    (
        acted(
            g,
            corner_switched(g.grid, i as int, num),
            0,
            seq![i],
            move_at(i, code, num, ms, 0),
        ),
        cue_if(g.settings.sound_enabled, Cue::Tick),
    )
}

/// Center note `num` of cell `i`, added or removed.
pub open spec fn center_input(g: Game, i: usize, num: u8, ms: u128) -> (Game, Seq<Cue>) {
    let code = if g.grid[i as int].center_notes & (1u16 << num) == 0 {
        "e+"@
    } else {
        "e-"@
    };
    (
        acted(
            g,
            center_switched(g.grid, i as int, num),
            0,
            seq![i],
            move_at(i, code, num, ms, 0),
        ),
        cue_if(g.settings.sound_enabled, Cue::Tick),
    )
}

/// Digit `num` on the selected cell, in the current mode. Givens cannot be changed.
pub open spec fn number_input(g: Game, num: u8, ms: u128) -> (Game, Seq<Cue>) {
    match g.selected {
        Some(i) if !g.grid[i as int].given => match g.mode {
            NoteMode::Normal => digit_input(g, i, num, ms),
            NoteMode::Corner => corner_input(g, i, num, ms),
            NoteMode::Center => center_input(g, i, num, ms),
        },
        _ => (g, Seq::empty()),
    }
}

/// Digit `num` is placed or noted, where the player enters it.
pub open spec fn enters(g: Game, num: u8) -> bool {
    match g.selected {
        Some(i) => !g.grid[i as int].given && !(g.mode == NoteMode::Normal
            && g.grid[i as int].value == num),
        None => false,
    }
}

/// Clears the digit of the selected cell, or its notes where it has no digit.
pub open spec fn cell_clearing(g: Game, ms: u128) -> (Game, Seq<Cue>) {
    match g.selected {
        Some(i) if !g.grid[i as int].given => {
            let c = g.grid[i as int];
            if c.value != 0 {
                (
                    checked(
                        acted(
                            g,
                            emptied(g.grid, i as int),
                            0,
                            seq![i],
                            move_at(i, "C"@, c.value, ms, 0),
                        ),
                    ),
                    cue_if(g.settings.sound_enabled, Cue::Tick),
                )
            } else if c.corner_notes != 0 || c.center_notes != 0 {
                (
                    checked(
                        acted(
                            g,
                            unmarked(g.grid, i as int),
                            0,
                            seq![i],
                            move_at(i, "N"@, 0, ms, 0),
                        ),
                    ),
                    cue_if(g.settings.sound_enabled, Cue::Tick),
                )
            } else {
                (g, Seq::empty())
            }
        },
        _ => (g, Seq::empty()),
    }
}

pub open spec fn restored_cell(c: CellState, old_cell: CellSnapshot) -> CellState {
    CellState {
        given: c.given,
        value: old_cell.value,
        corner_notes: old_cell.corner_notes,
        center_notes: old_cell.center_notes,
    }
}

/// The grid with the listed cells as they were, in turn.
pub open spec fn restored(grid: Seq<CellState>, cells: Seq<CellSnapshot>) -> Seq<CellState>
    decreases cells.len(),
{
    if cells.len() == 0 {
        grid
    } else {
        let before = restored(grid, cells.drop_last());
        let c = cells.last();
        before.update(c.idx as int, restored_cell(before[c.idx as int], c))
    }
}

/// Takes the last action back: its cells and the mistake counter become what they
/// were, and its first cell is selected. The undo is a move of its own.
pub open spec fn undoing(g: Game, ms: u128) -> (Game, Seq<Cue>) {
    if g.stack.len() == 0 {
        (g, Seq::empty())
    } else {
        let e = g.stack.last();
        let i = e.cells[0].idx;
        (
            checked(
                Game {
                    grid: restored(g.grid, e.cells),
                    mistakes: e.mistakes,
                    selected: Some(i),
                    log: g.log.push(move_at(i, "U"@, 0, ms, e.step)),
                    stack: g.stack.drop_last(),
                    ..g
                },
            ),
            cue_if(g.settings.sound_enabled, Cue::Tick),
        )
    }
}

/// The code of the move that switches smart notes on or off.
pub open spec fn switch_code(on: bool) -> Seq<char> {
    if on {
        "S+"@
    } else {
        "S-"@
    }
}

/// The log of a game that begins: smart notes are on unless it says otherwise.
pub open spec fn opening_log(smart: bool) -> Seq<Move> {
    if smart {
        Seq::empty()
    } else {
        seq![move_at(0, switch_code(false), 0, 0, 0)]
    }
}

/// A fresh game of the puzzle.
pub open spec fn dealt(g: Game, puzzle: Seq<u8>, solution: Seq<u8>, now: u128) -> Game {
    Game {
        givens: puzzle,
        solution,
        grid: Seq::new(
            81,
            |i: int|
                CellState {
                    given: puzzle[i] != 0,
                    value: puzzle[i],
                    corner_notes: 0,
                    center_notes: 0,
                },
        ),
        log: opening_log(g.settings.smart_notes),
        stack: Seq::empty(),
        mistakes: 0,
        solved: false,
        selected: Some(0),
        started: now,
        generating: false,
        ..g
    }
}

/// The state of the application when it starts.
pub open spec fn fresh(settings: Settings, now: u128) -> Game {
    Game {
        screen: Screen::MainMenu,
        return_to: Screen::MainMenu,
        settings,
        theme: settings.theme,
        difficulty: Difficulty::Extreme,
        mode: NoteMode::Normal,
        selected: None,
        givens: Seq::new(81, |i: int| 0u8),
        solution: Seq::new(81, |i: int| 0u8),
        grid: Seq::empty(),
        started: now,
        log: Seq::empty(),
        mistakes: 0,
        solved: false,
        stack: Seq::empty(),
        generating: false,
    }
}

/// An action adds one move to the log at most.
pub proof fn law_one_move_each(g: Game, num: u8, ms: u128)
    ensures
        g.log.len() <= number_input(g, num, ms).0.log.len() <= g.log.len() + 1,
        g.log.len() <= cell_clearing(g, ms).0.log.len() <= g.log.len() + 1,
        g.log.len() <= undoing(g, ms).0.log.len() <= g.log.len() + 1,
{
}

// ---- Execution ----

proof fn lemma_log_push(log: Seq<MoveRecord>, r: MoveRecord)
    ensures
        replay::moves_of(log.push(r)) == replay::moves_of(log).push(replay::move_of(r)),
{
    assert(replay::moves_of(log.push(r)) =~= replay::moves_of(log).push(replay::move_of(r)));
}

proof fn lemma_stack_push(stack: Seq<UndoEntry>, e: UndoEntry)
    ensures
        entries_of(stack.push(e)) == entries_of(stack).push(entry_of(e)),
{
    assert(entries_of(stack.push(e)) =~= entries_of(stack).push(entry_of(e)));
}

/// What an action leaves is well-formed again.
pub proof fn lemma_acted_wf(g: Game, grid: Seq<CellState>, wrong: int, touched: Seq<usize>, m: Move)
    requires
        wf(g),
        g.grid.len() == 81,
        grid.len() == 81,
        0 <= wrong <= 1,
        touched.len() > 0,
        forall|k: int| 0 <= k < touched.len() ==> #[trigger] touched[k] < 81,
        g.log.len() < usize::MAX,
    ensures
        wf(acted(g, grid, wrong, touched, m)),
{
    let h = acted(g, grid, wrong, touched, m);
    assert forall|k: int| 0 <= k < h.stack.len() implies entry_ok(#[trigger] h.stack[k], h.log.len()) by {
        if k < g.stack.len() {
            assert(h.stack[k] == g.stack[k]);
            assert(entry_ok(g.stack[k], g.log.len()));
        } else {
            let e = entry_for(g, touched);
            assert forall|n: int| 0 <= n < e.cells.len() implies (#[trigger] e.cells[n]).idx < 81 by {
                assert(touched[n] < 81);
            }
        }
    }
}

pub proof fn lemma_touched(g: Game, i: usize, num: u8)
    requires
        i < 81,
    ensures
        touched_by(g, i, num).len() > 0,
        touched_by(g, i, num)[0] == i,
        forall|k: int|
            0 <= k < touched_by(g, i, num).len() ==> #[trigger] touched_by(g, i, num)[k] < 81,
{
    law_peer_walk(i as int);
    let more = peer_walk(i as int).filter(is_marked(g.grid, num));
    seqs::lemma_filter_members(peer_walk(i as int), is_marked(g.grid, num));
    assert forall|k: int| 0 <= k < touched_by(g, i, num).len() implies #[trigger] touched_by(
        g,
        i,
        num,
    )[k] < 81 by {
        if k > 0 {
            assert(more.contains(more[k - 1]));
        }
    }
}

impl SudokuApp {
    /// The application as it starts: the main menu, and no game yet.
    pub fn new(settings: Settings, started_at_unix_ms: u128) -> (app: Self)
        ensures
            app@ == fresh(settings, started_at_unix_ms),
            wf(app@),
    {
        let app = SudokuApp {
            screen: Screen::MainMenu,
            options_return_to: Screen::MainMenu,
            settings,
            theme: settings.theme,
            difficulty: Difficulty::Extreme,
            note_mode: NoteMode::Normal,
            selected_cell: None,
            initial_board: Board::new(),
            solution_board: Board::new(),
            grid: Vec::new(),
            started_at_unix_ms,
            moves_log: Vec::new(),
            mistakes_count: 0,
            solved: false,
            undo_stack: Vec::new(),
            generating: false,
        };
        assert(app@ =~= fresh(settings, started_at_unix_ms));
        app
    }

    /// Notes that a puzzle of tier `diff` is being made; nothing is selected until
    /// it is there.
    pub fn start_new_game(&mut self, diff: Difficulty)
        requires
            wf(old(self)@),
        ensures
            final(self)@ == (Game { difficulty: diff, generating: true, selected: None, ..old(self)@ }),
            wf(final(self)@),
    {
        self.difficulty = diff;
        self.generating = true;
        self.selected_cell = None;
    }

    /// Begins a game of the puzzle that was made. Where smart notes are off, the log
    /// begins with that.
    pub fn apply_generated(&mut self, puzzle: Board, solution: Board, started_at_unix_ms: u128)
        requires
            wf(old(self)@),
        ensures
            final(self)@ == dealt(old(self)@, puzzle@, solution@, started_at_unix_ms),
            wf(final(self)@),
    {
        let ghost goal = dealt(self@, puzzle@, solution@, started_at_unix_ms);
        let mut grid: Vec<CellState> = Vec::new();
        let mut i: usize = 0;
        while i < CELLS
            invariant
                i <= 81,
                grid@.len() == i,
                goal.grid.len() == 81,
                forall|j: int|
                    0 <= j < 81 ==> #[trigger] goal.grid[j] == (CellState {
                        given: puzzle@[j] != 0,
                        value: puzzle@[j],
                        corner_notes: 0,
                        center_notes: 0,
                    }),
                forall|j: int| 0 <= j < i ==> #[trigger] grid@[j] == goal.grid[j],
            decreases 81 - i,
        {
            let v = puzzle.cells[i];
            grid.push(CellState { given: v != 0, value: v, corner_notes: 0, center_notes: 0 });
            i = i + 1;
        }
        self.initial_board = puzzle;
        self.solution_board = solution;
        self.grid = grid;
        self.moves_log = Vec::new();
        if !self.settings.smart_notes {
            self.record_action(0, "S-", 0, 0, 0);
        }
        self.undo_stack = Vec::new();
        self.mistakes_count = 0;
        self.solved = false;
        self.selected_cell = Some(0);
        self.started_at_unix_ms = started_at_unix_ms;
        self.generating = false;
        assert(self@ =~= goal);
    }

    /// Adds a move to the log.
    pub(crate) fn record_action(&mut self, idx: usize, code: &str, digit: u8, elapsed_ms: u128, extra: usize)
        ensures
            final(self)@ == (Game {
                log: old(self)@.log.push(move_at(idx, code@, digit, elapsed_ms, extra)),
                ..old(self)@
            }),
    {
        let r: MoveRecord = (idx, code.to_owned(), digit, elapsed_ms, extra);
        proof {
            lemma_log_push(self.moves_log@, r);
        }
        self.moves_log.push(r);
    }

    /// What the next action can be undone with, where it touches the listed cells.
    pub fn begin_undo(&self, indices: &Vec<usize>) -> (e: UndoEntry)
        requires
            self@.grid.len() == 81,
            self@.log.len() < usize::MAX,
            forall|k: int| 0 <= k < indices@.len() ==> #[trigger] indices@[k] < 81,
        ensures
            entry_of(e) == entry_for(self@, indices@),
    {
        let mut cells: Vec<CellSnapshot> = Vec::new();
        let mut k: usize = 0;
        while k < indices.len()
            invariant
                k <= indices@.len(),
                self@.grid.len() == 81,
                forall|n: int| 0 <= n < indices@.len() ==> #[trigger] indices@[n] < 81,
                cells@ == indices@.map_values(to_snapshot(self@.grid)).take(k as int),
            decreases indices@.len() - k,
        {
            let i = indices[k];
            let c = self.grid[i];
            cells.push(
                CellSnapshot {
                    idx: i,
                    value: c.value,
                    corner_notes: c.corner_notes,
                    center_notes: c.center_notes,
                },
            );
            assert(cells@ =~= indices@.map_values(to_snapshot(self@.grid)).take(k + 1));
            k = k + 1;
        }
        assert(cells@ =~= indices@.map_values(to_snapshot(self@.grid)));
        UndoEntry { cells, mistakes_count: self.mistakes_count, step: self.moves_log.len() + 1 }
    }

    /// Finds out whether every cell holds the digit of the solution.
    pub fn update_solved_status(&mut self)
        requires
            old(self)@.grid.len() == 81,
        ensures
            final(self)@ == checked(old(self)@),
    {
        let mut i: usize = 0;
        let mut right = true;
        while i < CELLS
            invariant
                i <= 81,
                self.grid@.len() == 81,
                right <==> forall|j: int|
                    0 <= j < i ==> (#[trigger] self.grid@[j]).value == self.solution_board@[j],
            decreases 81 - i,
        {
            if self.grid[i].value != self.solution_board.cells[i] {
                assert(self.grid@[i as int].value != self.solution_board@[i as int]);
                right = false;
            }
            i = i + 1;
        }
        self.solved = right;
    }

    /// Clears the digit of cell `idx` and logs it.
    fn empty_cell(&mut self, idx: usize, elapsed_ms: u128)
        requires
            wf(old(self)@),
            old(self)@.grid.len() == 81,
            idx < 81,
            old(self)@.log.len() < usize::MAX,
        ensures
            final(self)@ == checked(
                acted(
                    old(self)@,
                    emptied(old(self)@.grid, idx as int),
                    0,
                    seq![idx],
                    move_at(idx, "C"@, old(self)@.grid[idx as int].value, elapsed_ms, 0),
                ),
            ),
            wf(final(self)@),
    {
        let ghost g = self@;
        let only = single(idx);
        let entry = self.begin_undo(&only);
        let mut c = self.grid[idx];
        let v = c.value;
        c.value = 0;
        self.grid.set(idx, c);
        self.commit(entry, idx, "C", v, elapsed_ms);
        proof {
            lemma_acted_wf(
                g,
                emptied(g.grid, idx as int),
                0,
                seq![idx],
                move_at(idx, "C"@, v, elapsed_ms, 0),
            );
        }
        self.update_solved_status();
    }
}

impl SudokuApp {
    /// The cells that placing `num` in cell `idx` touches.
    fn cells_touched(&self, idx: usize, num: u8) -> (touched: Vec<usize>)
        requires
            self@.grid.len() == 81,
            idx < 81,
            num < 16,
        ensures
            touched@ == touched_by(self@, idx, num),
    {
        let mut touched = single(idx);
        if self.settings.smart_notes {
            let bit: u16 = 1u16 << num;
            let peers = peers_of_cell(idx);
            let ghost pred = is_marked(self@.grid, num);
            let mut k: usize = 0;
            proof {
                seqs::lemma_filter_ends(peers@, pred);
                law_peer_walk(idx as int);
                assert(touched@ =~= seq![idx] + peers@.take(0).filter(pred));
            }
            while k < peers.len()
                invariant
                    k <= peers@.len(),
                    num < 16,
                    bit == 1u16 << num,
                    self.grid@.len() == 81,
                    pred == is_marked(self@.grid, num),
                    peers@ == peer_walk(idx as int),
                    forall|p: usize| #[trigger]
                        peers@.contains(p) <==> p < 81 && geometry::peer(idx as int, p as int),
                    touched@ == seq![idx] + peers@.take(k as int).filter(pred),
                decreases peers@.len() - k,
            {
                let p = peers[k];
                assert(peers@.contains(p));
                proof {
                    seqs::lemma_filter_step(peers@, k as int, pred);
                }
                let ghost before = peers@.take(k as int).filter(pred);
                let c = self.grid[p];
                if c.corner_notes & bit != 0 || c.center_notes & bit != 0 {
                    touched.push(p);
                    assert(touched@ =~= seq![idx] + before.push(p));
                }
                k = k + 1;
            }
        }
        touched
    }

    /// Takes the note `num` from the peers of cell `idx`.
    fn wipe_peers(&mut self, idx: usize, num: u8)
        requires
            old(self)@.grid.len() == 81,
            idx < 81,
            num < 16,
        ensures
            final(self)@ == (Game { grid: final(self)@.grid, ..old(self)@ }),
            final(self)@.grid.len() == 81,
            forall|j: int|
                0 <= j < 81 ==> #[trigger] final(self)@.grid[j] == if geometry::peer(
                    idx as int,
                    j,
                ) {
                    wiped(old(self)@.grid[j], num)
                } else {
                    old(self)@.grid[j]
                },
    {
        let ghost g = self@;
        let bit: u16 = 1u16 << num;
        let mut p: usize = 0;
        while p < CELLS
            invariant
                p <= 81,
                idx < 81,
                num < 16,
                bit == 1u16 << num,
                g == old(self)@,
                g.grid.len() == 81,
                self@ == (Game { grid: self@.grid, ..g }),
                self.grid@.len() == 81,
                forall|j: int| p <= j < 81 ==> #[trigger] self.grid@[j] == g.grid[j],
                forall|j: int|
                    0 <= j < p ==> #[trigger] self.grid@[j] == if geometry::peer(idx as int, j) {
                        wiped(g.grid[j], num)
                    } else {
                        g.grid[j]
                    },
            decreases 81 - p,
        {
            let mut c = self.grid[p];
            if geometry::is_peer(idx, p) {
                c.corner_notes = c.corner_notes & !bit;
                c.center_notes = c.center_notes & !bit;
                self.grid.set(p, c);
            }
            p = p + 1;
        }
    }

    /// Writes `num` into cell `idx`, and takes the notes away that it makes idle.
    fn write_digit(&mut self, idx: usize, num: u8)
        requires
            old(self)@.grid.len() == 81,
            idx < 81,
            num < 16,
        ensures
            final(self)@ == (Game {
                grid: placed(old(self)@.grid, old(self)@.settings.smart_notes, idx as int, num),
                ..old(self)@
            }),
    {
        let ghost g = self@;
        let given = self.grid[idx].given;
        if self.settings.smart_notes {
            self.wipe_peers(idx, num);
        }
        self.grid.set(idx, CellState { given, value: num, corner_notes: 0, center_notes: 0 });
        assert(self@.grid =~= placed(g.grid, g.settings.smart_notes, idx as int, num));
    }

    /// Places `num` in cell `idx`, which holds another digit or none.
    fn place_digit(&mut self, idx: usize, num: u8, elapsed_ms: u128) -> (right: bool)
        requires
            wf(old(self)@),
            old(self)@.grid.len() == 81,
            idx < 81,
            num < 16,
            old(self)@.log.len() < usize::MAX,
        ensures
            right == (old(self)@.solution[idx as int] == num),
            final(self)@ == checked(digit_placed(old(self)@, idx, num, elapsed_ms)),
            wf(final(self)@),
    {
        let ghost g = self@;
        let touched = self.cells_touched(idx, num);
        proof {
            lemma_touched(g, idx, num);
        }
        let entry = self.begin_undo(&touched);
        let right = self.solution_board.cells[idx] == num;
        if !right {
            self.mistakes_count = self.mistakes_count + 1;
        }
        self.write_digit(idx, num);
        self.commit(entry, idx, "P", num, elapsed_ms);
        proof {
            lemma_acted_wf(
                g,
                placed(g.grid, g.settings.smart_notes, idx as int, num),
                wrong_by(g.solution, idx as int, num),
                touched_by(g, idx, num),
                move_at(idx, "P"@, num, elapsed_ms, 0),
            );
        }
        self.update_solved_status();
        right
    }

    /// Logs an action and keeps what it can be undone with.
    fn commit(&mut self, entry: UndoEntry, idx: usize, code: &str, digit: u8, elapsed_ms: u128)
        ensures
            final(self)@ == (Game {
                log: old(self)@.log.push(move_at(idx, code@, digit, elapsed_ms, 0)),
                stack: old(self)@.stack.push(entry_of(entry)),
                ..old(self)@
            }),
    {
        self.record_action(idx, code, digit, elapsed_ms, 0);
        proof {
            lemma_stack_push(self.undo_stack@, entry);
        }
        self.undo_stack.push(entry);
    }

    /// Adds or removes a note of cell `idx`, in the corner or in the middle.
    fn switch_note(&mut self, idx: usize, num: u8, corner: bool, elapsed_ms: u128)
        requires
            wf(old(self)@),
            old(self)@.grid.len() == 81,
            idx < 81,
            num < 16,
            old(self)@.log.len() < usize::MAX,
        ensures
            corner ==> final(self)@ == corner_input(old(self)@, idx, num, elapsed_ms).0,
            !corner ==> final(self)@ == center_input(old(self)@, idx, num, elapsed_ms).0,
            wf(final(self)@),
    {
        let ghost g = self@;
        let only = single(idx);
        let entry = self.begin_undo(&only);
        let bit: u16 = 1u16 << num;
        let mut c = self.grid[idx];
        let code: &str;
        if corner {
            code = if c.corner_notes & bit == 0 {
                "x+"
            } else {
                "x-"
            };
            c.corner_notes = c.corner_notes ^ bit;
        } else {
            code = if c.center_notes & bit == 0 {
                "e+"
            } else {
                "e-"
            };
            c.center_notes = c.center_notes ^ bit;
        }
        self.grid.set(idx, c);
        self.commit(entry, idx, code, num, elapsed_ms);
        proof {
            lemma_acted_wf(
                g,
                self@.grid,
                0,
                seq![idx],
                move_at(idx, code@, num, elapsed_ms, 0),
            );
        }
    }

    /// The player enters `num` for the selected cell: as a digit, which is cleared
    /// where it stands there already, or as a note.
    pub fn handle_number_input(&mut self, num: u8, elapsed_ms: u128) -> (cues: Vec<Cue>)
        requires
            wf(old(self)@),
            enters(old(self)@, num) ==> num < 16,
            old(self)@.log.len() < usize::MAX,
        ensures
            (final(self)@, cues@) == number_input(old(self)@, num, elapsed_ms),
            wf(final(self)@),
    {
        let mut cues: Vec<Cue> = Vec::new();
        let idx = match self.selected_cell {
            Some(i) => i,
            None => {
                return cues;
            },
        };
        if self.grid[idx].given {
            return cues;
        }
        let sound = self.settings.sound_enabled;
        match self.note_mode {
            NoteMode::Normal => {
                let was_solved = self.solved;
                if self.grid[idx].value == num {
                    self.empty_cell(idx, elapsed_ms);
                } else {
                    let right = self.place_digit(idx, num, elapsed_ms);
                    if sound {
                        cues.push(
                            if right {
                                Cue::Click
                            } else {
                                Cue::Error
                            },
                        );
                    }
                }
                if sound && !was_solved && self.solved {
                    cues.push(Cue::Success);
                }
            },
            NoteMode::Corner => {
                self.switch_note(idx, num, true, elapsed_ms);
                if sound {
                    cues.push(Cue::Tick);
                }
            },
            NoteMode::Center => {
                self.switch_note(idx, num, false, elapsed_ms);
                if sound {
                    cues.push(Cue::Tick);
                }
            },
        }
        assert(cues@ =~= number_input(old(self)@, num, elapsed_ms).1);
        cues
    }

    /// Clears the digit of the selected cell, or its notes where it has no digit.
    pub fn clear_current_cell(&mut self, elapsed_ms: u128) -> (cues: Vec<Cue>)
        requires
            wf(old(self)@),
            old(self)@.log.len() < usize::MAX,
        ensures
            (final(self)@, cues@) == cell_clearing(old(self)@, elapsed_ms),
            wf(final(self)@),
    {
        let ghost g = self@;
        let mut cues: Vec<Cue> = Vec::new();
        let idx = match self.selected_cell {
            Some(i) => i,
            None => {
                return cues;
            },
        };
        let mut c = self.grid[idx];
        if c.given {
            return cues;
        }
        if c.value == 0 && c.corner_notes == 0 && c.center_notes == 0 {
            return cues;
        }
        if c.value != 0 {
            self.empty_cell(idx, elapsed_ms);
        } else {
            let only = single(idx);
            let entry = self.begin_undo(&only);
            c.corner_notes = 0;
            c.center_notes = 0;
            self.grid.set(idx, c);
            self.commit(entry, idx, "N", 0, elapsed_ms);
            proof {
                lemma_acted_wf(
                    g,
                    unmarked(g.grid, idx as int),
                    0,
                    seq![idx],
                    move_at(idx, "N"@, 0, elapsed_ms, 0),
                );
            }
            self.update_solved_status();
        }
        if self.settings.sound_enabled {
            cues.push(Cue::Tick);
        }
        assert(cues@ =~= cell_clearing(g, elapsed_ms).1);
        cues
    }

    /// Takes the last action back: every cell that it touched and the mistake
    /// counter become what they were. The undo is logged as a move of its own.
    pub fn undo(&mut self, elapsed_ms: u128) -> (cues: Vec<Cue>)
        requires
            wf(old(self)@),
        ensures
            (final(self)@, cues@) == undoing(old(self)@, elapsed_ms),
            wf(final(self)@),
    {
        let ghost g = self@;
        let mut cues: Vec<Cue> = Vec::new();
        let entry = match self.undo_stack.pop() {
            Some(e) => e,
            None => {
                assert(self@ =~= g);
                return cues;
            },
        };
        let ghost cells = entry.cells@;
        proof {
            assert(g.stack.last() == entry_of(entry));
            assert(entry_ok(g.stack[g.stack.len() - 1], g.log.len()));
            assert(self@.stack =~= g.stack.drop_last());
            assert(cells.take(0) =~= Seq::<CellSnapshot>::empty());
        }
        let ghost popped = self@;
        let mut k: usize = 0;
        while k < entry.cells.len()
            invariant
                k <= cells.len(),
                cells == entry.cells@,
                forall|n: int| 0 <= n < cells.len() ==> (#[trigger] cells[n]).idx < 81,
                self@ == (Game { grid: self@.grid, ..popped }),
                self@.grid == restored(popped.grid, cells.take(k as int)),
                self@.grid.len() == 81,
            decreases cells.len() - k,
        {
            let was = entry.cells[k];
            let mut c = self.grid[was.idx];
            c.value = was.value;
            c.corner_notes = was.corner_notes;
            c.center_notes = was.center_notes;
            assert(cells.take(k + 1).drop_last() =~= cells.take(k as int));
            self.grid.set(was.idx, c);
            k = k + 1;
        }
        assert(cells.take(cells.len() as int) =~= cells);
        self.mistakes_count = entry.mistakes_count;
        let primary = entry.cells[0].idx;
        self.selected_cell = Some(primary);
        self.record_action(primary, "U", 0, elapsed_ms, entry.step);
        self.update_solved_status();
        if self.settings.sound_enabled {
            cues.push(Cue::Tick);
        }
        proof {
            assert(cues@ =~= undoing(g, elapsed_ms).1);
            assert(self@ =~= undoing(g, elapsed_ms).0);
            assert forall|n: int| 0 <= n < self@.stack.len() implies entry_ok(
                #[trigger] self@.stack[n],
                self@.log.len(),
            ) by {
                assert(self@.stack[n] == g.stack[n]);
                assert(entry_ok(g.stack[n], g.log.len()));
            }
        }
        cues
    }

    /// Everything that is exported of the session, after the given solving time.
    pub fn build_session_report(&self, seconds: u64, nanos: u32) -> (r: GameSessionReport)
        requires
            forall|i: int| 0 <= i < 81 ==> #[trigger] self@.givens[i] <= 207,
            forall|i: int| 0 <= i < 81 ==> #[trigger] self@.solution[i] <= 207,
        ensures
            r.engine_version@ == "3.0.0-rs"@,
            r.difficulty@ == difficulty::tier_name(self@.difficulty),
            r.format@ == replay::FORMAT_DOC@,
            r.givens_board@ == replay::board_chars(self@.givens, true),
            r.solution_board@ == replay::board_chars(self@.solution, false),
            r.started_at_unix_ms == self@.started,
            r.total_solve_seconds == seconds,
            r.total_solve_nanos == nanos,
            r.mistakes_count == self@.mistakes,
            r.completed == self@.solved,
            replay::moves_of(r.moves@) == self@.log,
    {
        assert(self@.givens == self.initial_board@);
        assert(self@.solution == self.solution_board@);
        GameSessionReport {
            engine_version: "3.0.0-rs".to_owned(),
            difficulty: self.difficulty.name().to_owned(),
            format: replay::FORMAT_DOC.to_owned(),
            givens_board: replay::board_text(&self.initial_board, true),
            solution_board: replay::board_text(&self.solution_board, false),
            started_at_unix_ms: self.started_at_unix_ms,
            total_solve_seconds: seconds,
            total_solve_nanos: nanos,
            mistakes_count: self.mistakes_count,
            completed: self.solved,
            moves: replay::copy_moves(&self.moves_log),
        }
    }
}

fn single(idx: usize) -> (v: Vec<usize>)
    ensures
        v@ == seq![idx],
{
    let mut v: Vec<usize> = Vec::new();
    v.push(idx);
    assert(v@ =~= seq![idx]);
    v
}

} // verus!
