//! What the player's actions do, cell by cell and note by note.

use crate::game;
use crate::game::{CellState, Cue, Game};
use crate::game_laws;
use crate::geometry;
use crate::seqs;
use crate::settings::{NoteMode, Screen, Settings};
use vstd::prelude::*;

verus! {

/// Digit `e` is among the notes.
pub open spec fn has_note(notes: u16, e: u8) -> bool {
    notes & (1u16 << e) != 0
}

proof fn lemma_bits(c: u16, num: u8, e: u8)
    by (bit_vector)
    requires
        num < 16,
        e < 16,
    ensures
        (c & !(1u16 << num)) & (1u16 << e) != 0 <==> c & (1u16 << e) != 0 && e != num,
        (c ^ (1u16 << num)) & (1u16 << e) != 0 <==> (c & (1u16 << e) != 0) != (e == num),
        0u16 & (1u16 << e) == 0,
{
}

/// What no action of the player changes.
pub open spec fn same_session(g: Game, h: Game) -> bool {
    &&& h.screen == g.screen
    &&& h.return_to == g.return_to
    &&& h.settings == g.settings
    &&& h.theme == g.theme
    &&& h.difficulty == g.difficulty
    &&& h.mode == g.mode
    &&& h.givens == g.givens
    &&& h.solution == g.solution
    &&& h.started == g.started
    &&& h.generating == g.generating
    &&& h.grid.len() == g.grid.len()
}

/// The log has one more move: what was done to which cell, and when.
pub open spec fn logs(
    g: Game,
    h: Game,
    cell: usize,
    code: Seq<char>,
    digit: u8,
    ms: u128,
    extra: int,
) -> bool {
    &&& h.log.len() == g.log.len() + 1
    &&& h.log.take(g.log.len() as int) == g.log
    &&& h.log.last().cell == cell
    &&& h.log.last().code == code
    &&& h.log.last().digit == digit
    &&& h.log.last().ms == ms
    &&& h.log.last().extra == extra
}

/// Every cell holds the digit of the solution.
pub open spec fn is_right(grid: Seq<CellState>, solution: Seq<u8>) -> bool {
    forall|j: int| 0 <= j < 81 ==> (#[trigger] grid[j]).value == solution[j]
}

/// The notes of cell `j` are what they were, but that digit `num` is gone where `gone`
/// says so.
pub open spec fn notes_but(a: CellState, b: CellState, num: u8, gone: bool) -> bool {
    forall|e: u8|
        e < 16 ==> #[trigger] has_note(b.corner_notes, e) == (has_note(a.corner_notes, e) && !(gone
            && e == num)) && has_note(b.center_notes, e) == (has_note(a.center_notes, e) && !(gone
            && e == num))
}

proof fn lemma_log(g: Game, h: Game)
    requires
        h.log.len() == g.log.len() + 1,
        h.log == g.log.push(h.log.last()),
    ensures
        h.log.take(g.log.len() as int) == g.log,
{
    assert(h.log.take(g.log.len() as int) =~= g.log);
}

proof fn lemma_right(grid: Seq<CellState>, solution: Seq<u8>)
    ensures
        game::all_right(grid, solution) == is_right(grid, solution),
{
    if is_right(grid, solution) {
        assert forall|i: int| #![trigger grid[i]] 0 <= i < 81 implies grid[i].value == solution[i] by {}
    }
}

/// Placing a digit: the cell holds it and loses its notes. With smart notes, the digit
/// leaves the corner notes and the center notes of every cell in the same row, column
/// and box; every other note stays, and so does every other digit. One mistake is
/// counted if the digit is not the solution's, and none if it is. The puzzle is solved
/// if every cell is right now. The sound says whether the digit is right, and another
/// one that the puzzle has been solved by it.
pub proof fn law_placing(g: Game, i: usize, num: u8, ms: u128)
    requires
        game::wf(g),
        g.selected == Some(i),
        g.mode == NoteMode::Normal,
        !g.grid[i as int].given,
        g.grid[i as int].value != num,
        num < 16,
        g.log.len() < usize::MAX,
    ensures
        ({
            let (h, cues) = game::number_input(g, num, ms);
            let right = g.solution[i as int] == num;
            &&& same_session(g, h)
            &&& h.selected == Some(i)
            &&& !h.grid[i as int].given
            &&& h.grid[i as int].value == num
            &&& h.grid[i as int].corner_notes == 0
            &&& h.grid[i as int].center_notes == 0
            &&& forall|j: int|
                0 <= j < 81 && j != i ==> (#[trigger] h.grid[j]).value == g.grid[j].value
                    && h.grid[j].given == g.grid[j].given && notes_but(
                    g.grid[j],
                    h.grid[j],
                    num,
                    g.settings.smart_notes && geometry::shares(i as int, j),
                )
            &&& h.mistakes == g.mistakes + if right {
                0int
            } else {
                1
            }
            &&& h.solved == is_right(h.grid, g.solution)
            &&& logs(g, h, i, "P"@, num, ms, 0)
            &&& h.stack.len() == g.stack.len() + 1
            &&& !g.settings.sound_enabled ==> cues == Seq::<Cue>::empty()
            &&& g.settings.sound_enabled ==> cues.len() >= 1 && cues[0] == (if right {
                Cue::Click
            } else {
                Cue::Error
            })
            &&& g.settings.sound_enabled ==> if h.solved && !g.solved {
                cues.len() == 2 && cues[1] == Cue::Success
            } else {
                cues.len() == 1
            }
        }),
{
    let h = game::number_input(g, num, ms).0;
    lemma_log(g, h);
    lemma_right(h.grid, g.solution);
    assert forall|j: int| 0 <= j < 81 && j != i implies (#[trigger] h.grid[j]).value
        == g.grid[j].value && h.grid[j].given == g.grid[j].given && notes_but(
        g.grid[j],
        h.grid[j],
        num,
        g.settings.smart_notes && geometry::shares(i as int, j),
    ) by {
        geometry::law_peers_share(i as int, j);
        assert forall|e: u8|
            e < 16 implies #[trigger] has_note(h.grid[j].corner_notes, e) == (has_note(
            g.grid[j].corner_notes,
            e,
        ) && !(g.settings.smart_notes && geometry::shares(i as int, j) && e == num)) && has_note(
            h.grid[j].center_notes,
            e,
        ) == (has_note(g.grid[j].center_notes, e) && !(g.settings.smart_notes && geometry::shares(
            i as int,
            j,
        ) && e == num)) by {
            lemma_bits(g.grid[j].corner_notes, num, e);
            lemma_bits(g.grid[j].center_notes, num, e);
        }
    }
}

/// With smart notes, no cell in the row, the column or the box of a digit that was
/// placed keeps it as a note, in the corner or in the middle.
pub proof fn law_smart_notes_leave_no_mark(g: Game, i: usize, num: u8, ms: u128, j: int)
    requires
        game::wf(g),
        g.selected == Some(i),
        g.mode == NoteMode::Normal,
        g.settings.smart_notes,
        !g.grid[i as int].given,
        g.grid[i as int].value != num,
        num < 16,
        g.log.len() < usize::MAX,
        0 <= j < 81,
        i == j || geometry::shares(i as int, j),
    ensures
        game::number_input(g, num, ms).0.grid[j].corner_notes & (1u16 << num) == 0,
        game::number_input(g, num, ms).0.grid[j].center_notes & (1u16 << num) == 0,
{
    law_placing(g, i, num, ms);
    let h = game::number_input(g, num, ms).0;
    lemma_bits(0, num, num);
    if i != j {
        assert(notes_but(g.grid[j], h.grid[j], num, true));
        assert(!has_note(h.grid[j].corner_notes, num));
    }
}

/// The digit that stands in the cell already is taken away by entering it again. Its
/// notes, all other cells and the mistakes stay.
pub proof fn law_entering_again_clears(g: Game, i: usize, num: u8, ms: u128)
    requires
        game::wf(g),
        g.selected == Some(i),
        g.mode == NoteMode::Normal,
        !g.grid[i as int].given,
        g.grid[i as int].value == num,
    ensures
        ({
            let (h, cues) = game::number_input(g, num, ms);
            &&& same_session(g, h)
            &&& h.selected == Some(i)
            &&& !h.grid[i as int].given
            &&& h.grid[i as int].value == 0
            &&& h.grid[i as int].corner_notes == g.grid[i as int].corner_notes
            &&& h.grid[i as int].center_notes == g.grid[i as int].center_notes
            &&& forall|j: int| 0 <= j < 81 && j != i ==> #[trigger] h.grid[j] == g.grid[j]
            &&& h.mistakes == g.mistakes
            &&& h.solved == is_right(h.grid, g.solution)
            &&& logs(g, h, i, "C"@, num, ms, 0)
            &&& h.stack.len() == g.stack.len() + 1
            &&& cues == if g.settings.sound_enabled && h.solved && !g.solved {
                seq![Cue::Success]
            } else {
                Seq::<Cue>::empty()
            }
        }),
{
    let h = game::number_input(g, num, ms).0;
    lemma_log(g, h);
    lemma_right(h.grid, g.solution);
}

/// A note that is entered is added where it was not there, and else removed; the log
/// tells which. No other note, no digit and no other cell changes, and no mistake is
/// counted.
pub proof fn law_noting(g: Game, i: usize, num: u8, ms: u128)
    requires
        game::wf(g),
        g.selected == Some(i),
        g.mode != NoteMode::Normal,
        !g.grid[i as int].given,
        num < 16,
    ensures
        ({
            let (h, cues) = game::number_input(g, num, ms);
            let corner = g.mode == NoteMode::Corner;
            let (a, b) = (g.grid[i as int], h.grid[i as int]);
            &&& same_session(g, h)
            &&& h.selected == Some(i)
            &&& b.given == a.given
            &&& b.value == a.value
            &&& forall|e: u8|
                e < 16 ==> #[trigger] has_note(b.corner_notes, e) == (has_note(a.corner_notes, e)
                    != (corner && e == num))
            &&& forall|e: u8|
                e < 16 ==> #[trigger] has_note(b.center_notes, e) == (has_note(a.center_notes, e)
                    != (!corner && e == num))
            &&& forall|j: int| 0 <= j < 81 && j != i ==> #[trigger] h.grid[j] == g.grid[j]
            &&& h.mistakes == g.mistakes
            &&& h.solved == g.solved
            &&& corner ==> logs(
                g,
                h,
                i,
                if has_note(b.corner_notes, num) {
                    "x+"@
                } else {
                    "x-"@
                },
                num,
                ms,
                0,
            )
            &&& !corner ==> logs(
                g,
                h,
                i,
                if has_note(b.center_notes, num) {
                    "e+"@
                } else {
                    "e-"@
                },
                num,
                ms,
                0,
            )
            &&& h.stack.len() == g.stack.len() + 1
            &&& cues == if g.settings.sound_enabled {
                seq![Cue::Tick]
            } else {
                Seq::<Cue>::empty()
            }
        }),
{
    let h = game::number_input(g, num, ms).0;
    let (a, b) = (g.grid[i as int], h.grid[i as int]);
    let corner = g.mode == NoteMode::Corner;
    lemma_log(g, h);
    assert forall|e: u8| e < 16 implies #[trigger] has_note(b.corner_notes, e) == (has_note(
        a.corner_notes,
        e,
    ) != (corner && e == num)) by {
        lemma_bits(a.corner_notes, num, e);
    }
    assert forall|e: u8| e < 16 implies #[trigger] has_note(b.center_notes, e) == (has_note(
        a.center_notes,
        e,
    ) != (!corner && e == num)) by {
        lemma_bits(a.center_notes, num, e);
    }
    assert(has_note(b.corner_notes, num) == (has_note(a.corner_notes, num) != corner));
    assert(has_note(b.center_notes, num) == (has_note(a.center_notes, num) == corner));
}

/// Nothing is entered without a selected cell, or where it is a given.
pub proof fn law_nothing_to_enter(g: Game, num: u8, ms: u128)
    requires
        g.selected matches Some(i) ==> g.grid[i as int].given,
    ensures
        game::number_input(g, num, ms).0 == g,
        game::number_input(g, num, ms).1.len() == 0,
        game::cell_clearing(g, ms).0 == g,
        game::cell_clearing(g, ms).1.len() == 0,
{
}

/// Clearing takes the digit of a cell away and leaves its notes; where there is no
/// digit, it takes all the notes away, those in the corner and those in the middle.
/// Nothing else changes.
pub proof fn law_clearing(g: Game, i: usize, ms: u128)
    requires
        game::wf(g),
        g.selected == Some(i),
        !g.grid[i as int].given,
    ensures
        ({
            let (h, cues) = game::cell_clearing(g, ms);
            let (a, b) = (g.grid[i as int], h.grid[i as int]);
            let bare = a.value == 0 && a.corner_notes == 0 && a.center_notes == 0;
            &&& same_session(g, h)
            &&& h.selected == Some(i)
            &&& h.mistakes == g.mistakes
            &&& !b.given
            &&& b.value == 0
            &&& a.value != 0 ==> b.corner_notes == a.corner_notes && b.center_notes
                == a.center_notes && logs(g, h, i, "C"@, a.value, ms, 0)
            &&& a.value == 0 ==> b.corner_notes == 0 && b.center_notes == 0
            &&& a.value == 0 && !bare ==> logs(g, h, i, "N"@, 0, ms, 0)
            &&& bare ==> h == g && cues.len() == 0
            &&& !bare ==> h.solved == is_right(h.grid, g.solution) && h.stack.len()
                == g.stack.len() + 1
            &&& !bare && g.settings.sound_enabled ==> cues == seq![Cue::Tick]
            &&& !g.settings.sound_enabled ==> cues.len() == 0
            &&& forall|j: int| 0 <= j < 81 && j != i ==> #[trigger] h.grid[j] == g.grid[j]
        }),
{
    let h = game::cell_clearing(g, ms).0;
    let a = g.grid[i as int];
    if a.value != 0 || a.corner_notes != 0 || a.center_notes != 0 {
        lemma_log(g, h);
    }
    lemma_right(h.grid, g.solution);
}

/// Clearing a cell twice leaves it with no digit and no notes, and a third time does
/// nothing.
pub proof fn law_clearing_twice_empties(g: Game, i: usize, ms: u128, later: u128, last: u128)
    requires
        game::wf(g),
        g.selected == Some(i),
        !g.grid[i as int].given,
        g.log.len() + 1 < usize::MAX,
    ensures
        ({
            let h = game::cell_clearing(g, ms).0;
            let k = game::cell_clearing(h, later).0;
            &&& k.grid[i as int].value == 0
            &&& k.grid[i as int].corner_notes == 0
            &&& k.grid[i as int].center_notes == 0
            &&& game::cell_clearing(k, last).0 == k
        }),
{
    let h = game::cell_clearing(g, ms).0;
    let k = game::cell_clearing(h, later).0;
    law_clearing(g, i, ms);
    game_laws::law_actions_keep_wf(g, 0, ms);
    game::law_one_move_each(g, 0, ms);
    law_clearing(h, i, later);
    game_laws::law_actions_keep_wf(h, 0, later);
    law_clearing(k, i, last);
}

/// Undo puts the cells of the last entry back as the entry has them, and touches no
/// other cell; the mistakes are the entry's, its first cell is selected, and the log
/// names its step.
pub proof fn law_undoing(g: Game, ms: u128)
    requires
        game::wf(g),
        g.stack.len() > 0,
        forall|a: int, b: int|
            0 <= a < b < g.stack.last().cells.len() ==> g.stack.last().cells[a].idx
                != g.stack.last().cells[b].idx,
    ensures
        ({
            let (h, cues) = game::undoing(g, ms);
            let e = g.stack.last();
            &&& same_session(g, h)
            &&& h.selected == Some(e.cells[0].idx)
            &&& h.mistakes == e.mistakes
            &&& h.stack == g.stack.take(g.stack.len() - 1)
            &&& h.solved == is_right(h.grid, g.solution)
            &&& logs(g, h, e.cells[0].idx, "U"@, 0, ms, e.step as int)
            &&& forall|k: int|
                0 <= k < e.cells.len() ==> {
                    let c = h.grid[(#[trigger] e.cells[k]).idx as int];
                    &&& c.value == e.cells[k].value
                    &&& c.corner_notes == e.cells[k].corner_notes
                    &&& c.center_notes == e.cells[k].center_notes
                    &&& c.given == g.grid[e.cells[k].idx as int].given
                }
            &&& forall|j: int|
                0 <= j < 81 && (forall|k: int|
                    0 <= k < e.cells.len() ==> (#[trigger] e.cells[k]).idx != j)
                    ==> #[trigger] h.grid[j] == g.grid[j]
            &&& cues == if g.settings.sound_enabled {
                seq![Cue::Tick]
            } else {
                Seq::<Cue>::empty()
            }
        }),
{
    let h = game::undoing(g, ms).0;
    let e = g.stack.last();
    assert(g.stack[g.stack.len() - 1] == e);
    assert(game::entry_ok(e, g.log.len()));
    assert(h.stack =~= g.stack.take(g.stack.len() - 1));
    lemma_restored_cells(g.grid, e.cells);
    lemma_log(g, h);
    lemma_right(h.grid, g.solution);
}

proof fn lemma_restored_cells(grid: Seq<CellState>, cells: Seq<game::CellSnapshot>)
    requires
        grid.len() == 81,
        forall|k: int| 0 <= k < cells.len() ==> (#[trigger] cells[k]).idx < 81,
        forall|a: int, b: int| 0 <= a < b < cells.len() ==> cells[a].idx != cells[b].idx,
    ensures
        game::restored(grid, cells).len() == 81,
        forall|k: int|
            0 <= k < cells.len() ==> {
                let c = game::restored(grid, cells)[(#[trigger] cells[k]).idx as int];
                &&& c.value == cells[k].value
                &&& c.corner_notes == cells[k].corner_notes
                &&& c.center_notes == cells[k].center_notes
                &&& c.given == grid[cells[k].idx as int].given
            },
        forall|j: int|
            0 <= j < 81 && (forall|k: int|
                0 <= k < cells.len() ==> (#[trigger] cells[k]).idx != j)
                ==> #[trigger] game::restored(grid, cells)[j] == grid[j],
        forall|j: int|
            0 <= j < 81 ==> (#[trigger] game::restored(grid, cells)[j]).given == grid[j].given,
    decreases cells.len(),
{
    if cells.len() > 0 {
        let t = cells.drop_last();
        let last = cells.last();
        assert(cells[cells.len() - 1] == last);
        assert forall|k: int| 0 <= k < t.len() implies (#[trigger] t[k]).idx < 81 by {
            assert(t[k] == cells[k]);
        }
        lemma_restored_cells(grid, t);
        let before = game::restored(grid, t);
        let after = game::restored(grid, cells);
        assert forall|k: int| 0 <= k < cells.len() implies {
            let c = after[(#[trigger] cells[k]).idx as int];
            &&& c.value == cells[k].value
            &&& c.corner_notes == cells[k].corner_notes
            &&& c.center_notes == cells[k].center_notes
            &&& c.given == grid[cells[k].idx as int].given
        } by {
            if k < t.len() {
                assert(t[k] == cells[k]);
                assert(cells[k].idx != last.idx);
            }
        }
        assert forall|j: int|
            0 <= j < 81 && (forall|k: int|
                0 <= k < cells.len() ==> (#[trigger] cells[k]).idx != j) implies #[trigger] after[j]
            == grid[j] by {
            assert(last.idx != j);
            assert forall|k: int| 0 <= k < t.len() implies (#[trigger] t[k]).idx != j by {
                assert(t[k] == cells[k]);
            }
        }
    }
}

/// Without anything to undo, undo does nothing.
pub proof fn law_nothing_to_undo(g: Game, ms: u128)
    requires
        g.stack.len() == 0,
    ensures
        game::undoing(g, ms).0 == g,
        game::undoing(g, ms).1.len() == 0,
{
}

/// A game begins with the puzzle: a cell is a given exactly where the puzzle has a
/// digit, and there are no notes, no mistakes and nothing to undo.
pub proof fn law_dealing(g: Game, puzzle: Seq<u8>, solution: Seq<u8>, now: u128)
    ensures
        ({
            let h = game::dealt(g, puzzle, solution, now);
            &&& h.grid.len() == 81
            &&& forall|j: int|
                0 <= j < 81 ==> (#[trigger] h.grid[j]).value == puzzle[j] && (h.grid[j].given
                    <==> puzzle[j] != 0) && h.grid[j].corner_notes == 0 && h.grid[j].center_notes
                    == 0
            &&& h.givens == puzzle
            &&& h.solution == solution
            &&& h.mistakes == 0
            &&& !h.solved
            &&& !h.generating
            &&& h.stack.len() == 0
            &&& h.selected == Some(0usize)
            &&& h.started == now
            &&& h.screen == g.screen
            &&& h.return_to == g.return_to
            &&& h.settings == g.settings
            &&& h.theme == g.theme
            &&& h.difficulty == g.difficulty
            &&& h.mode == g.mode
            &&& h.log.len() == if g.settings.smart_notes {
                0int
            } else {
                1
            }
        }),
{
}

/// At the start there is no puzzle, nothing is selected, logged or to be undone, and the
/// theme is that of the settings.
pub proof fn law_starting(settings: Settings, now: u128)
    ensures
        ({
            let g = game::fresh(settings, now);
            &&& game::wf(g)
            &&& g.grid.len() == 0
            &&& g.selected is None
            &&& g.log.len() == 0
            &&& g.stack.len() == 0
            &&& g.mistakes == 0
            &&& !g.solved
            &&& !g.generating
            &&& g.settings == settings
            &&& g.theme == settings.theme
            &&& g.started == now
            &&& g.screen == Screen::MainMenu
            &&& g.return_to == Screen::MainMenu
            &&& g.mode == NoteMode::Normal
        }),
{
}

/// What an action can be undone with holds each cell that it touches as it is, the
/// mistakes so far, and the number of the move.
pub proof fn law_undo_entry(g: Game, touched: Seq<usize>, k: int)
    requires
        game::wf(g),
        g.log.len() < usize::MAX,
        0 <= k < touched.len(),
    ensures
        ({
            let e = game::entry_for(g, touched);
            let c = g.grid[touched[k] as int];
            &&& e.cells.len() == touched.len()
            &&& e.cells[k].idx == touched[k]
            &&& e.cells[k].value == c.value
            &&& e.cells[k].corner_notes == c.corner_notes
            &&& e.cells[k].center_notes == c.center_notes
            &&& e.mistakes == g.mistakes
            &&& e.step == g.log.len() + 1
        }),
{
}

/// Placing a digit touches its cell first, and with smart notes then exactly those cells
/// of the same row, column and box that have the digit among their notes of either kind;
/// each of them once.
pub proof fn law_what_placing_touches(g: Game, i: usize, num: u8, p: usize)
    requires
        g.grid.len() == 81,
        i < 81,
    ensures
        game::touched_by(g, i, num)[0] == i,
        game::touched_by(g, i, num).no_duplicates(),
        game::touched_by(g, i, num).contains(p) <==> p == i || (p < 81 && g.settings.smart_notes
            && geometry::shares(i as int, p as int) && (has_note(g.grid[p as int].corner_notes, num)
            || has_note(g.grid[p as int].center_notes, num))),
{
    let walk = game::peer_walk(i as int);
    let marked = game::is_marked(g.grid, num);
    let all = game::touched_by(g, i, num);
    game::law_peer_walk(i as int);
    seqs::lemma_filter_members(walk, marked);
    let more = walk.filter(marked);
    if p < 81 {
        geometry::law_peers_share(i as int, p as int);
    }
    assert(all[0] == i);
    if g.settings.smart_notes {
        assert forall|k: int| 0 < k < all.len() implies #[trigger] all[k] == more[k - 1] && all[k]
            != i by {
            assert(more.contains(more[k - 1]));
        }
        if more.contains(p) {
            let k = more.index_of(p);
            assert(all[k + 1] == p);
        }
        if all.contains(p) && p != i {
            let k = all.index_of(p);
            assert(more[k - 1] == p);
        }
    }
}

} // verus!
