//! What holds of a whole game: undo takes actions back, and the log replays.

use crate::game;
use crate::game::{CellSnapshot, CellState, Game};
use crate::geometry;
use crate::replay::Move;
use crate::seqs;
use crate::settings::NoteMode;
use crate::solver;
use vstd::prelude::*;

verus! {

// ---- Notes as bits ----

pub proof fn lemma_note_bits(c: u16, num: u8)
    by (bit_vector)
    requires
        num < 16,
    ensures
        c & (1u16 << num) == 0 ==> c & !(1u16 << num) == c,
        c & (1u16 << num) == 0 ==> c ^ (1u16 << num) == c | (1u16 << num),
        c & (1u16 << num) != 0 ==> c ^ (1u16 << num) == c & !(1u16 << num),
        (c ^ (1u16 << num)) ^ (1u16 << num) == c,
        0u16 & !(1u16 << num) == 0,
{
}

/// Switching a note twice changes nothing.
pub proof fn law_notes_switch_back(grid: Seq<CellState>, i: int, num: u8)
    requires
        0 <= i < grid.len(),
        num < 16,
    ensures
        game::corner_switched(game::corner_switched(grid, i, num), i, num) == grid,
        game::center_switched(game::center_switched(grid, i, num), i, num) == grid,
{
    lemma_note_bits(grid[i].corner_notes, num);
    lemma_note_bits(grid[i].center_notes, num);
    assert(game::corner_switched(game::corner_switched(grid, i, num), i, num) =~= grid);
    assert(game::center_switched(game::center_switched(grid, i, num), i, num) =~= grid);
}

/// The cells differ in the note `num` at most.
pub open spec fn same_but_note(a: CellState, b: CellState, num: u8) -> bool {
    &&& a.given == b.given
    &&& a.value == b.value
    &&& forall|e: u8|
        #![trigger 1u16 << e]
        e < 16 && e != num ==> a.corner_notes & (1u16 << e) == b.corner_notes & (1u16 << e)
            && a.center_notes & (1u16 << e) == b.center_notes & (1u16 << e)
}

proof fn lemma_other_bits(c: u16, num: u8, e: u8)
    by (bit_vector)
    requires
        num < 16,
        e < 16,
        e != num,
    ensures
        (c ^ (1u16 << num)) & (1u16 << e) == c & (1u16 << e),
{
}

/// A note that is entered twice brings the grid back. Neither time does anything but
/// that note of the selected cell change, and no mistake is counted.
pub proof fn law_second_note_takes_back(g: Game, num: u8, ms: u128, later: u128)
    requires
        game::wf(g),
        g.mode != NoteMode::Normal,
        num < 16,
    ensures
        ({
            let h = game::number_input(g, num, ms).0;
            let k = game::number_input(h, num, later).0;
            &&& k.grid == g.grid
            &&& h.mistakes == g.mistakes && k.mistakes == g.mistakes
            &&& h.solved == g.solved && k.solved == g.solved
            &&& h.grid.len() == g.grid.len()
            &&& forall|j: int|
                0 <= j < g.grid.len() ==> if g.selected == Some(j as usize) {
                    same_but_note(#[trigger] h.grid[j], g.grid[j], num)
                } else {
                    h.grid[j] == g.grid[j]
                }
        }),
{
    let h = game::number_input(g, num, ms).0;
    let k = game::number_input(h, num, later).0;
    if let Some(i) = g.selected {
        let at = i as int;
        if !g.grid[at].given {
            law_notes_switch_back(g.grid, at, num);
            let (a, b) = (h.grid[at], g.grid[at]);
            assert forall|e: u8|
                #![trigger 1u16 << e]
                e < 16 && e != num implies a.corner_notes & (1u16 << e) == b.corner_notes & (1u16
                << e) && a.center_notes & (1u16 << e) == b.center_notes & (1u16 << e) by {
                lemma_other_bits(b.corner_notes, num, e);
                lemma_other_bits(b.center_notes, num, e);
            }
        }
    }
}

// ---- Undo ----

/// `after` differs from `before` in the listed cells at most, and makes no cell a
/// given.
pub open spec fn differs_at(
    before: Seq<CellState>,
    after: Seq<CellState>,
    touched: Seq<usize>,
) -> bool {
    &&& before.len() == 81
    &&& after.len() == 81
    &&& forall|j: int|
        #![trigger after[j]]
        0 <= j < 81 ==> after[j].given == before[j].given && (touched.contains(j as usize)
            || after[j] == before[j])
}

/// Restoring snapshots of the listed cells gives back the grid.
pub proof fn lemma_restored(before: Seq<CellState>, after: Seq<CellState>, touched: Seq<usize>)
    requires
        differs_at(before, after, touched),
        forall|k: int| 0 <= k < touched.len() ==> #[trigger] touched[k] < 81,
    ensures
        game::restored(after, touched.map_values(game::to_snapshot(before))) == before,
{
    let cells = touched.map_values(game::to_snapshot(before));
    lemma_restored_part(before, after, touched, touched.len());
    assert(cells.take(touched.len() as int) =~= cells);
    assert(touched.take(touched.len() as int) =~= touched);
    assert(game::restored(after, cells) =~= before);
}

proof fn lemma_restored_part(
    before: Seq<CellState>,
    after: Seq<CellState>,
    touched: Seq<usize>,
    n: nat,
)
    requires
        differs_at(before, after, touched),
        forall|k: int| 0 <= k < touched.len() ==> #[trigger] touched[k] < 81,
        n <= touched.len(),
    ensures
        ({
            let part = game::restored(
                after,
                touched.map_values(game::to_snapshot(before)).take(n as int),
            );
            &&& part.len() == 81
            &&& forall|j: int|
                #![trigger part[j]]
                0 <= j < 81 ==> part[j] == if touched.take(n as int).contains(j as usize) {
                    before[j]
                } else {
                    after[j]
                }
        }),
    decreases n,
{
    let cells = touched.map_values(game::to_snapshot(before));
    if n == 0 {
        assert(cells.take(0) =~= Seq::<CellSnapshot>::empty());
        assert(touched.take(0) =~= Seq::<usize>::empty());
    } else {
        let m = n - 1;
        lemma_restored_part(before, after, touched, m as nat);
        assert(cells.take(n as int).drop_last() =~= cells.take(m));
        let i = touched[m];
        assert(cells.take(n as int).last() == game::snapshot(before, i));
        assert(touched.take(n as int) =~= touched.take(m).push(i));
        solver::lemma_push_members(touched.take(m), i);
        let part = game::restored(after, cells.take(n as int));
        let earlier = game::restored(after, cells.take(m));
        assert forall|j: int| #![trigger part[j]] 0 <= j < 81 implies part[j]
            == if touched.take(n as int).contains(j as usize) {
            before[j]
        } else {
            after[j]
        } by {
            assert(earlier[j].given == before[j].given);
            assert(touched.take(n as int).contains(j as usize) <==> touched.take(m).contains(
                j as usize,
            ) || j == i);
        }
    }
}

/// Placing a digit changes just the cells that it is said to touch.
pub proof fn lemma_placed_touches(g: Game, i: usize, num: u8)
    requires
        game::wf(g),
        g.grid.len() == 81,
        i < 81,
        num < 16,
    ensures
        differs_at(
            g.grid,
            game::placed(g.grid, g.settings.smart_notes, i as int, num),
            game::touched_by(g, i, num),
        ),
{
    let after = game::placed(g.grid, g.settings.smart_notes, i as int, num);
    let touched = game::touched_by(g, i, num);
    game::law_peer_walk(i as int);
    let pred = game::is_marked(g.grid, num);
    let more = game::peer_walk(i as int).filter(pred);
    seqs::lemma_filter_members(game::peer_walk(i as int), pred);
    assert forall|j: int| #![trigger after[j]] 0 <= j < 81 implies after[j].given == g.grid[j].given
        && (touched.contains(j as usize) || after[j] == g.grid[j]) by {
        if j == i {
            assert(touched[0] == i);
        } else if g.settings.smart_notes && geometry::peer(i as int, j) {
            lemma_note_bits(g.grid[j].corner_notes, num);
            lemma_note_bits(g.grid[j].center_notes, num);
            if pred(j as usize) {
                assert(more.contains(j as usize));
                let k = more.index_of(j as usize);
                assert(touched[k + 1] == j);
            }
        }
    }
}

/// What undoing an action leaves of it.
proof fn lemma_undo_acted(
    g: Game,
    grid: Seq<CellState>,
    wrong: int,
    touched: Seq<usize>,
    m: Move,
    ms: u128,
)
    requires
        game::wf(g),
        touched.len() > 0,
        forall|k: int| 0 <= k < touched.len() ==> #[trigger] touched[k] < 81,
        differs_at(g.grid, grid, touched),
        g.log.len() < usize::MAX,
    ensures
        is_taken_back(g, game::undoing(game::acted(g, grid, wrong, touched, m), ms).0),
        is_taken_back(
            g,
            game::undoing(game::checked(game::acted(g, grid, wrong, touched, m)), ms).0,
        ),
        game::acted(g, grid, wrong, touched, m).stack.len() == g.stack.len() + 1,
{
    let h = game::acted(g, grid, wrong, touched, m);
    lemma_restored(g.grid, grid, touched);
    assert(h.stack.last() == game::entry_for(g, touched));
    assert(h.stack.drop_last() =~= g.stack);
    assert(game::undoing(h, ms).0.log.take(g.log.len() as int) =~= g.log);
    assert(game::undoing(game::checked(h), ms).0.log.take(g.log.len() as int) =~= g.log);
}

/// The grid, the mistakes and what can be undone are those of `g` again, and the game
/// is solved if its grid is. The log has two moves more: an action, and an undo that
/// names its step.
pub open spec fn is_taken_back(g: Game, u: Game) -> bool {
    &&& u.grid == g.grid
    &&& u.mistakes == g.mistakes
    &&& u.stack == g.stack
    &&& u.solved == game::all_right(g.grid, g.solution)
    &&& u.givens == g.givens
    &&& u.solution == g.solution
    &&& u.settings == g.settings
    &&& u.log.len() == g.log.len() + 2
    &&& u.log.take(g.log.len() as int) == g.log
    &&& u.log.last().code == "U"@
    &&& u.log.last().digit == 0
    &&& u.log.last().extra == g.log.len() + 1
}

/// Entering a number leaves the game alone, or undo takes it back: every cell, its
/// notes and those of its peers, the mistake counter, and what can be undone.
pub proof fn law_undo_takes_input_back(g: Game, num: u8, ms: u128, later: u128)
    requires
        game::wf(g),
        game::enters(g, num) ==> num < 16,
        g.log.len() < usize::MAX,
    ensures
        game::number_input(g, num, ms).0 == g || is_taken_back(
            g,
            game::undoing(game::number_input(g, num, ms).0, later).0,
        ),
{
    if let Some(i) = g.selected {
        if !g.grid[i as int].given {
            match g.mode {
                NoteMode::Normal => {
                    if g.grid[i as int].value == num {
                        lemma_one_cell(g, game::emptied(g.grid, i as int), i);
                        lemma_undo_acted(
                            g,
                            game::emptied(g.grid, i as int),
                            0,
                            seq![i],
                            game::move_at(i, "C"@, num, ms, 0),
                            later,
                        );
                    } else {
                        lemma_placed_touches(g, i, num);
                        game::lemma_touched(g, i, num);
                        lemma_undo_acted(
                            g,
                            game::placed(g.grid, g.settings.smart_notes, i as int, num),
                            game::wrong_by(g.solution, i as int, num),
                            game::touched_by(g, i, num),
                            game::move_at(i, "P"@, num, ms, 0),
                            later,
                        );
                    }
                },
                NoteMode::Corner => {
                    let m = game::corner_input(g, i, num, ms).0.log.last();
                    lemma_one_cell(g, game::corner_switched(g.grid, i as int, num), i);
                    lemma_undo_acted(
                        g,
                        game::corner_switched(g.grid, i as int, num),
                        0,
                        seq![i],
                        m,
                        later,
                    );
                },
                NoteMode::Center => {
                    let m = game::center_input(g, i, num, ms).0.log.last();
                    lemma_one_cell(g, game::center_switched(g.grid, i as int, num), i);
                    lemma_undo_acted(
                        g,
                        game::center_switched(g.grid, i as int, num),
                        0,
                        seq![i],
                        m,
                        later,
                    );
                },
            }
        }
    }
}

pub proof fn lemma_one_cell(g: Game, grid: Seq<CellState>, i: usize)
    requires
        g.grid.len() == 81,
        i < 81,
        grid == g.grid.update(i as int, grid[i as int]),
        grid[i as int].given == g.grid[i as int].given,
    ensures
        differs_at(g.grid, grid, seq![i]),
{
    assert(seq![i][0] == i);
}

/// Clearing a cell leaves the game alone, or undo takes it back.
pub proof fn law_undo_takes_clearing_back(g: Game, ms: u128, later: u128)
    requires
        game::wf(g),
        g.log.len() < usize::MAX,
    ensures
        game::cell_clearing(g, ms).0 == g || is_taken_back(
            g,
            game::undoing(game::cell_clearing(g, ms).0, later).0,
        ),
{
    if let Some(i) = g.selected {
        let c = g.grid[i as int];
        if !c.given && c.value != 0 {
            lemma_one_cell(g, game::emptied(g.grid, i as int), i);
            lemma_undo_acted(
                g,
                game::emptied(g.grid, i as int),
                0,
                seq![i],
                game::move_at(i, "C"@, c.value, ms, 0),
                later,
            );
        } else if !c.given && (c.corner_notes != 0 || c.center_notes != 0) {
            lemma_one_cell(g, game::unmarked(g.grid, i as int), i);
            lemma_undo_acted(
                g,
                game::unmarked(g.grid, i as int),
                0,
                seq![i],
                game::move_at(i, "N"@, 0, ms, 0),
                later,
            );
        }
    }
}

// ---- What every action keeps ----

/// Actions keep a game well-formed.
pub proof fn law_actions_keep_wf(g: Game, num: u8, ms: u128)
    requires
        game::wf(g),
        g.log.len() < usize::MAX,
    ensures
        game::wf(game::number_input(g, num, ms).0),
        game::wf(game::cell_clearing(g, ms).0),
        game::wf(game::undoing(g, ms).0),
{
    if let Some(i) = g.selected {
        let at = i as int;
        let c = g.grid[at];
        game::lemma_touched(g, i, num);
        game::lemma_acted_wf(
            g,
            game::emptied(g.grid, at),
            0,
            seq![i],
            game::move_at(i, "C"@, c.value, ms, 0),
        );
        game::lemma_acted_wf(
            g,
            game::unmarked(g.grid, at),
            0,
            seq![i],
            game::move_at(i, "N"@, 0, ms, 0),
        );
        game::lemma_acted_wf(
            g,
            game::placed(g.grid, g.settings.smart_notes, at, num),
            game::wrong_by(g.solution, at, num),
            game::touched_by(g, i, num),
            game::move_at(i, "P"@, num, ms, 0),
        );
        game::lemma_acted_wf(
            g,
            game::corner_switched(g.grid, at, num),
            0,
            seq![i],
            game::corner_input(g, i, num, ms).0.log.last(),
        );
        game::lemma_acted_wf(
            g,
            game::center_switched(g.grid, at, num),
            0,
            seq![i],
            game::center_input(g, i, num, ms).0.log.last(),
        );
    }
    lemma_undoing_wf(g, ms);
}

proof fn lemma_restored_len(grid: Seq<CellState>, cells: Seq<CellSnapshot>)
    requires
        grid.len() == 81,
        forall|k: int| 0 <= k < cells.len() ==> (#[trigger] cells[k]).idx < 81,
    ensures
        game::restored(grid, cells).len() == 81,
    decreases cells.len(),
{
    if cells.len() > 0 {
        lemma_restored_len(grid, cells.drop_last());
    }
}

proof fn lemma_undoing_wf(g: Game, ms: u128)
    requires
        game::wf(g),
    ensures
        game::wf(game::undoing(g, ms).0),
{
    if g.stack.len() > 0 {
        let h = game::undoing(g, ms).0;
        let e = g.stack[g.stack.len() - 1];
        assert(game::entry_ok(e, g.log.len()));
        lemma_restored_len(g.grid, e.cells);
        assert forall|k: int| 0 <= k < h.stack.len() implies game::entry_ok(
            #[trigger] h.stack[k],
            h.log.len(),
        ) by {
            assert(h.stack[k] == g.stack[k]);
            assert(game::entry_ok(g.stack[k], g.log.len()));
        }
    }
}

/// A game that is marked as solved exactly where every digit is right stays so.
pub proof fn law_solved_means_right(g: Game, num: u8, ms: u128)
    requires
        game::wf(g),
        g.solved == game::all_right(g.grid, g.solution),
    ensures
        ({
            let h = game::number_input(g, num, ms).0;
            h.solved == game::all_right(h.grid, h.solution)
        }),
        ({
            let h = game::cell_clearing(g, ms).0;
            h.solved == game::all_right(h.grid, h.solution)
        }),
        ({
            let h = game::undoing(g, ms).0;
            h.solved == game::all_right(h.grid, h.solution)
        }),
{
    let h = game::number_input(g, num, ms).0;
    if g.mode != NoteMode::Normal && g.selected is Some {
        assert forall|j: int| 0 <= j < 81 implies (#[trigger] h.grid[j]).value == g.grid[j].value by {}
        assert forall|j: int| #![trigger g.grid[j]] 0 <= j < 81 implies h.grid[j].value
            == g.grid[j].value by {}
        assert(game::all_right(h.grid, g.solution) == game::all_right(g.grid, g.solution));
    }
}

/// Neither entering a number nor clearing changes the digit of a given, and a given
/// without notes stays without.
pub proof fn law_givens_stay(g: Game, num: u8, ms: u128, j: int)
    requires
        game::wf(g),
        game::enters(g, num) ==> num < 16,
        0 <= j < g.grid.len(),
        g.grid[j].given,
    ensures
        game::number_input(g, num, ms).0.grid[j].given,
        game::number_input(g, num, ms).0.grid[j].value == g.grid[j].value,
        g.grid[j].corner_notes == 0 && g.grid[j].center_notes == 0 ==> game::number_input(
            g,
            num,
            ms,
        ).0.grid[j] == g.grid[j],
        game::cell_clearing(g, ms).0.grid[j] == g.grid[j],
{
    if num < 16 {
        lemma_note_bits(0, num);
    }
}

} // verus!
