//! The log of a session replays: the digits and the notes after any step follow from
//! the givens and the moves up to it.

use crate::game;
use crate::game::{CellState, Entry, Game};
use crate::game_laws;
use crate::replay::Move;
use crate::screens;
use crate::screens::{Keys, OptionsInput};
use crate::settings::{NoteMode, Screen, Settings};
use vstd::prelude::*;

verus! {

/// The cells and the mistake counter at some step.
#[verifier::ext_equal]
pub struct Scene {
    pub cells: Seq<CellState>,
    pub mistakes: int,
}

/// The cells of a fresh game.
pub open spec fn opening(givens: Seq<u8>) -> Seq<CellState> {
    Seq::new(
        81,
        |i: int|
            CellState {
                given: givens[i] != 0,
                value: givens[i],
                corner_notes: 0,
                center_notes: 0,
            },
    )
}

pub open spec fn with_corner(c: CellState, notes: u16) -> CellState {
    CellState { corner_notes: notes, ..c }
}

pub open spec fn with_center(c: CellState, notes: u16) -> CellState {
    CellState { center_notes: notes, ..c }
}

/// The scene after a move that is not an undo, read by its code.
pub open spec fn after_move(s: Scene, m: Move, smart: bool, solution: Seq<u8>) -> Scene {
    let i = m.cell as int;
    let c = s.cells[i];
    let bit = 1u16 << m.digit;
    let cells = if m.code == "P"@ {
        game::placed(s.cells, smart, i, m.digit)
    } else if m.code == "C"@ {
        game::emptied(s.cells, i)
    } else if m.code == "N"@ {
        game::unmarked(s.cells, i)
    } else if m.code == "x+"@ {
        s.cells.update(i, with_corner(c, c.corner_notes | bit))
    } else if m.code == "x-"@ {
        s.cells.update(i, with_corner(c, c.corner_notes & !bit))
    } else if m.code == "e+"@ {
        s.cells.update(i, with_center(c, c.center_notes | bit))
    } else if m.code == "e-"@ {
        s.cells.update(i, with_center(c, c.center_notes & !bit))
    } else {
        s.cells
    };
    let wrong: int = if m.code == "P"@ {
        game::wrong_by(solution, i, m.digit)
    } else {
        0
    };
    Scene { cells, mistakes: s.mistakes + wrong }
}

/// Whether smart notes are on after the first `n` moves. They are on at first, and an
/// undo does not switch them.
pub open spec fn smart_after(log: Seq<Move>, n: nat) -> bool
    decreases n,
{
    if n == 0 {
        true
    } else if log[n - 1].code == "S+"@ {
        true
    } else if log[n - 1].code == "S-"@ {
        false
    } else {
        smart_after(log, (n - 1) as nat)
    }
}

/// The scene after the first `n` moves. An undo goes back to the scene before the
/// step that it reverts.
pub open spec fn replayed(givens: Seq<u8>, solution: Seq<u8>, log: Seq<Move>, n: nat) -> Scene
    decreases n,
{
    if n == 0 {
        Scene { cells: opening(givens), mistakes: 0 }
    } else {
        let m = log[n - 1];
        if m.code == "U"@ && 1 <= m.extra < n {
            replayed(givens, solution, log, (m.extra - 1) as nat)
        } else {
            after_move(
                replayed(givens, solution, log, (n - 1) as nat),
                m,
                smart_after(log, (n - 1) as nat),
                solution,
            )
        }
    }
}

/// The grid once all undo entries from number `n` on are taken back.
pub open spec fn peeled(grid: Seq<CellState>, stack: Seq<Entry>, n: nat) -> Seq<CellState>
    decreases stack.len() - n,
{
    if n >= stack.len() {
        grid
    } else {
        game::restored(peeled(grid, stack, n + 1), stack[n as int].cells)
    }
}

/// The scene of the game, replayed up to step `n`.
pub open spec fn scene_at(g: Game, n: nat) -> Scene {
    replayed(g.givens, g.solution, g.log, n)
}

/// Undo entry `n` leads back to the scene before its step.
pub open spec fn leads_back(g: Game, n: int) -> bool {
    let e = g.stack[n];
    &&& 1 <= e.step <= g.log.len()
    &&& peeled(g.grid, g.stack, n as nat) == scene_at(g, (e.step - 1) as nat).cells
    &&& e.mistakes == scene_at(g, (e.step - 1) as nat).mistakes
}

/// The game shows what its log replays to, notes and all, and so does every undo of
/// it; and the log tells whether smart notes are on.
pub open spec fn faithful(g: Game) -> bool {
    g.grid.len() > 0 ==> {
        &&& g.settings.smart_notes == smart_after(g.log, g.log.len())
        &&& g.grid == scene_at(g, g.log.len()).cells
        &&& g.mistakes == scene_at(g, g.log.len()).mistakes
        &&& forall|n: int| 0 <= n < g.stack.len() ==> #[trigger] leads_back(g, n)
    }
}

/// Later moves do not change what earlier ones switch.
proof fn lemma_smart_prefix(log: Seq<Move>, m: Move, n: nat)
    requires
        n <= log.len(),
    ensures
        smart_after(log.push(m), n) == smart_after(log, n),
    decreases n,
{
    if n > 0 {
        assert(log.push(m)[n - 1] == log[n - 1]);
        lemma_smart_prefix(log, m, (n - 1) as nat);
    }
}

/// Later moves do not change what earlier ones replay to.
proof fn lemma_prefix(givens: Seq<u8>, solution: Seq<u8>, log: Seq<Move>, m: Move, n: nat)
    requires
        n <= log.len(),
    ensures
        replayed(givens, solution, log.push(m), n) == replayed(givens, solution, log, n),
    decreases n,
{
    if n > 0 {
        let k = log[n - 1];
        assert(log.push(m)[n - 1] == k);
        lemma_smart_prefix(log, m, (n - 1) as nat);
        if k.code == "U"@ && 1 <= k.extra < n {
            lemma_prefix(givens, solution, log, m, (k.extra - 1) as nat);
        } else {
            lemma_prefix(givens, solution, log, m, (n - 1) as nat);
        }
    }
}

/// One more entry on top, whose undo gives back `grid`.
proof fn lemma_peeled_push(
    grid: Seq<CellState>,
    stack: Seq<Entry>,
    after: Seq<CellState>,
    e: Entry,
    n: nat,
)
    requires
        n <= stack.len(),
        game::restored(after, e.cells) == grid,
    ensures
        peeled(after, stack.push(e), n) == peeled(grid, stack, n),
    decreases stack.len() - n,
{
    let more = stack.push(e);
    if n == stack.len() {
        assert(more[n as int] == e);
        assert(peeled(after, more, n + 1) == after);
    } else {
        assert(more[n as int] == stack[n as int]);
        lemma_peeled_push(grid, stack, after, e, n + 1);
    }
}

/// The application starts without a game, and a game begins as its log replays.
pub proof fn law_start_replays(
    settings: Settings,
    g: Game,
    puzzle: Seq<u8>,
    solution: Seq<u8>,
    now: u128,
)
    ensures
        faithful(game::fresh(settings, now)),
        faithful(game::dealt(g, puzzle, solution, now)),
{
    lemma_codes();
    let h = game::dealt(g, puzzle, solution, now);
    assert(h.grid =~= opening(puzzle));
    let none = Scene { cells: opening(puzzle), mistakes: 0 };
    assert(replayed(puzzle, solution, h.log, 0) == none);
    assert(smart_after(h.log, 0));
    if !g.settings.smart_notes {
        assert(h.log[0].code == "S-"@);
        assert(after_move(none, h.log[0], true, solution) =~= none);
        assert(replayed(puzzle, solution, h.log, 1) == none);
        assert(!smart_after(h.log, 1));
    }
}

/// What has nothing to do with the grid, the log and smart notes keeps a game what its
/// log replays to: the screen, the theme, the other settings, the mode and the
/// selection.
pub proof fn law_other_controls_replay(g: Game, h: Game)
    requires
        faithful(g),
        h.givens == g.givens,
        h.solution == g.solution,
        h.grid == g.grid,
        h.log == g.log,
        h.mistakes == g.mistakes,
        h.stack == g.stack,
        h.settings.smart_notes == g.settings.smart_notes,
    ensures
        faithful(h),
{
    if g.grid.len() > 0 {
        assert forall|n: int| 0 <= n < h.stack.len() implies #[trigger] leads_back(h, n) by {
            assert(leads_back(g, n));
        }
    }
}

proof fn lemma_acted_replays(
    g: Game,
    grid: Seq<CellState>,
    wrong: int,
    touched: Seq<usize>,
    m: Move,
)
    requires
        game::wf(g),
        faithful(g),
        g.log.len() < usize::MAX,
        0 <= wrong <= 1,
        forall|k: int| 0 <= k < touched.len() ==> #[trigger] touched[k] < 81,
        game_laws::differs_at(g.grid, grid, touched),
        m.code != "U"@,
        m.code != "S+"@,
        m.code != "S-"@,
        after_move(
            Scene { cells: g.grid, mistakes: g.mistakes as int },
            m,
            g.settings.smart_notes,
            g.solution,
        ) == (Scene { cells: grid, mistakes: g.mistakes + wrong }),
    ensures
        faithful(game::acted(g, grid, wrong, touched, m)),
        faithful(game::checked(game::acted(g, grid, wrong, touched, m))),
{
    let h = game::acted(g, grid, wrong, touched, m);
    let e = game::entry_for(g, touched);
    let steps = g.log.len();
    game_laws::lemma_restored(g.grid, grid, touched);
    lemma_prefix(g.givens, g.solution, g.log, m, steps);
    lemma_smart_prefix(g.log, m, steps);
    let now = scene_at(g, steps);
    assert(now =~= (Scene { cells: g.grid, mistakes: g.mistakes as int }));
    assert(h.log[steps as int] == m);
    assert(scene_at(h, (steps + 1) as nat) == after_move(
        now,
        m,
        g.settings.smart_notes,
        g.solution,
    ));
    assert forall|n: int| 0 <= n < h.stack.len() implies #[trigger] leads_back(h, n) by {
        lemma_peeled_push(g.grid, g.stack, grid, e, n as nat);
        if n < g.stack.len() {
            assert(h.stack[n] == g.stack[n]);
            assert(leads_back(g, n));
            lemma_prefix(g.givens, g.solution, g.log, m, (g.stack[n].step - 1) as nat);
        } else {
            assert(h.stack[n] == e);
            assert(peeled(g.grid, g.stack, n as nat) == g.grid);
        }
    }
    law_other_controls_replay(h, game::checked(h));
}

proof fn lemma_codes()
    ensures
        "C"@ != "P"@,
        "N"@ != "P"@,
        "N"@ != "C"@,
        "U"@ != "P"@,
        "U"@ != "C"@,
        "U"@ != "N"@,
        "x+"@ != "P"@,
        "x+"@ != "C"@,
        "x+"@ != "N"@,
        "x+"@ != "U"@,
        "x-"@ != "P"@,
        "x-"@ != "C"@,
        "x-"@ != "N"@,
        "x-"@ != "U"@,
        "x-"@ != "x+"@,
        "e+"@ != "P"@,
        "e+"@ != "C"@,
        "e+"@ != "N"@,
        "e+"@ != "U"@,
        "e+"@ != "x+"@,
        "e+"@ != "x-"@,
        "e-"@ != "P"@,
        "e-"@ != "C"@,
        "e-"@ != "N"@,
        "e-"@ != "U"@,
        "e-"@ != "x+"@,
        "e-"@ != "x-"@,
        "e-"@ != "e+"@,
        "S+"@ != "P"@,
        "S+"@ != "C"@,
        "S+"@ != "N"@,
        "S+"@ != "U"@,
        "S+"@ != "x+"@,
        "S+"@ != "x-"@,
        "S+"@ != "e+"@,
        "S+"@ != "e-"@,
        "S-"@ != "P"@,
        "S-"@ != "C"@,
        "S-"@ != "N"@,
        "S-"@ != "U"@,
        "S-"@ != "x+"@,
        "S-"@ != "x-"@,
        "S-"@ != "e+"@,
        "S-"@ != "e-"@,
        "S-"@ != "S+"@,
{
    reveal_strlit("P");
    reveal_strlit("C");
    reveal_strlit("N");
    reveal_strlit("U");
    reveal_strlit("x+");
    reveal_strlit("x-");
    reveal_strlit("e+");
    reveal_strlit("e-");
    reveal_strlit("S+");
    reveal_strlit("S-");
    assert("P"@[0] == 'P' && "C"@[0] == 'C' && "N"@[0] == 'N' && "U"@[0] == 'U');
    assert("x+"@.len() == 2 && "x-"@.len() == 2 && "e+"@.len() == 2 && "e-"@.len() == 2);
    assert("S+"@.len() == 2 && "S-"@.len() == 2);
    assert("x+"@[0] == 'x' && "x-"@[0] == 'x' && "e+"@[0] == 'e' && "e-"@[0] == 'e');
    assert("x+"@[1] == '+' && "x-"@[1] == '-' && "e+"@[1] == '+' && "e-"@[1] == '-');
    assert("S+"@[0] == 'S' && "S-"@[0] == 'S' && "S+"@[1] == '+' && "S-"@[1] == '-');
}

/// Entering a number keeps the game what its log replays to.
pub proof fn law_input_replays(g: Game, num: u8, ms: u128)
    requires
        game::wf(g),
        faithful(g),
        game::enters(g, num) ==> num < 16,
        g.log.len() < usize::MAX,
    ensures
        faithful(game::number_input(g, num, ms).0),
{
    lemma_codes();
    if let Some(i) = g.selected {
        if !g.grid[i as int].given {
            let at = i as int;
            let c = g.grid[at];
            match g.mode {
                NoteMode::Normal => {
                    if c.value == num {
                        game_laws::lemma_one_cell(g, game::emptied(g.grid, at), i);
                        lemma_acted_replays(
                            g,
                            game::emptied(g.grid, at),
                            0,
                            seq![i],
                            game::move_at(i, "C"@, num, ms, 0),
                        );
                    } else {
                        game_laws::lemma_placed_touches(g, i, num);
                        game::lemma_touched(g, i, num);
                        lemma_acted_replays(
                            g,
                            game::placed(g.grid, g.settings.smart_notes, at, num),
                            game::wrong_by(g.solution, at, num),
                            game::touched_by(g, i, num),
                            game::move_at(i, "P"@, num, ms, 0),
                        );
                    }
                },
                NoteMode::Corner => {
                    let m = game::corner_input(g, i, num, ms).0.log.last();
                    game_laws::lemma_note_bits(c.corner_notes, num);
                    game_laws::lemma_one_cell(g, game::corner_switched(g.grid, at, num), i);
                    lemma_acted_replays(
                        g,
                        game::corner_switched(g.grid, at, num),
                        0,
                        seq![i],
                        m,
                    );
                },
                NoteMode::Center => {
                    let m = game::center_input(g, i, num, ms).0.log.last();
                    game_laws::lemma_note_bits(c.center_notes, num);
                    game_laws::lemma_one_cell(g, game::center_switched(g.grid, at, num), i);
                    lemma_acted_replays(
                        g,
                        game::center_switched(g.grid, at, num),
                        0,
                        seq![i],
                        m,
                    );
                },
            }
        }
    }
}

/// Clearing a cell keeps the game what its log replays to.
pub proof fn law_clearing_replays(g: Game, ms: u128)
    requires
        game::wf(g),
        faithful(g),
        g.log.len() < usize::MAX,
    ensures
        faithful(game::cell_clearing(g, ms).0),
{
    lemma_codes();
    if let Some(i) = g.selected {
        let c = g.grid[i as int];
        if !c.given && c.value != 0 {
            game_laws::lemma_one_cell(g, game::emptied(g.grid, i as int), i);
            lemma_acted_replays(
                g,
                game::emptied(g.grid, i as int),
                0,
                seq![i],
                game::move_at(i, "C"@, c.value, ms, 0),
            );
        } else if !c.given && (c.corner_notes != 0 || c.center_notes != 0) {
            game_laws::lemma_one_cell(g, game::unmarked(g.grid, i as int), i);
            lemma_acted_replays(
                g,
                game::unmarked(g.grid, i as int),
                0,
                seq![i],
                game::move_at(i, "N"@, 0, ms, 0),
            );
        }
    }
}

/// Entry by entry, a stack without its top peels as before.
proof fn lemma_peeled_pop(grid: Seq<CellState>, stack: Seq<Entry>, n: nat)
    requires
        n < stack.len(),
    ensures
        peeled(game::restored(grid, stack.last().cells), stack.drop_last(), n) == peeled(
            grid,
            stack,
            n,
        ),
    decreases stack.len() - n,
{
    if n + 1 == stack.len() {
        assert(peeled(grid, stack, n + 1) == grid);
    } else {
        lemma_peeled_pop(grid, stack, n + 1);
        assert(stack.drop_last()[n as int] == stack[n as int]);
    }
}

/// Undo keeps the game what its log replays to.
pub proof fn law_undo_replays(g: Game, ms: u128)
    requires
        game::wf(g),
        faithful(g),
    ensures
        faithful(game::undoing(g, ms).0),
{
    if g.stack.len() > 0 {
        lemma_codes();
        let h = game::undoing(g, ms).0;
        let top = g.stack.len() - 1;
        let e = g.stack[top];
        let m = h.log.last();
        let steps = g.log.len();
        assert(leads_back(g, top));
        assert(peeled(g.grid, g.stack, g.stack.len()) == g.grid);
        assert(peeled(g.grid, g.stack, top as nat) == h.grid);
        lemma_prefix(g.givens, g.solution, g.log, m, (e.step - 1) as nat);
        lemma_smart_prefix(g.log, m, steps);
        assert(h.log[steps as int] == m);
        assert(scene_at(h, (steps + 1) as nat) == scene_at(h, (e.step - 1) as nat));
        assert forall|n: int| 0 <= n < h.stack.len() implies #[trigger] leads_back(h, n) by {
            assert(h.stack[n] == g.stack[n]);
            assert(leads_back(g, n));
            lemma_peeled_pop(g.grid, g.stack, n as nat);
            lemma_prefix(g.givens, g.solution, g.log, m, (g.stack[n].step - 1) as nat);
        }
    }
}

/// The options screen keeps the game what its log replays to: a switch of smart notes
/// is in the log.
pub proof fn law_options_replay(g: Game, o: OptionsInput, ms: u128)
    requires
        game::wf(g),
        faithful(g),
    ensures
        faithful(screens::options_taken(g, o, ms)),
{
    let h = screens::options_taken(g, o, ms);
    if g.grid.len() > 0 && o.smart_notes != g.settings.smart_notes {
        lemma_codes();
        let m = h.log.last();
        let steps = g.log.len();
        lemma_prefix(g.givens, g.solution, g.log, m, steps);
        let now = scene_at(g, steps);
        assert(h.log[steps as int] == m);
        assert(after_move(now, m, g.settings.smart_notes, g.solution) =~= now);
        assert(scene_at(h, (steps + 1) as nat) == now);
        assert forall|n: int| 0 <= n < h.stack.len() implies #[trigger] leads_back(h, n) by {
            assert(leads_back(g, n));
            lemma_prefix(g.givens, g.solution, g.log, m, (g.stack[n].step - 1) as nat);
        }
    } else if g.grid.len() > 0 {
        law_other_controls_replay(g, h);
    }
}

/// The mode is of no account for what a game is.
proof fn lemma_mode(g: Game, mode: NoteMode)
    requires
        game::wf(g),
        faithful(g),
    ensures
        game::wf(Game { mode, ..g }),
        faithful(Game { mode, ..g }),
{
    law_other_controls_replay(g, Game { mode, ..g });
}

proof fn lemma_digit_key_replays(g: Game, k: Keys, num: u8, ms: u128)
    requires
        game::wf(g),
        faithful(g),
        num < 16,
        g.log.len() < usize::MAX,
    ensures
        game::wf(screens::digit_key(g, k, num, ms).0),
        faithful(screens::digit_key(g, k, num, ms).0),
        screens::digit_key(g, k, num, ms).0.log.len() <= g.log.len() + 1,
{
    let mode = screens::mode_for(g.mode, k.shift, k.ctrl);
    let there = Game { mode, ..g };
    let after = game::number_input(there, num, ms).0;
    lemma_mode(g, mode);
    assert(faithful(after)) by {
        law_input_replays(there, num, ms);
    }
    assert(game::wf(after)) by {
        game_laws::law_actions_keep_wf(there, num, ms);
    }
    assert(after.log.len() <= g.log.len() + 1) by {
        game::law_one_move_each(there, num, ms);
    }
    lemma_mode(after, g.mode);
}

proof fn lemma_digit_keys_replay(g: Game, k: Keys, ms: u128, n: nat)
    requires
        game::wf(g),
        faithful(g),
        n <= 9,
        g.log.len() + 10 < usize::MAX,
    ensures
        game::wf(screens::digit_keys(g, k, ms, n).0),
        faithful(screens::digit_keys(g, k, ms, n).0),
        screens::digit_keys(g, k, ms, n).0.log.len() <= g.log.len() + n,
    decreases n,
{
    if n > 0 {
        lemma_digit_keys_replay(g, k, ms, (n - 1) as nat);
        let before = screens::digit_keys(g, k, ms, (n - 1) as nat).0;
        lemma_digit_key_replays(before, k, n as u8, ms);
    }
}

/// The keys of a frame keep the game what its log replays to.
pub proof fn law_keys_replay(g: Game, k: Keys, ms: u128)
    requires
        game::wf(g),
        faithful(g),
        g.log.len() + 10 < usize::MAX,
    ensures
        faithful(screens::keys_taken(g, k, ms).0),
{
    let end = screens::keys_taken(g, k, ms).0;
    if g.screen == Screen::Playing && !g.generating && g.grid.len() > 0 {
        lemma_digit_keys_replay(g, k, ms, 9);
        let a = screens::digit_keys(g, k, ms, 9).0;
        law_clearing_replays(a, ms);
        game_laws::law_actions_keep_wf(a, 0, ms);
        let b = screens::clear_keys(a, k, ms).0;
        law_undo_replays(b, ms);
        law_other_controls_replay(screens::undo_keys(b, k, ms).0, end);
    } else {
        law_other_controls_replay(g, end);
    }
}

// ---- What the log says ----

/// The moves are the same but for the time at which they were made.
pub open spec fn same_moves(a: Seq<Move>, b: Seq<Move>) -> bool {
    &&& a.len() == b.len()
    &&& forall|k: int|
        #![trigger a[k]]
        #![trigger b[k]]
        0 <= k < a.len() ==> a[k].cell == b[k].cell && a[k].code == b[k].code && a[k].digit
            == b[k].digit && a[k].extra == b[k].extra
}

proof fn lemma_same_switches(a: Seq<Move>, b: Seq<Move>, n: nat)
    requires
        same_moves(a, b),
        n <= a.len(),
    ensures
        smart_after(a, n) == smart_after(b, n),
    decreases n,
{
    if n > 0 {
        assert(a[n - 1].code == b[n - 1].code);
        lemma_same_switches(a, b, (n - 1) as nat);
    }
}

/// The cells at any step, digits and notes, follow from the givens and the moves: the
/// solution, the settings and the time do not matter. With the same solution the
/// mistakes follow too.
pub proof fn law_cells_follow_from_moves(
    givens: Seq<u8>,
    s: Seq<u8>,
    t: Seq<u8>,
    a: Seq<Move>,
    b: Seq<Move>,
    n: nat,
)
    requires
        same_moves(a, b),
        n <= a.len(),
    ensures
        replayed(givens, s, a, n).cells == replayed(givens, t, b, n).cells,
        s == t ==> replayed(givens, s, a, n) == replayed(givens, t, b, n),
    decreases n,
{
    if n > 0 {
        let m = a[n - 1];
        assert(m.code == b[n - 1].code);
        lemma_same_switches(a, b, (n - 1) as nat);
        if m.code == "U"@ && 1 <= m.extra < n {
            law_cells_follow_from_moves(givens, s, t, a, b, (m.extra - 1) as nat);
        } else {
            law_cells_follow_from_moves(givens, s, t, a, b, (n - 1) as nat);
        }
    }
}

/// Two sessions with the same givens and the same moves, apart from the times, show
/// the same digits and the same notes.
pub proof fn law_same_log_same_grid(g: Game, h: Game)
    requires
        game::wf(g),
        game::wf(h),
        faithful(g),
        faithful(h),
        g.grid.len() == 81,
        h.grid.len() == 81,
        g.givens == h.givens,
        same_moves(g.log, h.log),
    ensures
        g.grid == h.grid,
        g.solution == h.solution ==> g.mistakes == h.mistakes,
{
    law_cells_follow_from_moves(g.givens, g.solution, h.solution, g.log, h.log, g.log.len());
}

} // verus!
