//! What each key does by itself.

use crate::game;
use crate::game::{CellSnapshot, CellState, Cue, Game};
use crate::game_laws;
use crate::screens;
use crate::screens::Keys;
use crate::settings::{NoteMode, Screen};
use vstd::prelude::*;

verus! {

/// None of the digit keys is pressed.
pub open spec fn no_digit(k: Keys) -> bool {
    forall|n: int| 0 <= n < 9 ==> !#[trigger] k.digits@[n]
}

/// Of the digit keys, just the one of `d` is pressed.
pub open spec fn one_digit(k: Keys, d: u8) -> bool {
    forall|n: int| 0 <= n < 9 ==> #[trigger] k.digits@[n] == (n == d - 1)
}

/// No arrow key and none of W, A, S and D is pressed.
pub open spec fn no_arrow(k: Keys) -> bool {
    &&& !k.arrow_up && !k.arrow_down && !k.arrow_left && !k.arrow_right
    &&& !k.w && !k.a && !k.s && !k.d
}

/// None of the keys for clearing, modes and the menu is pressed.
pub open spec fn no_letter(k: Keys) -> bool {
    !k.backspace && !k.delete && !k.z && !k.x && !k.c && !k.escape
}

/// A puzzle is on the screen.
pub open spec fn in_play(g: Game) -> bool {
    g.screen == Screen::Playing && !g.generating && g.grid.len() > 0
}

proof fn lemma_no_digits(g: Game, k: Keys, ms: u128, n: nat)
    requires
        n <= 9,
        forall|m: int| 0 <= m < n ==> !#[trigger] k.digits@[m],
    ensures
        screens::digit_keys(g, k, ms, n) == (g, Seq::<Cue>::empty()),
    decreases n,
{
    if n > 0 {
        lemma_no_digits(g, k, ms, (n - 1) as nat);
        assert(!k.digits@[n - 1]);
    }
}

proof fn lemma_one_digit(g: Game, k: Keys, d: u8, ms: u128, n: nat)
    requires
        1 <= d <= n,
        n <= 9,
        one_digit(k, d),
    ensures
        screens::digit_keys(g, k, ms, n) == screens::digit_key(g, k, d, ms),
    decreases n,
{
    assert(k.digits@[n - 1] == (n == d));
    let at = screens::digit_key(g, k, d, ms);
    if n == d {
        lemma_no_digits(g, k, ms, (n - 1) as nat);
        assert(Seq::<Cue>::empty() + at.1 =~= at.1);
    } else {
        lemma_one_digit(g, k, d, ms, (n - 1) as nat);
    }
}

proof fn lemma_silence(c: Seq<Cue>)
    ensures
        c + Seq::<Cue>::empty() == c,
        Seq::<Cue>::empty() + c == c,
{
    assert(c + Seq::<Cue>::empty() =~= c);
    assert(Seq::<Cue>::empty() + c =~= c);
}

/// What is selected after an action is a cell of the board, and the screen stays.
proof fn lemma_selected(g: Game, num: u8, ms: u128)
    requires
        game::wf(g),
    ensures
        game::number_input(g, num, ms).0.selected == g.selected,
        game::number_input(g, num, ms).0.screen == g.screen,
        game::number_input(g, num, ms).0.mode == g.mode,
        game::cell_clearing(g, ms).0.selected == g.selected,
        game::cell_clearing(g, ms).0.screen == g.screen,
        game::cell_clearing(g, ms).0.mode == g.mode,
        game::undoing(g, ms).0.screen == g.screen,
        game::undoing(g, ms).0.mode == g.mode,
        game::undoing(g, ms).0.selected matches Some(i) ==> i < 81,
{
    if g.stack.len() > 0 {
        assert(game::entry_ok(g.stack[g.stack.len() - 1], g.log.len()));
    }
}

/// The key of each digit from 1 to 9 enters that digit: by itself in the current mode,
/// with shift as a corner note and with control as a center note. The mode is
/// afterwards what it was.
pub proof fn law_digit_key(g: Game, k: Keys, d: u8, ms: u128)
    requires
        game::wf(g),
        in_play(g),
        1 <= d <= 9,
        one_digit(k, d),
        no_letter(k),
        no_arrow(k),
    ensures
        !k.shift && !k.ctrl ==> screens::keys_taken(g, k, ms) == game::number_input(g, d, ms),
        k.shift ==> {
            let (h, cues) = game::number_input(Game { mode: NoteMode::Corner, ..g }, d, ms);
            screens::keys_taken(g, k, ms) == (Game { mode: g.mode, ..h }, cues)
        },
        k.ctrl && !k.shift ==> {
            let (h, cues) = game::number_input(Game { mode: NoteMode::Center, ..g }, d, ms);
            screens::keys_taken(g, k, ms) == (Game { mode: g.mode, ..h }, cues)
        },
{
    lemma_one_digit(g, k, d, ms, 9);
    let mode = screens::mode_for(g.mode, k.shift, k.ctrl);
    let there = Game { mode, ..g };
    lemma_selected(there, d, ms);
    lemma_silence(game::number_input(there, d, ms).1);
    let h = screens::digit_key(g, k, d, ms).0;
    assert(screens::keys_taken(g, k, ms).0 =~= h);
    assert(Game { mode: g.mode, ..g } =~= g);
}

/// Backspace clears the selected cell, and so does delete.
pub proof fn law_clear_keys(g: Game, k: Keys, ms: u128)
    requires
        game::wf(g),
        in_play(g),
        no_digit(k),
        no_arrow(k),
        k.backspace || k.delete,
        !k.z && !k.x && !k.c && !k.escape,
    ensures
        screens::keys_taken(g, k, ms) == game::cell_clearing(g, ms),
{
    lemma_no_digits(g, k, ms, 9);
    lemma_selected(g, 0, ms);
    lemma_silence(game::cell_clearing(g, ms).1);
    assert(screens::keys_taken(g, k, ms).0 =~= game::cell_clearing(g, ms).0);
}

/// Control with Z undoes.
pub proof fn law_undo_key(g: Game, k: Keys, ms: u128)
    requires
        game::wf(g),
        in_play(g),
        no_digit(k),
        no_arrow(k),
        k.z && k.ctrl,
        !k.backspace && !k.delete && !k.x && !k.c && !k.escape,
    ensures
        screens::keys_taken(g, k, ms) == game::undoing(g, ms),
{
    lemma_no_digits(g, k, ms, 9);
    lemma_selected(g, 0, ms);
    lemma_silence(game::undoing(g, ms).1);
    assert(screens::keys_taken(g, k, ms).0 =~= game::undoing(g, ms).0);
}

/// Z chooses digits, X corner notes and C center notes, and nothing else changes.
pub proof fn law_mode_keys(g: Game, k: Keys, ms: u128)
    requires
        game::wf(g),
        in_play(g),
        no_digit(k),
        no_arrow(k),
        !k.backspace && !k.delete && !k.escape,
        !(k.z && k.ctrl),
    ensures
        screens::keys_taken(g, k, ms).1.len() == 0,
        k.z && !k.x && !k.c ==> screens::keys_taken(g, k, ms).0 == (Game {
            mode: NoteMode::Normal,
            ..g
        }),
        k.x && !k.z && !k.c ==> screens::keys_taken(g, k, ms).0 == (Game {
            mode: NoteMode::Corner,
            ..g
        }),
        k.c && !k.z && !k.x ==> screens::keys_taken(g, k, ms).0 == (Game {
            mode: NoteMode::Center,
            ..g
        }),
        !k.z && !k.x && !k.c ==> screens::keys_taken(g, k, ms).0 == g,
{
    lemma_no_digits(g, k, ms, 9);
    let h = screens::keys_taken(g, k, ms).0;
    assert(h =~= Game { mode: h.mode, ..g });
    assert(Game { mode: g.mode, ..g } =~= g);
}

/// The arrow keys, and W, A, S and D, move the selection to the next cell up, left, down
/// and right, and not off the board. Nothing else changes.
pub proof fn law_arrow_keys(g: Game, k: Keys, i: usize, ms: u128)
    requires
        game::wf(g),
        in_play(g),
        g.selected == Some(i),
        no_digit(k),
        no_letter(k),
    ensures
        ({
            let up = k.arrow_up || k.w;
            let down = k.arrow_down || k.s;
            let left = k.arrow_left || k.a;
            let right = k.arrow_right || k.d;
            let (h, cues) = screens::keys_taken(g, k, ms);
            &&& cues.len() == 0
            &&& h == Game { selected: h.selected, ..g }
            &&& up && !down && !left && !right ==> h.selected == Some(
                if i >= 9 {
                    (i - 9) as usize
                } else {
                    i
                },
            )
            &&& down && !up && !left && !right ==> h.selected == Some(
                if i < 72 {
                    (i + 9) as usize
                } else {
                    i
                },
            )
            &&& left && !up && !down && !right ==> h.selected == Some(
                if i % 9 != 0 {
                    (i - 1) as usize
                } else {
                    i
                },
            )
            &&& right && !up && !down && !left ==> h.selected == Some(
                if i % 9 != 8 {
                    (i + 1) as usize
                } else {
                    i
                },
            )
            &&& !up && !down && !left && !right ==> h.selected == Some(i)
        }),
{
    lemma_no_digits(g, k, ms, 9);
    let h = screens::keys_taken(g, k, ms).0;
    assert(h =~= Game { selected: h.selected, ..g });
}

/// Escape by itself changes nothing but the screen, and off the game screen no key does
/// anything.
pub proof fn law_escape_and_other_screens(g: Game, k: Keys, ms: u128)
    requires
        game::wf(g),
    ensures
        g.screen != Screen::Playing ==> screens::keys_taken(g, k, ms) == (g, Seq::<Cue>::empty()),
        g.screen == Screen::Playing && !in_play(g) && !k.escape ==> screens::keys_taken(g, k, ms)
            == (g, Seq::<Cue>::empty()),
        g.screen == Screen::Playing && !in_play(g) && k.escape ==> screens::keys_taken(g, k, ms)
            == (Game { screen: Screen::MainMenu, ..g }, Seq::<Cue>::empty()),
        in_play(g) && no_digit(k) && no_arrow(k) && k.escape && !k.backspace && !k.delete && !k.z
            && !k.x && !k.c ==> screens::keys_taken(g, k, ms) == (
            Game { screen: Screen::MainMenu, ..g },
            Seq::<Cue>::empty(),
        ),
{
    if no_digit(k) {
        lemma_no_digits(g, k, ms, 9);
    }
    lemma_silence(Seq::empty());
    let h = screens::keys_taken(g, k, ms).0;
    assert(Game { screen: g.screen, ..g } =~= g);
    assert(h =~= Game { screen: h.screen, mode: h.mode, selected: h.selected, ..h });
}

// ---- Several keys at once ----

/// Keys above `d` are not pressed, and so say nothing.
proof fn lemma_no_more(g: Game, k: Keys, ms: u128, m: nat, n: nat)
    requires
        m <= n <= 9,
        forall|j: int| m <= j < n ==> !#[trigger] k.digits@[j],
    ensures
        screens::digit_keys(g, k, ms, n) == screens::digit_keys(g, k, ms, m),
    decreases n,
{
    if m < n {
        lemma_no_more(g, k, ms, m, (n - 1) as nat);
        assert(!k.digits@[n - 1]);
    }
}

proof fn lemma_same_digits(g: Game, k: Keys, l: Keys, ms: u128, n: nat)
    requires
        n <= 9,
        forall|j: int| 0 <= j < n ==> #[trigger] k.digits@[j] == l.digits@[j],
        k.shift == l.shift,
        k.ctrl == l.ctrl,
    ensures
        screens::digit_keys(g, k, ms, n) == screens::digit_keys(g, l, ms, n),
    decreases n,
{
    if n > 0 {
        lemma_same_digits(g, k, l, ms, (n - 1) as nat);
        assert(k.digits@[n - 1] == l.digits@[n - 1]);
    }
}

/// The digit keys leave the screen as it is, and the mode, and what is selected.
proof fn lemma_digits_stay(g: Game, k: Keys, ms: u128, n: nat)
    requires
        game::wf(g),
        n <= 9,
        g.log.len() + 9 <= usize::MAX,
    ensures
        game::wf(screens::digit_keys(g, k, ms, n).0),
        screens::digit_keys(g, k, ms, n).0.log.len() <= g.log.len() + n,
        screens::digit_keys(g, k, ms, n).0.screen == g.screen,
        screens::digit_keys(g, k, ms, n).0.generating == g.generating,
        screens::digit_keys(g, k, ms, n).0.grid.len() == g.grid.len(),
        screens::digit_keys(g, k, ms, n).0.mode == g.mode,
        screens::digit_keys(g, k, ms, n).0.selected == g.selected,
    decreases n,
{
    if n > 0 {
        lemma_digits_stay(g, k, ms, (n - 1) as nat);
        let h = screens::digit_keys(g, k, ms, (n - 1) as nat).0;
        let there = Game { mode: screens::mode_for(h.mode, k.shift, k.ctrl), ..h };
        assert(game::wf(there));
        game_laws::law_actions_keep_wf(there, n as u8, ms);
        lemma_stay(there, n as u8, ms);
    }
}

/// The digit keys by themselves.
proof fn lemma_just_digits(g: Game, k: Keys, ms: u128)
    requires
        game::wf(g),
        in_play(g),
        no_letter(k),
        no_arrow(k),
        g.log.len() + 9 <= usize::MAX,
    ensures
        screens::keys_taken(g, k, ms) == screens::digit_keys(g, k, ms, 9),
{
    let a = screens::digit_keys(g, k, ms, 9);
    lemma_digits_stay(g, k, ms, 9);
    lemma_silence(a.1);
    assert(screens::keys_taken(g, k, ms).0 =~= a.0);
}

/// Of several digit keys the lower ones come first: pressing `d` with lower digits does
/// what pressing these and then `d` does.
pub proof fn law_digit_keys_in_turn(g: Game, k: Keys, lower: Keys, last: Keys, d: u8, ms: u128)
    requires
        game::wf(g),
        in_play(g),
        g.log.len() + 18 <= usize::MAX,
        1 <= d <= 9,
        no_letter(k) && no_letter(lower) && no_letter(last),
        no_arrow(k) && no_arrow(lower) && no_arrow(last),
        lower.shift == k.shift && last.shift == k.shift,
        lower.ctrl == k.ctrl && last.ctrl == k.ctrl,
        forall|n: int| 0 <= n < 9 ==> #[trigger] lower.digits@[n] == (n < d - 1 && k.digits@[n]),
        one_digit(last, d),
        forall|n: int| d - 1 <= n < 9 ==> #[trigger] k.digits@[n] == (n == d - 1),
    ensures
        ({
            let a = screens::keys_taken(g, lower, ms);
            let b = screens::keys_taken(a.0, last, ms);
            screens::keys_taken(g, k, ms) == (b.0, a.1 + b.1)
        }),
{
    lemma_just_digits(g, k, ms);
    lemma_just_digits(g, lower, ms);
    lemma_digits_stay(g, lower, ms, 9);
    let a = screens::keys_taken(g, lower, ms);
    lemma_just_digits(a.0, last, ms);
    lemma_one_digit(a.0, last, d, ms, 9);
    let m = (d - 1) as nat;
    lemma_no_more(g, lower, ms, m, 9);
    lemma_same_digits(g, k, lower, ms, m);
    lemma_no_more(g, k, ms, d as nat, 9);
    assert(k.digits@[d - 1]);
}

/// No key for clearing, modes, the menu or moving is pressed, but for those that are
/// named.
pub open spec fn only_keys(
    k: Keys,
    clearing: bool,
    letters: bool,
    escape: bool,
    arrows: bool,
) -> bool {
    &&& clearing || (!k.backspace && !k.delete)
    &&& letters || (!k.z && !k.x && !k.c)
    &&& escape || !k.escape
    &&& arrows || no_arrow(k)
}

/// The keys of a frame are taken in this order: digits, clearing, undo, modes, moving,
/// escape. Pressing them all does what pressing these groups one after the other does.
pub proof fn law_keys_in_turn(
    g: Game,
    k: Keys,
    digits: Keys,
    clearing: Keys,
    undo: Keys,
    modes: Keys,
    arrows: Keys,
    escape: Keys,
    ms: u128,
)
    requires
        game::wf(g),
        in_play(g),
        g.log.len() + 11 <= usize::MAX,
        only_keys(digits, false, false, false, false),
        forall|n: int| 0 <= n < 9 ==> #[trigger] digits.digits@[n] == k.digits@[n],
        digits.shift == k.shift && digits.ctrl == k.ctrl,
        only_keys(clearing, true, false, false, false) && no_digit(clearing),
        clearing.backspace == k.backspace && clearing.delete == k.delete,
        only_keys(undo, false, true, false, false) && no_digit(undo) && !undo.x && !undo.c,
        undo.z == (k.z && k.ctrl) && undo.ctrl == k.ctrl,
        only_keys(modes, false, true, false, false) && no_digit(modes) && !modes.ctrl,
        modes.z == (k.z && !k.ctrl) && modes.x == k.x && modes.c == k.c,
        only_keys(arrows, false, false, false, true) && no_digit(arrows),
        arrows.arrow_up == k.arrow_up && arrows.arrow_down == k.arrow_down && arrows.arrow_left
            == k.arrow_left && arrows.arrow_right == k.arrow_right,
        arrows.w == k.w && arrows.a == k.a && arrows.s == k.s && arrows.d == k.d,
        only_keys(escape, false, false, true, false) && no_digit(escape),
        escape.escape == k.escape,
    ensures
        ({
            let a = screens::keys_taken(g, digits, ms);
            let b = screens::keys_taken(a.0, clearing, ms);
            let c = screens::keys_taken(b.0, undo, ms);
            let d = screens::keys_taken(c.0, modes, ms);
            let e = screens::keys_taken(d.0, arrows, ms);
            let f = screens::keys_taken(e.0, escape, ms);
            screens::keys_taken(g, k, ms) == (f.0, a.1 + b.1 + c.1)
        }),
{
    lemma_just_digits(g, digits, ms);
    lemma_same_digits(g, k, digits, ms, 9);
    lemma_digits_stay(g, k, ms, 9);
    let a = screens::digit_keys(g, k, ms, 9);
    lemma_just_clearing(a.0, clearing, ms);
    let b = screens::clear_keys(a.0, k, ms);
    lemma_just_undo(b.0, undo, ms);
    let c = screens::undo_keys(b.0, k, ms);
    lemma_just_modes(c.0, modes, ms);
    let d = screens::keys_taken(c.0, modes, ms).0;
    lemma_just_arrows(d, arrows, ms);
    let e = screens::keys_taken(d, arrows, ms).0;
    lemma_just_escape(e, escape, ms);
    let f = screens::keys_taken(e, escape, ms).0;
    assert(screens::keys_taken(g, k, ms).0 =~= f);
}

proof fn lemma_just_clearing(g: Game, k: Keys, ms: u128)
    requires
        game::wf(g),
        in_play(g),
        no_digit(k),
        only_keys(k, true, false, false, false),
        g.log.len() < usize::MAX,
    ensures
        screens::clear_keys(g, k, ms).0.log.len() <= g.log.len() + 1,
        screens::keys_taken(g, k, ms) == screens::clear_keys(g, k, ms),
        game::wf(screens::clear_keys(g, k, ms).0),
        in_play(screens::clear_keys(g, k, ms).0),
{
    lemma_no_digits(g, k, ms, 9);
    game_laws::law_actions_keep_wf(g, 1, ms);
    lemma_stay(g, 1, ms);
    let b = screens::clear_keys(g, k, ms);
    lemma_silence(b.1);
    assert(screens::keys_taken(g, k, ms).0 =~= b.0);
}

proof fn lemma_just_undo(g: Game, k: Keys, ms: u128)
    requires
        game::wf(g),
        in_play(g),
        no_digit(k),
        only_keys(k, false, true, false, false),
        !k.x && !k.c,
        k.z ==> k.ctrl,
        g.log.len() < usize::MAX,
    ensures
        screens::keys_taken(g, k, ms) == screens::undo_keys(g, k, ms),
        game::wf(screens::undo_keys(g, k, ms).0),
        in_play(screens::undo_keys(g, k, ms).0),
{
    lemma_no_digits(g, k, ms, 9);
    game_laws::law_actions_keep_wf(g, 1, ms);
    lemma_stay(g, 1, ms);
    let c = screens::undo_keys(g, k, ms);
    lemma_silence(c.1);
    assert(screens::keys_taken(g, k, ms).0 =~= c.0);
}

proof fn lemma_just_modes(g: Game, k: Keys, ms: u128)
    requires
        in_play(g),
        no_digit(k),
        only_keys(k, false, true, false, false),
        !k.ctrl,
    ensures
        screens::keys_taken(g, k, ms).0 == (Game { mode: screens::mode_keys(g.mode, k), ..g }),
{
    lemma_no_digits(g, k, ms, 9);
    assert(screens::keys_taken(g, k, ms).0 =~= Game { mode: screens::mode_keys(g.mode, k), ..g });
}

proof fn lemma_just_arrows(g: Game, k: Keys, ms: u128)
    requires
        in_play(g),
        no_digit(k),
        only_keys(k, false, false, false, true),
    ensures
        screens::keys_taken(g, k, ms).0 == (Game {
            selected: match g.selected {
                Some(i) => Some(screens::moved(i as int, k) as usize),
                None => None,
            },
            ..g
        }),
{
    lemma_no_digits(g, k, ms, 9);
    let h = screens::keys_taken(g, k, ms).0;
    assert(h =~= Game { selected: h.selected, ..g });
}

proof fn lemma_just_escape(g: Game, k: Keys, ms: u128)
    requires
        in_play(g),
        no_digit(k),
        only_keys(k, false, false, true, false),
    ensures
        screens::keys_taken(g, k, ms).0 == (Game { screen: screens::screen_after(k), ..g }),
{
    lemma_no_digits(g, k, ms, 9);
    let h = screens::keys_taken(g, k, ms).0;
    assert(h =~= Game { screen: h.screen, ..g });
}

/// No action leaves the screen.
proof fn lemma_stay(g: Game, num: u8, ms: u128)
    requires
        game::wf(g),
    ensures
        game::number_input(g, num, ms).0.log.len() <= g.log.len() + 1,
        game::number_input(g, num, ms).0.screen == g.screen,
        game::number_input(g, num, ms).0.generating == g.generating,
        game::number_input(g, num, ms).0.grid.len() == g.grid.len(),
        game::number_input(g, num, ms).0.mode == g.mode,
        game::number_input(g, num, ms).0.selected == g.selected,
        game::cell_clearing(g, ms).0.log.len() <= g.log.len() + 1,
        game::cell_clearing(g, ms).0.screen == g.screen,
        game::cell_clearing(g, ms).0.generating == g.generating,
        game::cell_clearing(g, ms).0.grid.len() == g.grid.len(),
        game::undoing(g, ms).0.screen == g.screen,
        game::undoing(g, ms).0.generating == g.generating,
        game::undoing(g, ms).0.grid.len() == g.grid.len(),
{
    if g.stack.len() > 0 {
        let e = g.stack[g.stack.len() - 1];
        assert(game::entry_ok(e, g.log.len()));
        lemma_restored_len(g.grid, e.cells);
    }
}

proof fn lemma_restored_len(grid: Seq<CellState>, cells: Seq<CellSnapshot>)
    requires
        cells.len() > 0 ==> grid.len() == 81,
        forall|k: int| 0 <= k < cells.len() ==> (#[trigger] cells[k]).idx < 81,
    ensures
        game::restored(grid, cells).len() == grid.len(),
    decreases cells.len(),
{
    if cells.len() > 0 {
        lemma_restored_len(grid, cells.drop_last());
        assert(cells[cells.len() - 1].idx < 81);
    }
}

/// Of the directions that lead to a cell of the board, right counts before left, left
/// before down, and down before up.
pub proof fn law_arrows_together(g: Game, k: Keys, i: usize, ms: u128)
    requires
        game::wf(g),
        in_play(g),
        g.selected == Some(i),
        no_digit(k),
        no_letter(k),
    ensures
        ({
            let right = (k.arrow_right || k.d) && i % 9 != 8;
            let left = (k.arrow_left || k.a) && i % 9 != 0;
            let down = (k.arrow_down || k.s) && i < 72;
            let up = (k.arrow_up || k.w) && i >= 9;
            let at = screens::keys_taken(g, k, ms).0.selected;
            &&& right ==> at == Some((i + 1) as usize)
            &&& left && !right ==> at == Some((i - 1) as usize)
            &&& down && !left && !right ==> at == Some((i + 9) as usize)
            &&& up && !down && !left && !right ==> at == Some((i - 9) as usize)
            &&& !up && !down && !left && !right ==> at == Some(i)
        }),
{
    lemma_no_digits(g, k, ms, 9);
}

/// Of the keys of the modes C counts before X, and X before Z.
pub proof fn law_modes_together(g: Game, k: Keys, ms: u128)
    requires
        in_play(g),
        no_digit(k),
        !k.backspace && !k.delete,
        !(k.z && k.ctrl),
    ensures
        k.c ==> screens::keys_taken(g, k, ms).0.mode == NoteMode::Center,
        k.x && !k.c ==> screens::keys_taken(g, k, ms).0.mode == NoteMode::Corner,
        k.z && !k.x && !k.c ==> screens::keys_taken(g, k, ms).0.mode == NoteMode::Normal,
{
    lemma_no_digits(g, k, ms, 9);
}

} // verus!
