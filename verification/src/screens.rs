//! What the screens show and what their controls do.

use crate::difficulty::Difficulty;
use crate::game;
use crate::game::{Cue, Game, SudokuApp};
use crate::geometry;
use crate::replay::Move;
use crate::settings;
use crate::settings::{AppTheme, NoteMode, Screen, Settings};
use crate::text;
use vstd::prelude::*;

verus! {

// ---- Menu and options ----

/// What the controls of the options screen say after a frame.
#[derive(Debug, PartialEq, Eq, Clone, Copy, Structural)]
pub struct OptionsInput {
    pub dark_clicked: bool,
    pub light_clicked: bool,
    pub sound_enabled: bool,
    pub smart_notes: bool,
    pub highlight_same_number: bool,
    pub highlight_peers: bool,
    pub show_mistakes: bool,
}

/// The theme after the clicks of a frame.
pub open spec fn theme_after(theme: AppTheme, o: OptionsInput) -> AppTheme {
    if o.light_clicked {
        AppTheme::Light
    } else if o.dark_clicked {
        AppTheme::Dark
    } else {
        theme
    }
}

/// A theme was clicked or a box changed.
pub open spec fn options_changed(s: Settings, o: OptionsInput) -> bool {
    ||| o.dark_clicked
    ||| o.light_clicked
    ||| o.sound_enabled != s.sound_enabled
    ||| o.smart_notes != s.smart_notes
    ||| o.highlight_same_number != s.highlight_same_number
    ||| o.highlight_peers != s.highlight_peers
    ||| o.show_mistakes != s.show_mistakes
}

/// The settings after a frame of the options screen.
pub open spec fn settings_after(s: Settings, theme: AppTheme, o: OptionsInput) -> Settings {
    Settings {
        theme: if options_changed(s, o) {
            theme_after(theme, o)
        } else {
            s.theme
        },
        sound_enabled: o.sound_enabled,
        smart_notes: o.smart_notes,
        highlight_same_number: o.highlight_same_number,
        highlight_peers: o.highlight_peers,
        show_mistakes: o.show_mistakes,
    }
}

/// The log after a frame of the options screen: switching smart notes is a move of
/// the game that is under way.
pub open spec fn log_after(g: Game, o: OptionsInput, ms: u128) -> Seq<Move> {
    if g.grid.len() > 0 && o.smart_notes != g.settings.smart_notes {
        g.log.push(game::move_at(0, game::switch_code(o.smart_notes), 0, ms, 0))
    } else {
        g.log
    }
}

/// The application after a frame of the options screen.
pub open spec fn options_taken(g: Game, o: OptionsInput, ms: u128) -> Game {
    Game {
        theme: theme_after(g.theme, o),
        settings: settings_after(g.settings, g.theme, o),
        log: log_after(g, o, ms),
        ..g
    }
}

/// Whether a row of the difficulty buttons ends after button `i`.
pub fn ends_menu_row(i: usize) -> (yes: bool)
    requires
        i < usize::MAX,
    ensures
        yes == ((i + 1) % 3 == 0),
{
    (i + 1) % 3 == 0
}

/// What can be undone stays so when the log grows.
pub proof fn lemma_longer_log(g: Game, h: Game)
    requires
        game::wf(g),
        h == (Game { theme: h.theme, settings: h.settings, log: h.log, ..g }),
        h.log.len() >= g.log.len(),
    ensures
        game::wf(h),
{
    assert forall|k: int| 0 <= k < h.stack.len() implies game::entry_ok(
        #[trigger] h.stack[k],
        h.log.len(),
    ) by {
        assert(game::entry_ok(g.stack[k], g.log.len()));
    }
}

impl SudokuApp {
    /// Whether there is an unfinished game to go back to.
    pub fn has_active_game(&self) -> (yes: bool)
        ensures
            yes == (self@.grid.len() > 0 && !self@.solved),
    {
        self.grid.len() > 0 && !self.solved
    }

    /// Goes back to the game.
    pub fn resume(&mut self)
        requires
            game::wf(old(self)@),
        ensures
            final(self)@ == (Game { screen: Screen::Playing, ..old(self)@ }),
            game::wf(final(self)@),
    {
        self.screen = Screen::Playing;
    }

    /// Starts a game of tier `diff` from the menu.
    pub fn choose_difficulty(&mut self, diff: Difficulty)
        requires
            game::wf(old(self)@),
        ensures
            final(self)@ == (Game {
                difficulty: diff,
                generating: true,
                selected: None,
                screen: Screen::Playing,
                ..old(self)@
            }),
            game::wf(final(self)@),
    {
        self.start_new_game(diff);
        self.screen = Screen::Playing;
    }

    /// Opens the options, to return to the screen `from`.
    pub fn open_options(&mut self, from: Screen)
        requires
            game::wf(old(self)@),
        ensures
            final(self)@ == (Game { return_to: from, screen: Screen::Options, ..old(self)@ }),
            game::wf(final(self)@),
    {
        self.options_return_to = from;
        self.screen = Screen::Options;
    }

    /// Leaves the options for the screen that they were opened from.
    pub fn close_options(&mut self)
        requires
            game::wf(old(self)@),
        ensures
            final(self)@ == (Game { screen: old(self)@.return_to, ..old(self)@ }),
            game::wf(final(self)@),
    {
        self.screen = self.options_return_to;
    }

    /// Goes to the main menu.
    pub fn show_menu(&mut self)
        requires
            game::wf(old(self)@),
        ensures
            final(self)@ == (Game { screen: Screen::MainMenu, ..old(self)@ }),
            game::wf(final(self)@),
    {
        self.screen = Screen::MainMenu;
    }

    /// Takes over the theme and the settings of the options screen.
    fn take_settings(&mut self, o: &OptionsInput) -> (changed: bool)
        ensures
            changed == options_changed(old(self)@.settings, *o),
            final(self)@ == (Game {
                theme: theme_after(old(self)@.theme, *o),
                settings: settings_after(old(self)@.settings, old(self)@.theme, *o),
                ..old(self)@
            }),
    {
        let s = self.settings;
        let changed = o.dark_clicked || o.light_clicked || o.sound_enabled != s.sound_enabled
            || o.smart_notes != s.smart_notes || o.highlight_same_number != s.highlight_same_number
            || o.highlight_peers != s.highlight_peers || o.show_mistakes != s.show_mistakes;
        if o.light_clicked {
            self.theme = AppTheme::Light;
        } else if o.dark_clicked {
            self.theme = AppTheme::Dark;
        }
        self.settings = Settings {
            theme: if changed {
                self.theme
            } else {
                s.theme
            },
            sound_enabled: o.sound_enabled,
            smart_notes: o.smart_notes,
            highlight_same_number: o.highlight_same_number,
            highlight_peers: o.highlight_peers,
            show_mistakes: o.show_mistakes,
        };
        changed
    }

    /// Logs that smart notes were switched.
    fn log_switch(&mut self, on: bool, elapsed_ms: u128)
        ensures
            final(self)@ == (Game {
                log: old(self)@.log.push(
                    game::move_at(0, game::switch_code(on), 0, elapsed_ms, 0),
                ),
                ..old(self)@
            }),
    {
        if on {
            self.record_action(0, "S+", 0, elapsed_ms, 0);
        } else {
            self.record_action(0, "S-", 0, elapsed_ms, 0);
        }
    }

    /// Takes over what the options screen says, and logs a switch of smart notes in a
    /// game. Returns whether the settings are to be saved.
    pub fn apply_options(&mut self, o: &OptionsInput, elapsed_ms: u128) -> (save: bool)
        requires
            game::wf(old(self)@),
        ensures
            save == options_changed(old(self)@.settings, *o),
            final(self)@ == options_taken(old(self)@, *o, elapsed_ms),
            game::wf(final(self)@),
    {
        let ghost g = self@;
        let switched = self.grid.len() > 0 && o.smart_notes != self.settings.smart_notes;
        let changed = self.take_settings(o);
        if switched {
            self.log_switch(o.smart_notes, elapsed_ms);
        }
        proof {
            lemma_longer_log(g, options_taken(g, *o, elapsed_ms));
        }
        changed
    }

    /// Switches to the other theme, which also becomes the saved one.
    pub fn toggle_theme(&mut self)
        requires
            game::wf(old(self)@),
        ensures
            final(self)@ == (Game {
                theme: settings::other_theme(old(self)@.theme),
                settings: Settings {
                    theme: settings::other_theme(old(self)@.theme),
                    ..old(self)@.settings
                },
                ..old(self)@
            }),
            game::wf(final(self)@),
    {
        self.theme = self.theme.toggled();
        self.settings.theme = self.theme;
    }

    /// Chooses what entered numbers mean.
    pub fn set_note_mode(&mut self, mode: NoteMode)
        requires
            game::wf(old(self)@),
        ensures
            final(self)@ == (Game { mode, ..old(self)@ }),
            game::wf(final(self)@),
    {
        self.note_mode = mode;
    }

    /// Selects the cell that was clicked, by row and column; a click off the board
    /// changes nothing.
    pub fn click_cell(&mut self, r: usize, c: usize)
        requires
            game::wf(old(self)@),
        ensures
            final(self)@ == if r < 9 && c < 9 && old(self)@.grid.len() > 0 {
                Game { selected: Some((r * 9 + c) as usize), ..old(self)@ }
            } else {
                old(self)@
            },
            game::wf(final(self)@),
    {
        if r < 9 && c < 9 && self.grid.len() > 0 {
            self.selected_cell = Some(r * 9 + c);
        }
    }
}

// ---- The game screen ----

/// The background of a cell.
#[derive(Debug, PartialEq, Eq, Clone, Copy, Structural)]
pub enum Fill {
    Base,
    Seen,
    Match,
    Selected,
}

/// The colour of a digit.
#[derive(Debug, PartialEq, Eq, Clone, Copy, Structural)]
pub enum Tone {
    Given,
    Mistake,
    User,
}

/// A corner note: its digit, its place in the cell, and whether it matches the digit
/// in focus.
#[derive(Debug, PartialEq, Eq, Clone, Copy, Structural)]
pub struct Mark {
    pub digit: u8,
    pub row: u8,
    pub col: u8,
    pub matching: bool,
}

/// The digit of the cell in focus, or 0.
pub open spec fn digit_in_focus(g: Game, focus: Option<usize>) -> u8 {
    match focus {
        Some(i) => g.grid[i as int].value,
        None => 0,
    }
}

/// The cell is the one in focus or a peer of it.
pub open spec fn in_sight(focus: Option<usize>, i: int) -> bool {
    match focus {
        Some(f) => i == f || geometry::peer(i, f as int),
        None => false,
    }
}

/// The background of cell `i`: the selected cell, then cells with the digit in
/// focus, then cells in sight of the focus, as far as the settings ask for it.
pub open spec fn fill_of(g: Game, focus: Option<usize>, i: int) -> Fill {
    if g.selected == Some(i as usize) {
        Fill::Selected
    } else if g.settings.highlight_same_number && digit_in_focus(g, focus) != 0 && g.grid[i].value
        == digit_in_focus(g, focus) {
        Fill::Match
    } else if g.settings.highlight_peers && in_sight(focus, i) {
        Fill::Seen
    } else {
        Fill::Base
    }
}

/// The colour of the digit in cell `i`, where it holds one.
pub open spec fn tone_of(g: Game, i: int) -> Option<Tone> {
    if g.grid[i].value == 0 {
        None
    } else if g.grid[i].given {
        Some(Tone::Given)
    } else if g.settings.show_mistakes && g.grid[i].value != g.solution[i] {
        Some(Tone::Mistake)
    } else {
        Some(Tone::User)
    }
}

pub open spec fn mark_of(d: u8, focus_digit: u8) -> Mark {
    Mark {
        digit: d,
        row: ((d - 1) / 3) as u8,
        col: ((d - 1) % 3) as u8,
        matching: focus_digit == d,
    }
}

/// The marks of the notes from 1 to `n`, in increasing order.
pub open spec fn marks_below(notes: u16, focus_digit: u8, n: nat) -> Seq<Mark>
    decreases n,
{
    if n == 0 {
        Seq::empty()
    } else {
        let before = marks_below(notes, focus_digit, (n - 1) as nat);
        if notes & (1u16 << (n as u8)) != 0 {
            before.push(mark_of(n as u8, focus_digit))
        } else {
            before
        }
    }
}

/// The digits of the notes from 1 to `n`, in increasing order, as text.
pub open spec fn notes_below(notes: u16, n: nat) -> Seq<char>
    decreases n,
{
    if n == 0 {
        Seq::empty()
    } else {
        let before = notes_below(notes, (n - 1) as nat);
        if notes & (1u16 << (n as u8)) != 0 {
            before.push(text::digit_char(n as int))
        } else {
            before
        }
    }
}

/// Whether line `i` of the grid separates boxes.
pub fn is_main_line(i: usize) -> (yes: bool)
    ensures
        yes == (i % 3 == 0),
{
    i % 3 == 0
}

pub open spec fn mode_name(mode: NoteMode) -> Seq<char> {
    match mode {
        NoteMode::Normal => "Mode: [Z] Digit Placement"@,
        NoteMode::Corner => "Mode: [X] Corner (Snyder)"@,
        NoteMode::Center => "Mode: [C] Center Candidate"@,
    }
}

/// The label of the current mode.
pub fn mode_label(mode: NoteMode) -> (s: &'static str)
    ensures
        s@ == mode_name(mode),
{
    match mode {
        NoteMode::Normal => "Mode: [Z] Digit Placement",
        NoteMode::Corner => "Mode: [X] Corner (Snyder)",
        NoteMode::Center => "Mode: [C] Center Candidate",
    }
}

pub open spec fn mode_button_name(mode: NoteMode) -> Seq<char> {
    match mode {
        NoteMode::Normal => "Digit [Z]"@,
        NoteMode::Corner => "Corner [X]"@,
        NoteMode::Center => "Center [C]"@,
    }
}

/// The label of the button of a mode.
pub fn mode_button_label(mode: NoteMode) -> (s: &'static str)
    ensures
        s@ == mode_button_name(mode),
{
    match mode {
        NoteMode::Normal => "Digit [Z]",
        NoteMode::Corner => "Corner [X]",
        NoteMode::Center => "Center [C]",
    }
}

pub open spec fn theme_button_name(theme: AppTheme) -> Seq<char> {
    match theme {
        AppTheme::Dark => "☀ Light"@,
        AppTheme::Light => "🌙 Dark"@,
    }
}

/// The label of the theme button, which names the other theme.
pub fn theme_button_label(theme: AppTheme) -> (s: &'static str)
    ensures
        s@ == theme_button_name(theme),
{
    match theme {
        AppTheme::Dark => "☀ Light",
        AppTheme::Light => "🌙 Dark",
    }
}

/// How old a status message may become, in nanoseconds.
pub const STATUS_LIFETIME_NANOS: u128 = 6_000_000_000;

/// Whether a status message has been shown for long enough.
pub fn status_expired(age_nanos: u128) -> (yes: bool)
    ensures
        yes == (age_nanos > STATUS_LIFETIME_NANOS),
{
    age_nanos > STATUS_LIFETIME_NANOS
}

impl SudokuApp {
    /// Whether the game screen has no puzzle to show yet.
    pub fn is_waiting(&self) -> (yes: bool)
        ensures
            yes == (self@.generating || self@.grid.len() == 0),
    {
        self.generating || self.grid.len() == 0
    }

    /// Whether to say that making the puzzle can take a while.
    pub fn shows_slow_hint(&self) -> (yes: bool)
        ensures
            yes == (self@.difficulty == Difficulty::Diabolical || self@.difficulty
                == Difficulty::Grandmaster || self@.difficulty == Difficulty::Ultimate),
    {
        matches!(
            self.difficulty,
            Difficulty::Grandmaster | Difficulty::Ultimate | Difficulty::Diabolical
        )
    }

    /// Whether there is something to undo.
    pub fn can_undo(&self) -> (yes: bool)
        ensures
            yes == (self@.stack.len() > 0),
    {
        self.undo_stack.len() > 0
    }

    /// Whether to show that the puzzle is solved.
    pub fn shows_solved_window(&self) -> (yes: bool)
        ensures
            yes == (self@.screen == Screen::Playing && self@.solved),
    {
        self.screen == Screen::Playing && self.solved
    }

    /// After how many milliseconds the window is painted again: soon while a puzzle
    /// is being made, often enough for the timer in a game, and rarely in menus.
    pub fn repaint_ms(&self) -> (ms: u64)
        ensures
            ms == if self@.generating {
                50u64
            } else if self@.screen == Screen::Playing {
                200
            } else {
                400
            },
    {
        if self.generating {
            50
        } else if self.screen == Screen::Playing {
            200
        } else {
            400
        }
    }

    /// The digit of the cell in focus, or 0.
    pub fn focus_digit(&self, focus: Option<usize>) -> (d: u8)
        requires
            focus matches Some(f) ==> f < self@.grid.len(),
        ensures
            d == digit_in_focus(self@, focus),
    {
        match focus {
            Some(f) => self.grid[f].value,
            None => 0,
        }
    }

    /// The background of cell `idx`, where `focus` was selected when the frame began.
    pub fn cell_fill(&self, focus: Option<usize>, idx: usize) -> (fill: Fill)
        requires
            self@.grid.len() == 81,
            idx < 81,
            focus matches Some(f) ==> f < 81,
        ensures
            fill == fill_of(self@, focus, idx as int),
    {
        if let Some(s) = self.selected_cell {
            if s == idx {
                return Fill::Selected;
            }
        }
        let d = self.focus_digit(focus);
        if self.settings.highlight_same_number && d != 0 && self.grid[idx].value == d {
            return Fill::Match;
        }
        if self.settings.highlight_peers {
            if let Some(f) = focus {
                if idx == f || geometry::is_peer(idx, f) {
                    return Fill::Seen;
                }
            }
        }
        Fill::Base
    }

    /// The colour of the digit in cell `idx`, where it holds one.
    pub fn digit_tone(&self, idx: usize) -> (tone: Option<Tone>)
        requires
            self@.grid.len() == 81,
            idx < 81,
        ensures
            tone == tone_of(self@, idx as int),
    {
        let c = self.grid[idx];
        if c.value == 0 {
            None
        } else if c.given {
            Some(Tone::Given)
        } else if self.settings.show_mistakes && c.value != self.solution_board.cells[idx] {
            Some(Tone::Mistake)
        } else {
            Some(Tone::User)
        }
    }

    /// The corner notes of cell `idx`.
    pub fn corner_marks(&self, focus: Option<usize>, idx: usize) -> (marks: Vec<Mark>)
        requires
            self@.grid.len() == 81,
            idx < 81,
            focus matches Some(f) ==> f < 81,
        ensures
            marks@ == marks_below(
                self@.grid[idx as int].corner_notes,
                digit_in_focus(self@, focus),
                9,
            ),
    {
        let notes = self.grid[idx].corner_notes;
        let focus_digit = self.focus_digit(focus);
        let mut marks: Vec<Mark> = Vec::new();
        let mut d: u8 = 1;
        while d < 10
            invariant
                1 <= d <= 10,
                marks@ == marks_below(notes, focus_digit, (d - 1) as nat),
            decreases 10 - d,
        {
            if notes & (1u16 << d) != 0 {
                marks.push(
                    Mark {
                        digit: d,
                        row: (d - 1) / 3,
                        col: (d - 1) % 3,
                        matching: focus_digit == d,
                    },
                );
            }
            d = d + 1;
        }
        marks
    }

    /// The center notes of cell `idx`, as text.
    pub fn center_text(&self, idx: usize) -> (s: String)
        requires
            self@.grid.len() == 81,
            idx < 81,
        ensures
            s@ == notes_below(self@.grid[idx as int].center_notes, 9),
    {
        let notes = self.grid[idx].center_notes;
        let mut s = String::new();
        let mut d: u8 = 1;
        while d < 10
            invariant
                1 <= d <= 10,
                s@ == notes_below(notes, (d - 1) as nat),
            decreases 10 - d,
        {
            if notes & (1u16 << d) != 0 {
                s.push((48u8 + d) as char);
            }
            d = d + 1;
        }
        s
    }
}

// ---- Keys ----

/// The keys that were pressed in a frame; `digits[k]` is the key of digit `k + 1`.
#[derive(Debug, PartialEq, Eq, Clone, Copy)]
pub struct Keys {
    pub digits: [bool; 9],
    pub shift: bool,
    pub ctrl: bool,
    pub backspace: bool,
    pub delete: bool,
    pub z: bool,
    pub x: bool,
    pub c: bool,
    pub escape: bool,
    pub arrow_up: bool,
    pub arrow_down: bool,
    pub arrow_left: bool,
    pub arrow_right: bool,
    pub w: bool,
    pub a: bool,
    pub s: bool,
    pub d: bool,
}

/// The mode in which a digit key is taken: shift means corner notes and control
/// center notes.
pub open spec fn mode_for(mode: NoteMode, shift: bool, ctrl: bool) -> NoteMode {
    if shift {
        NoteMode::Corner
    } else if ctrl {
        NoteMode::Center
    } else {
        mode
    }
}

/// A digit key; the mode is afterwards what it was.
pub open spec fn digit_key(g: Game, k: Keys, num: u8, ms: u128) -> (Game, Seq<Cue>) {
    let h = game::number_input(
        Game { mode: mode_for(g.mode, k.shift, k.ctrl), ..g },
        num,
        ms,
    );
    (Game { mode: g.mode, ..h.0 }, h.1)
}

/// The digit keys from 1 to `n`, in turn.
pub open spec fn digit_keys(g: Game, k: Keys, ms: u128, n: nat) -> (Game, Seq<Cue>)
    decreases n,
{
    if n == 0 {
        (g, Seq::empty())
    } else {
        let before = digit_keys(g, k, ms, (n - 1) as nat);
        if k.digits@[n - 1] {
            let h = digit_key(before.0, k, n as u8, ms);
            (h.0, before.1 + h.1)
        } else {
            before
        }
    }
}

/// Backspace and delete clear the selected cell.
pub open spec fn clear_keys(g: Game, k: Keys, ms: u128) -> (Game, Seq<Cue>) {
    if k.backspace || k.delete {
        game::cell_clearing(g, ms)
    } else {
        (g, Seq::empty())
    }
}

/// Control with Z undoes.
pub open spec fn undo_keys(g: Game, k: Keys, ms: u128) -> (Game, Seq<Cue>) {
    if k.z && k.ctrl {
        game::undoing(g, ms)
    } else {
        (g, Seq::empty())
    }
}

/// The keys of the modes: Z, X and C, where the last pressed of them counts.
pub open spec fn mode_keys(mode: NoteMode, k: Keys) -> NoteMode {
    if k.c {
        NoteMode::Center
    } else if k.x {
        NoteMode::Corner
    } else if k.z && !k.ctrl {
        NoteMode::Normal
    } else {
        mode
    }
}

/// The cell that the arrow keys and W, A, S, D lead to: right before left, before
/// down, before up, and never off the board.
pub open spec fn moved(i: int, k: Keys) -> int {
    if (k.arrow_right || k.d) && geometry::col(i) < 8 {
        i + 1
    } else if (k.arrow_left || k.a) && geometry::col(i) > 0 {
        i - 1
    } else if (k.arrow_down || k.s) && geometry::row(i) < 8 {
        i + 9
    } else if (k.arrow_up || k.w) && geometry::row(i) > 0 {
        i - 9
    } else {
        i
    }
}

/// The screen after the keys of a frame on the game screen.
pub open spec fn screen_after(k: Keys) -> Screen {
    if k.escape {
        Screen::MainMenu
    } else {
        Screen::Playing
    }
}

/// The keys of a frame: digits, clearing, undo, modes, escape, and the arrows. They
/// count on the game screen only; and while there is no puzzle yet, just escape does.
pub open spec fn keys_taken(g: Game, k: Keys, ms: u128) -> (Game, Seq<Cue>) {
    if g.screen != Screen::Playing {
        (g, Seq::empty())
    } else if g.generating || g.grid.len() == 0 {
        (Game { screen: screen_after(k), ..g }, Seq::empty())
    } else {
        let a = digit_keys(g, k, ms, 9);
        let b = clear_keys(a.0, k, ms);
        let c = undo_keys(b.0, k, ms);
        (
            Game {
                mode: mode_keys(c.0.mode, k),
                screen: screen_after(k),
                selected: match c.0.selected {
                    Some(i) => Some(moved(i as int, k) as usize),
                    None => None,
                },
                ..c.0
            },
            a.1 + b.1 + c.1,
        )
    }
}

/// Appends the sounds of `more`.
fn add_cues(cues: &mut Vec<Cue>, more: &Vec<Cue>)
    ensures
        final(cues)@ == old(cues)@ + more@,
{
    let ghost before = cues@;
    let mut i: usize = 0;
    while i < more.len()
        invariant
            i <= more@.len(),
            cues@ == before + more@.take(i as int),
        decreases more@.len() - i,
    {
        cues.push(more[i]);
        assert(cues@ =~= before + more@.take(i + 1));
        i = i + 1;
    }
    assert(more@.take(more@.len() as int) =~= more@);
}

impl SudokuApp {
    fn handle_digit_key(&mut self, keys: &Keys, num: u8, elapsed_ms: u128) -> (cues: Vec<Cue>)
        requires
            game::wf(old(self)@),
            num < 16,
            old(self)@.log.len() < usize::MAX,
        ensures
            (final(self)@, cues@) == digit_key(old(self)@, *keys, num, elapsed_ms),
            game::wf(final(self)@),
            final(self)@.log.len() <= old(self)@.log.len() + 1,
            final(self)@.screen == old(self)@.screen,
    {
        let prev = self.note_mode;
        if keys.shift {
            self.set_note_mode(NoteMode::Corner);
        } else if keys.ctrl {
            self.set_note_mode(NoteMode::Center);
        }
        proof {
            game::law_one_move_each(self@, num, elapsed_ms);
        }
        let cues = self.handle_number_input(num, elapsed_ms);
        self.set_note_mode(prev);
        cues
    }

    /// Moves the selection as the arrow keys and W, A, S, D say.
    fn move_selection(&mut self, keys: &Keys)
        requires
            game::wf(old(self)@),
        ensures
            final(self)@ == (Game {
                selected: match old(self)@.selected {
                    Some(i) => Some(moved(i as int, *keys) as usize),
                    None => None,
                },
                ..old(self)@
            }),
            game::wf(final(self)@),
    {
        if let Some(idx) = self.selected_cell {
            let (r, col): (usize, usize) = (idx / 9, idx % 9);
            let mut to: usize = idx;
            if (keys.arrow_up || keys.w) && r > 0 {
                to = idx - 9;
            }
            if (keys.arrow_down || keys.s) && r < 8 {
                to = idx + 9;
            }
            if (keys.arrow_left || keys.a) && col > 0 {
                to = idx - 1;
            }
            if (keys.arrow_right || keys.d) && col < 8 {
                to = idx + 1;
            }
            self.selected_cell = Some(to);
        }
    }

    /// Takes the keys that were pressed in a frame.
    pub fn handle_keys(&mut self, keys: &Keys, elapsed_ms: u128) -> (cues: Vec<Cue>)
        requires
            game::wf(old(self)@),
            old(self)@.log.len() + 10 < usize::MAX,
        ensures
            (final(self)@, cues@) == keys_taken(old(self)@, *keys, elapsed_ms),
            game::wf(final(self)@),
    {
        let ghost g = self@;
        let mut cues: Vec<Cue> = Vec::new();
        if self.screen != Screen::Playing {
            return cues;
        }
        if self.is_waiting() {
            if keys.escape {
                self.show_menu();
            }
            return cues;
        }
        let mut num: u8 = 1;
        while num < 10
            invariant
                1 <= num <= 10,
                g == old(self)@,
                g.log.len() + 10 < usize::MAX,
                game::wf(self@),
                self@.log.len() <= g.log.len() + num - 1,
                self@.screen == g.screen,
                (self@, cues@) == digit_keys(g, *keys, elapsed_ms, (num - 1) as nat),
            decreases 10 - num,
        {
            if keys.digits[(num - 1) as usize] {
                let more = self.handle_digit_key(keys, num, elapsed_ms);
                add_cues(&mut cues, &more);
            }
            num = num + 1;
        }
        let ghost a = digit_keys(g, *keys, elapsed_ms, 9);
        proof {
            game::law_one_move_each(self@, 0, elapsed_ms);
        }
        if keys.backspace || keys.delete {
            let more = self.clear_current_cell(elapsed_ms);
            add_cues(&mut cues, &more);
        }
        let ghost b = clear_keys(a.0, *keys, elapsed_ms);
        assert(cues@ =~= a.1 + b.1);
        if keys.z && keys.ctrl {
            let more = self.undo(elapsed_ms);
            add_cues(&mut cues, &more);
        } else if keys.z {
            self.set_note_mode(NoteMode::Normal);
        }
        let ghost c = undo_keys(b.0, *keys, elapsed_ms);
        assert(cues@ =~= a.1 + b.1 + c.1);
        if keys.x {
            self.set_note_mode(NoteMode::Corner);
        }
        if keys.c {
            self.set_note_mode(NoteMode::Center);
        }
        if keys.escape {
            self.show_menu();
        }
        self.move_selection(keys);
        assert(self@ =~= keys_taken(g, *keys, elapsed_ms).0);
        cues
    }
}

/// Escape leads from the game screen to the menu, also while a puzzle is being made.
pub proof fn law_escape_leads_to_menu(g: Game, k: Keys, ms: u128)
    requires
        g.screen == Screen::Playing,
        k.escape,
    ensures
        keys_taken(g, k, ms).0.screen == Screen::MainMenu,
{
}

/// The arrow keys keep the selection on the board, and move it by one cell along a
/// row or a column at most.
pub proof fn law_arrows_stay_on_board(i: int, k: Keys)
    requires
        0 <= i < 81,
    ensures
        0 <= moved(i, k) < 81,
        moved(i, k) == i || geometry::peer(i, moved(i, k)),
{
}

} // verus!
