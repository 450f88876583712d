//! Screens, keys, labels and exports.

use rs_sudoku::board::Board;
use rs_sudoku::difficulty::Difficulty;
use rs_sudoku::export::{next_action, replay_file_name, sound_file_names, ExportAction, ExportStage};
use rs_sudoku::game::{Cue, SudokuApp};
use rs_sudoku::replay::board_text;
use rs_sudoku::screens::{
    ends_menu_row, is_main_line, mode_button_label, mode_label, status_expired,
    theme_button_label, Fill, Keys, Mark, OptionsInput, Tone,
};
use rs_sudoku::settings::{AppTheme, NoteMode, Screen, Settings};
use rs_sudoku::text::{clock_text, counted, decimal_text, timer_label};
use rs_sudoku::theme::{
    center_color, counter_color, match_color, mistake_color, theme_colors, Rgb,
};

const PUZZLE: &str =
    "530070000600195000098000060800060003400803001700020006060000280000419005000080079";
const SOLUTION: &str =
    "534678912672195348198342567859761423426853791713924856961537284287419635345286179";

fn board(text: &str) -> Board {
    let mut b = Board::new();
    for (i, ch) in text.bytes().enumerate() {
        b.cells[i] = ch - b'0';
    }
    b
}

fn app() -> SudokuApp {
    let mut a = SudokuApp::new(Settings::default(), 0);
    a.choose_difficulty(Difficulty::Easy);
    a.apply_generated(board(PUZZLE), board(SOLUTION), 0);
    a
}

fn no_keys() -> Keys {
    Keys {
        digits: [false; 9],
        shift: false,
        ctrl: false,
        backspace: false,
        delete: false,
        z: false,
        x: false,
        c: false,
        escape: false,
        arrow_up: false,
        arrow_down: false,
        arrow_left: false,
        arrow_right: false,
        w: false,
        a: false,
        s: false,
        d: false,
    }
}

fn shown(action: ExportAction) -> String {
    match action {
        ExportAction::Show(message) => message,
        ExportAction::Go(stage) => panic!("goes on with {stage:?}"),
    }
}

fn next_stage(action: ExportAction) -> ExportStage {
    match action {
        ExportAction::Go(stage) => stage,
        ExportAction::Show(message) => panic!("ends with {message}"),
    }
}

#[test]
fn menus_lead_where_they_should() {
    let mut a = SudokuApp::new(Settings::default(), 0);
    assert!(!a.has_active_game());
    a.open_options(Screen::MainMenu);
    assert_eq!(a.screen, Screen::Options);
    a.close_options();
    assert_eq!(a.screen, Screen::MainMenu);
    a.choose_difficulty(Difficulty::Hard);
    assert_eq!((a.screen, a.difficulty, a.generating), (Screen::Playing, Difficulty::Hard, true));
    a.apply_generated(board(PUZZLE), board(SOLUTION), 0);
    a.open_options(Screen::Playing);
    a.close_options();
    assert_eq!(a.screen, Screen::Playing);
    a.show_menu();
    assert!(a.has_active_game());
    a.resume();
    assert_eq!(a.screen, Screen::Playing);
    let ends: Vec<bool> = (0..10).map(ends_menu_row).collect();
    assert_eq!(
        ends,
        vec![false, false, true, false, false, true, false, false, true, false]
    );
}

#[test]
fn options_are_taken_over() {
    let mut a = app();
    let same = OptionsInput {
        dark_clicked: false,
        light_clicked: false,
        sound_enabled: true,
        smart_notes: true,
        highlight_same_number: true,
        highlight_peers: true,
        show_mistakes: true,
    };
    assert!(!a.apply_options(&same, 0));
    assert_eq!(a.settings, Settings::default());
    assert!(a.apply_options(&OptionsInput { light_clicked: true, ..same }, 0));
    assert_eq!((a.theme, a.settings.theme), (AppTheme::Light, AppTheme::Light));
    assert!(a.apply_options(&OptionsInput { smart_notes: false, ..same }, 0));
    assert!(!a.settings.smart_notes);
    assert_eq!(a.settings.theme, AppTheme::Light);
    assert!(a.apply_options(&OptionsInput { dark_clicked: true, smart_notes: false, ..same }, 0));
    assert_eq!((a.theme, a.settings.theme), (AppTheme::Dark, AppTheme::Dark));
    a.toggle_theme();
    assert_eq!((a.theme, a.settings.theme), (AppTheme::Light, AppTheme::Light));
    a.toggle_theme();
    assert_eq!(a.theme, AppTheme::Dark);
}

#[test]
fn clicks_select_cells_on_the_board() {
    let mut a = app();
    a.click_cell(4, 7);
    assert_eq!(a.selected_cell, Some(43));
    a.click_cell(9, 0);
    a.click_cell(0, 9);
    assert_eq!(a.selected_cell, Some(43));
    let mut none = SudokuApp::new(Settings::default(), 0);
    none.click_cell(0, 0);
    assert_eq!(none.selected_cell, None);
}

#[test]
fn backgrounds() {
    let mut a = app();
    a.selected_cell = Some(0);
    let focus = a.selected_cell;
    assert_eq!(a.cell_fill(focus, 0), Fill::Selected);
    assert_eq!(a.cell_fill(focus, 14), Fill::Match);
    assert_eq!(a.cell_fill(focus, 8), Fill::Seen);
    assert_eq!(a.cell_fill(focus, 72), Fill::Seen);
    assert_eq!(a.cell_fill(focus, 10), Fill::Seen);
    assert_eq!(a.cell_fill(focus, 40), Fill::Base);
    a.settings.highlight_same_number = false;
    a.settings.highlight_peers = false;
    assert_eq!(a.cell_fill(focus, 14), Fill::Base);
    assert_eq!(a.cell_fill(focus, 8), Fill::Base);
    a.settings = Settings::default();
    a.selected_cell = None;
    assert_eq!(a.cell_fill(None, 0), Fill::Base);
    a.selected_cell = Some(2);
    assert_eq!(a.cell_fill(Some(2), 6), Fill::Seen);
    a.click_cell(8, 8);
    assert_eq!(a.cell_fill(Some(0), 0), Fill::Match);
    assert_eq!(a.cell_fill(Some(0), 80), Fill::Selected);
}

#[test]
fn digit_tones() {
    let mut a = app();
    assert_eq!(a.digit_tone(0), Some(Tone::Given));
    assert_eq!(a.digit_tone(2), None);
    a.selected_cell = Some(2);
    a.handle_number_input(4, 0);
    assert_eq!(a.digit_tone(2), Some(Tone::User));
    a.handle_number_input(9, 0);
    assert_eq!(a.digit_tone(2), Some(Tone::Mistake));
    a.settings.show_mistakes = false;
    assert_eq!(a.digit_tone(2), Some(Tone::User));
}

#[test]
fn marks_and_notes() {
    let mut a = app();
    a.grid[2].corner_notes = 1 << 5 | 1 << 9;
    a.grid[2].center_notes = 1 << 1 | 1 << 4 | 1 << 8;
    let mark = |digit, row, col, matching| Mark { digit, row, col, matching };
    assert_eq!(
        a.corner_marks(Some(0), 2),
        vec![mark(5, 1, 1, true), mark(9, 2, 2, false)]
    );
    assert_eq!(
        a.corner_marks(None, 2),
        vec![mark(5, 1, 1, false), mark(9, 2, 2, false)]
    );
    assert_eq!(a.center_text(2), "148");
    assert_eq!(a.center_text(3), "");
    assert_eq!(a.focus_digit(Some(0)), 5);
    assert_eq!(a.focus_digit(None), 0);
}

#[test]
fn lines_and_labels() {
    let main: Vec<usize> = (0..10).filter(|&i| is_main_line(i)).collect();
    assert_eq!(main, vec![0, 3, 6, 9]);
    assert_eq!(mode_label(NoteMode::Normal), "Mode: [Z] Digit Placement");
    assert_eq!(mode_label(NoteMode::Corner), "Mode: [X] Corner (Snyder)");
    assert_eq!(mode_label(NoteMode::Center), "Mode: [C] Center Candidate");
    assert_eq!(mode_button_label(NoteMode::Normal), "Digit [Z]");
    assert_eq!(mode_button_label(NoteMode::Corner), "Corner [X]");
    assert_eq!(mode_button_label(NoteMode::Center), "Center [C]");
    assert_eq!(theme_button_label(AppTheme::Dark), "☀ Light");
    assert_eq!(theme_button_label(AppTheme::Light), "🌙 Dark");
    assert_eq!(timer_label(61), "⏱ 01:01");
    assert_eq!(counted("❌ Mistakes: ", 12), "❌ Mistakes: 12");
}

#[test]
fn numbers_as_text() {
    assert_eq!(decimal_text(0), "0");
    assert_eq!(decimal_text(9_876_543_210), "9876543210");
    assert_eq!(decimal_text(u128::MAX), u128::MAX.to_string());
    assert_eq!(clock_text(0), "00:00");
    assert_eq!(clock_text(59), "00:59");
    assert_eq!(clock_text(605), "10:05");
    assert_eq!(clock_text(6000), "100:00");
}

#[test]
fn colours() {
    let rgb = |r, g, b| Rgb { r, g, b };
    let dark = theme_colors(AppTheme::Dark);
    assert_eq!(dark.bg, rgb(15, 17, 23));
    assert_eq!(dark.cell_selected, rgb(68, 92, 138));
    assert_eq!(dark.accent, rgb(45, 100, 210));
    let light = theme_colors(AppTheme::Light);
    assert_eq!(light.bg, rgb(242, 245, 250));
    assert_eq!(light.text_user, rgb(0, 102, 220));
    assert_eq!(light.grid_sub, rgb(215, 222, 235));
    assert_eq!(mistake_color(), rgb(235, 75, 75));
    assert_eq!(counter_color(), rgb(235, 80, 80));
    assert_eq!(match_color(), rgb(240, 200, 60));
    assert_eq!(center_color(), rgb(120, 175, 255));
}

#[test]
fn waiting_and_repainting() {
    let mut a = SudokuApp::new(Settings::default(), 0);
    assert!(a.is_waiting());
    assert_eq!(a.repaint_ms(), 400);
    a.choose_difficulty(Difficulty::Ultimate);
    assert_eq!(a.repaint_ms(), 50);
    assert!(a.shows_slow_hint());
    a.apply_generated(board(PUZZLE), board(SOLUTION), 0);
    assert!(!a.is_waiting());
    assert_eq!(a.repaint_ms(), 200);
    for d in Difficulty::ALL {
        a.difficulty = d;
        assert_eq!(
            a.shows_slow_hint(),
            d == Difficulty::Diabolical || d == Difficulty::Grandmaster || d == Difficulty::Ultimate
        );
    }
    assert!(!a.shows_solved_window());
    a.solved = true;
    assert!(a.shows_solved_window());
    a.show_menu();
    assert!(!a.shows_solved_window());
    assert!(!status_expired(6_000_000_000));
    assert!(status_expired(6_000_000_001));
}

#[test]
fn digit_keys_and_modifiers() {
    let mut a = app();
    a.selected_cell = Some(2);
    let mut four = no_keys();
    four.digits[3] = true;
    assert_eq!(a.handle_keys(&Keys { shift: true, ..four }, 1), vec![Cue::Tick]);
    assert_eq!(a.grid[2].corner_notes, 1 << 4);
    assert_eq!(a.note_mode, NoteMode::Normal);
    assert_eq!(a.handle_keys(&Keys { ctrl: true, ..four }, 2), vec![Cue::Tick]);
    assert_eq!(a.grid[2].center_notes, 1 << 4);
    assert_eq!(a.handle_keys(&four, 3), vec![Cue::Click]);
    assert_eq!(a.grid[2].value, 4);
    assert_eq!(a.handle_keys(&Keys { backspace: true, ..no_keys() }, 4), vec![Cue::Tick]);
    assert_eq!(a.grid[2].value, 0);
    assert_eq!(a.handle_keys(&Keys { z: true, ctrl: true, ..no_keys() }, 5), vec![Cue::Tick]);
    assert_eq!(a.grid[2].value, 4);
    let codes: Vec<&str> = a.moves_log.iter().map(|m| m.1.as_str()).collect();
    assert_eq!(codes, vec!["x+", "e+", "P", "C", "U"]);
}

#[test]
fn mode_keys_and_escape() {
    let mut a = app();
    a.handle_keys(&Keys { x: true, ..no_keys() }, 0);
    assert_eq!(a.note_mode, NoteMode::Corner);
    a.handle_keys(&Keys { c: true, ..no_keys() }, 0);
    assert_eq!(a.note_mode, NoteMode::Center);
    a.handle_keys(&Keys { z: true, ..no_keys() }, 0);
    assert_eq!(a.note_mode, NoteMode::Normal);
    a.handle_keys(&Keys { escape: true, ..no_keys() }, 0);
    assert_eq!(a.screen, Screen::MainMenu);
    a.handle_keys(&Keys { x: true, ..no_keys() }, 0);
    assert_eq!(a.note_mode, NoteMode::Normal);
}

#[test]
fn arrow_keys_stay_on_the_board() {
    let mut a = app();
    a.selected_cell = Some(0);
    a.handle_keys(&Keys { arrow_up: true, ..no_keys() }, 0);
    a.handle_keys(&Keys { a: true, ..no_keys() }, 0);
    assert_eq!(a.selected_cell, Some(0));
    a.handle_keys(&Keys { arrow_right: true, ..no_keys() }, 0);
    assert_eq!(a.selected_cell, Some(1));
    a.handle_keys(&Keys { s: true, ..no_keys() }, 0);
    assert_eq!(a.selected_cell, Some(10));
    a.handle_keys(&Keys { w: true, ..no_keys() }, 0);
    a.handle_keys(&Keys { arrow_left: true, ..no_keys() }, 0);
    assert_eq!(a.selected_cell, Some(0));
    a.handle_keys(&Keys { arrow_down: true, d: true, ..no_keys() }, 0);
    assert_eq!(a.selected_cell, Some(1));
    a.selected_cell = Some(80);
    a.handle_keys(&Keys { d: true, ..no_keys() }, 0);
    a.handle_keys(&Keys { arrow_down: true, ..no_keys() }, 0);
    assert_eq!(a.selected_cell, Some(80));
}

#[test]
fn just_escape_counts_while_a_puzzle_is_made() {
    let mut a = app();
    let before = a.grid.clone();
    a.start_new_game(Difficulty::Easy);
    let mut most = no_keys();
    most.digits = [true; 9];
    most.delete = true;
    most.x = true;
    assert!(a.handle_keys(&most, 0).is_empty());
    assert_eq!((a.screen, a.note_mode), (Screen::Playing, NoteMode::Normal));
    most.escape = true;
    assert!(a.handle_keys(&most, 0).is_empty());
    assert_eq!((a.screen, a.note_mode), (Screen::MainMenu, NoteMode::Normal));
    assert!(a.generating);
    assert_eq!(a.grid, before);
    let mut first = SudokuApp::new(Settings::default(), 0);
    first.choose_difficulty(Difficulty::Hard);
    first.handle_keys(&Keys { escape: true, ..no_keys() }, 0);
    assert_eq!(first.screen, Screen::MainMenu);
}

#[test]
fn exports_go_through_their_stages() {
    let go = |stage, error| next_action(stage, error, "/data/replays", "/data/replays/r.json", 512);
    assert_eq!(next_stage(go(ExportStage::Serialize, None)), ExportStage::CreateDir);
    assert_eq!(next_stage(go(ExportStage::CreateDir, None)), ExportStage::Write);
    assert_eq!(next_stage(go(ExportStage::Write, None)), ExportStage::Copy);
    assert_eq!(
        shown(go(ExportStage::Copy, None)),
        "✅ Exported to /data/replays/r.json (also copied to clipboard) (512 bytes)"
    );
    assert_eq!(
        shown(go(ExportStage::Copy, Some("no clipboard"))),
        "✅ Exported to /data/replays/r.json (512 bytes)"
    );
    assert_eq!(
        shown(go(ExportStage::Serialize, Some("bad"))),
        "⚠ Export failed: couldn't serialize session (bad)"
    );
    assert_eq!(
        shown(go(ExportStage::CreateDir, Some("denied"))),
        "⚠ Export failed: couldn't create /data/replays (denied)"
    );
    assert_eq!(
        shown(go(ExportStage::Write, Some("full"))),
        "⚠ Export failed: couldn't write /data/replays/r.json (full)"
    );
}

#[test]
fn file_names() {
    assert_eq!(replay_file_name(1_700_000_000_123), "replay_1700000000123.json");
    assert_eq!(
        sound_file_names("click"),
        vec!["click.wav", "click.ogg", "click.mp3", "click.flac"]
    );
}

#[test]
fn boards_as_text() {
    assert_eq!(board_text(&board(PUZZLE), true), PUZZLE.replace('0', "."));
    assert_eq!(board_text(&board(PUZZLE), false), PUZZLE);
}
