//! The game: actions, undo, the log and its replay.

use rs_sudoku::board::Board;
use rs_sudoku::difficulty::Difficulty;
use rs_sudoku::game::{peers_of_cell, CellState, Cue, SudokuApp};
use rs_sudoku::replay::{MoveRecord, FORMAT_DOC};
use rs_sudoku::screens::OptionsInput;
use rs_sudoku::settings::{AppTheme, NoteMode, Screen, Settings};

const PUZZLE: &str =
    "530070000600195000098000060800060003400803001700020006060000280000419005000080079";
const SOLUTION: &str =
    "534678912672195348198342567859761423426853791713924856961537284287419635345286179";

fn board(text: &str) -> Board {
    let mut b = Board::new();
    for (i, ch) in text.bytes().enumerate() {
        b.cells[i] = ch - b'0';
    }
    b
}

fn app_with(settings: Settings) -> SudokuApp {
    let mut a = SudokuApp::new(settings, 5);
    a.choose_difficulty(Difficulty::Easy);
    a.apply_generated(board(PUZZLE), board(SOLUTION), 1234);
    a
}

fn app() -> SudokuApp {
    app_with(Settings::default())
}

/// Switches smart notes on the options screen.
fn switch_smart_notes(a: &mut SudokuApp, on: bool, ms: u128) {
    let s = a.settings;
    a.apply_options(
        &OptionsInput {
            dark_clicked: false,
            light_clicked: false,
            sound_enabled: s.sound_enabled,
            smart_notes: on,
            highlight_same_number: s.highlight_same_number,
            highlight_peers: s.highlight_peers,
            show_mistakes: s.show_mistakes,
        },
        ms,
    );
}

fn code(m: &MoveRecord) -> (usize, &str, u8, u128, usize) {
    (m.0, m.1.as_str(), m.2, m.3, m.4)
}

/// What the cells become by replaying the log: the cells before each step are kept, so
/// that an undo can go back to them.
fn replay(log: &[MoveRecord]) -> Vec<CellState> {
    let mut smart = true;
    let givens = board(PUZZLE);
    let start: Vec<CellState> = (0..81)
        .map(|i| CellState {
            given: givens.cells[i] != 0,
            value: givens.cells[i],
            corner_notes: 0,
            center_notes: 0,
        })
        .collect();
    let mut states = vec![start];
    for m in log {
        let mut cells = states.last().unwrap().clone();
        let bit = 1u16 << m.2;
        match m.1.as_str() {
            "P" => {
                cells[m.0].value = m.2;
                cells[m.0].corner_notes = 0;
                cells[m.0].center_notes = 0;
                if smart {
                    for p in peers_of_cell(m.0) {
                        cells[p].corner_notes &= !bit;
                        cells[p].center_notes &= !bit;
                    }
                }
            }
            "C" => cells[m.0].value = 0,
            "N" => {
                cells[m.0].corner_notes = 0;
                cells[m.0].center_notes = 0;
            }
            "x+" => cells[m.0].corner_notes |= bit,
            "x-" => cells[m.0].corner_notes &= !bit,
            "e+" => cells[m.0].center_notes |= bit,
            "e-" => cells[m.0].center_notes &= !bit,
            "U" => cells = states[m.4 - 1].clone(),
            "S+" => smart = true,
            "S-" => smart = false,
            other => panic!("unknown code {other}"),
        }
        states.push(cells);
    }
    states.pop().unwrap()
}

#[test]
fn the_application_starts_in_the_menu() {
    let a = SudokuApp::new(Settings::default(), 77);
    assert_eq!(a.screen, Screen::MainMenu);
    assert_eq!(a.difficulty, Difficulty::Extreme);
    assert_eq!(a.note_mode, NoteMode::Normal);
    assert_eq!(a.theme, AppTheme::Dark);
    assert_eq!(a.selected_cell, None);
    assert_eq!(a.started_at_unix_ms, 77);
    assert!(a.grid.is_empty() && a.moves_log.is_empty() && !a.generating && !a.solved);
}

#[test]
fn default_settings_switch_everything_on() {
    let s = Settings::default();
    assert_eq!(s.theme, AppTheme::Dark);
    assert!(s.sound_enabled && s.smart_notes && s.highlight_same_number);
    assert!(s.highlight_peers && s.show_mistakes);
}

#[test]
fn a_new_game_waits_for_its_puzzle() {
    let mut a = app();
    a.start_new_game(Difficulty::Evil);
    assert!(a.generating);
    assert_eq!(a.selected_cell, None);
    assert_eq!(a.difficulty, Difficulty::Evil);
    assert!(a.handle_number_input(5, 0).is_empty());
    assert!(a.moves_log.is_empty());
    a.apply_generated(board(PUZZLE), board(SOLUTION), 99);
    assert!(!a.generating);
    assert_eq!(a.selected_cell, Some(0));
    assert_eq!(a.started_at_unix_ms, 99);
    assert!(a.grid[0].given && a.grid[0].value == 5);
    assert!(!a.grid[2].given && a.grid[2].value == 0);
}

#[test]
fn peers_are_walked_along_row_and_column_first() {
    assert_eq!(
        peers_of_cell(40),
        vec![36, 4, 37, 13, 38, 22, 39, 31, 41, 49, 42, 58, 43, 67, 44, 76, 30, 32, 48, 50]
    );
    for i in 0..81 {
        let mut walk = peers_of_cell(i);
        walk.sort();
        let mut all: Vec<usize> = rs_sudoku::geometry::peers_of(i);
        all.sort();
        assert_eq!(walk, all);
    }
}

#[test]
fn givens_cannot_be_changed() {
    let mut a = app();
    a.selected_cell = Some(0);
    assert!(a.handle_number_input(9, 1).is_empty());
    assert!(a.clear_current_cell(1).is_empty());
    assert_eq!(a.grid[0].value, 5);
    assert!(a.moves_log.is_empty() && !a.can_undo());
}

#[test]
fn placing_right_and_wrong_digits() {
    let mut a = app();
    a.selected_cell = Some(2);
    assert_eq!(a.handle_number_input(4, 10), vec![Cue::Click]);
    assert_eq!(a.grid[2].value, 4);
    assert_eq!(a.mistakes_count, 0);
    assert_eq!(a.handle_number_input(9, 20), vec![Cue::Error]);
    assert_eq!(a.grid[2].value, 9);
    assert_eq!(a.mistakes_count, 1);
    assert!(a.handle_number_input(9, 30).is_empty());
    assert_eq!(a.grid[2].value, 0);
    let log: Vec<_> = a.moves_log.iter().map(code).collect();
    assert_eq!(log, vec![(2, "P", 4, 10, 0), (2, "P", 9, 20, 0), (2, "C", 9, 30, 0)]);
}

#[test]
fn sounds_can_be_switched_off() {
    let mut a = app();
    a.settings.sound_enabled = false;
    a.selected_cell = Some(2);
    assert!(a.handle_number_input(4, 0).is_empty());
    assert!(a.undo(0).is_empty());
    a.note_mode = NoteMode::Corner;
    assert!(a.handle_number_input(4, 0).is_empty());
    assert!(a.clear_current_cell(0).is_empty());
}

#[test]
fn notes_are_switched() {
    let mut a = app();
    a.selected_cell = Some(2);
    a.note_mode = NoteMode::Corner;
    assert_eq!(a.handle_number_input(4, 1), vec![Cue::Tick]);
    assert_eq!(a.grid[2].corner_notes, 1 << 4);
    a.note_mode = NoteMode::Center;
    assert_eq!(a.handle_number_input(1, 2), vec![Cue::Tick]);
    assert_eq!(a.grid[2].center_notes, 1 << 1);
    assert_eq!(a.handle_number_input(1, 3), vec![Cue::Tick]);
    assert_eq!(a.grid[2].center_notes, 0);
    a.note_mode = NoteMode::Corner;
    a.handle_number_input(4, 4);
    assert_eq!(a.grid[2].corner_notes, 0);
    let codes: Vec<&str> = a.moves_log.iter().map(|m| m.1.as_str()).collect();
    assert_eq!(codes, vec!["x+", "e+", "e-", "x-"]);
}

#[test]
fn smart_notes_clear_row_column_and_box() {
    for smart in [true, false] {
        let mut a = app_with(Settings { smart_notes: smart, ..Settings::default() });
        // Cell 2 sees cell 3 by row, 29 by column and 10 by box, and 30 not at all.
        for i in [3, 29, 10, 30] {
            a.grid[i].corner_notes = 1 << 4 | 1 << 1;
            a.grid[i].center_notes = 1 << 4;
        }
        a.selected_cell = Some(2);
        a.handle_number_input(4, 0);
        for i in [3, 29, 10] {
            let (corner, center) = if smart { (1 << 1, 0) } else { (1 << 4 | 1 << 1, 1 << 4) };
            assert_eq!((a.grid[i].corner_notes, a.grid[i].center_notes), (corner, center));
        }
        assert_eq!(a.grid[30].corner_notes, 1 << 4 | 1 << 1);
        a.undo(1);
        for i in [3, 29, 10, 30] {
            assert_eq!(a.grid[i].corner_notes, 1 << 4 | 1 << 1);
            assert_eq!(a.grid[i].center_notes, 1 << 4);
        }
        assert_eq!(a.grid[2].value, 0);
    }
}

#[test]
fn smart_notes_clear_filled_cells_too() {
    let mut a = app();
    a.selected_cell = Some(3);
    a.handle_number_input(6, 0);
    a.note_mode = NoteMode::Corner;
    a.handle_number_input(4, 1);
    a.note_mode = NoteMode::Center;
    a.handle_number_input(4, 2);
    a.handle_number_input(7, 3);
    assert_eq!((a.grid[3].value, a.grid[3].corner_notes, a.grid[3].center_notes), (6, 1 << 4, 1 << 4 | 1 << 7));
    a.selected_cell = Some(2);
    a.note_mode = NoteMode::Normal;
    a.handle_number_input(4, 4);
    assert_eq!((a.grid[3].value, a.grid[3].corner_notes, a.grid[3].center_notes), (6, 0, 1 << 7));
    let touched: Vec<usize> = a.undo_stack[4].cells.iter().map(|c| c.idx).collect();
    assert_eq!(touched, vec![2, 3]);
    a.undo(5);
    assert_eq!((a.grid[3].corner_notes, a.grid[3].center_notes), (1 << 4, 1 << 4 | 1 << 7));
}

#[test]
fn an_undo_entry_lists_the_cells_that_lose_a_note() {
    let mut a = app();
    for i in [3, 29, 10] {
        a.grid[i].corner_notes = 1 << 4;
    }
    a.selected_cell = Some(2);
    a.handle_number_input(4, 0);
    let touched: Vec<usize> = a.undo_stack[0].cells.iter().map(|c| c.idx).collect();
    assert_eq!(touched, vec![2, 3, 29, 10]);
    assert_eq!(a.undo_stack[0].step, 1);
}

#[test]
fn undo_rolls_mistakes_back() {
    let mut a = app();
    a.selected_cell = Some(2);
    a.handle_number_input(9, 0);
    assert_eq!(a.mistakes_count, 1);
    a.selected_cell = Some(60);
    assert_eq!(a.undo(7), vec![Cue::Tick]);
    assert_eq!(a.mistakes_count, 0);
    assert_eq!(a.grid[2].value, 0);
    assert_eq!(a.selected_cell, Some(2));
    assert_eq!(code(&a.moves_log[1]), (2, "U", 0, 7, 1));
    assert!(a.undo(8).is_empty());
    assert_eq!(a.moves_log.len(), 2);
}

#[test]
fn clearing_takes_the_digit_first_and_then_the_notes() {
    let mut a = app();
    a.selected_cell = Some(2);
    assert!(a.clear_current_cell(0).is_empty());
    a.handle_number_input(4, 1);
    a.note_mode = NoteMode::Corner;
    a.handle_number_input(1, 2);
    assert_eq!(a.clear_current_cell(3), vec![Cue::Tick]);
    assert_eq!((a.grid[2].value, a.grid[2].corner_notes), (0, 1 << 1));
    assert_eq!(a.clear_current_cell(4), vec![Cue::Tick]);
    assert_eq!(a.grid[2].corner_notes, 0);
    let log: Vec<_> = a.moves_log.iter().map(code).collect();
    assert_eq!(log[2], (2, "C", 4, 3, 0));
    assert_eq!(log[3], (2, "N", 0, 4, 0));
}

#[test]
fn the_last_digit_solves_the_puzzle() {
    let mut a = app();
    let full = board(SOLUTION);
    let empty: Vec<usize> = (0..81).filter(|&i| a.grid[i].value == 0).collect();
    for (n, &i) in empty.iter().enumerate() {
        a.selected_cell = Some(i);
        let cues = a.handle_number_input(full.cells[i], n as u128);
        if n + 1 < empty.len() {
            assert_eq!(cues, vec![Cue::Click]);
            assert!(!a.solved);
        } else {
            assert_eq!(cues, vec![Cue::Click, Cue::Success]);
            assert!(a.solved);
        }
    }
    assert!(!a.has_active_game());
    a.undo(0);
    assert!(!a.solved);
}

#[test]
fn the_log_replays_to_the_grid() {
    for smart in [true, false] {
        let mut a = app_with(Settings { smart_notes: smart, ..Settings::default() });
        assert_eq!(replay(&a.moves_log), a.grid);
        let script: [(usize, NoteMode, u8); 12] = [
            (3, NoteMode::Corner, 4),
            (3, NoteMode::Center, 6),
            (2, NoteMode::Normal, 4),
            (2, NoteMode::Normal, 9),
            (10, NoteMode::Corner, 2),
            (11, NoteMode::Normal, 2),
            (11, NoteMode::Normal, 2),
            (3, NoteMode::Normal, 6),
            (80, NoteMode::Normal, 1),
            (5, NoteMode::Center, 8),
            (5, NoteMode::Center, 8),
            (6, NoteMode::Corner, 9),
        ];
        for (n, (cell, mode, num)) in script.into_iter().enumerate() {
            a.selected_cell = Some(cell);
            a.note_mode = mode;
            a.handle_number_input(num, n as u128);
            if n % 4 == 3 {
                a.undo(n as u128);
            }
            if n == 9 {
                a.undo(9);
                a.undo(9);
                a.selected_cell = Some(10);
                a.clear_current_cell(9);
            }
            assert_eq!(replay(&a.moves_log), a.grid);
            if n % 3 == 1 {
                let on = !a.settings.smart_notes;
                switch_smart_notes(&mut a, on, n as u128);
                assert_eq!(replay(&a.moves_log), a.grid);
            }
        }
        while a.can_undo() {
            a.undo(100);
            assert_eq!(replay(&a.moves_log), a.grid);
        }
        assert_eq!(a.mistakes_count, 0);
        for i in 0..81 {
            assert_eq!(a.grid[i].value, a.initial_board.cells[i]);
            assert_eq!((a.grid[i].corner_notes, a.grid[i].center_notes), (0, 0));
        }
    }
}

#[test]
fn the_log_tells_smart_notes() {
    let mut a = app();
    assert!(a.moves_log.is_empty());
    switch_smart_notes(&mut a, false, 17);
    switch_smart_notes(&mut a, false, 18);
    switch_smart_notes(&mut a, true, 19);
    let log: Vec<_> = a.moves_log.iter().map(code).collect();
    assert_eq!(log, vec![(0, "S-", 0, 17, 0), (0, "S+", 0, 19, 0)]);
    assert!(!a.can_undo());
    // Where they are off, a game begins with that; and without a game nothing is logged.
    let mut b = SudokuApp::new(Settings::default(), 0);
    switch_smart_notes(&mut b, false, 3);
    assert!(b.moves_log.is_empty());
    b.apply_generated(board(PUZZLE), board(SOLUTION), 0);
    let log: Vec<_> = b.moves_log.iter().map(code).collect();
    assert_eq!(log, vec![(0, "S-", 0, 0, 0)]);
}

#[test]
fn an_undo_does_not_switch_smart_notes() {
    let mut a = app();
    a.grid[3].corner_notes = 1 << 4;
    a.selected_cell = Some(2);
    a.handle_number_input(4, 0);
    switch_smart_notes(&mut a, false, 1);
    a.undo(2);
    assert!(!a.settings.smart_notes);
    assert_eq!(code(&a.moves_log[2]), (2, "U", 0, 2, 1));
    assert_eq!(a.grid[3].corner_notes, 1 << 4);
    a.handle_number_input(4, 3);
    assert_eq!(a.grid[3].corner_notes, 1 << 4);
}

#[test]
fn the_same_moves_give_the_same_grid() {
    // One session switches smart notes on the way, the other begins with them off.
    let mut a = app();
    switch_smart_notes(&mut a, false, 0);
    let mut b = SudokuApp::new(Settings { smart_notes: false, ..Settings::default() }, 9);
    b.apply_generated(board(PUZZLE), Board::new(), 77);
    for (n, x) in [&mut a, &mut b].into_iter().enumerate() {
        for (k, (cell, mode, num)) in [
            (3, NoteMode::Corner, 4),
            (2, NoteMode::Normal, 4),
            (10, NoteMode::Center, 2),
        ]
        .into_iter()
        .enumerate()
        {
            x.selected_cell = Some(cell);
            x.note_mode = mode;
            x.handle_number_input(num, (1 + n * 50 + k) as u128);
        }
        switch_smart_notes(x, true, 200);
        x.selected_cell = Some(11);
        x.note_mode = NoteMode::Normal;
        x.handle_number_input(2, 300);
        x.undo(400);
        x.undo(500);
    }
    let moves = |x: &SudokuApp| -> Vec<(usize, String, u8, usize)> {
        x.moves_log.iter().map(|m| (m.0, m.1.clone(), m.2, m.4)).collect()
    };
    assert_eq!(moves(&a), moves(&b));
    assert_ne!(a.moves_log, b.moves_log);
    assert_eq!(a.grid, b.grid);
    assert_eq!(replay(&a.moves_log), a.grid);
}

#[test]
fn a_repeated_note_brings_the_grid_back() {
    for mode in [NoteMode::Corner, NoteMode::Center] {
        let mut a = app();
        a.grid[3].center_notes = 1 << 5;
        a.selected_cell = Some(2);
        a.note_mode = mode;
        for num in [4, 7, 1] {
            let before = a.grid.clone();
            a.handle_number_input(num, 0);
            assert_ne!(a.grid, before);
            assert_eq!(a.grid[2].value, 0);
            a.handle_number_input(num, 1);
            assert_eq!(a.grid, before);
            a.handle_number_input(num, 2);
        }
        assert_eq!((a.mistakes_count, a.solved), (0, false));
    }
}

#[test]
fn a_number_that_is_not_entered_may_be_any() {
    let mut a = app();
    a.selected_cell = Some(0);
    assert!(a.handle_number_input(200, 0).is_empty());
    a.selected_cell = None;
    assert!(a.handle_number_input(16, 0).is_empty());
    assert!(a.moves_log.is_empty());
}

#[test]
fn the_report_holds_the_session() {
    let mut a = app();
    a.selected_cell = Some(2);
    a.handle_number_input(9, 42);
    let r = a.build_session_report(61, 500);
    assert_eq!(r.engine_version, "3.0.0-rs");
    assert_eq!(r.difficulty, "Easy");
    assert_eq!(r.format, FORMAT_DOC);
    assert_eq!(r.givens_board, PUZZLE.replace('0', "."));
    assert_eq!(r.solution_board, SOLUTION);
    assert_eq!(r.started_at_unix_ms, 1234);
    assert_eq!((r.total_solve_seconds, r.total_solve_nanos), (61, 500));
    assert_eq!(r.mistakes_count, 1);
    assert!(!r.completed);
    assert_eq!(r.moves, vec![(2, "P".to_string(), 9, 42, 0)]);
}

#[test]
fn the_format_is_described() {
    assert!(FORMAT_DOC.starts_with("moves[i] = [cell_idx(0-80, row-major), action_code,"));
    assert!(FORMAT_DOC.ends_with("(digit == solution_board[cell_idx])."));
    assert!(FORMAT_DOC.contains("N=clear notes, x+/x-=corner note"));
    assert!(FORMAT_DOC.contains("U=undo(extra=1-based step reverted), S+/S-=smart notes on/off"));
    assert!(FORMAT_DOC.contains("row, column and box). Board state at step i is givens_board"));
}

#[test]
fn an_action_logs_one_move() {
    let mut a = app();
    a.selected_cell = Some(2);
    for (n, num) in [4u8, 4, 9, 1].into_iter().enumerate() {
        a.handle_number_input(num, 0);
        assert_eq!(a.moves_log.len(), n + 1);
    }
    a.undo(0);
    assert_eq!(a.moves_log.len(), 5);
    assert_eq!(a.grid[2].value, 9);
    assert_eq!(a.mistakes_count, 1);
}
