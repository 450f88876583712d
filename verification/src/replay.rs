//! The record of a game session.

use crate::board::{Board, CELLS};
use crate::text;
use vstd::prelude::*;

verus! {

/// One move: `(cell, code, digit, elapsed milliseconds, extra)`.
///
/// The cell is counted row by row from 0 to 80. The codes are:
/// - `P`: a digit was placed; `digit` is the one placed
/// - `C`: a digit was cleared; `digit` is the one cleared
/// - `N`: the notes of the cell were cleared
/// - `x+`, `x-`: a corner note was added or removed
/// - `e+`, `e-`: a center note was added or removed
/// - `U`: undo; `extra` is the number of the step that was reverted, from 1
/// - `S+`, `S-`: smart notes were switched on or off; they are on before the first move
///
/// While smart notes are on, `P` also takes the digit from the notes of every cell in
/// the same row, column and box. An undo does not switch them. So the digits and the
/// notes after any step follow from the givens and the moves up to it.
pub type MoveRecord = (usize, String, u8, u128, usize);

/// A move as a value of the model.
#[verifier::ext_equal]
pub struct Move {
    pub cell: usize,
    pub code: Seq<char>,
    pub digit: u8,
    pub ms: u128,
    pub extra: usize,
}

pub open spec fn move_of(r: MoveRecord) -> Move {
    Move { cell: r.0, code: r.1@, digit: r.2, ms: r.3, extra: r.4 }
}

pub open spec fn to_move() -> spec_fn(MoveRecord) -> Move {
    |r: MoveRecord| move_of(r)
}

/// A list of moves as values of the model.
pub open spec fn moves_of(rs: Seq<MoveRecord>) -> Seq<Move> {
    rs.map_values(to_move())
}

/// What the moves of an exported session mean.
pub const FORMAT_DOC: &'static str =
    "moves[i] = [cell_idx(0-80, row-major), action_code, digit, elapsed_ms, extra]. \
action_code: P=place(digit=value placed), C=clear(digit=value cleared), N=clear notes, \
x+/x-=corner note add/remove(digit=note), e+/e-=center note add/remove(digit=note), \
U=undo(extra=1-based step reverted), S+/S-=smart notes on/off (on at first, not undone; \
while on, P also clears the digit from all notes in its row, column and box). \
Board state at step i is givens_board replayed through moves[0..=i]; \
correctness of a placement = (digit == solution_board[cell_idx]).";

/// Everything that is exported of a session. The solving time is held as whole
/// seconds and nanoseconds.
pub struct GameSessionReport {
    pub engine_version: String,
    pub difficulty: String,
    pub format: String,
    /// 81 characters, row by row; a point stands for an empty cell.
    pub givens_board: String,
    /// 81 characters, row by row.
    pub solution_board: String,
    pub started_at_unix_ms: u128,
    pub total_solve_seconds: u64,
    pub total_solve_nanos: u32,
    pub mistakes_count: usize,
    pub completed: bool,
    pub moves: Vec<MoveRecord>,
}

/// The character of a cell; an empty one is a point where `dots` is set.
pub open spec fn cell_char(v: u8, dots: bool) -> char {
    if v == 0 && dots {
        '.'
    } else {
        text::digit_char(v as int)
    }
}

/// The characters of a board, row by row.
pub open spec fn board_chars(b: Seq<u8>, dots: bool) -> Seq<char> {
    Seq::new(81, |i: int| cell_char(b[i], dots))
}

/// The board as text, row by row, with empty cells as points where `dots` is set.
pub fn board_text(board: &Board, dots: bool) -> (s: String)
    requires
        forall|i: int| 0 <= i < 81 ==> #[trigger] board@[i] <= 207,
    ensures
        s@ == board_chars(board@, dots),
{
    let mut s = String::new();
    let mut i: usize = 0;
    while i < CELLS
        invariant
            i <= 81,
            forall|j: int| 0 <= j < 81 ==> #[trigger] board@[j] <= 207,
            s@ == board_chars(board@, dots).take(i as int),
        decreases 81 - i,
    {
        let v = board.cells[i];
        let ghost before = s@;
        assert(board@[i as int] <= 207);
        if v == 0 && dots {
            s.push('.');
        } else {
            s.push((48u8 + v) as char);
        }
        assert(s@ =~= board_chars(board@, dots).take(i + 1));
        i = i + 1;
    }
    assert(s@ =~= board_chars(board@, dots));
    s
}

/// The value that a character of a board text stands for.
pub open spec fn char_cell(c: char) -> int {
    if c == '.' {
        0
    } else {
        c as int - 48
    }
}

/// The board can be read back from its text.
pub proof fn law_board_text_reads_back(b: Seq<u8>, dots: bool, i: int)
    requires
        b.len() == 81,
        0 <= i < 81,
        b[i] <= 9,
    ensures
        board_chars(b, dots).len() == 81,
        char_cell(board_chars(b, dots)[i]) == b[i],
{
}

/// A copy of a list of moves.
pub fn copy_moves(log: &Vec<MoveRecord>) -> (copy: Vec<MoveRecord>)
    ensures
        moves_of(copy@) == moves_of(log@),
{
    let mut copy: Vec<MoveRecord> = Vec::new();
    let mut i: usize = 0;
    while i < log.len()
        invariant
            i <= log@.len(),
            moves_of(copy@) == moves_of(log@).take(i as int),
        decreases log@.len() - i,
    {
        let ghost before = copy@;
        let r: MoveRecord = (log[i].0, log[i].1.clone(), log[i].2, log[i].3, log[i].4);
        assert(move_of(r) == move_of(log@[i as int]));
        copy.push(r);
        assert(moves_of(copy@) =~= moves_of(before).push(move_of(r)));
        assert(moves_of(copy@) =~= moves_of(log@).take(i + 1));
        i = i + 1;
    }
    assert(moves_of(copy@) =~= moves_of(log@));
    copy
}

} // verus!
