//! What the screens show of a game.

use crate::difficulty;
use crate::difficulty::Difficulty;
use crate::export;
use crate::export::{ExportAction, ExportStage};
use crate::game::Game;
use crate::geometry;
use crate::play_laws;
use crate::replay;
use crate::screens;
use crate::screens::{Fill, Mark, OptionsInput, Tone};
use crate::settings::{AppTheme, Settings};
use crate::text;
use vstd::prelude::*;

verus! {

// ---- Cells ----

/// Without a cell in focus, cells are as they are, but for the selected one. With one,
/// cells that hold its digit are marked, and then those that are in its row, its column
/// or its box; each only where the settings say so.
pub proof fn law_fill(g: Game, focus: Option<usize>, i: int)
    requires
        g.grid.len() == 81,
        0 <= i < 81,
        focus matches Some(f) ==> f < 81,
    ensures
        screens::fill_of(g, focus, i) == Fill::Selected <==> g.selected == Some(i as usize),
        g.selected != Some(i as usize) && focus is None ==> screens::fill_of(g, focus, i)
            == Fill::Base,
        g.selected != Some(i as usize) ==> (focus matches Some(f) ==> {
            let v = g.grid[f as int].value;
            let same = g.settings.highlight_same_number && v != 0 && g.grid[i].value == v;
            let near = g.settings.highlight_peers && (i == f || geometry::shares(i, f as int));
            &&& same ==> screens::fill_of(g, focus, i) == Fill::Match
            &&& near && !same ==> screens::fill_of(g, focus, i) == Fill::Seen
            &&& !near && !same ==> screens::fill_of(g, focus, i) == Fill::Base
        }),
{
    if let Some(f) = focus {
        geometry::law_peers_share(i, f as int);
    }
}

/// An empty cell shows no digit. A given is shown as one; another digit as a mistake where
/// it is not that of the solution and the settings say so; and otherwise as the player's.
pub proof fn law_tone(g: Game, i: int)
    requires
        g.grid.len() == 81,
        0 <= i < 81,
    ensures
        screens::tone_of(g, i) is None <==> g.grid[i].value == 0,
        screens::tone_of(g, i) == Some(Tone::Given) <==> g.grid[i].value != 0 && g.grid[i].given,
        screens::tone_of(g, i) == Some(Tone::Mistake) <==> g.grid[i].value != 0 && !g.grid[i].given
            && g.grid[i].value != g.solution[i] && g.settings.show_mistakes,
        screens::tone_of(g, i) == Some(Tone::User) <==> g.grid[i].value != 0 && !g.grid[i].given
            && (g.grid[i].value == g.solution[i] || !g.settings.show_mistakes),
{
}

/// A mark of the notes: in its place of the three by three places of the cell, and set off
/// where it is the digit in focus.
pub open spec fn is_mark(m: Mark, notes: u16, focus_digit: u8) -> bool {
    &&& 1 <= m.digit <= 9
    &&& play_laws::has_note(notes, m.digit)
    &&& m.row < 3
    &&& m.col < 3
    &&& 3 * m.row + m.col + 1 == m.digit
    &&& m.matching <==> m.digit == focus_digit
}

/// The notes have a mark for `d`.
pub open spec fn shows_mark(ms: Seq<Mark>, d: u8) -> bool {
    exists|k: int| 0 <= k < ms.len() && (#[trigger] ms[k]).digit == d
}

proof fn lemma_marks(notes: u16, focus_digit: u8, n: nat)
    requires
        n <= 9,
    ensures
        ({
            let ms = screens::marks_below(notes, focus_digit, n);
            &&& forall|k: int|
                0 <= k < ms.len() ==> is_mark(#[trigger] ms[k], notes, focus_digit) && ms[k].digit
                    <= n
            &&& forall|j: int, k: int|
                0 <= j < k < ms.len() ==> (#[trigger] ms[j]).digit < (#[trigger] ms[k]).digit
            &&& forall|d: u8|
                1 <= d <= n && #[trigger] play_laws::has_note(notes, d) ==> shows_mark(ms, d)
        }),
    decreases n,
{
    if n > 0 {
        let m = (n - 1) as nat;
        lemma_marks(notes, focus_digit, m);
        let before = screens::marks_below(notes, focus_digit, m);
        let ms = screens::marks_below(notes, focus_digit, n);
        if play_laws::has_note(notes, n as u8) {
            assert(ms == before.push(screens::mark_of(n as u8, focus_digit)));
            assert(is_mark(ms.last(), notes, focus_digit));
        }
        assert forall|d: u8| 1 <= d <= n && #[trigger] play_laws::has_note(notes, d) implies shows_mark(
            ms,
            d,
        ) by {
            if d == n {
                assert(ms[ms.len() - 1].digit == d);
            } else {
                let k = choose|k: int| 0 <= k < before.len() && (#[trigger] before[k]).digit == d;
                assert(ms[k].digit == d);
            }
        }
        assert forall|k: int| 0 <= k < ms.len() implies is_mark(#[trigger] ms[k], notes, focus_digit)
            && ms[k].digit <= n by {
            if k < before.len() {
                assert(ms[k] == before[k]);
            }
        }
    }
}

/// Every corner note is shown, each once and in increasing order, in its own place; and
/// nothing else is.
pub proof fn law_corner_marks(notes: u16, focus_digit: u8)
    ensures
        ({
            let ms = screens::marks_below(notes, focus_digit, 9);
            &&& forall|k: int|
                0 <= k < ms.len() ==> is_mark(#[trigger] ms[k], notes, focus_digit)
            &&& forall|j: int, k: int|
                0 <= j < k < ms.len() ==> (#[trigger] ms[j]).digit < (#[trigger] ms[k]).digit
            &&& forall|d: u8|
                1 <= d <= 9 && #[trigger] play_laws::has_note(notes, d) ==> shows_mark(ms, d)
        }),
{
    lemma_marks(notes, focus_digit, 9);
}

/// The text has the character of `d`.
pub open spec fn shows_digit(s: Seq<char>, d: u8) -> bool {
    exists|k: int| 0 <= k < s.len() && (#[trigger] s[k]) as int == '0' as int + d
}

/// The character is that of a digit among the notes.
pub open spec fn is_noted(c: char, notes: u16) -> bool {
    '1' as int <= c as int <= '9' as int && play_laws::has_note(notes, (c as int - '0' as int) as u8)
}

proof fn lemma_notes(notes: u16, n: nat)
    requires
        n <= 9,
    ensures
        ({
            let s = screens::notes_below(notes, n);
            &&& forall|k: int|
                0 <= k < s.len() ==> is_noted(#[trigger] s[k], notes) && s[k] as int <= '0' as int
                    + n
            &&& forall|j: int, k: int|
                0 <= j < k < s.len() ==> (#[trigger] s[j] as int) < #[trigger] s[k] as int
            &&& forall|d: u8|
                1 <= d <= n && #[trigger] play_laws::has_note(notes, d) ==> shows_digit(s, d)
        }),
    decreases n,
{
    if n > 0 {
        let m = (n - 1) as nat;
        lemma_notes(notes, m);
        let before = screens::notes_below(notes, m);
        let s = screens::notes_below(notes, n);
        if play_laws::has_note(notes, n as u8) {
            assert(s == before.push(text::digit_char(n as int)));
            assert(s.last() as int - '0' as int == n);
            assert(is_noted(s.last(), notes));
        }
        assert forall|d: u8| 1 <= d <= n && #[trigger] play_laws::has_note(notes, d) implies shows_digit(
            s,
            d,
        ) by {
            if d == n {
                assert(s[s.len() - 1] as int == '0' as int + d);
            } else {
                let k = choose|k: int|
                    0 <= k < before.len() && (#[trigger] before[k]) as int == '0' as int + d;
                assert(s[k] as int == '0' as int + d);
            }
        }
        assert forall|k: int| 0 <= k < s.len() implies is_noted(#[trigger] s[k], notes) && s[k] as int
            <= '0' as int + n by {
            if k < before.len() {
                assert(s[k] == before[k]);
            }
        }
    }
}

/// The center notes are written in increasing order, each once; and nothing else is.
pub proof fn law_center_text(notes: u16)
    ensures
        ({
            let s = screens::notes_below(notes, 9);
            &&& forall|k: int| 0 <= k < s.len() ==> is_noted(#[trigger] s[k], notes)
            &&& forall|j: int, k: int|
                0 <= j < k < s.len() ==> (#[trigger] s[j] as int) < #[trigger] s[k] as int
            &&& forall|d: u8|
                1 <= d <= 9 && #[trigger] play_laws::has_note(notes, d) ==> shows_digit(s, d)
        }),
{
    lemma_notes(notes, 9);
}

/// A board is written as a character for each cell: a point for an empty one where points
/// are asked for, and otherwise its digit.
pub proof fn law_board_text(b: Seq<u8>, dots: bool, i: int)
    requires
        b.len() == 81,
        0 <= i < 81,
        b[i] <= 9,
    ensures
        replay::board_chars(b, dots).len() == 81,
        replay::board_chars(b, dots)[i] == '.' <==> dots && b[i] == 0,
        !(dots && b[i] == 0) ==> replay::board_chars(b, dots)[i] as int == '0' as int + b[i],
{
}

// ---- Options ----

/// The options screen sets every switch as it says, and the theme that was clicked, light
/// before dark. In a game a change of smart notes is logged. Nothing else changes.
pub proof fn law_options(g: Game, o: OptionsInput, ms: u128)
    ensures
        ({
            let h = screens::options_taken(g, o, ms);
            &&& h == Game { theme: h.theme, settings: h.settings, log: h.log, ..g }
            &&& h.settings.sound_enabled == o.sound_enabled
            &&& h.settings.smart_notes == o.smart_notes
            &&& h.settings.highlight_same_number == o.highlight_same_number
            &&& h.settings.highlight_peers == o.highlight_peers
            &&& h.settings.show_mistakes == o.show_mistakes
            &&& o.light_clicked ==> h.theme == AppTheme::Light
            &&& o.dark_clicked && !o.light_clicked ==> h.theme == AppTheme::Dark
            &&& !o.dark_clicked && !o.light_clicked ==> h.theme == g.theme
            &&& h.settings.theme == h.theme || h.settings == g.settings
            &&& g.grid.len() > 0 && o.smart_notes && !g.settings.smart_notes ==> play_laws::logs(
                g,
                h,
                0,
                "S+"@,
                0,
                ms,
                0,
            )
            &&& g.grid.len() > 0 && !o.smart_notes && g.settings.smart_notes ==> play_laws::logs(
                g,
                h,
                0,
                "S-"@,
                0,
                ms,
                0,
            )
            &&& g.grid.len() == 0 || o.smart_notes == g.settings.smart_notes ==> h.log == g.log
        }),
{
    let h = screens::options_taken(g, o, ms);
    if g.grid.len() > 0 && o.smart_notes != g.settings.smart_notes {
        assert(h.log.take(g.log.len() as int) =~= g.log);
    }
}

/// The settings are to be saved exactly where a theme was clicked or a switch stands
/// otherwise than before; and where not, they stay.
pub proof fn law_options_saved(g: Game, o: OptionsInput, ms: u128)
    ensures
        !screens::options_changed(g.settings, o) <==> !o.dark_clicked && !o.light_clicked
            && g.settings == (Settings {
            theme: g.settings.theme,
            sound_enabled: o.sound_enabled,
            smart_notes: o.smart_notes,
            highlight_same_number: o.highlight_same_number,
            highlight_peers: o.highlight_peers,
            show_mistakes: o.show_mistakes,
        }),
        !screens::options_changed(g.settings, o) ==> screens::options_taken(g, o, ms) == g,
{
    let h = screens::options_taken(g, o, ms);
    assert(h =~= Game { theme: h.theme, settings: h.settings, log: h.log, ..g });
}

// ---- Tiers ----

/// The tiers are ranked in the order of their list, and the distance of two tiers is how
/// many places they are apart in it; the harder of two is the later one.
pub proof fn law_ladder(j: int, k: int)
    requires
        0 <= j <= k < 10,
    ensures
        difficulty::rank(Difficulty::ALL@[k]) == k,
        difficulty::distance(Difficulty::ALL@[j], Difficulty::ALL@[k]) == k - j,
        difficulty::distance(Difficulty::ALL@[k], Difficulty::ALL@[j]) == k - j,
        difficulty::harder_of(Difficulty::ALL@[j], Difficulty::ALL@[k]) == Difficulty::ALL@[k],
        difficulty::harder_of(Difficulty::ALL@[k], Difficulty::ALL@[j]) == Difficulty::ALL@[k],
{
    lemma_rank_in_list(j);
    lemma_rank_in_list(k);
    difficulty::law_rank_orders_tiers(Difficulty::ALL@[j], Difficulty::ALL@[k]);
}

proof fn lemma_rank_in_list(k: int)
    requires
        0 <= k < 10,
    ensures
        difficulty::rank(Difficulty::ALL@[k]) == k,
{
    let all = Difficulty::ALL@;
    assert(all[0] == Difficulty::Easy && all[1] == Difficulty::Medium && all[2] == Difficulty::Hard);
    assert(all[3] == Difficulty::Expert && all[4] == Difficulty::Master && all[5]
        == Difficulty::Extreme);
    assert(all[6] == Difficulty::Evil && all[7] == Difficulty::Diabolical);
    assert(all[8] == Difficulty::Grandmaster && all[9] == Difficulty::Ultimate);
}

// ---- Export ----

/// The number of a stage, in order.
pub open spec fn stage_no(s: ExportStage) -> int {
    match s {
        ExportStage::Serialize => 0,
        ExportStage::CreateDir => 1,
        ExportStage::Write => 2,
        ExportStage::Copy => 3,
    }
}

/// The text ends with `tail`.
pub open spec fn ends_with(s: Seq<char>, tail: Seq<char>) -> bool {
    s.len() >= tail.len() && s.skip(s.len() - tail.len()) == tail
}

/// The text begins with `head`.
pub open spec fn begins_with(s: Seq<char>, head: Seq<char>) -> bool {
    s.len() >= head.len() && s.take(head.len() as int) == head
}

proof fn lemma_around(head: Seq<char>, body: Seq<char>, tail: Seq<char>)
    ensures
        begins_with(head + body + tail, head),
        ends_with(head + body + tail, tail),
{
    let s = head + body + tail;
    assert(s.take(head.len() as int) =~= head);
    assert(s.skip(s.len() - tail.len()) =~= tail);
}

/// An export goes on to the next stage exactly where a stage before the last went well.
/// Where one of these fails, nothing more is done, and the message says that it failed
/// and ends with the reason. After the last stage the message says that it succeeded,
/// where the file is, and that the text was copied just where it was.
pub proof fn law_export(
    action: ExportAction,
    stage: ExportStage,
    error: Option<Seq<char>>,
    dir: Seq<char>,
    path: Seq<char>,
    bytes: nat,
)
    requires
        export::is_next(action, stage, error, dir, path, bytes),
    ensures
        action is Go <==> error is None && stage != ExportStage::Copy,
        action matches ExportAction::Go(next) ==> stage_no(next) == stage_no(stage) + 1,
        stage != ExportStage::Copy ==> (error matches Some(why) ==> {
            &&& begins_with(action->Show_0@, "⚠ Export failed: couldn't "@)
            &&& ends_with(action->Show_0@, " ("@ + why + ")"@)
            &&& stage == ExportStage::CreateDir ==> ends_with(
                action->Show_0@,
                dir + " ("@ + why + ")"@,
            )
            &&& stage == ExportStage::Write ==> ends_with(
                action->Show_0@,
                path + " ("@ + why + ")"@,
            )
        }),
        stage == ExportStage::Copy ==> {
            &&& begins_with(action->Show_0@, "✅ Exported to "@ + path)
            &&& ends_with(action->Show_0@, " ("@ + text::decimal(bytes) + " bytes)"@)
            &&& error is None ==> action->Show_0@ == "✅ Exported to "@ + path
                + " (also copied to clipboard)"@ + " ("@ + text::decimal(bytes) + " bytes)"@
            &&& error is Some ==> action->Show_0@ == "✅ Exported to "@ + path + " ("@
                + text::decimal(bytes) + " bytes)"@
        },
{
    let size = " ("@ + text::decimal(bytes) + " bytes)"@;
    if stage == ExportStage::Copy {
        let m = action->Show_0@;
        let head = "✅ Exported to "@ + path;
        let note = if error is None {
            " (also copied to clipboard)"@
        } else {
            Seq::<char>::empty()
        };
        assert(m =~= head + note + size);
        lemma_around(head, note, size);
        assert(head + Seq::<char>::empty() =~= head);
    } else if let Some(why) = error {
        let m = action->Show_0@;
        let head = "⚠ Export failed: couldn't "@;
        let reason = " ("@ + why + ")"@;
        let what = if stage == ExportStage::Serialize {
            "serialize session"@
        } else if stage == ExportStage::CreateDir {
            "create "@ + dir
        } else {
            "write "@ + path
        };
        assert(m =~= head + what + reason);
        lemma_around(head, what, reason);
        if stage == ExportStage::CreateDir {
            assert(m =~= head + "create "@ + (dir + " ("@ + why + ")"@));
            lemma_around(head, "create "@, dir + " ("@ + why + ")"@);
        }
        if stage == ExportStage::Write {
            assert(m =~= head + "write "@ + (path + " ("@ + why + ")"@));
            lemma_around(head, "write "@, path + " ("@ + why + ")"@);
        }
    }
}

} // verus!
