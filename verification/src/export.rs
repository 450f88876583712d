//! Exporting a session: what is done in which order, and what the player is told.

use crate::text;
use vstd::prelude::*;

verus! {

/// The stages of an export, in order.
#[derive(Debug, PartialEq, Eq, Clone, Copy, Structural)]
pub enum ExportStage {
    /// The report is turned into text.
    Serialize,
    /// The directory is made.
    CreateDir,
    /// The file is written.
    Write,
    /// The text is copied to the clipboard; this may fail without harm.
    Copy,
}

/// What to do after a stage: the next one, or nothing but to show a message.
#[derive(Debug)]
pub enum ExportAction {
    Go(ExportStage),
    Show(String),
}

/// What is told when a stage fails: what could not be done, and why.
pub open spec fn failure(what: Seq<char>, why: Seq<char>) -> Seq<char> {
    "⚠ Export failed: couldn't "@ + what + " ("@ + why + ")"@
}

/// What is told when the file is written.
pub open spec fn success(path: Seq<char>, copied: bool, bytes: nat) -> Seq<char> {
    let note = if copied {
        " (also copied to clipboard)"@
    } else {
        Seq::<char>::empty()
    };
    "✅ Exported to "@ + path + note + " ("@ + text::decimal(bytes) + " bytes)"@
}

/// A failed stage ends the export, but for the clipboard; a stage that went well leads
/// to the next, and the last to the message of success.
pub open spec fn is_next(
    action: ExportAction,
    stage: ExportStage,
    error: Option<Seq<char>>,
    dir: Seq<char>,
    path: Seq<char>,
    bytes: nat,
) -> bool {
    match (stage, error) {
        (ExportStage::Serialize, None) => action == ExportAction::Go(ExportStage::CreateDir),
        (ExportStage::CreateDir, None) => action == ExportAction::Go(ExportStage::Write),
        (ExportStage::Write, None) => action == ExportAction::Go(ExportStage::Copy),
        (ExportStage::Copy, e) => action matches ExportAction::Show(m) && m@ == success(
            path,
            e is None,
            bytes,
        ),
        (ExportStage::Serialize, Some(why)) => action matches ExportAction::Show(m) && m@ == failure(
            "serialize session"@,
            why,
        ),
        (ExportStage::CreateDir, Some(why)) => action matches ExportAction::Show(m) && m@ == failure(
            "create "@ + dir,
            why,
        ),
        (ExportStage::Write, Some(why)) => action matches ExportAction::Show(m) && m@ == failure(
            "write "@ + path,
            why,
        ),
    }
}

pub open spec fn view_of(error: Option<&str>) -> Option<Seq<char>> {
    match error {
        Some(e) => Some(e@),
        None => None,
    }
}

fn failure_text(what: &str, why: &str) -> (s: String)
    ensures
        s@ == failure(what@, why@),
{
    let mut s = "⚠ Export failed: couldn't ".to_owned();
    s.append(what);
    s.append(" (");
    s.append(why);
    s.append(")");
    s
}

fn success_text(path: &str, copied: bool, bytes: usize) -> (s: String)
    ensures
        s@ == success(path@, copied, bytes as nat),
{
    let mut s = "✅ Exported to ".to_owned();
    s.append(path);
    let ghost before = s@;
    if copied {
        s.append(" (also copied to clipboard)");
    } else {
        assert(before + Seq::<char>::empty() =~= before);
    }
    s.append(" (");
    text::push_decimal(&mut s, bytes as u128);
    s.append(" bytes)");
    s
}

/// What follows on a stage of an export into the file `path` of the directory `dir`;
/// `error` says why the stage failed, where it did, and `bytes` is the length of the
/// text.
pub fn next_action(
    stage: ExportStage,
    error: Option<&str>,
    dir: &str,
    path: &str,
    bytes: usize,
) -> (action: ExportAction)
    ensures
        is_next(action, stage, view_of(error), dir@, path@, bytes as nat),
{
    match (stage, error) {
        (ExportStage::Serialize, None) => ExportAction::Go(ExportStage::CreateDir),
        (ExportStage::CreateDir, None) => ExportAction::Go(ExportStage::Write),
        (ExportStage::Write, None) => ExportAction::Go(ExportStage::Copy),
        (ExportStage::Copy, None) => ExportAction::Show(success_text(path, true, bytes)),
        (ExportStage::Copy, Some(_)) => ExportAction::Show(success_text(path, false, bytes)),
        (ExportStage::Serialize, Some(why)) => ExportAction::Show(
            failure_text("serialize session", why),
        ),
        (ExportStage::CreateDir, Some(why)) => {
            let what = text::joined("create ", dir);
            ExportAction::Show(failure_text(what.as_str(), why))
        },
        (ExportStage::Write, Some(why)) => {
            let what = text::joined("write ", path);
            ExportAction::Show(failure_text(what.as_str(), why))
        },
    }
}

/// The name of the file that a session is exported to, by the time of the export.
pub fn replay_file_name(unix_ms: u128) -> (s: String)
    ensures
        s@ == "replay_"@ + text::decimal(unix_ms as nat) + ".json"@,
{
    let mut s = "replay_".to_owned();
    text::push_decimal(&mut s, unix_ms);
    s.append(".json");
    s
}

/// The endings of sound files, in the order in which they are looked for.
pub open spec fn sound_ending(k: int) -> Seq<char> {
    if k == 0 {
        ".wav"@
    } else if k == 1 {
        ".ogg"@
    } else if k == 2 {
        ".mp3"@
    } else {
        ".flac"@
    }
}

/// The names of the files that the sound `name` is looked for in, in order.
pub fn sound_file_names(name: &str) -> (files: Vec<String>)
    ensures
        files@.len() == 4,
        forall|k: int| 0 <= k < 4 ==> (#[trigger] files@[k])@ == name@ + sound_ending(k),
{
    let mut files: Vec<String> = Vec::new();
    files.push(text::joined(name, ".wav"));
    files.push(text::joined(name, ".ogg"));
    files.push(text::joined(name, ".mp3"));
    files.push(text::joined(name, ".flac"));
    files
}

} // verus!
