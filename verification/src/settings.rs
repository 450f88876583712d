//! Screens, input modes, themes and the player's settings.

use vstd::prelude::*;

verus! {

#[derive(Debug, PartialEq, Eq, Clone, Copy, Structural)]
pub enum Screen {
    MainMenu,
    Options,
    Playing,
}

#[derive(Debug, PartialEq, Eq, Clone, Copy, Structural)]
pub enum NoteMode {
    Normal,
    Corner,
    Center,
}

#[derive(Debug, PartialEq, Eq, Clone, Copy, Structural)]
pub enum AppTheme {
    Dark,
    Light,
}

/// Every toggle of the options screen.
#[derive(Debug, PartialEq, Eq, Clone, Copy, Structural)]
pub struct Settings {
    pub theme: AppTheme,
    pub sound_enabled: bool,
    /// Placing a digit also clears it from the pencil marks of every cell in the
    /// same row, column and box.
    pub smart_notes: bool,
    pub highlight_same_number: bool,
    pub highlight_peers: bool,
    pub show_mistakes: bool,
}

impl Default for Settings {
    /// The dark theme, with everything switched on.
    fn default() -> (s: Self)
        ensures
            s == (Settings {
                theme: AppTheme::Dark,
                sound_enabled: true,
                smart_notes: true,
                highlight_same_number: true,
                highlight_peers: true,
                show_mistakes: true,
            }),
    {
        Settings {
            theme: AppTheme::Dark,
            sound_enabled: true,
            smart_notes: true,
            highlight_same_number: true,
            highlight_peers: true,
            show_mistakes: true,
        }
    }
}

/// The other theme.
pub open spec fn other_theme(t: AppTheme) -> AppTheme {
    match t {
        AppTheme::Dark => AppTheme::Light,
        AppTheme::Light => AppTheme::Dark,
    }
}

impl AppTheme {
    /// The other theme.
    pub fn toggled(self) -> (t: AppTheme)
        ensures
            t == other_theme(self),
    {
        match self {
            AppTheme::Dark => AppTheme::Light,
            AppTheme::Light => AppTheme::Dark,
        }
    }
}

/// Toggling the theme twice changes nothing.
pub proof fn law_theme_toggles_back(t: AppTheme)
    ensures
        other_theme(other_theme(t)) == t,
        other_theme(t) != t,
{
}

} // verus!
