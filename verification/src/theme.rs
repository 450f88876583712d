//! The colours of the two themes.

use crate::settings::AppTheme;
use vstd::prelude::*;

verus! {

#[derive(Debug, PartialEq, Eq, Clone, Copy, Structural)]
pub struct Rgb {
    pub r: u8,
    pub g: u8,
    pub b: u8,
}

#[derive(Debug, PartialEq, Eq, Clone, Copy, Structural)]
pub struct ThemeColors {
    pub bg: Rgb,
    pub panel: Rgb,
    pub cell_base: Rgb,
    pub cell_seen: Rgb,
    pub cell_selected: Rgb,
    pub highlight_match: Rgb,
    pub text_given: Rgb,
    pub text_user: Rgb,
    pub grid_main: Rgb,
    pub grid_sub: Rgb,
    pub accent: Rgb,
}

pub open spec fn rgb_of(r: u8, g: u8, b: u8) -> Rgb {
    Rgb { r, g, b }
}

/// The colours of a theme.
pub open spec fn palette(theme: AppTheme) -> ThemeColors {
    match theme {
        AppTheme::Dark => ThemeColors {
            bg: rgb_of(15, 17, 23),
            panel: rgb_of(23, 26, 35),
            cell_base: rgb_of(32, 36, 48),
            cell_seen: rgb_of(42, 48, 64),
            cell_selected: rgb_of(68, 92, 138),
            highlight_match: rgb_of(76, 92, 54),
            text_given: rgb_of(240, 244, 255),
            text_user: rgb_of(90, 170, 255),
            grid_main: rgb_of(160, 175, 205),
            grid_sub: rgb_of(50, 56, 74),
            accent: rgb_of(45, 100, 210),
        },
        AppTheme::Light => ThemeColors {
            bg: rgb_of(242, 245, 250),
            panel: rgb_of(255, 255, 255),
            cell_base: rgb_of(255, 255, 255),
            cell_seen: rgb_of(230, 238, 250),
            cell_selected: rgb_of(188, 218, 255),
            highlight_match: rgb_of(222, 240, 185),
            text_given: rgb_of(20, 24, 36),
            text_user: rgb_of(0, 102, 220),
            grid_main: rgb_of(40, 45, 60),
            grid_sub: rgb_of(215, 222, 235),
            accent: rgb_of(0, 105, 230),
        },
    }
}

fn rgb(r: u8, g: u8, b: u8) -> (c: Rgb)
    ensures
        c == rgb_of(r, g, b),
{
    Rgb { r, g, b }
}

/// The colours of a theme.
pub fn theme_colors(theme: AppTheme) -> (c: ThemeColors)
    ensures
        c == palette(theme),
{
    match theme {
        AppTheme::Dark => ThemeColors {
            bg: rgb(15, 17, 23),
            panel: rgb(23, 26, 35),
            cell_base: rgb(32, 36, 48),
            cell_seen: rgb(42, 48, 64),
            cell_selected: rgb(68, 92, 138),
            highlight_match: rgb(76, 92, 54),
            text_given: rgb(240, 244, 255),
            text_user: rgb(90, 170, 255),
            grid_main: rgb(160, 175, 205),
            grid_sub: rgb(50, 56, 74),
            accent: rgb(45, 100, 210),
        },
        AppTheme::Light => ThemeColors {
            bg: rgb(242, 245, 250),
            panel: rgb(255, 255, 255),
            cell_base: rgb(255, 255, 255),
            cell_seen: rgb(230, 238, 250),
            cell_selected: rgb(188, 218, 255),
            highlight_match: rgb(222, 240, 185),
            text_given: rgb(20, 24, 36),
            text_user: rgb(0, 102, 220),
            grid_main: rgb(40, 45, 60),
            grid_sub: rgb(215, 222, 235),
            accent: rgb(0, 105, 230),
        },
    }
}

/// The red of a wrong digit.
pub open spec fn mistake_rgb() -> Rgb {
    rgb_of(235, 75, 75)
}

/// The red of the mistake counter.
pub open spec fn counter_rgb() -> Rgb {
    rgb_of(235, 80, 80)
}

/// The yellow of a pencil mark that matches the selected digit.
pub open spec fn match_rgb() -> Rgb {
    rgb_of(240, 200, 60)
}

/// The blue of marks in the middle of a cell.
pub open spec fn center_rgb() -> Rgb {
    rgb_of(120, 175, 255)
}

/// The red of the mistake counter.
pub fn counter_color() -> (c: Rgb)
    ensures
        c == counter_rgb(),
{
    rgb(235, 80, 80)
}

/// The red of a wrong digit.
pub fn mistake_color() -> (c: Rgb)
    ensures
        c == mistake_rgb(),
{
    rgb(235, 75, 75)
}

/// The yellow of a pencil mark that matches the selected digit.
pub fn match_color() -> (c: Rgb)
    ensures
        c == match_rgb(),
{
    rgb(240, 200, 60)
}

/// The blue of marks in the middle of a cell.
pub fn center_color() -> (c: Rgb)
    ensures
        c == center_rgb(),
{
    rgb(120, 175, 255)
}

/// A colour as a number with two hexadecimal digits each for red, green and blue.
pub open spec fn hex(c: Rgb) -> int {
    0x10000 * c.r + 0x100 * c.g + c.b
}

/// Colours with the same number are the same.
pub proof fn law_hex(a: Rgb, b: Rgb)
    ensures
        hex(a) == hex(b) <==> a == b,
{
}

/// The colours of the dark theme by their numbers.
pub proof fn law_dark_colours()
    ensures
        ({
            let c = palette(AppTheme::Dark);
            &&& hex(c.bg) == 0x0f1117
            &&& hex(c.panel) == 0x171a23
            &&& hex(c.cell_base) == 0x202430
            &&& hex(c.cell_seen) == 0x2a3040
            &&& hex(c.cell_selected) == 0x445c8a
            &&& hex(c.highlight_match) == 0x4c5c36
            &&& hex(c.text_given) == 0xf0f4ff
            &&& hex(c.text_user) == 0x5aaaff
            &&& hex(c.grid_main) == 0xa0afcd
            &&& hex(c.grid_sub) == 0x32384a
            &&& hex(c.accent) == 0x2d64d2
        }),
{
}

/// The colours of the light theme by their numbers.
pub proof fn law_light_colours()
    ensures
        ({
            let c = palette(AppTheme::Light);
            &&& hex(c.bg) == 0xf2f5fa
            &&& hex(c.panel) == 0xffffff
            &&& hex(c.cell_base) == 0xffffff
            &&& hex(c.cell_seen) == 0xe6eefa
            &&& hex(c.cell_selected) == 0xbcdaff
            &&& hex(c.highlight_match) == 0xdef0b9
            &&& hex(c.text_given) == 0x141824
            &&& hex(c.text_user) == 0x0066dc
            &&& hex(c.grid_main) == 0x282d3c
            &&& hex(c.grid_sub) == 0xd7deeb
            &&& hex(c.accent) == 0x0069e6
        }),
{
}

/// How bright a colour is.
pub open spec fn brightness(c: Rgb) -> int {
    c.r + c.g + c.b
}

/// The background is darker than every digit in the dark theme, and brighter in the light
/// one; and what a cell can be filled with is told apart.
pub proof fn law_digits_are_readable(theme: AppTheme, fill: Rgb, digit: Rgb)
    requires
        fill == palette(theme).cell_base || fill == palette(theme).cell_seen || fill == palette(
            theme,
        ).cell_selected || fill == palette(theme).highlight_match,
        digit == palette(theme).text_given || digit == palette(theme).text_user,
    ensures
        theme == AppTheme::Dark ==> brightness(digit) - brightness(fill) >= 200,
        theme == AppTheme::Light ==> brightness(fill) - brightness(digit) >= 200,
        palette(theme).cell_base != palette(theme).cell_seen,
        palette(theme).cell_base != palette(theme).cell_selected,
        palette(theme).cell_base != palette(theme).highlight_match,
        palette(theme).cell_seen != palette(theme).cell_selected,
        palette(theme).cell_seen != palette(theme).highlight_match,
        palette(theme).cell_selected != palette(theme).highlight_match,
{
}

} // verus!
