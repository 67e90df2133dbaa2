//! The user's display preferences.
use vstd::prelude::*;

verus! {

/// The colour family of the theme.
#[derive(Debug, Clone, Copy, PartialEq, Eq, Structural)]
pub enum ThemeColor {
    Blue,
    Gray,
    Green,
}

impl Default for ThemeColor {
    fn default() -> (r: Self)
        ensures
            r == ThemeColor::Blue,
    {
        ThemeColor::Blue
    }
}

/// The name a theme colour is shown by.
pub open spec fn theme_color_name(c: ThemeColor) -> Seq<char> {
    match c {
        ThemeColor::Blue => "Blue"@,
        ThemeColor::Gray => "Gray"@,
        ThemeColor::Green => "Green"@,
    }
}

impl ThemeColor {
    /// The name the colour is shown by.
    pub fn label(&self) -> (r: String)
        ensures
            r@ == theme_color_name(*self),
    {
        match self {
            ThemeColor::Blue => String::from_str("Blue"),
            ThemeColor::Gray => String::from_str("Gray"),
            ThemeColor::Green => String::from_str("Green"),
        }
    }
}

/// Light or dark.
#[derive(Debug, Clone, Copy, PartialEq, Eq, Structural)]
pub enum ThemeMode {
    Light,
    Dark,
}

impl Default for ThemeMode {
    fn default() -> (r: Self)
        ensures
            r == ThemeMode::Light,
    {
        ThemeMode::Light
    }
}

/// The name a theme mode is shown by.
pub open spec fn theme_mode_name(m: ThemeMode) -> Seq<char> {
    match m {
        ThemeMode::Light => "Light"@,
        ThemeMode::Dark => "Dark"@,
    }
}

impl ThemeMode {
    /// The name the mode is shown by.
    pub fn label(&self) -> (r: String)
        ensures
            r@ == theme_mode_name(*self),
    {
        match self {
            ThemeMode::Light => String::from_str("Light"),
            ThemeMode::Dark => String::from_str("Dark"),
        }
    }
}

/// The smallest font size the user can choose.
pub const FONT_MIN: u16 = 10;

/// The largest font size the user can choose.
pub const FONT_MAX: u16 = 28;

/// The preferences that are saved between runs.
#[derive(Debug, Clone, Copy, PartialEq, Eq, Structural)]
pub struct Settings {
    pub font_size: u16,
    pub theme_color: ThemeColor,
    pub theme_mode: ThemeMode,
}

impl Default for Settings {
    fn default() -> (r: Self)
        ensures
            r.font_size == 14,
            r.theme_color == ThemeColor::Blue,
            r.theme_mode == ThemeMode::Light,
    {
        Settings { font_size: 14, theme_color: ThemeColor::Blue, theme_mode: ThemeMode::Light }
    }
}

} // verus!
