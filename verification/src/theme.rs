//! The application themes: a fixed palette of named colour schemes. Each
//! theme is three colours; applying them to a concrete widget toolkit is a
//! consumer's concern.

use vstd::prelude::*;

use crate::data::Color;

verus! {

/// The available themes. `Comfort` is a low-contrast scheme meant for long
/// writing sessions.
#[derive(Debug, Clone, Copy, PartialEq, Eq, Structural)]
pub enum AppTheme {
    Dark,
    Light,
    Sepia,
    Midnight,
    Comfort,
}

impl AppTheme {
    /// The foreground text colour of the theme.
    pub fn text_color(&self) -> (c: Color)
        ensures
            c == match *self {
                AppTheme::Light => (Color { r: 20, g: 20, b: 20 }),
                AppTheme::Dark => (Color { r: 230, g: 230, b: 230 }),
                AppTheme::Sepia => (Color { r: 60, g: 50, b: 40 }),
                AppTheme::Midnight => (Color { r: 200, g: 210, b: 230 }),
                AppTheme::Comfort => (Color { r: 45, g: 55, b: 65 }),
            },
    {
        match self {
            AppTheme::Light => Color::rgb(20, 20, 20),
            AppTheme::Dark => Color::rgb(230, 230, 230),
            AppTheme::Sepia => Color::rgb(60, 50, 40),
            AppTheme::Midnight => Color::rgb(200, 210, 230),
            AppTheme::Comfort => Color::rgb(45, 55, 65),
        }
    }

    /// The page background colour of the theme.
    pub fn background_color(&self) -> (c: Color)
        ensures
            c == match *self {
                AppTheme::Light => (Color { r: 250, g: 250, b: 250 }),
                AppTheme::Dark => (Color { r: 30, g: 30, b: 35 }),
                AppTheme::Sepia => (Color { r: 245, g: 235, b: 215 }),
                AppTheme::Midnight => (Color { r: 15, g: 20, b: 35 }),
                AppTheme::Comfort => (Color { r: 248, g: 250, b: 245 }),
            },
    {
        match self {
            AppTheme::Light => Color::rgb(250, 250, 250),
            AppTheme::Dark => Color::rgb(30, 30, 35),
            AppTheme::Sepia => Color::rgb(245, 235, 215),
            AppTheme::Midnight => Color::rgb(15, 20, 35),
            AppTheme::Comfort => Color::rgb(248, 250, 245),
        }
    }

    /// The panel (editing surface) colour of the theme.
    pub fn panel_color(&self) -> (c: Color)
        ensures
            c == match *self {
                AppTheme::Light => (Color { r: 255, g: 255, b: 255 }),
                AppTheme::Dark => (Color { r: 40, g: 40, b: 45 }),
                AppTheme::Sepia => (Color { r: 255, g: 248, b: 235 }),
                AppTheme::Midnight => (Color { r: 25, g: 30, b: 50 }),
                AppTheme::Comfort => (Color { r: 252, g: 253, b: 250 }),
            },
    {
        match self {
            AppTheme::Light => Color::rgb(255, 255, 255),
            AppTheme::Dark => Color::rgb(40, 40, 45),
            AppTheme::Sepia => Color::rgb(255, 248, 235),
            AppTheme::Midnight => Color::rgb(25, 30, 50),
            AppTheme::Comfort => Color::rgb(252, 253, 250),
        }
    }

    /// Whether widgets should start from a light base scheme.
    pub fn is_light_base(&self) -> (r: bool)
        ensures
            r == match *self {
                AppTheme::Light | AppTheme::Sepia | AppTheme::Comfort => true,
                AppTheme::Dark | AppTheme::Midnight => false,
            },
    {
        match self {
            AppTheme::Light | AppTheme::Sepia | AppTheme::Comfort => true,
            AppTheme::Dark | AppTheme::Midnight => false,
        }
    }

    /// The display name of the theme.
    pub fn name(&self) -> (r: &'static str)
        ensures
            r@ == match *self {
                AppTheme::Dark => "Dark"@,
                AppTheme::Light => "Light"@,
                AppTheme::Sepia => "Sepia"@,
                AppTheme::Midnight => "Midnight"@,
                AppTheme::Comfort => "Comfort"@,
            },
    {
        match self {
            AppTheme::Dark => "Dark",
            AppTheme::Light => "Light",
            AppTheme::Sepia => "Sepia",
            AppTheme::Midnight => "Midnight",
            AppTheme::Comfort => "Comfort",
        }
    }

    /// Every theme, in menu order.
    pub fn all_themes() -> (r: Vec<AppTheme>)
        ensures
            r@ == seq![
                AppTheme::Light,
                AppTheme::Dark,
                AppTheme::Midnight,
                AppTheme::Sepia,
                AppTheme::Comfort,
            ],
    {
        let mut v: Vec<AppTheme> = Vec::new();
        v.push(AppTheme::Light);
        v.push(AppTheme::Dark);
        v.push(AppTheme::Midnight);
        v.push(AppTheme::Sepia);
        v.push(AppTheme::Comfort);
        proof {
            assert(v@ =~= seq![
                AppTheme::Light,
                AppTheme::Dark,
                AppTheme::Midnight,
                AppTheme::Sepia,
                AppTheme::Comfort,
            ]);
        }
        v
    }
}

impl Default for AppTheme {
    fn default() -> (r: Self)
        ensures
            r == AppTheme::Comfort,
    {
        AppTheme::Comfort
    }
}

} // verus!
