//! Settings and their defaults.

use crate::paths::{path_join, System};
use vstd::prelude::*;

verus! {

/// The quality preset of the GIF recorder. It drives both the capture's compression and
/// the palette and dithering of the conversion.
#[derive(Debug, Clone, Copy, PartialEq, Eq, Structural)]
pub enum GifQuality {
    /// Largest file, sharpest motion and gradients.
    High,
    /// A barely perceptible drop in quality for about half the size.
    Balanced,
    /// Smallest file; visible banding on gradients.
    Compact,
}

#[derive(Debug, Clone, Copy, PartialEq, Eq, Structural)]
pub enum Theme {
    Dark,
    Light,
    System,
}

#[derive(Debug, Clone)]
pub struct Config {
    /// The window's opacity in millionths: 1_000_000 is opaque.
    pub opacity: u32,
    pub width: i32,
    pub height: i32,
    pub font_size: u32,
    pub theme: Theme,
    /// The key for the speech-to-text endpoint.
    pub groq_api_key: String,
    /// A language hint such as "pt"; empty lets the transcriber detect it.
    pub transcribe_language: String,
    /// The frame rate of the GIF recorder.
    pub gif_fps: u32,
    pub gif_quality: GifQuality,
    /// The saved top left corner of the recorder's overlay, in screen pixels. `None` asks
    /// again.
    pub recorder_overlay_x: Option<i32>,
    pub recorder_overlay_y: Option<i32>,
    /// Whether the note's tag and colour row is folded away.
    pub note_meta_collapsed: bool,
}

impl Default for Config {
    fn default() -> (c: Self)
        ensures
            c.opacity == 940_000,
            c.width == 820,
            c.height == 620,
            c.font_size == 15,
            c.theme == Theme::Dark,
            c.groq_api_key@ == Seq::<char>::empty(),
            c.transcribe_language@ == Seq::<char>::empty(),
            c.gif_fps == 24,
            c.gif_quality == GifQuality::Balanced,
            c.recorder_overlay_x is None,
            c.recorder_overlay_y is None,
            !c.note_meta_collapsed,
    {
        Config {
            opacity: 940_000,
            width: 820,
            height: 620,
            font_size: 15,
            theme: Theme::Dark,
            groq_api_key: String::new(),
            transcribe_language: String::new(),
            gif_fps: 24,
            gif_quality: GifQuality::Balanced,
            recorder_overlay_x: None,
            recorder_overlay_y: None,
            note_meta_collapsed: false,
        }
    }
}

// ───────────────────────────── choices in lists ─────────────────────────────
/// The place of a theme in the list of themes.
pub open spec fn theme_place(t: Theme) -> u32 {
    match t {
        Theme::System => 0,
        Theme::Light => 1,
        Theme::Dark => 2,
    }
}

pub fn theme_index(t: Theme) -> (r: u32)
    ensures
        r == theme_place(t),
{
    match t {
        Theme::System => 0,
        Theme::Light => 1,
        Theme::Dark => 2,
    }
}

/// The theme at a place of the list.
pub fn theme_from_index(i: u32) -> (r: Theme)
    ensures
        r == (if i == 1 {
            Theme::Light
        } else if i == 2 {
            Theme::Dark
        } else {
            Theme::System
        }),
        forall|t: Theme| i == #[trigger] theme_place(t) ==> r == t,
{
    match i {
        1 => Theme::Light,
        2 => Theme::Dark,
        _ => Theme::System,
    }
}

/// The place of a frame rate in the list 12, 15, 20, 24, 30; one that is not in it counts
/// as 24.
pub open spec fn fps_place(fps: u32) -> u32 {
    if fps == 12 {
        0
    } else if fps == 15 {
        1
    } else if fps == 20 {
        2
    } else if fps == 30 {
        4
    } else {
        3
    }
}

pub fn fps_index(fps: u32) -> (r: u32)
    ensures
        r == fps_place(fps),
{
    match fps {
        12 => 0,
        15 => 1,
        20 => 2,
        30 => 4,
        _ => 3,
    }
}

/// The frame rate at a place of the list.
pub fn fps_from_index(i: u32) -> (r: u32)
    ensures
        r == (if i == 0 {
            12
        } else if i == 1 {
            15
        } else if i == 2 {
            20
        } else if i == 4 {
            30
        } else {
            24int
        }),
        i <= 4 ==> fps_place(r) == i,
{
    match i {
        0 => 12,
        1 => 15,
        2 => 20,
        4 => 30,
        _ => 24,
    }
}

/// The place of a quality in the list of qualities.
pub open spec fn quality_place(q: GifQuality) -> u32 {
    match q {
        GifQuality::High => 0,
        GifQuality::Balanced => 1,
        GifQuality::Compact => 2,
    }
}

pub fn quality_index(q: GifQuality) -> (r: u32)
    ensures
        r == quality_place(q),
{
    match q {
        GifQuality::High => 0,
        GifQuality::Balanced => 1,
        GifQuality::Compact => 2,
    }
}

/// The quality at a place of the list.
pub fn quality_from_index(i: u32) -> (r: GifQuality)
    ensures
        r == (if i == 0 {
            GifQuality::High
        } else if i == 2 {
            GifQuality::Compact
        } else {
            GifQuality::Balanced
        }),
        forall|q: GifQuality| i == #[trigger] quality_place(q) ==> r == q,
{
    match i {
        0 => GifQuality::High,
        2 => GifQuality::Compact,
        _ => GifQuality::Balanced,
    }
}

/// The settings' file in the system's directory for settings.
pub fn config_path(base: &str, system: System) -> (r: String)
    ensures
        r@ == crate::paths::joined_path(
            crate::paths::joined_path(base@, "jot"@, system),
            "config.toml"@,
            system,
        ),
{
    path_join(path_join(base, "jot", system).as_str(), "config.toml", system)
}

// ───────────────────────────── laws ─────────────────────────────
/// The lists of choices: the themes are System, Light and Dark, the frame rates 12, 15, 20, 24
/// and 30, and the qualities High, Balanced and Compact, in this order.
pub proof fn law_choices_have_their_places(t: Theme, fps: u32, q: GifQuality)
    ensures
        theme_place(t) == 0 <==> t == Theme::System,
        theme_place(t) == 1 <==> t == Theme::Light,
        theme_place(t) == 2 <==> t == Theme::Dark,
        theme_place(t) <= 2,
        seq![12u32, 15, 20, 24, 30].contains(fps) ==> seq![12u32, 15, 20, 24, 30][fps_place(
            fps,
        ) as int] == fps,
        !seq![12u32, 15, 20, 24, 30].contains(fps) ==> fps_place(fps) == 3,
        fps_place(fps) <= 4,
        quality_place(q) == 0 <==> q == GifQuality::High,
        quality_place(q) == 1 <==> q == GifQuality::Balanced,
        quality_place(q) == 2 <==> q == GifQuality::Compact,
{
    let rates = seq![12u32, 15, 20, 24, 30];
    assert(rates[0] == 12 && rates[1] == 15 && rates[2] == 20 && rates[3] == 24 && rates[4] == 30);
}

}
