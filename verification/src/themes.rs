//! The stylesheet of the window: a palette and the window's opacity over it.

use crate::config::Theme;
use crate::text::{push_dec, push_thousandths};
use vstd::prelude::*;

verus! {

/// Whether a theme shows the dark palette.
pub open spec fn shows_dark(theme: Theme, system_dark: bool) -> bool {
    match theme {
        Theme::Light => false,
        Theme::Dark => true,
        Theme::System => system_dark,
    }
}

/// Whether the dark palette is shown. The system's theme follows the system.
pub fn is_dark(theme: Theme, system_dark: bool) -> (r: bool)
    ensures
        r == shows_dark(theme, system_dark),
{
    match theme {
        Theme::Light => false,
        Theme::Dark => true,
        Theme::System => system_dark,
    }
}

/// The colour behind the window.
pub open spec fn background(dark: bool) -> Seq<char> {
    if dark {
        "#0f1014"@
    } else {
        "#f7f7fa"@
    }
}

/// An opacity, in millionths, between a twentieth and one.
pub open spec fn visible_opacity(opacity: u32) -> nat {
    if opacity < 50_000 {
        50_000
    } else if opacity > 1_000_000 {
        1_000_000
    } else {
        opacity as nat
    }
}

/// The whole stylesheet: the palette, and behind it the rule for the window's background,
/// so that this one counts.
pub fn stylesheet(base: &str, dark: bool, opacity: u32) -> (r: String)
    ensures
        r@ == base@
            + "\n/* opacity override (per-instance, regenerated on slider drag) */\nwindow.jot-window { background-color: alpha("@
            + background(dark) + ", "@ + crate::text::thousandths(visible_opacity(opacity))
            + "); }\n"@,
{
    let shown: u64 = if opacity < 50_000 {
        50_000
    } else if opacity > 1_000_000 {
        1_000_000
    } else {
        opacity as u64
    };
    let mut r = base.to_owned();
    r.append(
        "\n/* opacity override (per-instance, regenerated on slider drag) */\nwindow.jot-window { background-color: alpha(",
    );
    r.append(
        if dark {
            "#0f1014"
        } else {
            "#f7f7fa"
        },
    );
    r.append(", ");
    push_thousandths(&mut r, shown);
    r.append("); }\n");
    r
}

/// The rules for the size of the editor's font.
pub fn font_rules(size: u32) -> (r: String)
    ensures
        r@ == ".jot-editor { font-size: "@ + crate::text::dec(size as nat)
            + "px; } .jot-editor text { font-size: "@ + crate::text::dec(size as nat) + "px; }"@,
{
    let mut r = ".jot-editor { font-size: ".to_owned();
    push_dec(&mut r, size as u64);
    r.append("px; } .jot-editor text { font-size: ");
    push_dec(&mut r, size as u64);
    r.append("px; }");
    r
}

// ───────────────────────────── laws ─────────────────────────────
/// A theme is what it is called, whatever the system has; only the system's theme follows it.
/// The two palettes have their own background, the dark one the darker.
pub proof fn law_themes_are_what_they_are_called(dark: bool)
    ensures
        shows_dark(Theme::Dark, dark) && !shows_dark(Theme::Light, dark),
        shows_dark(Theme::System, dark) == dark,
        background(true) == "#0f1014"@,
        background(false) == "#f7f7fa"@,
{
}

/// The window never becomes invisible, nor more than opaque, and any opacity in between is
/// shown as it is.
pub proof fn law_the_window_stays_visible(opacity: u32)
    ensures
        50_000 <= visible_opacity(opacity) <= 1_000_000,
        50_000 <= opacity <= 1_000_000 ==> visible_opacity(opacity) == opacity,
{
}

}
