//! The editor for comparisons: trimming the two clips, playing them together, and the
//! scene that is exported. Times are whole microseconds.

use crate::canvas::{BeforeAfterOptions, Layer, LayerKind, Scene, Stack};
use crate::maintenance::insert_name;
use crate::paths::name_extension;
use crate::text::{push_dec, push_padded, push_text, same_text};
use vstd::prelude::*;

verus! {

/// How far the previews move on with each tick: twelve ticks a second.
pub const PREVIEW_STEP: u64 = 83_333;

/// How long the previews hold their last frames before they start again.
pub const PREVIEW_HOLD: u64 = 600_000;

// ───────────────────────────── trimming ─────────────────────────────
/// Which end of a clip is dragged.
#[derive(Debug, Clone, Copy, PartialEq, Eq, Structural)]
pub enum Handle {
    Start,
    End,
}

/// The part of a clip that is shown.
#[derive(Debug, Clone, Copy)]
pub struct TrimState {
    duration: u64,
    start: u64,
    end: u64,
    /// The handle that is dragged, and where it was when the drag began.
    drag: Option<(Handle, u64)>,
}

pub struct TrimView {
    pub duration: int,
    pub start: int,
    pub end: int,
    pub drag: Option<(Handle, u64)>,
}

impl View for TrimState {
    type V = TrimView;

    closed spec fn view(&self) -> TrimView {
        TrimView {
            duration: self.duration as int,
            start: self.start as int,
            end: self.end as int,
            drag: self.drag,
        }
    }
}

/// How short the shown part of a clip may become: a fiftieth of the clip, and at least a
/// twentieth of a second.
pub open spec fn min_gap(duration: int) -> int {
    if duration / 50 < 50_000 {
        50_000
    } else {
        duration / 50
    }
}

/// Whether a trim lies in its clip and shows enough of it.
pub open spec fn trim_fits(t: TrimView) -> bool {
    if t.duration == 0 {
        t.start == 0 && t.end == 0
    } else {
        0 <= t.start && t.start + min_gap(t.duration) <= t.end && t.end <= t.duration
    }
}

/// Whether the dragged handle has a place to go: one in the clip and far enough from the
/// other handle.
pub open spec fn can_move(t: TrimView) -> bool {
    t.duration == 0 || match t.drag {
        Some((Handle::Start, _)) => min_gap(t.duration) <= t.end,
        Some((Handle::End, _)) => t.start + min_gap(t.duration) <= t.duration,
        None => true,
    }
}

/// `x` moved into the range from `lo` to `hi`.
pub open spec fn clamped(x: int, lo: int, hi: int) -> int {
    if x < lo {
        lo
    } else if x > hi {
        hi
    } else {
        x
    }
}

impl TrimState {
    /// The shown part does not end before it starts.
    pub open spec fn wf(&self) -> bool {
        self@.start <= self@.end
    }

    /// A trim before its clip is known.
    pub fn new() -> (r: TrimState)
        ensures
            r.wf(),
            r@ == (TrimView { duration: 0, start: 0, end: 0, drag: None }),
    {
        TrimState { duration: 0, start: 0, end: 0, drag: None }
    }

    pub fn start(&self) -> (r: u64)
        ensures
            r == self@.start,
    {
        self.start
    }

    pub fn end(&self) -> (r: u64)
        ensures
            r == self@.end,
    {
        self.end
    }

    pub fn duration(&self) -> (r: u64)
        ensures
            r == self@.duration,
    {
        self.duration
    }

    /// The clip is known. The whole of it is shown, unless an end was set before.
    pub fn set_duration(&mut self, duration: u64)
        requires
            old(self).wf(),
        ensures
            final(self).wf(),
            final(self)@ == sized(old(self)@, duration as int),
    {
        self.duration = duration;
        if self.end == 0 {
            self.end = duration;
        }
    }

    /// A drag begins at the time `t`: the nearer handle is taken, and the first one where
    /// both are as near.
    pub fn grab(&mut self, t: i64)
        requires
            old(self).wf(),
        ensures
            final(self).wf(),
            final(self)@ == grabbed(old(self)@, t as int),
    {
        if self.duration == 0 {
            return;
        }
        let to_start: i128 = gap(t as i128, self.start as i128);
        let to_end: i128 = gap(t as i128, self.end as i128);
        if to_start <= to_end {
            self.drag = Some((Handle::Start, self.start));
        } else {
            self.drag = Some((Handle::End, self.end));
        }
    }

    /// Whether the dragged handle has a place to go. It has none in a clip that is shorter
    /// than a twentieth of a second.
    pub fn can_drag(&self) -> (r: bool)
        ensures
            r == can_move(self@),
    {
        if self.duration == 0 {
            return true;
        }
        let least: u64 = least_gap(self.duration);
        match self.drag {
            Some((Handle::Start, _)) => least <= self.end,
            Some((Handle::End, _)) => self.start <= self.duration && least <= self.duration
                - self.start,
            None => true,
        }
    }

    /// The drag has moved by `dt`. The handle stays in the clip, and away from the other
    /// one.
    pub fn drag_by(&mut self, dt: i64)
        requires
            old(self).wf(),
            can_move(old(self)@),
        ensures
            final(self).wf(),
            final(self)@ == dragged(old(self)@, dt as int),
    {
        if self.duration == 0 {
            return;
        }
        let least: u64 = least_gap(self.duration);
        match self.drag {
            Some((Handle::Start, from)) => {
                let to: i128 = from as i128 + dt as i128;
                let hi: u64 = self.end - least;
                self.start = if to < 0 {
                    0
                } else if to > hi as i128 {
                    hi
                } else {
                    to as u64
                };
            },
            Some((Handle::End, from)) => {
                let to: i128 = from as i128 + dt as i128;
                let lo: u64 = self.start + least;
                self.end = if to < lo as i128 {
                    lo
                } else if to > self.duration as i128 {
                    self.duration
                } else {
                    to as u64
                };
            },
            None => {},
        }
    }

    /// The drag is over.
    pub fn release(&mut self)
        requires
            old(self).wf(),
        ensures
            final(self).wf(),
            final(self)@ == (TrimView { drag: None, ..old(self)@ }),
    {
        self.drag = None;
    }

    /// The time in the clip that is shown at `playhead`: a clip that is over holds its last
    /// frame.
    pub fn shown_time(&self, playhead: u64) -> (r: u64)
        requires
            self.wf(),
        ensures
            r == time_shown(self@, playhead as int),
    {
        let length: u64 = self.end - self.start;
        if playhead > length {
            self.end
        } else {
            self.start + playhead
        }
    }
}

/// A trim whose clip is known to be this long.
pub open spec fn sized(t: TrimView, duration: int) -> TrimView {
    TrimView {
        duration,
        end: if t.end == 0 {
            duration
        } else {
            t.end
        },
        ..t
    }
}

/// A trim of which the handle that is nearer to `at` is dragged.
pub open spec fn grabbed(t: TrimView, at: int) -> TrimView {
    TrimView {
        drag: if t.duration == 0 {
            t.drag
        } else if distance(at, t.start) <= distance(at, t.end) {
            Some((Handle::Start, t.start as u64))
        } else {
            Some((Handle::End, t.end as u64))
        },
        ..t
    }
}

/// The time in the clip that is shown at `playhead`.
pub open spec fn time_shown(t: TrimView, playhead: int) -> int {
    clamped(t.start + playhead, t.start, t.end)
}

pub open spec fn distance(a: int, b: int) -> int {
    if a >= b {
        a - b
    } else {
        b - a
    }
}

fn gap(a: i128, b: i128) -> (r: i128)
    requires
        -0x1_0000_0000_0000_0000 <= a <= 0x1_0000_0000_0000_0000,
        -0x1_0000_0000_0000_0000 <= b <= 0x1_0000_0000_0000_0000,
    ensures
        r == distance(a as int, b as int),
{
    if a >= b {
        a - b
    } else {
        b - a
    }
}

fn least_gap(duration: u64) -> (r: u64)
    ensures
        r == min_gap(duration as int),
{
    let part: u64 = duration / 50;
    if part < 50_000 {
        50_000
    } else {
        part
    }
}

/// A trim whose dragged handle has moved by `dt`.
pub open spec fn dragged(t: TrimView, dt: int) -> TrimView {
    if t.duration == 0 {
        t
    } else {
        match t.drag {
            Some((Handle::Start, from)) => TrimView {
                start: clamped(from + dt, 0, t.end - min_gap(t.duration)),
                ..t
            },
            Some((Handle::End, from)) => TrimView {
                end: clamped(from + dt, t.start + min_gap(t.duration), t.duration),
                ..t
            },
            None => t,
        }
    }
}

// ───────────────────────────── playing ─────────────────────────────
/// How long the longer of two trimmed clips plays.
pub open spec fn longer_play(a: TrimView, b: TrimView) -> int {
    if a.end - a.start >= b.end - b.start {
        a.end - a.start
    } else {
        b.end - b.start
    }
}

/// How long two trimmed clips play: as long as the longer one.
pub fn play_length(a: TrimState, b: TrimState) -> (r: u64)
    requires
        a.wf(),
        b.wf(),
    ensures
        r == longer_play(a@, b@),
{
    let x: u64 = a.end - a.start;
    let y: u64 = b.end - b.start;
    if x >= y {
        x
    } else {
        y
    }
}

/// Where the previews are after a tick.
pub open spec fn moved_on(playhead: int, length: int) -> int {
    if length == 0 {
        playhead
    } else if playhead + PREVIEW_STEP > length + PREVIEW_HOLD {
        0
    } else {
        playhead + PREVIEW_STEP
    }
}

/// Where the previews are after a tick: one step on, and at the start again once the last
/// frames were held. Nothing moves where nothing plays.
pub fn next_playhead(playhead: u64, length: u64) -> (r: u64)
    requires
        length + PREVIEW_HOLD <= u64::MAX,
        playhead + PREVIEW_STEP <= u64::MAX,
    ensures
        r == moved_on(playhead as int, length as int),
{
    if length == 0 {
        return playhead;
    }
    let t: u64 = playhead + PREVIEW_STEP;
    if t > length + PREVIEW_HOLD {
        0
    } else {
        t
    }
}

// ───────────────────────────── previews ─────────────────────────────
/// How many frames of a clip are kept for its preview.
pub const PREVIEW_MAX_FRAMES: u64 = 150;

/// A frame rate: so many frames in so many microseconds.
#[derive(Debug, Clone, Copy, PartialEq, Eq, Structural)]
pub struct FrameRate {
    pub frames: u64,
    pub micros: u64,
}

/// The frame rate of a clip's preview: twelve frames a second, and less where that would be
/// more frames than are kept. Those are spread over the clip.
pub open spec fn preview_rate(duration: u64) -> FrameRate {
    if 12 * duration <= PREVIEW_MAX_FRAMES * 1_000_000 {
        FrameRate { frames: 12, micros: 1_000_000 }
    } else {
        FrameRate { frames: PREVIEW_MAX_FRAMES, micros: duration }
    }
}

/// The frame rate of the preview of a clip of this length.
pub fn preview_fps(duration: u64) -> (r: FrameRate)
    ensures
        r == preview_rate(duration),
        r.micros > 0,
{
    if duration <= 12_500_000 {
        FrameRate { frames: 12, micros: 1_000_000 }
    } else {
        FrameRate { frames: PREVIEW_MAX_FRAMES, micros: duration }
    }
}

/// A frame rate in ten-thousandths of a frame a second, to the nearest one. It is at least
/// one: ffmpeg takes no rate of zero.
pub open spec fn rate_parts(rate: FrameRate) -> nat {
    let parts = (2 * (rate.frames * 10_000_000_000) + rate.micros) / (2 * rate.micros);
    if parts < 1 {
        1
    } else {
        parts as nat
    }
}

/// A frame rate with four decimals.
pub open spec fn rate_text(rate: FrameRate) -> Seq<char> {
    crate::text::dec(rate_parts(rate) / 10_000) + "."@ + crate::text::padded(
        rate_parts(rate) % 10_000,
        4,
    )
}

/// The arguments with which ffmpeg writes the frames of the preview of a clip of this length,
/// one file for each, named after `pattern`.
pub fn preview_args(path: &str, duration: u64, pattern: &str) -> (r: Vec<String>)
    ensures
        crate::text::texts(r@) == seq![
            "-y"@,
            "-loglevel"@,
            "error"@,
            "-i"@,
            path@,
            "-vf"@,
            "fps="@ + rate_text(preview_rate(duration)) + ",scale=-2:480"@,
            "-frames:v"@,
            "150"@,
            pattern@,
        ],
{
    let rate = preview_fps(duration);
    proof {
        law_previews_keep_few_frames(duration);
    }
    let nearest: u128 = (2 * (rate.frames as u128 * 10_000_000_000) + rate.micros as u128) / (2
        * rate.micros as u128);
    let parts: u64 = if nearest < 1 {
        1
    } else {
        nearest as u64
    };
    assert(parts == rate_parts(rate));
    let mut filter = "fps=".to_owned();
    push_dec(&mut filter, parts / 10_000);
    filter.append(".");
    push_padded(&mut filter, parts % 10_000, 4);
    filter.append(",scale=-2:480");
    assert(filter@ =~= "fps="@ + rate_text(preview_rate(duration)) + ",scale=-2:480"@);
    let mut r: Vec<String> = Vec::new();
    push_text(&mut r, "-y");
    push_text(&mut r, "-loglevel");
    push_text(&mut r, "error");
    push_text(&mut r, "-i");
    push_text(&mut r, path);
    push_text(&mut r, "-vf");
    push_text(&mut r, filter.as_str());
    push_text(&mut r, "-frames:v");
    push_text(&mut r, "150");
    push_text(&mut r, pattern);
    assert(crate::text::texts(r@) =~= seq![
        "-y"@,
        "-loglevel"@,
        "error"@,
        "-i"@,
        path@,
        "-vf"@,
        "fps="@ + rate_text(preview_rate(duration)) + ",scale=-2:480"@,
        "-frames:v"@,
        "150"@,
        pattern@,
    ]);
    r
}

/// Whether a file is a frame of a preview.
pub open spec fn is_frame(name: Seq<char>) -> bool {
    crate::paths::extension(name) == Some("png"@)
}

/// The frames among the first `n` files.
pub open spec fn frames(names: Seq<String>, n: int) -> Seq<Seq<char>>
    decreases n,
{
    if n <= 0 {
        Seq::empty()
    } else if is_frame(names[n - 1]@) {
        frames(names, n - 1).push(names[n - 1]@)
    } else {
        frames(names, n - 1)
    }
}

/// The frames among the files of a preview's directory, in the order in which they play.
pub fn preview_frames(names: &Vec<String>) -> (r: Vec<String>)
    ensures
        crate::text::texts(r@) == crate::sort::sorted(
            frames(names@, names@.len() as int),
            crate::maintenance::by_text(),
        ),
{
    let mut list: Vec<String> = Vec::new();
    let mut i: usize = 0;
    assert(crate::text::texts(list@) =~= crate::sort::sorted(
        frames(names@, 0),
        crate::maintenance::by_text(),
    ));
    while i < names.len()
        invariant
            i <= names@.len(),
            crate::text::texts(list@) == crate::sort::sorted(
                frames(names@, i as int),
                crate::maintenance::by_text(),
            ),
        decreases names@.len() - i,
    {
        let ghost before = frames(names@, i as int);
        let png: bool = match name_extension(names[i].as_str()) {
            Some(e) => same_text(e.as_str(), "png"),
            None => false,
        };
        assert(png == is_frame(names@[i as int]@));
        if png {
            insert_name(&mut list, names[i].as_str());
            assert(before.push(names@[i as int]@).drop_last() =~= before);
        }
        i += 1;
    }
    list
}

/// The frame that is shown at a time of the clip: the nearest one, and the last one at the
/// end.
pub open spec fn frame_at(time: u64, rate: FrameRate, count: nat) -> int {
    let nearest = (2 * (time * rate.frames) + rate.micros) / (2 * rate.micros);
    if nearest > count - 1 {
        count - 1
    } else {
        nearest
    }
}

/// The frame, of `count`, that is shown at a time of a clip of this length.
pub fn frame_index(time: u64, duration: u64, count: usize) -> (r: usize)
    requires
        count > 0,
    ensures
        r == frame_at(time, preview_rate(duration), count as nat),
{
    let rate = preview_fps(duration);
    assert(0 <= time * rate.frames <= u64::MAX * u64::MAX) by (nonlinear_arith)
        requires
            0 <= time <= u64::MAX,
            0 <= rate.frames <= u64::MAX,
    ;
    let product: u128 = time as u128 * rate.frames as u128;
    let micros: u128 = rate.micros as u128;
    let whole: u128 = product / micros;
    let rest: u128 = product % micros;
    let nearest: u128 = if 2 * rest >= micros {
        whole + 1
    } else {
        whole
    };
    proof {
        lemma_nearest(product as int, micros as int);
    }
    if nearest > (count - 1) as u128 {
        count - 1
    } else {
        nearest as usize
    }
}

proof fn lemma_nearest(n: int, d: int)
    requires
        0 <= n,
        0 < d,
    ensures
        (2 * n + d) / (2 * d) == n / d + (if 2 * (n % d) >= d {
            1int
        } else {
            0
        }),
        n / d <= n,
{
    let q = n / d;
    let r = n % d;
    vstd::arithmetic::div_mod::lemma_fundamental_div_mod(n, d);
    vstd::arithmetic::div_mod::lemma_div_is_ordered_by_denominator(n, 1, d);
    let up: int = if 2 * r >= d {
        1
    } else {
        0
    };
    assert(2 * n + d == (q + up) * (2 * d) + (2 * r + d - up * (2 * d))) by (nonlinear_arith)
        requires
            n == d * q + r,
    ;
    vstd::arithmetic::div_mod::lemma_fundamental_div_mod_converse(
        2 * n + d,
        2 * d,
        q + up,
        2 * r + d - up * (2 * d),
    );
}

// ───────────────────────────── the scene ─────────────────────────────
/// The options of a comparison, from the editor's controls.
pub fn comparison_options(layout: u32, labels: bool, fps: u32) -> (o: BeforeAfterOptions)
    ensures
        o.stack == (if layout == 0 {
            Stack::Horizontal
        } else {
            Stack::Vertical
        }),
        o.fps == fps,
        if labels {
            o.labels matches Some(l) && l.0@ == "Antes"@ && l.1@ == "Depois"@
        } else {
            o.labels is None
        },
        o.target_size == 480,
        o.gap == 16,
        o.padding == 18,
        o.background@ == "#0e0e12"@,
        o.label_height == 44,
        o.label_font@ == "Sans Bold"@,
        o.label_size == 22,
        o.label_color@ == "#e8e8ec"@,
        o.sync == crate::canvas::LoopMode::Freeze,
{
    let mut o: BeforeAfterOptions = Default::default();
    o.fps = fps;
    o.stack = if layout == 0 {
        Stack::Horizontal
    } else {
        Stack::Vertical
    };
    if !labels {
        o.labels = None;
    }
    o
}

/// How long a trim from `s` to `e` is.
pub open spec fn trimmed_length(s: u64, e: u64) -> int {
    if e > s {
        e - s
    } else {
        0
    }
}

/// A layer with its clip cut from `s` to `e`. Anything but a clip stays as it is.
pub open spec fn cut(k: LayerKind, s: u64, e: u64) -> LayerKind {
    match k {
        LayerKind::Clip { source, loop_mode, .. } => LayerKind::Clip {
            source,
            loop_mode,
            trim_start: s,
            trim_end: Some(e),
        },
        _ => k,
    }
}

/// The length of a layer's clip when it is cut, and 0 for anything else.
pub open spec fn clip_length(k: LayerKind, s: u64, e: u64) -> int {
    if k is Clip {
        trimmed_length(s, e)
    } else {
        0
    }
}

/// The longer of the two clips when they are cut.
pub open spec fn longer_clip(s: Scene, a: (u64, u64), b: (u64, u64)) -> int {
    let x = clip_length(s.layers@[0].kind, a.0, a.1);
    let y = clip_length(s.layers@[1].kind, b.0, b.1);
    if x >= y {
        x
    } else {
        y
    }
}

/// Whether `r` is `s` with the clips of its first two layers cut, as long as the longer
/// one.
pub open spec fn is_cut(r: Scene, s: Scene, a: (u64, u64), b: (u64, u64)) -> bool {
    &&& r.layers@.len() == s.layers@.len()
    &&& r.layers@[0] == (Layer { kind: cut(s.layers@[0].kind, a.0, a.1), ..s.layers@[0] })
    &&& r.layers@[1] == (Layer { kind: cut(s.layers@[1].kind, b.0, b.1), ..s.layers@[1] })
    &&& forall|i: int| 2 <= i < s.layers@.len() ==> #[trigger] r.layers@[i] == s.layers@[i]
    &&& r.canvas.width == s.canvas.width
    &&& r.canvas.height == s.canvas.height
    &&& r.canvas.background == s.canvas.background
    &&& r.canvas.fps == s.canvas.fps
    &&& r.canvas.duration == (if longer_clip(s, a, b) > 0 {
        longer_clip(s, a, b)
    } else {
        s.canvas.duration as int
    })
}

fn cut_layer(layer: Layer, s: u64, e: u64) -> (r: (Layer, u64))
    ensures
        r.0 == (Layer { kind: cut(layer.kind, s, e), ..layer }),
        r.1 == clip_length(layer.kind, s, e),
{
    let length: u64 = if e > s {
        e - s
    } else {
        0
    };
    match layer.kind {
        LayerKind::Clip { source, loop_mode, trim_start: _, trim_end: _ } => (
            Layer {
                kind: LayerKind::Clip { source, loop_mode, trim_start: s, trim_end: Some(e) },
                transform: layer.transform,
                timing: layer.timing,
            },
            length,
        ),
        other => (
            Layer { kind: other, transform: layer.transform, timing: layer.timing },
            0,
        ),
    }
}

/// Cuts the two clips of a comparison. The scene becomes as long as the longer clip; images
/// are left as they are.
pub fn with_trims(scene: Scene, a: (u64, u64), b: (u64, u64)) -> (r: Scene)
    requires
        scene.layers@.len() >= 2,
    ensures
        is_cut(r, scene, a, b),
{
    let ghost first = scene;
    let mut s = scene;
    let second_layer = s.layers.remove(1);
    let first_layer = s.layers.remove(0);
    let (x, len_a) = cut_layer(first_layer, a.0, a.1);
    let (y, len_b) = cut_layer(second_layer, b.0, b.1);
    s.layers.insert(0, y);
    s.layers.insert(0, x);
    let longer: u64 = if len_a >= len_b {
        len_a
    } else {
        len_b
    };
    if longer > 0 {
        s.canvas.duration = longer;
    }
    assert forall|i: int| 2 <= i < first.layers@.len() implies #[trigger] s.layers@[i]
        == first.layers@[i] by {}
    s
}

// ───────────────────────────── laws ─────────────────────────────
/// In a clip of at least a twentieth of a second, whatever is dragged, a trim stays in its
/// clip and shows enough of it, and a handle can be dragged on.
pub proof fn law_trims_stay_in_their_clip(t: TrimView, dt: int)
    requires
        0 <= t.duration,
        trim_fits(t),
    ensures
        can_move(t),
        trim_fits(dragged(t, dt)),
        t.duration > 0 ==> dragged(t, dt).end - dragged(t, dt).start >= 50_000,
{
}

/// A trim fits its clip as soon as the clip is known.
pub proof fn law_whole_clips_fit(duration: int)
    requires
        duration >= 50_000,
    ensures
        trim_fits(TrimView { duration, start: 0, end: duration, drag: None }),
{
}

/// A preview keeps no more frames than fit: its rate times the clip's length is at most the
/// number of frames that are kept. It plays at twelve frames a second at most, and at no less
/// than it can.
pub proof fn law_previews_keep_few_frames(duration: u64)
    ensures
        ({
            let rate = preview_rate(duration);
            &&& rate.micros > 0
            &&& rate.frames * duration <= PREVIEW_MAX_FRAMES * rate.micros
            &&& rate.frames * 1_000_000 <= 12 * rate.micros
            &&& rate.frames * duration == PREVIEW_MAX_FRAMES * rate.micros || rate.frames
                * 1_000_000 == 12 * rate.micros
            &&& rate_parts(rate) <= 120_000
        }),
{
    let rate = preview_rate(duration);
    assert(2 * (rate.frames * 10_000_000_000) + rate.micros <= 240_001 * rate.micros);
    assert((2 * (rate.frames * 10_000_000_000) + rate.micros) / (2 * rate.micros) <= 120_000)
        by (nonlinear_arith)
        requires
            rate.micros > 0,
            2 * (rate.frames * 10_000_000_000) + rate.micros <= 240_001 * rate.micros,
    ;
}

/// The frame that is shown at a time of a clip is one of those that are kept.
pub proof fn law_shown_frames_are_kept(time: u64, duration: u64)
    requires
        time <= duration,
    ensures
        0 <= frame_at(time, preview_rate(duration), PREVIEW_MAX_FRAMES as nat)
            < PREVIEW_MAX_FRAMES,
{
    let rate = preview_rate(duration);
    lemma_nearest(time * rate.frames, rate.micros as int);
}

/// A clip that becomes known is shown whole, unless an end was set before, which stays. The
/// start does not move.
pub proof fn law_known_clips_are_shown_whole(t: TrimView, duration: int)
    ensures
        sized(t, duration).duration == duration,
        sized(t, duration).start == t.start,
        t.end == 0 ==> sized(t, duration).end == duration,
        t.end != 0 ==> sized(t, duration).end == t.end,
        sized(t, duration).drag == t.drag,
{
}

/// A drag takes the handle that is nearer to where it begins, and the first where both are as
/// near, at its place. It moves nothing yet.
pub proof fn law_drags_take_the_nearer_handle(t: TrimView, at: int)
    requires
        0 <= t.start <= t.end <= u64::MAX,
        t.duration != 0,
    ensures
        ({
            let g = grabbed(t, at);
            &&& g.start == t.start && g.end == t.end && g.duration == t.duration
            &&& 2 * at <= t.start + t.end ==> g.drag == Some((Handle::Start, t.start as u64))
            &&& 2 * at > t.start + t.end && t.start < t.end ==> g.drag == Some(
                (Handle::End, t.end as u64),
            )
        }),
{
}

/// A dragged handle moves as far as the drag does, where that leaves it in the clip and far
/// enough from the other one, and the other one stays. A drag that comes back to where it
/// began leaves the trim as it was.
pub proof fn law_handles_follow_the_drag(t: TrimView, dt: int)
    requires
        t.duration > 0,
        trim_fits(t),
    ensures
        t.drag matches Some((Handle::Start, from)) ==> {
            &&& dragged(t, dt).end == t.end
            &&& 0 <= from + dt && from + dt + min_gap(t.duration) <= t.end ==> dragged(t, dt).start
                == from + dt
            &&& from == t.start ==> dragged(t, 0) == t
        },
        t.drag matches Some((Handle::End, from)) ==> {
            &&& dragged(t, dt).start == t.start
            &&& t.start + min_gap(t.duration) <= from + dt <= t.duration ==> dragged(t, dt).end
                == from + dt
            &&& from == t.end ==> dragged(t, 0) == t
        },
        t.drag is None ==> dragged(t, dt) == t,
        dragged(t, dt).drag == t.drag && dragged(t, dt).duration == t.duration,
{
}

/// The least part of a clip that is shown is a fiftieth of it, and at least a twentieth of a
/// second.
pub proof fn law_the_least_part_of_a_clip(duration: int)
    requires
        0 <= duration,
    ensures
        min_gap(duration) >= 50_000,
        duration >= 2_500_000 ==> min_gap(duration) * 50 <= duration < (min_gap(duration) + 1) * 50,
        duration < 2_500_000 ==> min_gap(duration) == 50_000,
{
}

/// A clip plays from its start on and holds its end: behind the start as much time passes in
/// the clip as on the playhead.
pub proof fn law_clips_play_from_their_start(t: TrimView, playhead: int)
    requires
        t.start <= t.end,
        0 <= playhead,
    ensures
        playhead <= t.end - t.start ==> time_shown(t, playhead) == t.start + playhead,
        playhead >= t.end - t.start ==> time_shown(t, playhead) == t.end,
{
}

/// Two clips play as long as the longer one.
pub proof fn law_the_longer_clip_plays_out(a: TrimView, b: TrimView)
    ensures
        longer_play(a, b) >= a.end - a.start,
        longer_play(a, b) >= b.end - b.start,
        longer_play(a, b) == a.end - a.start || longer_play(a, b) == b.end - b.start,
        longer_play(a, b) == longer_play(b, a),
{
}

/// The playhead moves on with each tick, stays within the clips' length and the time for
/// which their last frames are held, and then starts again.
pub proof fn law_previews_play_round(playhead: int, length: int)
    requires
        0 <= playhead <= length + 600_000,
        0 < length,
    ensures
        0 <= moved_on(playhead, length) <= length + 600_000,
        playhead + 83_333 <= length + 600_000 ==> moved_on(playhead, length) == playhead + 83_333,
        playhead + 83_333 > length + 600_000 ==> moved_on(playhead, length) == 0,
        moved_on(playhead, 0) == playhead,
{
}

/// The frame that is shown is the nearest one: it is no more than half a frame away from the
/// time, but for times behind the last frame. It never goes back while time goes on.
pub proof fn law_the_nearest_frame_is_shown(time: u64, later: u64, rate: FrameRate, count: nat)
    requires
        rate.micros > 0,
        count > 0,
        time <= later,
    ensures
        ({
            let f = frame_at(time, rate, count);
            &&& 0 <= f < count
            &&& f < count - 1 ==> -(rate.micros as int) <= 2 * (time * rate.frames - f
                * rate.micros) <= rate.micros
            &&& f <= frame_at(later, rate, count)
            &&& time == 0 ==> f == 0
        }),
{
    let d = rate.micros as int;
    let n = time * rate.frames;
    let m = later * rate.frames;
    assert(0 <= n && n <= m) by (nonlinear_arith)
        requires
            0 <= time <= later,
            0 <= rate.frames,
            n == time * rate.frames,
            m == later * rate.frames,
    ;
    let q = (2 * n + d) / (2 * d);
    vstd::arithmetic::div_mod::lemma_fundamental_div_mod(2 * n + d, 2 * d);
    vstd::arithmetic::div_mod::lemma_mod_bound(2 * n + d, 2 * d);
    vstd::arithmetic::div_mod::lemma_div_is_ordered(2 * n + d, 2 * m + d, 2 * d);
    vstd::arithmetic::div_mod::lemma_div_pos_is_pos(2 * n + d, 2 * d);
    assert((2 * d) * q == 2 * (q * d)) by (nonlinear_arith);
    if time == 0 {
        assert(n == 0) by (nonlinear_arith)
            requires
                time == 0,
                n == time * rate.frames,
        ;
        vstd::arithmetic::div_mod::lemma_basic_div(d, 2 * d);
    }
}

/// The frame rate that ffmpeg is given is the nearest one with four decimals, and never zero.
pub proof fn law_rates_are_near(rate: FrameRate)
    requires
        rate.micros > 0,
    ensures
        rate_parts(rate) >= 1,
        rate_parts(rate) == 1 || -(rate.micros as int) <= 2 * (rate.frames * 10_000_000_000
            - rate_parts(rate) * rate.micros) <= rate.micros,
        rate_text(rate) == crate::text::dec(rate_parts(rate) / 10_000) + "."@
            + crate::text::padded(rate_parts(rate) % 10_000, 4),
{
    let d = rate.micros as int;
    let n = rate.frames * 10_000_000_000;
    let q = (2 * n + d) / (2 * d);
    vstd::arithmetic::div_mod::lemma_fundamental_div_mod(2 * n + d, 2 * d);
    vstd::arithmetic::div_mod::lemma_mod_bound(2 * n + d, 2 * d);
    vstd::arithmetic::div_mod::lemma_div_pos_is_pos(2 * n + d, 2 * d);
    assert((2 * d) * q == 2 * (q * d)) by (nonlinear_arith);
}

/// The frames of a preview are exactly the files with the ending `png`, by name.
pub proof fn law_frames_are_the_pictures(names: Seq<String>, n: int, k: int)
    requires
        0 <= k < n <= names.len(),
    ensures
        frames(names, n).contains(names[k]@) <==> crate::paths::extension(names[k]@) == Some("png"@),
    decreases n,
{
    lemma_frames(names, n);
    if crate::paths::extension(names[k]@) == Some("png"@) {
        lemma_frame_kept(names, n, k);
    } else if frames(names, n).contains(names[k]@) {
        let i = choose|i: int| 0 <= i < frames(names, n).len() && frames(names, n)[i] == names[k]@;
        assert(crate::paths::extension(frames(names, n)[i]) == Some("png"@));
    }
}

proof fn lemma_frames(names: Seq<String>, n: int)
    requires
        0 <= n <= names.len(),
    ensures
        forall|i: int|
            0 <= i < frames(names, n).len() ==> crate::paths::extension(
                #[trigger] frames(names, n)[i],
            ) == Some("png"@),
    decreases n,
{
    if n > 0 {
        lemma_frames(names, n - 1);
    }
}

proof fn lemma_frame_kept(names: Seq<String>, n: int, k: int)
    requires
        0 <= k < n <= names.len(),
        crate::paths::extension(names[k]@) == Some("png"@),
    ensures
        frames(names, n).contains(names[k]@),
    decreases n,
{
    let all = frames(names, n);
    if k == n - 1 {
        assert(all[all.len() - 1] == names[k]@);
    } else {
        lemma_frame_kept(names, n - 1, k);
        let before = frames(names, n - 1);
        let i = choose|i: int| 0 <= i < before.len() && before[i] == names[k]@;
        assert(all[i] == names[k]@);
    }
}

/// A comparison that is cut shows its clips from their starts to their ends and is as long as
/// the longer of them. Nothing else of it changes: not the sources, nor what a clip does when
/// it is over, nor where it stands.
pub proof fn law_cut_comparisons_show_their_parts(
    r: Scene,
    s: Scene,
    a: (u64, u64),
    b: (u64, u64),
)
    requires
        s.layers@.len() >= 2,
        is_cut(r, s, a, b),
        s.layers@[0].kind is Clip,
        s.layers@[1].kind is Clip,
        a.0 < a.1 && b.0 < b.1,
    ensures
        r.layers@[0].kind matches LayerKind::Clip { source, loop_mode, trim_start, trim_end }
            && trim_start == a.0 && trim_end == Some(a.1) && s.layers@[0].kind
            == (LayerKind::Clip {
            source,
            loop_mode,
            trim_start: s.layers@[0].kind->trim_start,
            trim_end: s.layers@[0].kind->trim_end,
        }),
        r.layers@[1].kind matches LayerKind::Clip { source, loop_mode, trim_start, trim_end }
            && trim_start == b.0 && trim_end == Some(b.1) && s.layers@[1].kind
            == (LayerKind::Clip {
            source,
            loop_mode,
            trim_start: s.layers@[1].kind->trim_start,
            trim_end: s.layers@[1].kind->trim_end,
        }),
        r.layers@[0].transform == s.layers@[0].transform,
        r.layers@[1].transform == s.layers@[1].transform,
        r.layers@[0].timing == s.layers@[0].timing,
        r.layers@[1].timing == s.layers@[1].timing,
        r.canvas.duration >= a.1 - a.0,
        r.canvas.duration >= b.1 - b.0,
        r.canvas.duration == a.1 - a.0 || r.canvas.duration == b.1 - b.0,
{
}

/// A preview has twelve steps in a second, stands still for 600 ms at its end, and is made of at
/// most 150 frames.
pub proof fn law_limits_of_previews()
    ensures
        12 * PREVIEW_STEP <= 1_000_000 < 12 * (PREVIEW_STEP + 1),
        PREVIEW_HOLD == 600_000,
        PREVIEW_MAX_FRAMES == 150,
{
}

}
