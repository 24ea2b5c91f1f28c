//! Scenes and the ffmpeg graphs that render them.
//!
//! A [`Scene`] is a canvas with layers, drawn from back to front. Times are whole
//! microseconds and opacities are millionths; ffmpeg reads both with three decimals.

use crate::config::GifQuality;
use crate::gif_recorder::{palettegen_args, paletteuse_args, quality_crf};
use crate::json::{json_at, json_u32, json_written, JsonValue};
use crate::paths::{name_extension, path_file_name, path_join, System};
use crate::text::{
    chars_of, dec_text, joined, push_dec, push_int, push_text, push_thousandths, replaced,
    same_chars, to_ascii_lowercase,
};
use vstd::prelude::*;

verus! {

// ───────────────────────────── the scene ─────────────────────────────
#[derive(Debug, Clone)]
pub struct Scene {
    pub canvas: Canvas,
    /// In drawing order: the first layer is at the bottom.
    pub layers: Vec<Layer>,
}

#[derive(Debug, Clone)]
pub struct Canvas {
    pub width: u32,
    pub height: u32,
    /// The background colour, `#RRGGBB`.
    pub background: String,
    pub fps: u32,
    /// The length of the output, in microseconds.
    pub duration: u64,
}

#[derive(Debug, Clone)]
pub struct Layer {
    pub kind: LayerKind,
    pub transform: Transform,
    pub timing: Timing,
}

#[derive(Debug, Clone)]
pub enum LayerKind {
    /// An animated source.
    Clip {
        source: String,
        loop_mode: LoopMode,
        /// Where playback starts in the source, in microseconds.
        trim_start: u64,
        /// Where playback ends in the source. `None` plays to the end.
        trim_end: Option<u64>,
    },
    /// A still image, held for the whole scene.
    Image { source: String },
    /// Text, centred in the layer's box.
    Text {
        content: String,
        /// A font family such as "Sans Bold".
        font: String,
        size: u32,
        color: String,
        /// A background box, `#RRGGBB` or `#RRGGBB@alpha`.
        box_color: Option<String>,
    },
    /// A filled rectangle.
    Rect { color: String },
}

/// What a clip does when it is shorter than the scene.
#[derive(Debug, Clone, Copy, PartialEq, Eq, Structural)]
pub enum LoopMode {
    /// It repeats until the scene ends.
    Loop,
    /// It holds its last frame until the scene ends.
    Freeze,
    /// It plays once and vanishes.
    Once,
}

#[derive(Debug, Clone, Copy)]
pub struct Transform {
    pub x: i32,
    pub y: i32,
    pub w: u32,
    pub h: u32,
    /// Clockwise, in millionths of a degree. The exporter does not turn layers.
    pub rotation: i64,
    /// In millionths: 1_000_000 is opaque.
    pub opacity: u32,
}

#[derive(Debug, Clone, Copy)]
pub struct Timing {
    /// How long after the scene's start the layer appears, in microseconds.
    pub start: u64,
    /// How long the layer stays. `None` keeps it until the scene ends.
    pub duration: Option<u64>,
}

impl Default for Timing {
    fn default() -> (t: Self)
        ensures
            t.start == 0,
            t.duration is None,
    {
        Timing { start: 0, duration: None }
    }
}

#[derive(Debug, Clone, Copy)]
pub struct MediaInfo {
    pub width: u32,
    pub height: u32,
    /// In microseconds; 0 for a still image.
    pub duration: u64,
}

// ───────────────────────────── colours and text ─────────────────────────────
/// A colour as ffmpeg writes it: a leading `#` becomes `0x`, a name stays.
pub open spec fn ffmpeg_color(c: Seq<char>) -> Seq<char> {
    if c.len() > 0 && c[0] == '#' {
        "0x"@ + c.skip(1)
    } else {
        c
    }
}

/// `#RRGGBB[@alpha]` becomes `0xRRGGBB[@alpha]`. Named colours pass through.
pub fn to_ffmpeg_color(c: &str) -> (r: String)
    ensures
        r@ == ffmpeg_color(c@),
{
    let v = chars_of(c);
    if v.len() > 0 && v[0] == '#' {
        let rest = crate::text::string_between(&v, 1, v.len());
        let mut r = "0x".to_owned();
        r.append(rest.as_str());
        assert(c@.skip(1) =~= c@.subrange(1, c@.len() as int));
        r
    } else {
        c.to_owned()
    }
}

/// A text as it stands between the single quotes of a `text='…'` option: backslashes are
/// doubled, `%` gets one in front, and a single quote becomes a typographic apostrophe.
pub open spec fn escaped_drawtext(s: Seq<char>) -> Seq<char> {
    crate::text::replace_char(
        crate::text::replace_char(
            crate::text::replace_char(s, '\\', "\\\\"@),
            '%',
            "\\%"@,
        ),
        '\'',
        "\u{2019}"@,
    )
}

/// Escapes a text for a `text='…'` option.
pub fn escape_drawtext(s: &str) -> (r: String)
    ensures
        r@ == escaped_drawtext(s@),
{
    let v = chars_of(s);
    let slashes = replaced(&v, '\\', "\\\\");
    let percents = replaced(&chars_of(slashes.as_str()), '%', "\\%");
    replaced(&chars_of(percents.as_str()), '\'', "\u{2019}")
}

// ───────────────────────────── the pieces of a graph ─────────────────────────────
/// The filter that moves a layer's clock to its start.
pub open spec fn setpts_text(t: Timing) -> Seq<char> {
    if t.start > 0 {
        ",setpts=PTS-STARTPTS+"@ + crate::text::thousandths(t.start as nat) + "/TB"@
    } else {
        ",setpts=PTS-STARTPTS"@
    }
}

pub fn timing_setpts(layer: &Layer) -> (r: String)
    ensures
        r@ == setpts_text(layer.timing),
{
    if layer.timing.start > 0 {
        let mut r = ",setpts=PTS-STARTPTS+".to_owned();
        push_thousandths(&mut r, layer.timing.start);
        r.append("/TB");
        r
    } else {
        ",setpts=PTS-STARTPTS".to_owned()
    }
}

/// When a layer that starts at `start` and stays for `duration` ends, as far as a clock
/// of 64 bits reaches.
pub open spec fn layer_end(start: u64, duration: u64) -> nat {
    if start + duration > u64::MAX {
        u64::MAX as nat
    } else {
        (start + duration) as nat
    }
}

/// The option that shows a layer only while it is there.
pub open spec fn enable_text(t: Timing) -> Seq<char> {
    match t.duration {
        Some(d) => ":enable='between(t,"@ + crate::text::thousandths(t.start as nat) + ","@
            + crate::text::thousandths(layer_end(t.start, d)) + ")'"@,
        None => if t.start > 0 {
            ":enable='gte(t,"@ + crate::text::thousandths(t.start as nat) + ")'"@
        } else {
            Seq::empty()
        },
    }
}

pub fn enable_suffix(layer: &Layer) -> (r: String)
    ensures
        r@ == enable_text(layer.timing),
{
    let start: u64 = layer.timing.start;
    match layer.timing.duration {
        Some(d) => {
            let end: u64 = if d > u64::MAX - start {
                u64::MAX
            } else {
                start + d
            };
            let mut r = ":enable='between(t,".to_owned();
            push_thousandths(&mut r, start);
            r.append(",");
            push_thousandths(&mut r, end);
            r.append(")'");
            r
        },
        None => {
            if start > 0 {
                let mut r = ":enable='gte(t,".to_owned();
                push_thousandths(&mut r, start);
                r.append(")'");
                r
            } else {
                String::new()
            }
        },
    }
}

/// The `drawtext` filter of a text layer. `file` is the font's file; without one the
/// family is named.
pub open spec fn drawtext_text(
    content: Seq<char>,
    family: Seq<char>,
    size: u32,
    color: Seq<char>,
    box_color: Option<Seq<char>>,
    t: Transform,
    file: Option<Seq<char>>,
) -> Seq<char> {
    let font = match file {
        Some(p) => "fontfile='"@ + p + "':"@,
        None => "font='"@ + family + "':"@,
    };
    let boxed = match box_color {
        Some(c) => ":box=1:boxcolor="@ + ffmpeg_color(c) + ":boxborderw=10"@,
        None => Seq::empty(),
    };
    "drawtext="@ + font + "text='"@ + escaped_drawtext(content) + "':fontsize="@
        + crate::text::dec(size as nat) + ":fontcolor="@ + ffmpeg_color(color) + ":x="@
        + crate::text::dec_int(t.x as int) + "+("@ + crate::text::dec(t.w as nat)
        + "-text_w)/2:y="@ + crate::text::dec_int(t.y as int) + "+("@ + crate::text::dec(
        t.h as nat,
    ) + "-text_h)/2"@ + boxed
}

/// The view of a string that may be missing.
pub open spec fn optional_text(s: Option<String>) -> Option<Seq<char>> {
    match s {
        Some(t) => Some(t@),
        None => None,
    }
}

pub fn drawtext_expr(
    content: &str,
    family: &str,
    size: u32,
    color: &str,
    box_color: &Option<String>,
    t: &Transform,
    resolved_font: &Option<String>,
) -> (r: String)
    ensures
        r@ == drawtext_text(
            content@,
            family@,
            size,
            color@,
            optional_text(*box_color),
            *t,
            optional_text(*resolved_font),
        ),
{
    let font: String = match resolved_font {
        Some(p) => {
            let mut f = "fontfile='".to_owned();
            f.append(p.as_str());
            f.append("':");
            f
        },
        None => {
            let mut f = "font='".to_owned();
            f.append(family);
            f.append("':");
            f
        },
    };
    let boxed: String = match box_color {
        Some(c) => {
            let mut b = ":box=1:boxcolor=".to_owned();
            b.append(to_ffmpeg_color(c.as_str()).as_str());
            b.append(":boxborderw=10");
            b
        },
        None => String::new(),
    };
    let mut s = "drawtext=".to_owned();
    s.append(font.as_str());
    s.append("text='");
    s.append(escape_drawtext(content).as_str());
    s.append("':fontsize=");
    push_dec(&mut s, size as u64);
    s.append(":fontcolor=");
    s.append(to_ffmpeg_color(color).as_str());
    s.append(":x=");
    push_int(&mut s, t.x as i64);
    s.append("+(");
    push_dec(&mut s, t.w as u64);
    s.append("-text_w)/2:y=");
    push_int(&mut s, t.y as i64);
    s.append("+(");
    push_dec(&mut s, t.h as u64);
    s.append("-text_h)/2");
    s.append(boxed.as_str());
    s
}

// ───────────────────────────── the composite graph ─────────────────────────────
/// One `-i` of ffmpeg with the arguments in front of it.
#[derive(Debug, Clone)]
pub struct InputSpec {
    pub path: String,
    /// Arguments that precede the `-i`.
    pub pre_args: Vec<String>,
}

pub struct InputView {
    pub path: Seq<char>,
    pub pre_args: Seq<Seq<char>>,
}

impl View for InputSpec {
    type V = InputView;

    open spec fn view(&self) -> InputView {
        InputView { path: self.path@, pre_args: crate::text::texts(self.pre_args@) }
    }
}

pub open spec fn input_views(v: Seq<InputSpec>) -> Seq<InputView> {
    v.map_values(|i: InputSpec| i@)
}

/// Whether a layer brings an input of its own.
pub open spec fn is_media(k: LayerKind) -> bool {
    k is Clip || k is Image
}

/// How many of the first `n` layers bring an input.
pub open spec fn media_before(layers: Seq<Layer>, n: int) -> nat
    decreases n,
{
    if n <= 0 {
        0
    } else {
        media_before(layers, n - 1) + (if is_media(layers[n - 1].kind) {
            1nat
        } else {
            0
        })
    }
}

/// The input of a media layer. A clip is looped by its input only when it is not trimmed:
/// the part that is cut out of a trimmed one is looped behind its trim filter.
pub open spec fn layer_input(k: LayerKind) -> InputView {
    match k {
        LayerKind::Clip { source, loop_mode, trim_start, trim_end } => InputView {
            path: source@,
            pre_args: if loop_mode == LoopMode::Loop && trim_start == 0 && trim_end is None {
                seq!["-stream_loop"@, "-1"@]
            } else {
                Seq::empty()
            },
        },
        LayerKind::Image { source } => InputView {
            path: source@,
            pre_args: seq!["-loop"@, "1"@],
        },
        _ => InputView { path: Seq::empty(), pre_args: Seq::empty() },
    }
}

/// The inputs of the first `n` layers.
pub open spec fn composite_inputs(layers: Seq<Layer>, n: int) -> Seq<InputView>
    decreases n,
{
    if n <= 0 {
        Seq::empty()
    } else if is_media(layers[n - 1].kind) {
        composite_inputs(layers, n - 1).push(layer_input(layers[n - 1].kind))
    } else {
        composite_inputs(layers, n - 1)
    }
}

/// The name of the picture on which layer `li` is drawn.
pub open spec fn picture_below(li: int) -> Seq<char> {
    if li <= 0 {
        "base"@
    } else {
        "o"@ + crate::text::dec((li - 1) as nat)
    }
}

/// The filter that cuts a clip, in front of the others.
pub open spec fn trim_text(trim_start: u64, trim_end: Option<u64>) -> Seq<char> {
    match trim_end {
        Some(e) => "trim=start="@ + crate::text::thousandths(trim_start as nat) + ":end="@
            + crate::text::thousandths(e as nat) + ",setpts=PTS-STARTPTS,"@,
        None => if trim_start > 0 {
            "trim=start="@ + crate::text::thousandths(trim_start as nat)
                + ",setpts=PTS-STARTPTS,"@
        } else {
            Seq::empty()
        },
    }
}

/// The filter that makes a layer translucent.
pub open spec fn opacity_text(opacity: u32) -> Seq<char> {
    if opacity < 999_000 {
        ",colorchannelmixer=aa="@ + crate::text::thousandths(opacity as nat)
    } else {
        Seq::empty()
    }
}

/// The filter that fills the scene with a clip that is shorter: it holds the last frame, or
/// plays a part that was cut out over and over again. A clip that is looped whole is looped
/// by its input.
pub open spec fn fill_text(k: LayerKind, duration: u64) -> Seq<char> {
    match k {
        LayerKind::Clip { loop_mode: LoopMode::Freeze, .. } =>
            ",tpad=stop_mode=clone:stop_duration="@ + crate::text::thousandths(duration as nat),
        LayerKind::Clip { loop_mode: LoopMode::Loop, trim_start, trim_end, .. } => if trim_start > 0
            || trim_end is Some {
            ",loop=loop=-1:size=32767:start=0"@
        } else {
            Seq::empty()
        },
        _ => Seq::empty(),
    }
}

pub open spec fn cut_text(k: LayerKind) -> Seq<char> {
    match k {
        LayerKind::Clip { trim_start, trim_end, .. } => trim_text(trim_start, trim_end),
        _ => Seq::empty(),
    }
}

/// The statement that prepares the input of a media layer, as `[v<li>]`.
pub open spec fn prepare_text(c: Canvas, layer: Layer, li: int, input: nat) -> Seq<char> {
    "["@ + crate::text::dec(input) + ":v]"@ + cut_text(layer.kind) + "fps="@ + crate::text::dec(
        at_least_one(c.fps) as nat,
    ) + ",scale="@ + crate::text::dec(layer.transform.w as nat) + ":"@ + crate::text::dec(
        layer.transform.h as nat,
    ) + ":flags=lanczos,setsar=1,format=rgba"@ + opacity_text(layer.transform.opacity)
        + fill_text(layer.kind, c.duration) + setpts_text(layer.timing) + "[v"@
        + crate::text::dec(li as nat) + "]"@
}

/// What an overlay does when its input is over: it holds the last frame, unless the clip
/// plays only once. Such a clip vanishes.
pub open spec fn eof_text(k: LayerKind) -> Seq<char> {
    match k {
        LayerKind::Clip { loop_mode: LoopMode::Once, .. } => ":eof_action=pass"@,
        _ => ":eof_action=repeat"@,
    }
}

/// The statement that lays a prepared input over the picture below it.
pub open spec fn overlay_text(layer: Layer, li: int) -> Seq<char> {
    "["@ + picture_below(li) + "][v"@ + crate::text::dec(li as nat) + "]overlay="@
        + crate::text::dec_int(layer.transform.x as int) + ":"@ + crate::text::dec_int(
        layer.transform.y as int,
    ) + eof_text(layer.kind) + enable_text(layer.timing) + "[o"@ + crate::text::dec(li as nat)
        + "]"@
}

pub open spec fn at_least_one(fps: u32) -> u32 {
    if fps == 0 {
        1
    } else {
        fps
    }
}

/// The statements of layer `li`: two for a clip or an image, one for text or a rectangle.
pub open spec fn layer_statements(
    scene: Scene,
    font: Option<Seq<char>>,
    li: int,
) -> Seq<Seq<char>> {
    let layer = scene.layers@[li];
    let t = layer.transform;
    match layer.kind {
        LayerKind::Text { content, font: family, size, color, box_color } => seq![
            "["@ + picture_below(li) + "]"@ + drawtext_text(
                content@,
                family@,
                size,
                color@,
                optional_text(box_color),
                t,
                font,
            ) + enable_text(layer.timing) + "[o"@ + crate::text::dec(li as nat) + "]"@,
        ],
        LayerKind::Rect { color } => seq![
            "["@ + picture_below(li) + "]drawbox=x="@ + crate::text::dec_int(t.x as int) + ":y="@
                + crate::text::dec_int(t.y as int) + ":w="@ + crate::text::dec(t.w as nat)
                + ":h="@ + crate::text::dec(t.h as nat) + ":color="@ + ffmpeg_color(color@)
                + ":t=fill"@ + enable_text(layer.timing) + "[o"@ + crate::text::dec(li as nat) + "]"@,
        ],
        _ => seq![
            prepare_text(scene.canvas, layer, li, media_before(scene.layers@, li)),
            overlay_text(layer, li),
        ],
    }
}

/// The statement that makes the canvas. It has a duration: every other stream follows it,
/// so the whole graph ends.
pub open spec fn base_text(c: Canvas) -> Seq<char> {
    "color=c="@ + ffmpeg_color(c.background@) + ":s="@ + crate::text::dec(c.width as nat) + "x"@
        + crate::text::dec(c.height as nat) + ":r="@ + crate::text::dec(
        at_least_one(c.fps) as nat,
    ) + ":d="@ + crate::text::thousandths(c.duration as nat) + "[base]"@
}

/// The canvas and the first `n` layers.
pub open spec fn statements(scene: Scene, font: Option<Seq<char>>, n: int) -> Seq<Seq<char>>
    decreases n,
{
    if n <= 0 {
        seq![base_text(scene.canvas)]
    } else {
        statements(scene, font, n - 1) + layer_statements(scene, font, n - 1)
    }
}

/// The graph that flattens a scene to the stream `[comp]`.
pub open spec fn composite_filter(scene: Scene, font: Option<Seq<char>>) -> Seq<char> {
    let n = scene.layers@.len() as int;
    crate::text::join(
        statements(scene, font, n).push("["@ + picture_below(n) + "]format=rgb24[comp]"@),
        ";"@,
    )
}

fn fps_of(c: &Canvas) -> (r: u32)
    ensures
        r == at_least_one(c.fps),
{
    if c.fps == 0 {
        1
    } else {
        c.fps
    }
}

fn picture_name(li: usize) -> (r: String)
    ensures
        r@ == picture_below(li as int),
{
    if li == 0 {
        "base".to_owned()
    } else {
        let mut r = "o".to_owned();
        push_dec(&mut r, (li - 1) as u64);
        r
    }
}

fn cut_filter(k: &LayerKind) -> (r: String)
    ensures
        r@ == cut_text(*k),
{
    match k {
        LayerKind::Clip { trim_start, trim_end, .. } => match trim_end {
            Some(e) => {
                let mut r = "trim=start=".to_owned();
                push_thousandths(&mut r, *trim_start);
                r.append(":end=");
                push_thousandths(&mut r, *e);
                r.append(",setpts=PTS-STARTPTS,");
                r
            },
            None => {
                if *trim_start > 0 {
                    let mut r = "trim=start=".to_owned();
                    push_thousandths(&mut r, *trim_start);
                    r.append(",setpts=PTS-STARTPTS,");
                    r
                } else {
                    String::new()
                }
            },
        },
        _ => String::new(),
    }
}

fn fill_filter(k: &LayerKind, duration: u64) -> (r: String)
    ensures
        r@ == fill_text(*k, duration),
{
    match k {
        LayerKind::Clip { loop_mode: LoopMode::Freeze, .. } => {
            let mut r = ",tpad=stop_mode=clone:stop_duration=".to_owned();
            push_thousandths(&mut r, duration);
            r
        },
        LayerKind::Clip { loop_mode: LoopMode::Loop, trim_start, trim_end, .. } => {
            if *trim_start > 0 || trim_end.is_some() {
                ",loop=loop=-1:size=32767:start=0".to_owned()
            } else {
                String::new()
            }
        },
        _ => String::new(),
    }
}

fn opacity_filter(opacity: u32) -> (r: String)
    ensures
        r@ == opacity_text(opacity),
{
    if opacity < 999_000 {
        let mut r = ",colorchannelmixer=aa=".to_owned();
        push_thousandths(&mut r, opacity as u64);
        r
    } else {
        String::new()
    }
}

fn base_statement(c: &Canvas) -> (r: String)
    ensures
        r@ == base_text(*c),
{
    let mut r = "color=c=".to_owned();
    r.append(to_ffmpeg_color(c.background.as_str()).as_str());
    r.append(":s=");
    push_dec(&mut r, c.width as u64);
    r.append("x");
    push_dec(&mut r, c.height as u64);
    r.append(":r=");
    push_dec(&mut r, fps_of(c) as u64);
    r.append(":d=");
    push_thousandths(&mut r, c.duration);
    r.append("[base]");
    r
}

fn prepare_statement(c: &Canvas, layer: &Layer, li: usize, input: usize) -> (r: String)
    ensures
        r@ == prepare_text(*c, *layer, li as int, input as nat),
{
    let mut r = "[".to_owned();
    push_dec(&mut r, input as u64);
    r.append(":v]");
    r.append(cut_filter(&layer.kind).as_str());
    r.append("fps=");
    push_dec(&mut r, fps_of(c) as u64);
    r.append(",scale=");
    push_dec(&mut r, layer.transform.w as u64);
    r.append(":");
    push_dec(&mut r, layer.transform.h as u64);
    r.append(":flags=lanczos,setsar=1,format=rgba");
    r.append(opacity_filter(layer.transform.opacity).as_str());
    r.append(fill_filter(&layer.kind, c.duration).as_str());
    r.append(timing_setpts(layer).as_str());
    r.append("[v");
    push_dec(&mut r, li as u64);
    r.append("]");
    r
}

fn overlay_statement(layer: &Layer, li: usize) -> (r: String)
    ensures
        r@ == overlay_text(*layer, li as int),
{
    let mut r = "[".to_owned();
    r.append(picture_name(li).as_str());
    r.append("][v");
    push_dec(&mut r, li as u64);
    r.append("]overlay=");
    push_int(&mut r, layer.transform.x as i64);
    r.append(":");
    push_int(&mut r, layer.transform.y as i64);
    r.append(
        match &layer.kind {
            LayerKind::Clip { loop_mode: LoopMode::Once, .. } => ":eof_action=pass",
            _ => ":eof_action=repeat",
        },
    );
    r.append(enable_suffix(layer).as_str());
    r.append("[o");
    push_dec(&mut r, li as u64);
    r.append("]");
    r
}

/// The statements of the layers that draw on the picture itself.
fn draw_statement(scene: &Scene, font: &Option<String>, li: usize) -> (r: String)
    requires
        li < scene.layers@.len(),
        !is_media(scene.layers@[li as int].kind),
    ensures
        layer_statements(*scene, optional_text(*font), li as int) == seq![r@],
{
    let layer: &Layer = &scene.layers[li];
    let t: &Transform = &layer.transform;
    let mut r = "[".to_owned();
    r.append(picture_name(li).as_str());
    match &layer.kind {
        LayerKind::Text { content, font: family, size, color, box_color } => {
            r.append("]");
            let expr = drawtext_expr(
                content.as_str(),
                family.as_str(),
                *size,
                color.as_str(),
                box_color,
                t,
                font,
            );
            r.append(expr.as_str());
            r.append(enable_suffix(layer).as_str());
            r.append("[o");
            push_dec(&mut r, li as u64);
            r.append("]");
        },
        LayerKind::Rect { color } => {
            r.append("]drawbox=x=");
            push_int(&mut r, t.x as i64);
            r.append(":y=");
            push_int(&mut r, t.y as i64);
            r.append(":w=");
            push_dec(&mut r, t.w as u64);
            r.append(":h=");
            push_dec(&mut r, t.h as u64);
            r.append(":color=");
            r.append(to_ffmpeg_color(color.as_str()).as_str());
            r.append(":t=fill");
            r.append(enable_suffix(layer).as_str());
            r.append("[o");
            push_dec(&mut r, li as u64);
            r.append("]");
        },
        _ => {},
    }
    r
}

fn input_of(kind: &LayerKind) -> (r: Option<InputSpec>)
    ensures
        r is Some <==> is_media(*kind),
        r matches Some(i) ==> i@ == layer_input(*kind),
{
    match kind {
        LayerKind::Clip { source, loop_mode, trim_start, trim_end } => {
            let mut pre: Vec<String> = Vec::new();
            if *loop_mode == LoopMode::Loop && *trim_start == 0 && trim_end.is_none() {
                push_text(&mut pre, "-stream_loop");
                push_text(&mut pre, "-1");
            }
            assert(crate::text::texts(pre@) =~= layer_input(*kind).pre_args);
            Some(InputSpec { path: source.clone(), pre_args: pre })
        },
        LayerKind::Image { source } => {
            let mut pre: Vec<String> = Vec::new();
            push_text(&mut pre, "-loop");
            push_text(&mut pre, "1");
            assert(crate::text::texts(pre@) =~= layer_input(*kind).pre_args);
            Some(InputSpec { path: source.clone(), pre_args: pre })
        },
        _ => None,
    }
}

/// The inputs of the composite, its graph, and the name of the stream that the graph
/// ends in. `font` is the file of the scene's font, where it is known.
pub fn build_composite_filter(scene: &Scene, font: &Option<String>) -> (r: (
    Vec<InputSpec>,
    String,
    String,
))
    ensures
        input_views(r.0@) == composite_inputs(scene.layers@, scene.layers@.len() as int),
        r.1@ == composite_filter(*scene, optional_text(*font)),
        r.2@ == "comp"@,
{
    let ghost file = optional_text(*font);
    let mut inputs: Vec<InputSpec> = Vec::new();
    let mut stmts: Vec<String> = Vec::new();
    let base = base_statement(&scene.canvas);
    push_text(&mut stmts, base.as_str());
    assert(crate::text::texts(stmts@) =~= statements(*scene, file, 0));
    assert(input_views(inputs@) =~= composite_inputs(scene.layers@, 0));
    let mut li: usize = 0;
    while li < scene.layers.len()
        invariant
            li <= scene.layers@.len(),
            file == optional_text(*font),
            inputs@.len() == media_before(scene.layers@, li as int),
            input_views(inputs@) == composite_inputs(scene.layers@, li as int),
            crate::text::texts(stmts@) == statements(*scene, file, li as int),
        decreases scene.layers@.len() - li,
    {
        let layer: &Layer = &scene.layers[li];
        let ghost views = input_views(inputs@);
        let ghost before = crate::text::texts(stmts@);
        let index: usize = inputs.len();
        match input_of(&layer.kind) {
            Some(input) => {
                inputs.push(input);
                assert(input_views(inputs@) =~= views.push(input@));
                let prep = prepare_statement(&scene.canvas, layer, li, index);
                let over = overlay_statement(layer, li);
                push_text(&mut stmts, prep.as_str());
                push_text(&mut stmts, over.as_str());
                assert(crate::text::texts(stmts@) =~= before + layer_statements(
                    *scene,
                    file,
                    li as int,
                ));
            },
            None => {
                let drawn = draw_statement(scene, font, li);
                push_text(&mut stmts, drawn.as_str());
                assert(crate::text::texts(stmts@) =~= before + layer_statements(
                    *scene,
                    file,
                    li as int,
                ));
            },
        }
        li += 1;
    }
    let mut last = "[".to_owned();
    last.append(picture_name(li).as_str());
    last.append("]format=rgb24[comp]");
    push_text(&mut stmts, last.as_str());
    (inputs, joined(&stmts, ";"), "comp".to_owned())
}

// ───────────────────────────── media ─────────────────────────────
/// The endings of still images.
pub open spec fn image_extensions() -> Seq<Seq<char>> {
    seq!["png"@, "jpg"@, "jpeg"@, "webp"@, "bmp"@, "avif"@, "tiff"@]
}

/// Whether a path leads to a still image, by its ending and whatever its case.
pub open spec fn names_image(path: Seq<char>, system: System) -> bool {
    match crate::paths::file_name(path, system) {
        Some(name) => match crate::paths::extension(name) {
            Some(e) => image_extensions().contains(crate::text::ascii_lowercase(e)),
            None => false,
        },
        None => false,
    }
}

/// Whether `path` has the ending of a still image, which is held rather than played.
pub fn is_image(path: &str, system: System) -> (r: bool)
    ensures
        r == names_image(path@, system),
{
    let name = match path_file_name(path, system) {
        Some(n) => n,
        None => {
            return false;
        },
    };
    let ending = match name_extension(name.as_str()) {
        Some(e) => e,
        None => {
            return false;
        },
    };
    let lower = to_ascii_lowercase(&chars_of(ending.as_str()));
    let known: Vec<&str> = vec!["png", "jpg", "jpeg", "webp", "bmp", "avif", "tiff"];
    let mut i: usize = 0;
    while i < known.len()
        invariant
            i <= known@.len(),
            known@.map_values(|s: &str| s@) =~= image_extensions(),
            names_image(path@, system) == image_extensions().contains(lower@),
            forall|k: int| 0 <= k < i ==> lower@ != image_extensions()[k],
        decreases known@.len() - i,
    {
        assert(known@.map_values(|s: &str| s@)[i as int] == known@[i as int]@);
        if same_chars(&lower, &chars_of(known[i])) {
            assert(image_extensions()[i as int] == lower@);
            return true;
        }
        i += 1;
    }
    assert(known@.map_values(|s: &str| s@).len() == known@.len());
    false
}

/// Why a file could not be measured.
#[derive(Debug, Clone, Copy, PartialEq, Eq, Structural)]
pub enum ProbeError {
    /// The answer is not JSON.
    NotJson,
    /// The file has no video stream.
    NoStream,
    NoWidth,
    NoHeight,
}

/// The arguments with which `ffprobe` is asked for a file's size and length.
pub open spec fn size_query(path: Seq<char>) -> Seq<Seq<char>> {
    seq![
        "-v"@,
        "error"@,
        "-select_streams"@,
        "v:0"@,
        "-show_entries"@,
        "stream=width,height,duration,avg_frame_rate:format=duration"@,
        "-of"@,
        "json"@,
        path,
    ]
}

pub fn probe_args(path: &str) -> (r: Vec<String>)
    ensures
        crate::text::texts(r@) == size_query(path@),
{
    let mut r: Vec<String> = Vec::new();
    push_text(&mut r, "-v");
    push_text(&mut r, "error");
    push_text(&mut r, "-select_streams");
    push_text(&mut r, "v:0");
    push_text(&mut r, "-show_entries");
    push_text(&mut r, "stream=width,height,duration,avg_frame_rate:format=duration");
    push_text(&mut r, "-of");
    push_text(&mut r, "json");
    push_text(&mut r, path);
    assert(crate::text::texts(r@) =~= size_query(path@));
    r
}

/// The arguments with which `ffprobe` is asked to count a file's frames.
pub open spec fn frames_query(path: Seq<char>) -> Seq<Seq<char>> {
    seq![
        "-v"@,
        "error"@,
        "-select_streams"@,
        "v:0"@,
        "-count_frames"@,
        "-show_entries"@,
        "stream=nb_read_frames,avg_frame_rate"@,
        "-of"@,
        "json"@,
        path,
    ]
}

pub fn count_frames_args(path: &str) -> (r: Vec<String>)
    ensures
        crate::text::texts(r@) == frames_query(path@),
{
    let mut r: Vec<String> = Vec::new();
    push_text(&mut r, "-v");
    push_text(&mut r, "error");
    push_text(&mut r, "-select_streams");
    push_text(&mut r, "v:0");
    push_text(&mut r, "-count_frames");
    push_text(&mut r, "-show_entries");
    push_text(&mut r, "stream=nb_read_frames,avg_frame_rate");
    push_text(&mut r, "-of");
    push_text(&mut r, "json");
    push_text(&mut r, path);
    assert(crate::text::texts(r@) =~= frames_query(path@));
    r
}

/// Whether a value is an array with something in it.
pub open spec fn has_items(v: crate::json::JsonView) -> bool {
    v matches crate::json::JsonView::Array(n) && n > 0
}

/// The size of the first stream, from the streams and that stream's width and height.
pub open spec fn stream_size(
    streams: crate::json::JsonView,
    width: crate::json::JsonView,
    height: crate::json::JsonView,
) -> Result<(int, int), ProbeError> {
    if streams is Invalid {
        Err(ProbeError::NotJson)
    } else if !has_items(streams) {
        Err(ProbeError::NoStream)
    } else {
        match crate::json::u32_value(width) {
            Some(w) => match crate::json::u32_value(height) {
                Some(h) => Ok((w, h)),
                None => Err(ProbeError::NoHeight),
            },
            None => Err(ProbeError::NoWidth),
        }
    }
}

pub fn media_size_from(streams: &JsonValue, width: &JsonValue, height: &JsonValue) -> (r: Result<
    (u32, u32),
    ProbeError,
>)
    ensures
        match r {
            Ok(s) => stream_size(streams@, width@, height@) == Ok::<(int, int), ProbeError>(
                (s.0 as int, s.1 as int),
            ),
            Err(e) => stream_size(streams@, width@, height@) == Err::<(int, int), ProbeError>(e),
        },
{
    let found: bool = match streams {
        JsonValue::Invalid => {
            return Err(ProbeError::NotJson);
        },
        JsonValue::Array(n) => *n > 0,
        _ => false,
    };
    if !found {
        return Err(ProbeError::NoStream);
    }
    match json_u32(width) {
        Some(w) => match json_u32(height) {
            Some(h) => Ok((w, h)),
            None => Err(ProbeError::NoHeight),
        },
        None => Err(ProbeError::NoWidth),
    }
}

/// The size of a file's first video stream, from what `ffprobe` answered.
pub fn media_size(answer: &str) -> (r: Result<(u32, u32), ProbeError>)
    ensures
        ({
            let size = stream_size(
                crate::json::json_value(answer@, "/streams"@),
                crate::json::json_value(answer@, "/streams/0/width"@),
                crate::json::json_value(answer@, "/streams/0/height"@),
            );
            match r {
                Ok(s) => size == Ok::<(int, int), ProbeError>((s.0 as int, s.1 as int)),
                Err(e) => size == Err::<(int, int), ProbeError>(e),
            }
        }),
{
    let streams = json_at(answer, "/streams");
    let width = json_at(answer, "/streams/0/width");
    let height = json_at(answer, "/streams/0/height");
    media_size_from(&streams, &width, &height)
}

/// The texts that may write a file's length, in the order in which they count: the
/// stream's and the container's.
pub open spec fn length_texts(
    stream: crate::json::JsonView,
    container: crate::json::JsonView,
) -> Seq<Seq<char>> {
    (match crate::json::written_value(stream) {
        Some(t) => seq![t],
        None => Seq::empty(),
    }) + (match crate::json::written_value(container) {
        Some(t) => seq![t],
        None => Seq::empty(),
    })
}

pub fn duration_texts_from(stream: &JsonValue, container: &JsonValue) -> (r: Vec<String>)
    ensures
        crate::text::texts(r@) == length_texts(stream@, container@),
{
    let mut r: Vec<String> = Vec::new();
    if let Some(t) = json_written(stream) {
        push_text(&mut r, t.as_str());
    }
    if let Some(t) = json_written(container) {
        push_text(&mut r, t.as_str());
    }
    assert(crate::text::texts(r@) =~= length_texts(stream@, container@));
    r
}

/// The texts that may write a file's length, from what `ffprobe` answered.
pub fn duration_texts(answer: &str) -> (r: Vec<String>)
    ensures
        crate::text::texts(r@) == length_texts(
            crate::json::json_value(answer@, "/streams/0/duration"@),
            crate::json::json_value(answer@, "/format/duration"@),
        ),
{
    let stream = json_at(answer, "/streams/0/duration");
    let container = json_at(answer, "/format/duration");
    duration_texts_from(&stream, &container)
}

/// The two sides of a fraction, around its first `/`.
pub open spec fn fraction(s: Seq<char>) -> Option<(Seq<char>, Seq<char>)> {
    match crate::text::find_char(s, '/', 0) {
        Some(k) => Some((s.take(k), s.skip(k + 1))),
        None => None,
    }
}

/// Splits a frame rate such as `30000/1001`.
pub fn parse_rational(s: &str) -> (r: Option<(String, String)>)
    ensures
        match r {
            Some(f) => fraction(s@) == Some((f.0@, f.1@)),
            None => fraction(s@) is None,
        },
{
    let v = chars_of(s);
    let n: usize = v.len();
    proof {
        crate::text::lemma_find_char(v@, '/', 0);
    }
    match crate::text::find_char_from(&v, '/', 0) {
        Some(k) => {
            assert(v@.subrange(0, k as int) =~= v@.take(k as int));
            assert(v@.subrange(k + 1, n as int) =~= v@.skip(k + 1));
            assert(k < n);
            Some((crate::text::string_between(&v, 0, k), crate::text::string_between(&v, k + 1, n)))
        },
        None => None,
    }
}

/// The number of frames and the two sides of the frame rate, where all are there.
pub open spec fn frame_texts(
    frames: crate::json::JsonView,
    rate: crate::json::JsonView,
) -> Option<(Seq<char>, Seq<char>, Seq<char>)> {
    match (crate::json::written_value(frames), rate) {
        (Some(n), crate::json::JsonView::Text(t)) => match fraction(t) {
            Some(f) => Some((n, f.0, f.1)),
            None => None,
        },
        _ => None,
    }
}

pub fn frame_count_from(frames: &JsonValue, rate: &JsonValue) -> (r: Option<
    (String, String, String),
>)
    ensures
        match r {
            Some(f) => frame_texts(frames@, rate@) == Some((f.0@, f.1@, f.2@)),
            None => frame_texts(frames@, rate@) is None,
        },
{
    match json_written(frames) {
        Some(n) => match rate {
            JsonValue::Text(t) => match parse_rational(t.as_str()) {
                Some(f) => Some((n, f.0, f.1)),
                None => None,
            },
            _ => None,
        },
        None => None,
    }
}

/// The number of frames of a file and the two sides of its frame rate, from what `ffprobe`
/// answered.
pub fn frame_count(answer: &str) -> (r: Option<(String, String, String)>)
    ensures
        ({
            let texts = frame_texts(
                crate::json::json_value(answer@, "/streams/0/nb_read_frames"@),
                crate::json::json_value(answer@, "/streams/0/avg_frame_rate"@),
            );
            match r {
                Some(f) => texts == Some((f.0@, f.1@, f.2@)),
                None => texts is None,
            }
        }),
{
    let frames = json_at(answer, "/streams/0/nb_read_frames");
    let rate = json_at(answer, "/streams/0/avg_frame_rate");
    frame_count_from(&frames, &rate)
}

// ───────────────────────────── before and after ─────────────────────────────
#[derive(Debug, Clone, Copy, PartialEq, Eq, Structural)]
pub enum Stack {
    /// Side by side.
    Horizontal,
    /// One above the other.
    Vertical,
}

#[derive(Debug)]
pub struct BeforeAfterOptions {
    /// The height of each clip, or its width where they are stacked.
    pub target_size: u32,
    /// The pixels between the two clips.
    pub gap: u32,
    /// The padding around everything.
    pub padding: u32,
    pub background: String,
    /// The labels above the clips; `None` hides them.
    pub labels: Option<(String, String)>,
    pub label_height: u32,
    pub label_font: String,
    pub label_size: u32,
    pub label_color: String,
    pub fps: u32,
    /// What the shorter clip does.
    pub sync: LoopMode,
    pub stack: Stack,
}

impl Default for BeforeAfterOptions {
    fn default() -> (o: Self)
        ensures
            o.target_size == 480,
            o.gap == 16,
            o.padding == 18,
            o.background@ == "#0e0e12"@,
            o.labels matches Some(l) && l.0@ == "Antes"@ && l.1@ == "Depois"@,
            o.label_height == 44,
            o.label_font@ == "Sans Bold"@,
            o.label_size == 22,
            o.label_color@ == "#e8e8ec"@,
            o.fps == 24,
            o.sync == LoopMode::Freeze,
            o.stack == Stack::Horizontal,
    {
        BeforeAfterOptions {
            target_size: 480,
            gap: 16,
            padding: 18,
            background: "#0e0e12".to_owned(),
            labels: Some(("Antes".to_owned(), "Depois".to_owned())),
            label_height: 44,
            label_font: "Sans Bold".to_owned(),
            label_size: 22,
            label_color: "#e8e8ec".to_owned(),
            fps: 24,
            sync: LoopMode::Freeze,
            stack: Stack::Horizontal,
        }
    }
}

/// The largest even number up to `n`, and at least 2.
pub open spec fn evened(n: int) -> int {
    if n < 2 {
        2
    } else {
        n - n % 2
    }
}

/// Rounds down to an even number, at least 2.
pub fn even(n: u32) -> (r: u32)
    ensures
        r == evened(n as int),
{
    if n < 2 {
        2
    } else {
        n - n % 2
    }
}

/// `side` scaled by `size / other`, to the nearest pixel (halves up), as far as 32 bits
/// reach. A picture without the other side takes `size`.
pub open spec fn scaled(side: u32, other: u32, size: u32) -> int {
    if other == 0 {
        size as int
    } else {
        let pixels = (2 * (side * size) + other) / (2 * other);
        if pixels > u32::MAX {
            u32::MAX as int
        } else {
            pixels
        }
    }
}

fn scale(side: u32, other: u32, size: u32) -> (r: u32)
    ensures
        r == scaled(side, other, size),
{
    if other == 0 {
        return size;
    }
    assert(side * size <= u32::MAX * u32::MAX) by (nonlinear_arith)
        requires
            0 <= side <= u32::MAX,
            0 <= size <= u32::MAX,
    ;
    let product: u128 = side as u128 * size as u128;
    let pixels: u128 = (2 * product + other as u128) / (2 * other as u128);
    if pixels > u32::MAX as u128 {
        u32::MAX
    } else {
        pixels as u32
    }
}

/// The width of a picture at height `h`.
pub fn scale_to_h(info: MediaInfo, h: u32) -> (r: u32)
    ensures
        r == scaled(info.width, info.height, h),
{
    scale(info.width, info.height, h)
}

/// The height of a picture at width `w`.
pub fn scale_to_w(info: MediaInfo, w: u32) -> (r: u32)
    ensures
        r == scaled(info.height, info.width, w),
{
    scale(info.height, info.width, w)
}

/// Where the two clips and their labels stand.
pub struct Layout {
    pub width: int,
    pub height: int,
    pub ax: int,
    pub ay: int,
    pub aw: int,
    pub ah: int,
    pub bx: int,
    pub by: int,
    pub bw: int,
    pub bh: int,
    /// The tops of the labels; each is as wide as its clip.
    pub la_y: int,
    pub lb_y: int,
    pub label_h: int,
}

/// The layout of two pictures: padding, a strip for the label above each clip, the clips
/// in even sizes of their own aspect, and the gap between them.
pub open spec fn layout(a: MediaInfo, b: MediaInfo, o: BeforeAfterOptions) -> Layout {
    let label_h = if o.labels is Some {
        o.label_height as int
    } else {
        0
    };
    let pad = o.padding as int;
    let gap = o.gap as int;
    let size = evened(o.target_size as int);
    match o.stack {
        Stack::Horizontal => {
            let aw = evened(scaled(a.width, a.height, size as u32));
            let bw = evened(scaled(b.width, b.height, size as u32));
            Layout {
                width: evened(pad + aw + gap + bw + pad),
                height: evened(pad + label_h + size + pad),
                ax: pad,
                ay: pad + label_h,
                aw,
                ah: size,
                bx: pad + aw + gap,
                by: pad + label_h,
                bw,
                bh: size,
                la_y: pad,
                lb_y: pad,
                label_h,
            }
        },
        Stack::Vertical => {
            let ah = evened(scaled(a.height, a.width, size as u32));
            let bh = evened(scaled(b.height, b.width, size as u32));
            Layout {
                width: evened(pad + size + pad),
                height: evened(pad + label_h + ah + gap + label_h + bh + pad),
                ax: pad,
                ay: pad + label_h,
                aw: size,
                ah,
                bx: pad,
                by: pad + label_h + ah + gap + label_h,
                bw: size,
                bh,
                la_y: pad,
                lb_y: pad + label_h + ah + gap,
                label_h,
            }
        },
    }
}

/// Whether every coordinate of a layout is a pixel position.
pub open spec fn layout_fits(a: MediaInfo, b: MediaInfo, o: BeforeAfterOptions) -> bool {
    let l = layout(a, b, o);
    let pad = o.padding as int;
    match o.stack {
        Stack::Horizontal => l.bx + l.bw + pad <= i32::MAX && l.ay + l.ah + pad <= i32::MAX,
        Stack::Vertical => l.ax + l.aw + pad <= i32::MAX && l.by + l.bh + pad <= i32::MAX,
    }
}

/// The sizes of the two clips: `(wa, ha, wb, hb)`.
fn clip_sizes(a: MediaInfo, b: MediaInfo, o: &BeforeAfterOptions) -> (r: (u32, u32, u32, u32))
    ensures
        r.0 == layout(a, b, *o).aw,
        r.1 == layout(a, b, *o).ah,
        r.2 == layout(a, b, *o).bw,
        r.3 == layout(a, b, *o).bh,
{
    let size: u32 = even(o.target_size);
    match o.stack {
        Stack::Horizontal => (even(scale_to_h(a, size)), size, even(scale_to_h(b, size)), size),
        Stack::Vertical => (size, even(scale_to_w(a, size)), size, even(scale_to_w(b, size))),
    }
}

/// Whether the canvas that two pictures need is small enough to be addressed.
pub fn before_after_fits(a: MediaInfo, b: MediaInfo, opts: &BeforeAfterOptions) -> (r: bool)
    ensures
        r == layout_fits(a, b, *opts),
{
    let (wa, ha, wb, hb) = clip_sizes(a, b, opts);
    let label_h: u64 = if opts.labels.is_some() {
        opts.label_height as u64
    } else {
        0
    };
    let pad: u64 = opts.padding as u64;
    let gap: u64 = opts.gap as u64;
    let max: u64 = i32::MAX as u64;
    match opts.stack {
        Stack::Horizontal => pad + wa as u64 + gap + wb as u64 + pad <= max && pad + label_h
            + ha as u64 + pad <= max,
        Stack::Vertical => pad + wa as u64 + pad <= max && pad + label_h + ha as u64 + gap
            + label_h + hb as u64 + pad <= max,
    }
}

/// An untimed, opaque layer in this box.
pub open spec fn plain_box(l: Layer, x: int, y: int, w: int, h: int) -> bool {
    &&& l.transform.x == x
    &&& l.transform.y == y
    &&& l.transform.w == w
    &&& l.transform.h == h
    &&& l.transform.rotation == 0
    &&& l.transform.opacity == 1_000_000
    &&& l.timing.start == 0
    &&& l.timing.duration is None
}

/// Whether a layer shows the media file `src`: an image for a still file, an uncut clip
/// otherwise.
pub open spec fn shows_media(l: Layer, src: Seq<char>, sync: LoopMode, system: System) -> bool {
    if names_image(src, system) {
        l.kind matches LayerKind::Image { source } && source@ == src
    } else {
        l.kind matches LayerKind::Clip { source, loop_mode, trim_start, trim_end } && source@
            == src && loop_mode == sync && trim_start == 0 && trim_end is None
    }
}

/// Whether a layer writes `text` in the label style of `o`.
pub open spec fn shows_label(l: Layer, text: Seq<char>, o: BeforeAfterOptions) -> bool {
    l.kind matches LayerKind::Text { content, font, size, color, box_color } && content@ == text
        && font@ == o.label_font@ && size == o.label_size && color@ == o.label_color@
        && box_color is None
}

pub fn media_layer(
    src: &str,
    x: i32,
    y: i32,
    w: u32,
    h: u32,
    sync: LoopMode,
    system: System,
) -> (l: Layer)
    ensures
        plain_box(l, x as int, y as int, w as int, h as int),
        shows_media(l, src@, sync, system),
{
    let kind = if is_image(src, system) {
        LayerKind::Image { source: src.to_owned() }
    } else {
        LayerKind::Clip {
            source: src.to_owned(),
            loop_mode: sync,
            trim_start: 0,
            trim_end: None,
        }
    };
    Layer {
        kind,
        transform: Transform { x, y, w, h, rotation: 0, opacity: 1_000_000 },
        timing: Timing { start: 0, duration: None },
    }
}

pub fn text_layer(
    text: &str,
    x: i32,
    y: i32,
    w: u32,
    h: u32,
    opts: &BeforeAfterOptions,
) -> (l: Layer)
    ensures
        plain_box(l, x as int, y as int, w as int, h as int),
        shows_label(l, text@, *opts),
{
    Layer {
        kind: LayerKind::Text {
            content: text.to_owned(),
            font: opts.label_font.clone(),
            size: opts.label_size,
            color: opts.label_color.clone(),
            box_color: None,
        },
        transform: Transform { x, y, w, h, rotation: 0, opacity: 1_000_000 },
        timing: Timing { start: 0, duration: None },
    }
}

/// The length of a comparison: the longer clip's, or two seconds where both sides are still
/// images, which last no time.
pub open spec fn comparison_duration(a: MediaInfo, b: MediaInfo) -> u64 {
    let longer = if a.duration >= b.duration {
        a.duration
    } else {
        b.duration
    };
    if longer > 0 {
        longer
    } else {
        2_000_000
    }
}

/// Whether `s` compares the two files as the options say.
pub open spec fn compares(
    s: Scene,
    before: Seq<char>,
    after: Seq<char>,
    a: MediaInfo,
    b: MediaInfo,
    o: BeforeAfterOptions,
    system: System,
) -> bool {
    let l = layout(a, b, o);
    &&& s.canvas.width == l.width
    &&& s.canvas.height == l.height
    &&& s.canvas.background@ == o.background@
    &&& s.canvas.fps == at_least_one(o.fps)
    &&& s.canvas.duration == comparison_duration(a, b)
    &&& s.layers@.len() == (if o.labels is Some {
        4int
    } else {
        2
    })
    &&& plain_box(s.layers@[0], l.ax, l.ay, l.aw, l.ah)
    &&& shows_media(s.layers@[0], before, o.sync, system)
    &&& plain_box(s.layers@[1], l.bx, l.by, l.bw, l.bh)
    &&& shows_media(s.layers@[1], after, o.sync, system)
    &&& o.labels matches Some(labels) ==> {
        &&& plain_box(s.layers@[2], l.ax, l.la_y, l.aw, l.label_h)
        &&& shows_label(s.layers@[2], labels.0@, o)
        &&& plain_box(s.layers@[3], l.bx, l.lb_y, l.bw, l.label_h)
        &&& shows_label(s.layers@[3], labels.1@, o)
    }
}

/// The comparison of two media files, whose sizes and lengths are `ia` and `ib`.
pub fn before_after(
    before: &str,
    after: &str,
    ia: MediaInfo,
    ib: MediaInfo,
    opts: &BeforeAfterOptions,
    system: System,
) -> (s: Scene)
    requires
        layout_fits(ia, ib, *opts),
    ensures
        compares(s, before@, after@, ia, ib, *opts, system),
{
    let (wa, ha, wb, hb) = clip_sizes(ia, ib, opts);
    let label_h: u32 = if opts.labels.is_some() {
        opts.label_height
    } else {
        0
    };
    let pad: u32 = opts.padding;
    let gap: u32 = opts.gap;
    let fps: u32 = if opts.fps == 0 {
        1
    } else {
        opts.fps
    };
    let longer: u64 = if ia.duration >= ib.duration {
        ia.duration
    } else {
        ib.duration
    };
    let duration: u64 = if longer > 0 {
        longer
    } else {
        2_000_000
    };
    let ay: u32 = pad + label_h;
    let (width, height, bx, by, lb_y): (u32, u32, u32, u32, u32) = match opts.stack {
        Stack::Horizontal => (
            even(pad + wa + gap + wb + pad),
            even(pad + label_h + ha + pad),
            pad + wa + gap,
            ay,
            pad,
        ),
        Stack::Vertical => (
            even(pad + wa + pad),
            even(pad + label_h + ha + gap + label_h + hb + pad),
            pad,
            pad + label_h + ha + gap + label_h,
            pad + label_h + ha + gap,
        ),
    };
    let mut layers: Vec<Layer> = Vec::new();
    layers.push(media_layer(before, pad as i32, ay as i32, wa, ha, opts.sync, system));
    layers.push(media_layer(after, bx as i32, by as i32, wb, hb, opts.sync, system));
    if let Some(labels) = &opts.labels {
        layers.push(text_layer(labels.0.as_str(), pad as i32, pad as i32, wa, label_h, opts));
        layers.push(text_layer(labels.1.as_str(), bx as i32, lb_y as i32, wb, label_h, opts));
    }
    Scene {
        canvas: Canvas { width, height, background: opts.background.clone(), fps, duration },
        layers,
    }
}

proof fn lemma_evened(n: int)
    ensures
        evened(n) % 2 == 0,
        evened(n) >= 2,
        evened(n) >= n - 1,
        n % 2 == 0 ==> evened(n) >= n,
{
}

/// Both clips of a comparison lie on the canvas and do not overlap; the canvas and the clips
/// have even sides, as H.264 asks. (Without padding, an odd gap or an odd strip for the
/// labels leaves the canvas a pixel short, since it is made even.)
pub proof fn law_clips_lie_apart_on_an_even_canvas(
    a: MediaInfo,
    b: MediaInfo,
    o: BeforeAfterOptions,
)
    requires
        o.padding > 0 || (o.gap % 2 == 0 && (o.stack == Stack::Vertical || o.labels is None
            || o.label_height % 2 == 0)),
    ensures
        ({
            let l = layout(a, b, o);
            &&& l.width % 2 == 0 && l.height % 2 == 0
            &&& l.aw % 2 == 0 && l.ah % 2 == 0 && l.bw % 2 == 0 && l.bh % 2 == 0
            &&& 0 <= l.ax && l.ax + l.aw <= l.width && 0 <= l.ay && l.ay + l.ah <= l.height
            &&& 0 <= l.bx && l.bx + l.bw <= l.width && 0 <= l.by && l.by + l.bh <= l.height
            &&& l.ax + l.aw <= l.bx || l.ay + l.ah <= l.by
            &&& l.la_y + l.label_h <= l.ay && l.lb_y + l.label_h <= l.by
        }),
{
    let l = layout(a, b, o);
    let pad = o.padding as int;
    let gap = o.gap as int;
    let size = evened(o.target_size as int);
    lemma_evened(o.target_size as int);
    match o.stack {
        Stack::Horizontal => {
            lemma_evened(scaled(a.width, a.height, size as u32));
            lemma_evened(scaled(b.width, b.height, size as u32));
            lemma_evened(pad + l.aw + gap + l.bw + pad);
            lemma_evened(pad + l.label_h + size + pad);
        },
        Stack::Vertical => {
            lemma_evened(scaled(a.height, a.width, size as u32));
            lemma_evened(scaled(b.height, b.width, size as u32));
            lemma_evened(pad + size + pad);
            lemma_evened(pad + l.label_h + l.ah + gap + l.label_h + l.bh + pad);
        },
    }
}

// ───────────────────────────── output ─────────────────────────────
#[derive(Debug, Clone, Copy, PartialEq, Eq, Structural)]
pub enum OutputKind {
    Gif,
    /// H.264, smaller and smoother for messaging.
    Mp4,
}

impl OutputKind {
    pub open spec fn ending(self) -> Seq<char> {
        match self {
            OutputKind::Gif => "gif"@,
            OutputKind::Mp4 => "mp4"@,
        }
    }

    /// The ending of the output's file.
    pub fn ext(self) -> (r: &'static str)
        ensures
            r@ == self.ending(),
    {
        match self {
            OutputKind::Gif => "gif",
            OutputKind::Mp4 => "mp4",
        }
    }
}

/// The file of a comparison made at `stamp`, in the directory of the GIFs.
pub fn default_output_path(
    dir: &str,
    stamp: &str,
    kind: OutputKind,
    system: System,
) -> (r: String)
    ensures
        r@ == crate::paths::joined_path(
            dir@,
            "jot-compare-"@ + stamp@ + "."@ + kind.ending(),
            system,
        ),
{
    let mut name = "jot-compare-".to_owned();
    name.append(stamp);
    name.append(".");
    name.append(kind.ext());
    path_join(dir, name.as_str(), system)
}

/// The files between the passes of a GIF: the flattened video and the palette.
pub fn work_files(dir: &str, stamp: &str, system: System) -> (r: (String, String))
    ensures
        r.0@ == work_video(dir@, stamp@, system),
        r.1@ == work_palette(dir@, stamp@, system),
{
    let mut video = "jot-compose-".to_owned();
    video.append(stamp);
    video.append(".mp4");
    let mut palette = "jot-compose-".to_owned();
    palette.append(stamp);
    palette.append("-palette.png");
    (path_join(dir, video.as_str(), system), path_join(dir, palette.as_str(), system))
}

/// The font family of the first text layer.
pub open spec fn first_family(layers: Seq<Layer>, i: int) -> Option<Seq<char>>
    decreases layers.len() - i,
{
    if i < 0 || i >= layers.len() {
        None
    } else {
        match layers[i].kind {
            LayerKind::Text { font, .. } => Some(font@),
            _ => first_family(layers, i + 1),
        }
    }
}

/// The font family that a scene's font file is looked up for.
pub fn scene_font_family(scene: &Scene) -> (r: Option<String>)
    ensures
        optional_text(r) == first_family(scene.layers@, 0),
{
    let mut i: usize = 0;
    while i < scene.layers.len()
        invariant
            i <= scene.layers@.len(),
            first_family(scene.layers@, 0) == first_family(scene.layers@, i as int),
        decreases scene.layers@.len() - i,
    {
        match &scene.layers[i].kind {
            LayerKind::Text { font, .. } => {
                return Some(font.clone());
            },
            _ => {},
        }
        i += 1;
    }
    None
}

/// The font file that `fc-match` printed, if it found one.
pub fn matched_font(success: bool, stdout: &str) -> (r: Option<String>)
    ensures
        r is Some <==> success && crate::text::trim(stdout@).len() > 0,
        r matches Some(s) ==> s@ == crate::text::trim(stdout@),
{
    crate::gif_recorder::slurp_region(success, stdout)
}

/// The encoder's arguments.
pub open spec fn encoding(quality: GifQuality) -> Seq<Seq<char>> {
    seq![
        "-c:v"@,
        "libx264"@,
        "-pix_fmt"@,
        "yuv420p"@,
        "-preset"@,
        "veryfast"@,
        "-crf"@,
        crate::text::dec(crate::gif_recorder::crf(quality) as nat),
        "-movflags"@,
        "+faststart"@,
        "-an"@,
    ]
}

pub fn encode_args(quality: GifQuality) -> (r: Vec<String>)
    ensures
        crate::text::texts(r@) == encoding(quality),
{
    let factor = dec_text(quality_crf(quality) as u64);
    let mut r: Vec<String> = Vec::new();
    push_text(&mut r, "-c:v");
    push_text(&mut r, "libx264");
    push_text(&mut r, "-pix_fmt");
    push_text(&mut r, "yuv420p");
    push_text(&mut r, "-preset");
    push_text(&mut r, "veryfast");
    push_text(&mut r, "-crf");
    push_text(&mut r, factor.as_str());
    push_text(&mut r, "-movflags");
    push_text(&mut r, "+faststart");
    push_text(&mut r, "-an");
    assert(crate::text::texts(r@) =~= encoding(quality));
    r
}

/// The arguments that name the first `n` inputs.
pub open spec fn input_args(inputs: Seq<InputView>, n: int) -> Seq<Seq<char>>
    decreases n,
{
    if n <= 0 {
        Seq::empty()
    } else {
        input_args(inputs, n - 1) + inputs[n - 1].pre_args + seq!["-i"@, inputs[n - 1].path]
    }
}

/// The arguments of the pass that renders a scene: its inputs, its graph, the stream that
/// is written, the length and the encoder.
pub open spec fn composite_pass(
    inputs: Seq<InputView>,
    filter: Seq<char>,
    map: Seq<char>,
    duration: u64,
    encode: Seq<Seq<char>>,
    out: Seq<char>,
) -> Seq<Seq<char>> {
    seq!["-y"@, "-loglevel"@, "error"@] + input_args(inputs, inputs.len() as int) + seq![
        "-filter_complex"@,
        filter,
        "-map"@,
        "["@ + map + "]"@,
        "-t"@,
        crate::text::thousandths(duration as nat),
    ] + encode + seq![out]
}

fn push_texts(list: &mut Vec<String>, more: &Vec<String>)
    ensures
        crate::text::texts(final(list)@) == crate::text::texts(old(list)@) + crate::text::texts(
            more@,
        ),
{
    let ghost before = crate::text::texts(list@);
    let mut i: usize = 0;
    assert(crate::text::texts(list@) =~= before + crate::text::texts(more@).take(0));
    while i < more.len()
        invariant
            i <= more@.len(),
            crate::text::texts(list@) == before + crate::text::texts(more@).take(i as int),
        decreases more@.len() - i,
    {
        push_text(list, more[i].as_str());
        i += 1;
        assert(crate::text::texts(list@) =~= before + crate::text::texts(more@).take(i as int));
    }
    assert(crate::text::texts(more@).take(i as int) =~= crate::text::texts(more@));
}

pub fn composite_args(
    inputs: &Vec<InputSpec>,
    filter: &str,
    map: &str,
    duration: u64,
    encode: &Vec<String>,
    out: &str,
) -> (r: Vec<String>)
    ensures
        crate::text::texts(r@) == composite_pass(
            input_views(inputs@),
            filter@,
            map@,
            duration,
            crate::text::texts(encode@),
            out@,
        ),
{
    let ghost views = input_views(inputs@);
    let ghost head = seq!["-y"@, "-loglevel"@, "error"@];
    let mut r: Vec<String> = Vec::new();
    push_text(&mut r, "-y");
    push_text(&mut r, "-loglevel");
    push_text(&mut r, "error");
    assert(crate::text::texts(r@) =~= head + input_args(views, 0));
    let mut i: usize = 0;
    while i < inputs.len()
        invariant
            i <= inputs@.len(),
            views == input_views(inputs@),
            crate::text::texts(r@) == head + input_args(views, i as int),
        decreases inputs@.len() - i,
    {
        push_texts(&mut r, &inputs[i].pre_args);
        push_text(&mut r, "-i");
        push_text(&mut r, inputs[i].path.as_str());
        i += 1;
        assert(views[i - 1] == inputs@[i - 1]@);
        assert(crate::text::texts(r@) =~= head + input_args(views, i as int));
    }
    let ghost before = crate::text::texts(r@);
    let mut stream = "[".to_owned();
    stream.append(map);
    stream.append("]");
    let mut length = String::new();
    push_thousandths(&mut length, duration);
    assert(length@ =~= crate::text::thousandths(duration as nat));
    push_text(&mut r, "-filter_complex");
    push_text(&mut r, filter);
    push_text(&mut r, "-map");
    push_text(&mut r, stream.as_str());
    push_text(&mut r, "-t");
    push_text(&mut r, length.as_str());
    assert(crate::text::texts(r@) =~= before + seq![
        "-filter_complex"@,
        filter@,
        "-map"@,
        "["@ + map@ + "]"@,
        "-t"@,
        crate::text::thousandths(duration as nat),
    ]);
    push_texts(&mut r, encode);
    push_text(&mut r, out);
    assert(crate::text::texts(r@) =~= composite_pass(
        views,
        filter@,
        map@,
        duration,
        crate::text::texts(encode@),
        out@,
    ));
    r
}

// ───────────────────────────── rendering ─────────────────────────────
/// A stage of rendering a scene.
#[derive(Debug, Clone, Copy, PartialEq, Eq, Structural)]
pub enum Stage {
    /// The layers are flattened to a video.
    Composite,
    /// The video's palette is collected.
    Palettegen,
    /// The palette is applied to the video.
    Paletteuse,
}

impl Stage {
    pub open spec fn title(self) -> Seq<char> {
        match self {
            Stage::Composite => "composite"@,
            Stage::Palettegen => "palettegen"@,
            Stage::Paletteuse => "paletteuse"@,
        }
    }

    /// The stage as an error names it.
    pub fn name(self) -> (r: &'static str)
        ensures
            r@ == self.title(),
    {
        match self {
            Stage::Composite => "composite",
            Stage::Palettegen => "palettegen",
            Stage::Paletteuse => "paletteuse",
        }
    }
}

/// One run of ffmpeg. Its last argument is the file that it writes.
#[derive(Debug)]
pub struct Pass {
    pub stage: Stage,
    pub args: Vec<String>,
}

pub struct PassView {
    pub stage: Stage,
    pub args: Seq<Seq<char>>,
}

impl View for Pass {
    type V = PassView;

    open spec fn view(&self) -> PassView {
        PassView { stage: self.stage, args: crate::text::texts(self.args@) }
    }
}

pub open spec fn pass_views(v: Seq<Pass>) -> Seq<PassView> {
    v.map_values(|p: Pass| p@)
}

/// The flattened video between the passes of a GIF.
pub open spec fn work_video(dir: Seq<char>, stamp: Seq<char>, system: System) -> Seq<char> {
    crate::paths::joined_path(dir, "jot-compose-"@ + stamp + ".mp4"@, system)
}

/// The palette between the passes of a GIF.
pub open spec fn work_palette(dir: Seq<char>, stamp: Seq<char>, system: System) -> Seq<char> {
    crate::paths::joined_path(dir, "jot-compose-"@ + stamp + "-palette.png"@, system)
}

/// The pass that flattens a scene to the file `out`.
pub open spec fn flattening(
    scene: Scene,
    font: Option<Seq<char>>,
    quality: GifQuality,
    out: Seq<char>,
) -> PassView {
    PassView {
        stage: Stage::Composite,
        args: composite_pass(
            composite_inputs(scene.layers@, scene.layers@.len() as int),
            composite_filter(scene, font),
            "comp"@,
            scene.canvas.duration,
            encoding(quality),
            out,
        ),
    }
}

/// The passes that render a scene. A video takes one; a GIF is made from a flattened video
/// in two more, one for its palette and one that applies it.
pub open spec fn rendering(
    scene: Scene,
    font: Option<Seq<char>>,
    kind: OutputKind,
    quality: GifQuality,
    dir: Seq<char>,
    stamp: Seq<char>,
    out: Seq<char>,
    system: System,
) -> Seq<PassView> {
    match kind {
        OutputKind::Mp4 => seq![flattening(scene, font, quality, out)],
        OutputKind::Gif => {
            let video = work_video(dir, stamp, system);
            let palette = work_palette(dir, stamp, system);
            seq![
                flattening(scene, font, quality, video),
                PassView {
                    stage: Stage::Palettegen,
                    args: crate::gif_recorder::palettegen(
                        video,
                        palette,
                        scene.canvas.fps,
                        ""@,
                        quality,
                    ),
                },
                PassView {
                    stage: Stage::Paletteuse,
                    args: crate::gif_recorder::paletteuse(
                        video,
                        palette,
                        out,
                        scene.canvas.fps,
                        ""@,
                        quality,
                    ),
                },
            ]
        },
    }
}

/// The files that rendering leaves behind and that are removed, whether it succeeds or not.
pub open spec fn leftovers(
    kind: OutputKind,
    dir: Seq<char>,
    stamp: Seq<char>,
    system: System,
) -> Seq<Seq<char>> {
    match kind {
        OutputKind::Mp4 => Seq::empty(),
        OutputKind::Gif => seq![work_video(dir, stamp, system), work_palette(dir, stamp, system)],
    }
}

fn flatten_pass(
    scene: &Scene,
    font: &Option<String>,
    quality: GifQuality,
    out: &str,
) -> (r: Pass)
    ensures
        r@ == flattening(*scene, optional_text(*font), quality, out@),
{
    let (inputs, filter, map) = build_composite_filter(scene, font);
    let encode = encode_args(quality);
    Pass {
        stage: Stage::Composite,
        args: composite_args(
            &inputs,
            filter.as_str(),
            map.as_str(),
            scene.canvas.duration,
            &encode,
            out,
        ),
    }
}

/// What renders a scene to the file `out`: the passes, each of which runs only if the one
/// before it succeeded, and the files in `dir` that are removed in the end. `font` is the
/// file of the scene's font, where it is known.
pub fn compose(
    scene: &Scene,
    font: &Option<String>,
    kind: OutputKind,
    quality: GifQuality,
    dir: &str,
    stamp: &str,
    out: &str,
    system: System,
) -> (r: (Vec<Pass>, Vec<String>))
    ensures
        pass_views(r.0@) == rendering(
            *scene,
            optional_text(*font),
            kind,
            quality,
            dir@,
            stamp@,
            out@,
            system,
        ),
        crate::text::texts(r.1@) == leftovers(kind, dir@, stamp@, system),
{
    let ghost file = optional_text(*font);
    let mut passes: Vec<Pass> = Vec::new();
    let mut scratch: Vec<String> = Vec::new();
    match kind {
        OutputKind::Mp4 => {
            passes.push(flatten_pass(scene, font, quality, out));
        },
        OutputKind::Gif => {
            let (video, palette) = work_files(dir, stamp, system);
            let fps: u32 = scene.canvas.fps;
            passes.push(flatten_pass(scene, font, quality, video.as_str()));
            passes.push(
                Pass {
                    stage: Stage::Palettegen,
                    args: palettegen_args(video.as_str(), palette.as_str(), fps, "", quality),
                },
            );
            passes.push(
                Pass {
                    stage: Stage::Paletteuse,
                    args: paletteuse_args(video.as_str(), palette.as_str(), out, fps, "", quality),
                },
            );
            push_text(&mut scratch, video.as_str());
            push_text(&mut scratch, palette.as_str());
        },
    }
    assert(pass_views(passes@) =~= rendering(
        *scene,
        file,
        kind,
        quality,
        dir@,
        stamp@,
        out@,
        system,
    ));
    assert(crate::text::texts(scratch@) =~= leftovers(kind, dir@, stamp@, system));
    (passes, scratch)
}

// ───────────────────────────── laws ─────────────────────────────
/// Each clip and each image brings one input, and nothing else does.
pub proof fn law_one_input_per_media_layer(layers: Seq<Layer>, n: int)
    requires
        0 <= n <= layers.len(),
    ensures
        composite_inputs(layers, n).len() == media_before(layers, n),
    decreases n,
{
    if n > 0 {
        law_one_input_per_media_layer(layers, n - 1);
    }
}

/// The input that a media layer's statement names is its own.
pub proof fn law_inputs_are_numbered_in_order(layers: Seq<Layer>, n: int, li: int)
    requires
        0 <= li < n <= layers.len(),
        is_media(layers[li].kind),
    ensures
        media_before(layers, li) < composite_inputs(layers, n).len(),
        composite_inputs(layers, n)[media_before(layers, li) as int] == layer_input(
            layers[li].kind,
        ),
    decreases n,
{
    law_one_input_per_media_layer(layers, n - 1);
    if li < n - 1 {
        law_inputs_are_numbered_in_order(layers, n - 1, li);
    }
}

proof fn lemma_join_starts(parts: Seq<Seq<char>>, sep: Seq<char>)
    requires
        parts.len() > 0,
    ensures
        crate::text::has_prefix(crate::text::join(parts, sep), parts[0]),
    decreases parts.len(),
{
    let all = crate::text::join(parts, sep);
    let n = parts[0].len() as int;
    if parts.len() > 1 {
        lemma_join_starts(parts.drop_last(), sep);
        let most = crate::text::join(parts.drop_last(), sep);
        assert(all.subrange(0, n) =~= most.subrange(0, n));
    } else {
        assert(all.subrange(0, n) =~= parts[0]);
    }
}

proof fn lemma_statements_start(scene: Scene, font: Option<Seq<char>>, n: int)
    ensures
        statements(scene, font, n).len() > 0,
        statements(scene, font, n)[0] == base_text(scene.canvas),
    decreases n,
{
    if n > 0 {
        lemma_statements_start(scene, font, n - 1);
    }
}

/// Every graph starts with a canvas that has a duration. Without one the graph would never
/// end.
pub proof fn law_the_base_is_finite(scene: Scene, font: Option<Seq<char>>)
    ensures
        crate::text::has_prefix(composite_filter(scene, font), base_text(scene.canvas)),
        crate::text::has_suffix(
            base_text(scene.canvas),
            ":d="@ + crate::text::thousandths(scene.canvas.duration as nat) + "[base]"@,
        ),
{
    let n = scene.layers@.len() as int;
    lemma_statements_start(scene, font, n);
    let all = statements(scene, font, n).push("["@ + picture_below(n) + "]format=rgb24[comp]"@);
    lemma_join_starts(all, ";"@);
    let tail = ":d="@ + crate::text::thousandths(scene.canvas.duration as nat) + "[base]"@;
    let base = base_text(scene.canvas);
    assert(base.skip(base.len() - tail.len()) =~= tail);
}

/// A trimmed clip is cut, and never looped by its input.
pub proof fn law_trimmed_clips_are_cut(kind: LayerKind)
    requires
        kind matches LayerKind::Clip { trim_start, trim_end, .. } && (trim_start > 0
            || trim_end is Some),
    ensures
        layer_input(kind).pre_args.len() == 0,
        cut_text(kind).len() > 0,
{
    reveal_strlit("trim=start=");
    assert(cut_text(kind)[0] == 't');
}

/// A clip that loops repeats until the scene ends: its input loops for ever or, where it is
/// trimmed, the part that is shown does.
pub proof fn law_looping_clips_repeat(kind: LayerKind, duration: u64)
    requires
        kind matches LayerKind::Clip { loop_mode: LoopMode::Loop, .. },
    ensures
        cut_text(kind).len() == 0 ==> layer_input(kind).pre_args == seq!["-stream_loop"@, "-1"@]
            && fill_text(kind, duration).len() == 0,
        cut_text(kind).len() > 0 ==> layer_input(kind).pre_args.len() == 0 && fill_text(
            kind,
            duration,
        ) == ",loop=loop=-1:size=32767:start=0"@,
{
    reveal_strlit("trim=start=");
    if let LayerKind::Clip { trim_start, trim_end, .. } = kind {
        if trim_start > 0 || trim_end is Some {
            assert(cut_text(kind)[0] == 't');
        }
    }
}

/// Every pass but the last writes a file that is removed in the end, and the last one
/// writes the output: nothing else stays on disk.
pub proof fn law_only_the_output_stays(
    scene: Scene,
    font: Option<Seq<char>>,
    kind: OutputKind,
    quality: GifQuality,
    dir: Seq<char>,
    stamp: Seq<char>,
    out: Seq<char>,
    system: System,
    i: int,
)
    requires
        0 <= i < rendering(scene, font, kind, quality, dir, stamp, out, system).len(),
    ensures
        ({
            let passes = rendering(scene, font, kind, quality, dir, stamp, out, system);
            if i == passes.len() - 1 {
                passes[i].args.last() == out
            } else {
                leftovers(kind, dir, stamp, system).contains(passes[i].args.last())
            }
        }),
{
    let kept = leftovers(kind, dir, stamp, system);
    if kind == OutputKind::Gif {
        assert(kept[0] == work_video(dir, stamp, system));
        assert(kept[1] == work_palette(dir, stamp, system));
    }
}

/// Whether a clip drawn at `w` by `h` pixels keeps the shape of its source, but for the
/// rounding to an even number of pixels on the side that follows from the other: that side
/// is at most half a pixel longer and one and a half pixels shorter than the shape asks for,
/// or it is the least one, two pixels.
pub open spec fn keeps_shape(w: int, h: int, source: MediaInfo, width_follows: bool) -> bool {
    if width_follows {
        w == 2 || -(source.height as int) <= 2 * (source.width * h - w * source.height) <= 3
            * source.height
    } else {
        h == 2 || -(source.width as int) <= 2 * (source.height * w - h * source.width) <= 3
            * source.width
    }
}

proof fn lemma_scaled_near(side: u32, other: u32, size: u32)
    requires
        other > 0,
        scaled(side, other, size) < u32::MAX,
    ensures
        ({
            let n = evened(scaled(side, other, size));
            n == 2 || -(other as int) <= 2 * (side * size - n * other) <= 3 * other
        }),
{
    let product = side * size;
    let top = 2 * product + other;
    let pixels = scaled(side, other, size);
    let n = evened(pixels);
    vstd::arithmetic::div_mod::lemma_fundamental_div_mod(top as int, (2 * other) as int);
    assert(pixels == top / (2 * other));
    let rest = top % (2 * other);
    assert(0 <= rest < 2 * other) by {
        vstd::arithmetic::div_mod::lemma_mod_bound(top as int, (2 * other) as int);
    }
    assert(top == (2 * other) * pixels + rest);
    assert((2 * other) * pixels == 2 * (pixels * other)) by (nonlinear_arith);
    if n != 2 {
        assert(n == pixels || n == pixels - 1);
        assert((pixels - 1) * other == pixels * other - other) by (nonlinear_arith);
    }
}

/// In both stackings each clip keeps the shape of its own source: side by side both are as
/// high as asked for and as wide as that makes them, one above the other as wide as asked for
/// and as high as that makes them.
pub proof fn law_clips_keep_their_shape(a: MediaInfo, b: MediaInfo, o: BeforeAfterOptions)
    requires
        layout_fits(a, b, o),
        a.width > 0 && a.height > 0 && b.width > 0 && b.height > 0,
    ensures
        ({
            let l = layout(a, b, o);
            let beside = o.stack == Stack::Horizontal;
            &&& keeps_shape(l.aw, l.ah, a, beside)
            &&& keeps_shape(l.bw, l.bh, b, beside)
            &&& beside ==> l.ah == l.bh
            &&& !beside ==> l.aw == l.bw
            &&& o.target_size >= 2 ==> {
                let given = if beside {
                    l.ah
                } else {
                    l.aw
                };
                given % 2 == 0 && o.target_size - 1 <= given <= o.target_size
            }
        }),
{
    let size = evened(o.target_size as int) as u32;
    match o.stack {
        Stack::Horizontal => {
            lemma_evened(scaled(a.width, a.height, size));
            lemma_evened(scaled(b.width, b.height, size));
            lemma_scaled_near(a.width, a.height, size);
            lemma_scaled_near(b.width, b.height, size);
        },
        Stack::Vertical => {
            lemma_evened(scaled(a.height, a.width, size));
            lemma_evened(scaled(b.height, b.width, size));
            lemma_scaled_near(a.height, a.width, size);
            lemma_scaled_near(b.height, b.width, size);
        },
    }
}

/// The size of a clip depends on its own source only, and swapping the two sources swaps
/// their sizes.
pub proof fn law_clip_sizes_are_their_own(
    a: MediaInfo,
    b: MediaInfo,
    c: MediaInfo,
    o: BeforeAfterOptions,
)
    ensures
        layout(a, b, o).aw == layout(a, c, o).aw && layout(a, b, o).ah == layout(a, c, o).ah,
        layout(a, b, o).bw == layout(c, b, o).bw && layout(a, b, o).bh == layout(c, b, o).bh,
        layout(b, a, o).aw == layout(a, b, o).bw && layout(b, a, o).ah == layout(a, b, o).bh,
{
}

/// The parts of a comparison stand as close as the options say: the padding around, the gap
/// between the clips, each label right above its clip and as high as asked for. The canvas
/// ends with the padding, but for a pixel that makes it even.
pub proof fn law_comparisons_are_tight(a: MediaInfo, b: MediaInfo, o: BeforeAfterOptions)
    ensures
        ({
            let l = layout(a, b, o);
            let beside = o.stack == Stack::Horizontal;
            &&& l.label_h == (if o.labels is Some {
                o.label_height as int
            } else {
                0
            })
            &&& l.ax == o.padding && l.la_y == o.padding
            &&& l.ay == l.la_y + l.label_h && l.by == l.lb_y + l.label_h
            &&& if beside {
                &&& l.bx - (l.ax + l.aw) == o.gap
                &&& l.by == l.ay
                &&& 0 <= l.bx + l.bw + o.padding - l.width <= 1
                &&& 0 <= l.ay + l.ah + o.padding - l.height <= 1
            } else {
                &&& l.lb_y - (l.ay + l.ah) == o.gap
                &&& l.bx == l.ax
                &&& 0 <= l.ax + l.aw + o.padding - l.width <= 1
                &&& 0 <= l.by + l.bh + o.padding - l.height <= 1
            }
        }),
{
    let size = evened(o.target_size as int) as u32;
    lemma_evened(o.target_size as int);
    lemma_evened(scaled(a.width, a.height, size));
    lemma_evened(scaled(b.width, b.height, size));
    lemma_evened(scaled(a.height, a.width, size));
    lemma_evened(scaled(b.height, b.width, size));
}

/// Whether `p` stands somewhere in `s`.
pub open spec fn holds_text(s: Seq<char>, p: Seq<char>) -> bool {
    exists|i: int| #[trigger] crate::text::stands_at(s, i, p)
}

proof fn lemma_more(x: Seq<char>, y: Seq<char>, p: Seq<char>)
    ensures
        crate::text::has_prefix(x, p) ==> crate::text::has_prefix(x + y, p),
        holds_text(x, p) ==> holds_text(x + y, p),
        crate::text::has_suffix(x + y, y),
        crate::text::has_prefix(x, x),
{
    assert(x.subrange(0, x.len() as int) =~= x);
    if crate::text::has_prefix(x, p) {
        assert((x + y).subrange(0, p.len() as int) =~= x.subrange(0, p.len() as int));
    }
    if holds_text(x, p) {
        let i = choose|i: int| #[trigger] crate::text::stands_at(x, i, p);
        assert((x + y).subrange(i, i + p.len()) =~= x.subrange(i, i + p.len()));
        assert(crate::text::stands_at(x + y, i, p));
    }
    assert((x + y).subrange((x + y).len() - y.len(), (x + y).len() as int) =~= y);
}

proof fn lemma_ends(x: Seq<char>, p: Seq<char>)
    ensures
        holds_text(x + p, p),
        crate::text::has_suffix(x + p, p),
{
    lemma_more(x, p, p);
    assert(crate::text::stands_at(x + p, (x + p).len() - p.len(), p));
}

proof fn lemma_three(x: Seq<char>, a: Seq<char>, b: Seq<char>, c: Seq<char>)
    ensures
        x + a + b + c == x + (a + b + c),
{
    assert(x + a + b + c =~= x + (a + b + c));
}

/// A clip or an image is read from its own input, scaled to its own size and laid over what
/// is below it at its own place; it is translucent only where its opacity says so.
pub proof fn law_media_are_drawn_where_they_stand(scene: Scene, font: Option<Seq<char>>, li: int)
    requires
        0 <= li < scene.layers@.len(),
        scene.layers@[li].kind is Clip || scene.layers@[li].kind is Image,
    ensures
        ({
            let layer = scene.layers@[li];
            let t = layer.transform;
            let made = layer_statements(scene, font, li);
            let below = if li == 0 {
                "base"@
            } else {
                "o"@ + crate::text::dec((li - 1) as nat)
            };
            let name = crate::text::dec(li as nat);
            &&& made.len() == 2
            &&& crate::text::has_prefix(
                made[0],
                "["@ + crate::text::dec(media_before(scene.layers@, li)) + ":v]"@,
            )
            &&& holds_text(
                made[0],
                ",scale="@ + crate::text::dec(t.w as nat) + ":"@ + crate::text::dec(t.h as nat)
                    + ":flags=lanczos,setsar=1,format=rgba"@,
            )
            &&& t.opacity < 999_000 ==> holds_text(
                made[0],
                ",colorchannelmixer=aa="@ + crate::text::thousandths(t.opacity as nat),
            )
            &&& crate::text::has_suffix(made[0], "[v"@ + name + "]"@)
            &&& crate::text::has_prefix(
                made[1],
                "["@ + below + "][v"@ + name + "]overlay="@ + crate::text::dec_int(t.x as int) + ":"@
                    + crate::text::dec_int(t.y as int),
            )
            &&& crate::text::has_suffix(made[1], "[o"@ + name + "]"@)
        }),
{
    let c = scene.canvas;
    let layer = scene.layers@[li];
    lemma_prepare(c, layer, li, media_before(scene.layers@, li));
    lemma_overlay(layer, li);
}

proof fn lemma_prepare(c: Canvas, layer: Layer, li: int, input: nat)
    ensures
        ({
            let t = layer.transform;
            let made = prepare_text(c, layer, li, input);
            &&& crate::text::has_prefix(made, "["@ + crate::text::dec(input) + ":v]"@)
            &&& holds_text(
                made,
                ",scale="@ + crate::text::dec(t.w as nat) + ":"@ + crate::text::dec(t.h as nat)
                    + ":flags=lanczos,setsar=1,format=rgba"@,
            )
            &&& holds_text(made, opacity_text(t.opacity))
            &&& crate::text::has_suffix(made, "[v"@ + crate::text::dec(li as nat) + "]"@)
        }),
{
    let t = layer.transform;
    let head = "["@ + crate::text::dec(input) + ":v]"@;
    let x1 = head + cut_text(layer.kind);
    let x2 = x1 + "fps="@;
    let x3 = x2 + crate::text::dec(at_least_one(c.fps) as nat);
    let w = crate::text::dec(t.w as nat);
    let h = crate::text::dec(t.h as nat);
    let tail = ":flags=lanczos,setsar=1,format=rgba"@;
    let x4 = x3 + ",scale="@ + w + ":"@ + h + tail;
    let size = ",scale="@ + w + ":"@ + h + tail;
    let aa = opacity_text(t.opacity);
    let x5 = x4 + aa;
    let fill = fill_text(layer.kind, c.duration);
    let x6 = x5 + fill;
    let points = setpts_text(layer.timing);
    let x7 = x6 + points;
    let name = crate::text::dec(li as nat);
    let made = x7 + "[v"@ + name + "]"@;
    assert(made == prepare_text(c, layer, li, input));
    lemma_more(head, cut_text(layer.kind), head);
    lemma_more(x1, "fps="@, head);
    lemma_more(x2, crate::text::dec(at_least_one(c.fps) as nat), head);
    lemma_three(x3, ",scale="@, w, ":"@);
    lemma_three(x3, ",scale="@ + w + ":"@, h, tail);
    assert(x4 == x3 + size);
    lemma_more(x3, size, head);
    lemma_ends(x3, size);
    lemma_more(x4, aa, head);
    lemma_more(x4, aa, size);
    lemma_ends(x4, aa);
    lemma_more(x5, fill, head);
    lemma_more(x5, fill, size);
    lemma_more(x5, fill, aa);
    lemma_more(x6, points, head);
    lemma_more(x6, points, size);
    lemma_more(x6, points, aa);
    let end = "[v"@ + name + "]"@;
    lemma_three(x7, "[v"@, name, "]"@);
    assert(made == x7 + end);
    lemma_more(x7, end, head);
    lemma_more(x7, end, size);
    lemma_more(x7, end, aa);
}

proof fn lemma_overlay(layer: Layer, li: int)
    ensures
        ({
            let t = layer.transform;
            let made = overlay_text(layer, li);
            let name = crate::text::dec(li as nat);
            &&& crate::text::has_prefix(
                made,
                "["@ + picture_below(li) + "][v"@ + name + "]overlay="@ + crate::text::dec_int(
                    t.x as int,
                ) + ":"@ + crate::text::dec_int(t.y as int),
            )
            &&& crate::text::has_suffix(made, "[o"@ + name + "]"@)
        }),
{
    let t = layer.transform;
    let name = crate::text::dec(li as nat);
    let front = "["@ + picture_below(li) + "][v"@ + name + "]overlay="@ + crate::text::dec_int(
        t.x as int,
    ) + ":"@ + crate::text::dec_int(t.y as int);
    let x1 = front + eof_text(layer.kind);
    let x2 = x1 + enable_text(layer.timing);
    let made = x2 + "[o"@ + name + "]"@;
    assert(made == overlay_text(layer, li));
    let end = "[o"@ + name + "]"@;
    lemma_three(x2, "[o"@, name, "]"@);
    lemma_more(front, eof_text(layer.kind), front);
    lemma_more(x1, enable_text(layer.timing), front);
    lemma_more(x2, end, front);
}

/// A text stands in the middle of its own box, in its own size and colour, and a rectangle
/// fills its own box in its own colour; both are drawn on what is below them.
pub proof fn law_drawings_stand_in_their_boxes(scene: Scene, font: Option<Seq<char>>, li: int)
    requires
        0 <= li < scene.layers@.len(),
        scene.layers@[li].kind is Text || scene.layers@[li].kind is Rect,
    ensures
        ({
            let layer = scene.layers@[li];
            let t = layer.transform;
            let made = layer_statements(scene, font, li);
            let below = if li == 0 {
                "base"@
            } else {
                "o"@ + crate::text::dec((li - 1) as nat)
            };
            &&& made.len() == 1
            &&& crate::text::has_prefix(made[0], "["@ + below + "]"@)
            &&& crate::text::has_suffix(made[0], "[o"@ + crate::text::dec(li as nat) + "]"@)
            &&& layer.kind matches LayerKind::Text { content, size, color, .. } ==> {
                &&& holds_text(
                    made[0],
                    ":x="@ + crate::text::dec_int(t.x as int) + "+("@ + crate::text::dec(t.w as nat)
                        + "-text_w)/2:y="@ + crate::text::dec_int(t.y as int) + "+("@
                        + crate::text::dec(t.h as nat) + "-text_h)/2"@,
                )
                &&& holds_text(
                    made[0],
                    "text='"@ + escaped_drawtext(content@) + "':fontsize="@ + crate::text::dec(
                        size as nat,
                    ) + ":fontcolor="@ + ffmpeg_color(color@),
                )
            }
            &&& layer.kind matches LayerKind::Rect { color } ==> holds_text(
                made[0],
                "drawbox=x="@ + crate::text::dec_int(t.x as int) + ":y="@ + crate::text::dec_int(
                    t.y as int,
                ) + ":w="@ + crate::text::dec(t.w as nat) + ":h="@ + crate::text::dec(t.h as nat)
                    + ":color="@ + ffmpeg_color(color@) + ":t=fill"@,
            )
        }),
{
    let layer = scene.layers@[li];
    let t = layer.transform;
    let made = layer_statements(scene, font, li);
    let head = "["@ + picture_below(li) + "]"@;
    let name = crate::text::dec(li as nat);
    let end = "[o"@ + name + "]"@;
    let timing = enable_text(layer.timing);
    match layer.kind {
        LayerKind::Text { content, font: family, size, color, box_color } => {
            let drawn = drawtext_text(
                content@,
                family@,
                size,
                color@,
                optional_text(box_color),
                t,
                font,
            );
            let words = "text='"@ + escaped_drawtext(content@) + "':fontsize="@ + crate::text::dec(
                size as nat,
            ) + ":fontcolor="@ + ffmpeg_color(color@);
            let place = ":x="@ + crate::text::dec_int(t.x as int) + "+("@ + crate::text::dec(
                t.w as nat,
            ) + "-text_w)/2:y="@ + crate::text::dec_int(t.y as int) + "+("@ + crate::text::dec(
                t.h as nat,
            ) + "-text_h)/2"@;
            lemma_drawtext(
                content@,
                family@,
                size,
                color@,
                optional_text(box_color),
                t,
                font,
            );
            let x = head + drawn + timing;
            assert(made[0] == x + "[o"@ + name + "]"@);
            lemma_three(x, "[o"@, name, "]"@);
            lemma_more(head, drawn, head);
            lemma_more(head + drawn, timing, head);
            lemma_more(x, end, head);
            lemma_within(head, drawn, words);
            lemma_within(head, drawn, place);
            lemma_more(head + drawn, timing, words);
            lemma_more(head + drawn, timing, place);
            lemma_more(x, end, words);
            lemma_more(x, end, place);
        },
        LayerKind::Rect { color } => {
            let tail = ":t=fill"@;
            let drawn = "drawbox=x="@ + crate::text::dec_int(t.x as int) + ":y="@
                + crate::text::dec_int(t.y as int) + ":w="@ + crate::text::dec(t.w as nat) + ":h="@
                + crate::text::dec(t.h as nat) + ":color="@ + ffmpeg_color(color@) + tail;
            lemma_drawbox(li, t, color@);
            let x = head + drawn + timing;
            assert(made[0] == x + "[o"@ + name + "]"@);
            lemma_three(x, "[o"@, name, "]"@);
            lemma_more(head, drawn, head);
            lemma_ends(head, drawn);
            lemma_more(head + drawn, timing, head);
            lemma_more(head + drawn, timing, drawn);
            lemma_more(x, end, head);
            lemma_more(x, end, drawn);
        },
        _ => {},
    }
}

proof fn lemma_within(a: Seq<char>, x: Seq<char>, p: Seq<char>)
    ensures
        holds_text(x, p) ==> holds_text(a + x, p),
{
    if holds_text(x, p) {
        let i = choose|i: int| #[trigger] crate::text::stands_at(x, i, p);
        let k = a.len() + i;
        assert((a + x).subrange(k, k + p.len()) =~= x.subrange(i, i + p.len()));
        assert(crate::text::stands_at(a + x, k, p));
    }
}

proof fn lemma_two(x: Seq<char>, a: Seq<char>, b: Seq<char>)
    ensures
        x + a + b == x + (a + b),
{
    assert(x + a + b =~= x + (a + b));
}

proof fn lemma_drawtext(
    content: Seq<char>,
    family: Seq<char>,
    size: u32,
    color: Seq<char>,
    box_color: Option<Seq<char>>,
    t: Transform,
    file: Option<Seq<char>>,
)
    ensures
        ({
            let made = drawtext_text(content, family, size, color, box_color, t, file);
            &&& holds_text(
                made,
                "text='"@ + escaped_drawtext(content) + "':fontsize="@ + crate::text::dec(
                    size as nat,
                ) + ":fontcolor="@ + ffmpeg_color(color),
            )
            &&& holds_text(
                made,
                ":x="@ + crate::text::dec_int(t.x as int) + "+("@ + crate::text::dec(t.w as nat)
                    + "-text_w)/2:y="@ + crate::text::dec_int(t.y as int) + "+("@
                    + crate::text::dec(t.h as nat) + "-text_h)/2"@,
            )
        }),
{
    let font = match file {
        Some(p) => "fontfile='"@ + p + "':"@,
        None => "font='"@ + family + "':"@,
    };
    let boxed = match box_color {
        Some(c) => ":box=1:boxcolor="@ + ffmpeg_color(c) + ":boxborderw=10"@,
        None => Seq::empty(),
    };
    let x = "drawtext="@ + font;
    let a = escaped_drawtext(content);
    let b = crate::text::dec(size as nat);
    let c = ffmpeg_color(color);
    let words = "text='"@ + a + "':fontsize="@ + b + ":fontcolor="@ + c;
    lemma_three(x, "text='"@, a, "':fontsize="@);
    lemma_three(x, "text='"@ + a + "':fontsize="@, b, ":fontcolor="@);
    lemma_two(x, "text='"@ + a + "':fontsize="@ + b + ":fontcolor="@, c);
    let y = x + words;
    assert(y == x + "text='"@ + a + "':fontsize="@ + b + ":fontcolor="@ + c);
    lemma_ends(x, words);
    let (p, q) = (crate::text::dec_int(t.x as int), crate::text::dec_int(t.y as int));
    let (w, h) = (crate::text::dec(t.w as nat), crate::text::dec(t.h as nat));
    let u = ":x="@ + p + "+("@;
    let v = u + w + "-text_w)/2:y="@;
    let z = v + q + "+("@;
    let place = z + h + "-text_h)/2"@;
    lemma_three(y, ":x="@, p, "+("@);
    lemma_three(y, u, w, "-text_w)/2:y="@);
    lemma_three(y, v, q, "+("@);
    lemma_three(y, z, h, "-text_h)/2"@);
    let made = drawtext_text(content, family, size, color, box_color, t, file);
    assert(made == y + place + boxed);
    lemma_ends(y, place);
    lemma_more(y, place, words);
    lemma_more(y + place, boxed, words);
    lemma_more(y + place, boxed, place);
}

proof fn lemma_drawbox(li: int, t: Transform, color: Seq<char>)
    ensures
        "["@ + picture_below(li) + "]drawbox=x="@ + crate::text::dec_int(t.x as int) + ":y="@
            + crate::text::dec_int(t.y as int) + ":w="@ + crate::text::dec(t.w as nat) + ":h="@
            + crate::text::dec(t.h as nat) + ":color="@ + ffmpeg_color(color) + ":t=fill"@ == "["@
            + picture_below(li) + "]"@ + ("drawbox=x="@ + crate::text::dec_int(t.x as int) + ":y="@
            + crate::text::dec_int(t.y as int) + ":w="@ + crate::text::dec(t.w as nat) + ":h="@
            + crate::text::dec(t.h as nat) + ":color="@ + ffmpeg_color(color) + ":t=fill"@),
{
    reveal_strlit("]");
    reveal_strlit("drawbox=x=");
    reveal_strlit("]drawbox=x=");
    assert("]drawbox=x="@ =~= "]"@ + "drawbox=x="@);
    let head = "["@ + picture_below(li);
    let x = head + "]"@;
    lemma_two(head, "]"@, "drawbox=x="@);
    let (a, b) = (crate::text::dec_int(t.x as int), crate::text::dec_int(t.y as int));
    let (w, h) = (crate::text::dec(t.w as nat), crate::text::dec(t.h as nat));
    let c = ffmpeg_color(color);
    let p = "drawbox=x="@ + a + ":y="@;
    let q = p + b + ":w="@;
    let r = q + w + ":h="@;
    let s = r + h + ":color="@;
    lemma_three(x, "drawbox=x="@, a, ":y="@);
    lemma_three(x, p, b, ":w="@);
    lemma_three(x, q, w, ":h="@);
    lemma_three(x, r, h, ":color="@);
    lemma_three(x, s, c, ":t=fill"@);
}

/// When a layer is shown: from its start on, and until its own time is over where it has one.
/// Its clock is moved to its start.
pub proof fn law_layers_appear_in_their_time(t: Timing)
    ensures
        t.start == 0 && t.duration is None ==> enable_text(t).len() == 0,
        t.start > 0 && t.duration is None ==> enable_text(t) == ":enable='gte(t,"@
            + crate::text::thousandths(t.start as nat) + ")'"@,
        t.duration matches Some(d) ==> t.start + d <= u64::MAX ==> enable_text(t)
            == ":enable='between(t,"@ + crate::text::thousandths(t.start as nat) + ","@
            + crate::text::thousandths((t.start + d) as nat) + ")'"@,
        t.start == 0 ==> setpts_text(t) == ",setpts=PTS-STARTPTS"@,
        t.start > 0 ==> setpts_text(t) == ",setpts=PTS-STARTPTS+"@ + crate::text::thousandths(
            t.start as nat,
        ) + "/TB"@,
{
}

/// What a clip does when it is over: one that freezes is held for the scene's length, one that
/// plays once vanishes, and every other layer holds its last picture. A clip is cut at its
/// start and at its end.
pub proof fn law_clips_end_as_they_say(
    source: String,
    start: u64,
    end: Option<u64>,
    duration: u64,
    mode: LoopMode,
)
    ensures
        ({
            let k = LayerKind::Clip { source, loop_mode: mode, trim_start: start, trim_end: end };
            &&& mode == LoopMode::Freeze ==> fill_text(k, duration)
                == ",tpad=stop_mode=clone:stop_duration="@ + crate::text::thousandths(
                duration as nat,
            )
            &&& mode == LoopMode::Once ==> fill_text(k, duration).len() == 0
            &&& eof_text(k) == (if mode == LoopMode::Once {
                ":eof_action=pass"@
            } else {
                ":eof_action=repeat"@
            })
            &&& start == 0 && end is None ==> cut_text(k).len() == 0
            &&& end matches Some(e) ==> cut_text(k) == "trim=start="@ + crate::text::thousandths(
                start as nat,
            ) + ":end="@ + crate::text::thousandths(e as nat) + ",setpts=PTS-STARTPTS,"@
            &&& end is None && start > 0 ==> cut_text(k) == "trim=start="@
                + crate::text::thousandths(start as nat) + ",setpts=PTS-STARTPTS,"@
            &&& layer_input(k).path == source@
            &&& mode != LoopMode::Loop ==> layer_input(k).pre_args.len() == 0
        }),
{
}

/// The layers are drawn in their order, each on what is below it: every layer's statements
/// stand behind those of the layers below, and the last picture is what is written.
pub proof fn law_layers_are_drawn_in_order(scene: Scene, font: Option<Seq<char>>, n: int)
    requires
        0 <= n < scene.layers@.len(),
    ensures
        statements(scene, font, n + 1) == statements(scene, font, n) + layer_statements(
            scene,
            font,
            n,
        ),
        statements(scene, font, 0) == seq![base_text(scene.canvas)],
        picture_below(n + 1) == "o"@ + crate::text::dec(n as nat),
        picture_below(0) == "base"@,
{
}

/// The canvas has the scene's colour, size, frame rate and length.
pub proof fn law_the_canvas_is_the_scenes(c: Canvas)
    requires
        c.fps > 0,
    ensures
        base_text(c) == "color=c="@ + ffmpeg_color(c.background@) + ":s="@ + crate::text::dec(
            c.width as nat,
        ) + "x"@ + crate::text::dec(c.height as nat) + ":r="@ + crate::text::dec(c.fps as nat)
            + ":d="@ + crate::text::thousandths(c.duration as nat) + "[base]"@,
{
}

/// A colour in `#` notation keeps its digits, and a named one its name.
pub proof fn law_colors_keep_their_digits(digits: Seq<char>)
    ensures
        ffmpeg_color(seq!['#'] + digits) == seq!['0', 'x'] + digits,
        digits.len() > 0 && digits[0] != '#' ==> ffmpeg_color(digits) == digits,
{
    reveal_strlit("0x");
    assert((seq!['#'] + digits).skip(1) =~= digits);
    assert("0x"@ + digits =~= seq!['0', 'x'] + digits);
}

/// What a character becomes in a text that ffmpeg draws.
spec fn drawn_char(c: char) -> Seq<char> {
    if c == '\\' {
        seq!['\\', '\\']
    } else if c == '%' {
        seq!['\\', '%']
    } else if c == '\'' {
        seq!['\u{2019}']
    } else {
        seq![c]
    }
}

proof fn lemma_drawn_char(c: char)
    ensures
        escaped_drawtext(seq![c]) == drawn_char(c),
{
    reveal_strlit("\\\\");
    reveal_strlit("\\%");
    reveal_strlit("\u{2019}");
    let none = Seq::<char>::empty();
    let slash = seq!['\\'];
    crate::text::law_replacing_goes_piece_by_piece(none, none, '\\', "\\\\"@);
    crate::text::law_replacing_goes_piece_by_piece(slash, slash, '%', "\\%"@);
    crate::text::law_replacing_goes_piece_by_piece(slash, slash, '\'', "\u{2019}"@);
    crate::text::law_replacing_goes_piece_by_piece(slash, seq!['%'], '\'', "\u{2019}"@);
    assert("\\\\"@ =~= slash + slash);
    assert("\\%"@ =~= slash + seq!['%']);
    assert("\u{2019}"@ =~= seq!['\u{2019}']);
    let a = crate::text::replace_char(seq![c], '\\', "\\\\"@);
    let b = crate::text::replace_char(a, '%', "\\%"@);
    if c == '\\' {
        assert(a =~= slash + slash);
        assert(b =~= slash + slash);
        assert(escaped_drawtext(seq![c]) =~= drawn_char(c));
    } else {
        assert(a =~= seq![c]);
        if c == '%' {
            assert(b =~= slash + seq!['%']);
        } else {
            assert(b =~= seq![c]);
        }
        assert(escaped_drawtext(seq![c]) =~= drawn_char(c));
    }
}

/// The text that ffmpeg draws is the text that was given: escaped piece by piece, and undoing
/// the escapes gives it back, with an apostrophe for a single quote. So no single quote ends
/// it early.
pub proof fn law_drawn_texts_read_back(s: Seq<char>)
    ensures
        crate::export::unescaped(escaped_drawtext(s)) == s.map_values(
            |c: char|
                if c == '\'' {
                    '\u{2019}'
                } else {
                    c
                },
        ),
        !escaped_drawtext(s).contains('\''),
    decreases s.len(),
{
    let f = |c: char|
        if c == '\'' {
            '\u{2019}'
        } else {
            c
        };
    if s.len() == 0 {
        reveal_with_fuel(crate::text::replace_char, 2);
        assert(escaped_drawtext(s) =~= Seq::empty());
        assert(crate::export::unescaped(escaped_drawtext(s)) =~= s.map_values(f));
    } else {
        let c = s[0];
        let rest = s.skip(1);
        law_drawn_texts_read_back(rest);
        lemma_drawn_char(c);
        assert(s =~= seq![c] + rest);
        let one = seq![c];
        crate::text::law_replacing_goes_piece_by_piece(one, rest, '\\', "\\\\"@);
        let a = crate::text::replace_char(one, '\\', "\\\\"@);
        let b = crate::text::replace_char(rest, '\\', "\\\\"@);
        crate::text::law_replacing_goes_piece_by_piece(a, b, '%', "\\%"@);
        crate::text::law_replacing_goes_piece_by_piece(
            crate::text::replace_char(a, '%', "\\%"@),
            crate::text::replace_char(b, '%', "\\%"@),
            '\'',
            "\u{2019}"@,
        );
        let e = escaped_drawtext(s);
        let n = drawn_char(c).len() as int;
        assert(e == drawn_char(c) + escaped_drawtext(rest));
        assert(e.skip(n) =~= escaped_drawtext(rest));
        assert(crate::export::unescaped(e) =~= seq![f(c)] + crate::export::unescaped(
            escaped_drawtext(rest),
        ));
        assert(s.map_values(f) =~= seq![f(c)] + rest.map_values(f));
        if e.contains('\'') {
            let i = choose|i: int| 0 <= i < e.len() && e[i] == '\'';
            if i >= n {
                assert(escaped_drawtext(rest)[i - n] == '\'');
            }
        }
    }
}

/// A comparison shows the two files, the first one first, each as an image or as an uncut clip
/// by its ending, opaque and for the whole time; with labels each clip has its own, in the
/// style of the options. The scene has the options' background and frame rate.
pub proof fn law_comparisons_show_both_files(
    s: Scene,
    before: Seq<char>,
    after: Seq<char>,
    a: MediaInfo,
    b: MediaInfo,
    o: BeforeAfterOptions,
    system: System,
    i: int,
)
    requires
        compares(s, before, after, a, b, o, system),
        0 <= i < s.layers@.len(),
    ensures
        s.canvas.background@ == o.background@,
        o.fps > 0 ==> s.canvas.fps == o.fps,
        s.canvas.duration > 0,
        a.duration > 0 || b.duration > 0 ==> s.canvas.duration >= a.duration && s.canvas.duration
            >= b.duration && (s.canvas.duration == a.duration || s.canvas.duration == b.duration),
        s.layers@.len() == 2 || s.layers@.len() == 4,
        s.layers@.len() == 4 <==> o.labels is Some,
        s.layers@[i].transform.opacity == 1_000_000,
        s.layers@[i].transform.rotation == 0,
        s.layers@[i].timing.start == 0 && s.layers@[i].timing.duration is None,
        i < 2 ==> match s.layers@[i].kind {
            LayerKind::Clip { source, loop_mode, trim_start, trim_end } => loop_mode == o.sync
                && trim_start == 0 && trim_end is None && source@ == (if i == 0 {
                before
            } else {
                after
            }) && !names_image(source@, system),
            LayerKind::Image { source } => source@ == (if i == 0 {
                before
            } else {
                after
            }) && names_image(source@, system),
            _ => false,
        },
        i >= 2 ==> match s.layers@[i].kind {
            LayerKind::Text { content, font, size, color, box_color } => (o.labels matches Some(l)
                && content@ == (if i == 2 {
                l.0@
            } else {
                l.1@
            })) && font@ == o.label_font@ && size == o.label_size && color@ == o.label_color@
                && box_color is None,
            _ => false,
        },
{
}

/// Still images are known by their endings, in whatever case: `png`, `jpg`, `jpeg`, `webp`,
/// `bmp`, `avif` and `tiff`.
pub proof fn law_images_are_known_by_their_endings(path: Seq<char>, system: System)
    ensures
        names_image(path, system) <==> (crate::paths::file_name(path, system) matches Some(name) && (
        crate::paths::extension(name) matches Some(e) && ({
            let t = crate::text::ascii_lowercase(e);
            t == "png"@ || t == "jpg"@ || t == "jpeg"@ || t == "webp"@ || t == "bmp"@ || t
                == "avif"@ || t == "tiff"@
        }))),
{
    let all = image_extensions();
    assert(all[0] == "png"@ && all[1] == "jpg"@ && all[2] == "jpeg"@ && all[3] == "webp"@ && all[4]
        == "bmp"@ && all[5] == "avif"@ && all[6] == "tiff"@);
}

/// The video that a scene is flattened to is one that every player takes: H.264 in the usual
/// colours, without sound, as good as the quality says.
pub proof fn law_videos_are_encoded_for_every_player(q: GifQuality)
    ensures
        encoding(q) == seq![
            "-c:v"@,
            "libx264"@,
            "-pix_fmt"@,
            "yuv420p"@,
            "-preset"@,
            "veryfast"@,
            "-crf"@,
            crate::text::dec(
                match q {
                    GifQuality::High => 17,
                    GifQuality::Balanced => 22,
                    GifQuality::Compact => 28,
                },
            ),
            "-movflags"@,
            "+faststart"@,
            "-an"@,
        ],
{
}

/// A pass names each input behind an `-i`, with the arguments of its own in front, in order;
/// behind the inputs come the graph, the stream that is written and the scene's length, and
/// the output comes last.
pub proof fn law_passes_name_their_inputs(
    inputs: Seq<InputView>,
    n: int,
    filter: Seq<char>,
    map: Seq<char>,
    duration: u64,
    encode: Seq<Seq<char>>,
    out: Seq<char>,
)
    requires
        0 <= n < inputs.len(),
    ensures
        input_args(inputs, 0).len() == 0,
        input_args(inputs, n + 1) == input_args(inputs, n) + inputs[n].pre_args + seq![
            "-i"@,
            inputs[n].path,
        ],
        ({
            let args = composite_pass(inputs, filter, map, duration, encode, out);
            let k = 3 + input_args(inputs, inputs.len() as int).len() as int;
            &&& args.last() == out
            &&& args[0] == "-y"@
            &&& args.subrange(3, k) == input_args(inputs, inputs.len() as int)
            &&& args[k] == "-filter_complex"@ && args[k + 1] == filter
            &&& args[k + 2] == "-map"@ && args[k + 3] == "["@ + map + "]"@
            &&& args[k + 4] == "-t"@ && args[k + 5] == crate::text::thousandths(duration as nat)
            &&& args.subrange(k + 6, args.len() - 1) == encode
        }),
{
    let args = composite_pass(inputs, filter, map, duration, encode, out);
    let all = input_args(inputs, inputs.len() as int);
    let k = 3 + all.len() as int;
    assert(args.subrange(3, k) =~= all);
    assert(args.subrange(k + 6, args.len() - 1) =~= encode);
}

/// The font of a scene is that of its first text.
pub proof fn law_the_first_text_names_the_font(layers: Seq<Layer>, i: int, k: int)
    requires
        0 <= i <= k < layers.len(),
        forall|j: int| i <= j < k ==> !((#[trigger] layers[j]).kind is Text),
        layers[k].kind is Text,
    ensures
        first_family(layers, i) == Some(layers[k].kind->Text_font@),
    decreases k - i,
{
    if i < k {
        law_the_first_text_names_the_font(layers, i + 1, k);
    }
}

/// The two sides of a fraction stand around its first slash.
pub proof fn law_fractions_are_split_at_the_slash(a: Seq<char>, b: Seq<char>)
    requires
        !a.contains('/'),
    ensures
        fraction(a.push('/') + b) == Some((a, b)),
        fraction(a) is None,
{
    let s = a.push('/') + b;
    let n = a.len() as int;
    crate::text::lemma_find_char(s, '/', 0);
    crate::text::lemma_find_char(a, '/', 0);
    assert(s[n] == '/');
    assert forall|k: int| 0 <= k < n implies #[trigger] s[k] != '/' by {
        assert(s[k] == a[k]);
        assert(a.contains(a[k]));
    }
    match crate::text::find_char(s, '/', 0) {
        Some(k) => {
            assert(s[k] == '/');
            assert(k == n);
        },
        None => {
            assert(s[n] != '/');
        },
    }
    if let Some(k) = crate::text::find_char(a, '/', 0) {
        assert(a.contains(a[k]));
    }
    assert(s.take(n) =~= a);
    assert(s.skip(n + 1) =~= b);
}

/// The passes of a GIF hand on to each other: the scene is flattened to a video, the palette
/// is collected from that video, and the GIF is made from the same video and that palette. A
/// video is made in one pass. Each pass has its name.
pub proof fn law_passes_hand_on_to_each_other(
    scene: Scene,
    font: Option<Seq<char>>,
    quality: GifQuality,
    dir: Seq<char>,
    stamp: Seq<char>,
    out: Seq<char>,
    system: System,
)
    ensures
        ({
            let gif = rendering(scene, font, OutputKind::Gif, quality, dir, stamp, out, system);
            let video = rendering(scene, font, OutputKind::Mp4, quality, dir, stamp, out, system);
            &&& gif.len() == 3 && video.len() == 1
            &&& gif[0].stage is Composite && gif[1].stage is Palettegen && gif[2].stage is Paletteuse
            &&& video[0].stage is Composite && video[0].args.last() == out
            &&& gif[1].args[4] == gif[0].args.last()
            &&& gif[2].args[4] == gif[0].args.last()
            &&& gif[2].args[6] == gif[1].args.last()
            &&& gif[2].args.last() == out
        }),
{
    let inputs = composite_inputs(scene.layers@, scene.layers@.len() as int);
    let filter = composite_filter(scene, font);
    let video = work_video(dir, stamp, system);
    assert(flattening(scene, font, quality, video).args.last() == video);
    assert(flattening(scene, font, quality, out).args.last() == out);
}

/// The size of a file is that of its first stream, the width as its width and the height as
/// its height; without JSON, a stream, a width or a height it is said what is missing.
pub proof fn law_sizes_are_read(n: nat, w: nat, h: nat)
    requires
        n > 0,
        w <= u32::MAX,
        h <= u32::MAX,
    ensures
        ({
            let some = crate::json::JsonView::Array(n);
            let none = crate::json::JsonView::Missing;
            let width = crate::json::JsonView::Number(crate::text::dec(w));
            let height = crate::json::JsonView::Number(crate::text::dec(h));
            &&& stream_size(some, width, height) == Ok::<(int, int), ProbeError>((w as int, h as int))
            &&& stream_size(crate::json::JsonView::Invalid, width, height) == Err::<
                (int, int),
                ProbeError,
            >(ProbeError::NotJson)
            &&& stream_size(crate::json::JsonView::Array(0), width, height) == Err::<
                (int, int),
                ProbeError,
            >(ProbeError::NoStream)
            &&& stream_size(some, none, height) == Err::<(int, int), ProbeError>(ProbeError::NoWidth)
            &&& stream_size(some, width, none) == Err::<(int, int), ProbeError>(ProbeError::NoHeight)
        }),
{
    crate::json::law_numbers_are_read(w, 0);
    crate::json::law_numbers_are_read(h, 0);
}

/// The stream's own length counts before that of its file.
pub proof fn law_the_streams_length_comes_first(a: Seq<char>, b: Seq<char>)
    ensures
        length_texts(crate::json::JsonView::Text(a), crate::json::JsonView::Text(b)) == seq![a, b],
        length_texts(crate::json::JsonView::Missing, crate::json::JsonView::Text(b)) == seq![b],
        length_texts(crate::json::JsonView::Text(a), crate::json::JsonView::Missing) == seq![a],
{
    assert(length_texts(crate::json::JsonView::Text(a), crate::json::JsonView::Text(b)) =~= seq![
        a,
        b,
    ]);
    assert(length_texts(crate::json::JsonView::Missing, crate::json::JsonView::Text(b)) =~= seq![b]);
    assert(length_texts(crate::json::JsonView::Text(a), crate::json::JsonView::Missing) =~= seq![a]);
}

/// `ffprobe` is asked about the first video stream of the file itself, for an answer in JSON;
/// only where the frames count they are counted.
pub proof fn law_questions_name_the_file(path: Seq<char>)
    ensures
        ({
            let size = size_query(path);
            let frames = frames_query(path);
            &&& size.last() == path && frames.last() == path
            &&& size[2] == "-select_streams"@ && size[3] == "v:0"@
            &&& frames[2] == "-select_streams"@ && frames[3] == "v:0"@
            &&& size[size.len() - 3] == "-of"@ && size[size.len() - 2] == "json"@
            &&& frames[frames.len() - 3] == "-of"@ && frames[frames.len() - 2] == "json"@
            &&& size[4] == "-show_entries"@
            &&& size[5] == "stream=width,height,duration,avg_frame_rate:format=duration"@
            &&& frames[4] == "-count_frames"@ && frames[5] == "-show_entries"@
            &&& frames[6] == "stream=nb_read_frames,avg_frame_rate"@
            &&& size.len() == 9 && frames.len() == 10
        }),
{
}

/// Frames are counted where their number is there, as a text or a number, and the rate is a
/// fraction: the number comes first, and the rate's two sides follow.
pub proof fn law_frames_are_read(n: Seq<char>, a: Seq<char>, b: Seq<char>)
    requires
        !a.contains('/'),
    ensures
        frame_texts(
            crate::json::JsonView::Text(n),
            crate::json::JsonView::Text(a.push('/') + b),
        ) == Some((n, a, b)),
        frame_texts(
            crate::json::JsonView::Number(n),
            crate::json::JsonView::Text(a.push('/') + b),
        ) == Some((n, a, b)),
        frame_texts(
            crate::json::JsonView::Missing,
            crate::json::JsonView::Text(a.push('/') + b),
        ) is None,
        frame_texts(crate::json::JsonView::Text(n), crate::json::JsonView::Text(a)) is None,
        frame_texts(crate::json::JsonView::Text(n), crate::json::JsonView::Missing) is None,
{
    law_fractions_are_split_at_the_slash(a, b);
}

/// The files between the passes lie in the directory that was given, are named after the
/// stamp, a video and an image, and differ from each other.
pub proof fn law_work_files_are_named_after_the_stamp(dir: Seq<char>, stamp: Seq<char>)
    requires
        dir.len() > 0,
        dir.last() != '/',
        !stamp.contains('/'),
        !stamp.contains('\\'),
    ensures
        work_video(dir, stamp, System::Unix) == dir.push('/') + ("jot-compose-"@ + stamp + ".mp4"@),
        work_palette(dir, stamp, System::Unix) == dir.push('/') + ("jot-compose-"@ + stamp
            + "-palette.png"@),
        work_video(dir, stamp, System::Unix) != work_palette(dir, stamp, System::Unix),
{
    reveal_strlit("jot-compose-");
    reveal_strlit(".mp4");
    reveal_strlit("-palette.png");
    let v = "jot-compose-"@ + stamp + ".mp4"@;
    let p = "jot-compose-"@ + stamp + "-palette.png"@;
    lemma_work_name(stamp, ".mp4"@);
    lemma_work_name(stamp, "-palette.png"@);
    crate::paths::law_joined_names_come_back(dir, v);
    crate::paths::law_joined_names_come_back(dir, p);
    assert((dir.push('/') + v).last() == '4');
    assert((dir.push('/') + p).last() == 'g');
}

proof fn lemma_work_name(stamp: Seq<char>, ending: Seq<char>)
    requires
        !stamp.contains('/'),
        !stamp.contains('\\'),
        !ending.contains('/'),
        !ending.contains('\\'),
    ensures
        crate::paths::is_plain_name("jot-compose-"@ + stamp + ending),
{
    reveal_strlit("jot-compose-");
    let name = "jot-compose-"@ + stamp + ending;
    assert(name[0] == 'j');
    assert forall|i: int| 0 <= i < name.len() implies #[trigger] name[i] != '/' && name[i] != '\\' by {
        if i < 12 {
            assert(name[i] == "jot-compose-"@[i]);
        } else if i < 12 + stamp.len() {
            assert(stamp.contains(stamp[i - 12]));
        } else {
            assert(ending.contains(ending[i - 12 - stamp.len()]));
        }
    }
}

/// A scene has at least one picture a second, and as many as it says.
pub proof fn law_a_picture_a_second(fps: u32)
    ensures
        at_least_one(fps) >= 1,
        fps >= 1 ==> at_least_one(fps) == fps,
        at_least_one(0) == 1,
{
}

/// What a pass writes to its file is the stream that the graph ends with: the graph's last
/// statement gives it the name that is mapped.
pub proof fn law_the_last_stream_is_written(
    scene: Scene,
    font: Option<Seq<char>>,
    quality: GifQuality,
    out: Seq<char>,
) -> (k: int)
    ensures
        ({
            let args = flattening(scene, font, quality, out).args;
            &&& 0 <= k && k + 3 < args.len()
            &&& args[k] == "-filter_complex"@ && args[k + 1] == composite_filter(scene, font)
            &&& args[k + 2] == "-map"@ && args[k + 3] == "[comp]"@
            &&& args.last() == out
        }),
        crate::text::has_suffix(composite_filter(scene, font), "[comp]"@),
{
    reveal_strlit("]format=rgb24[comp]");
    reveal_strlit("[comp]");
    reveal_strlit("comp");
    reveal_strlit("[");
    reveal_strlit("]");
    let inputs = composite_inputs(scene.layers@, scene.layers@.len() as int);
    let k = 3 + input_args(inputs, inputs.len() as int).len() as int;
    let n = scene.layers@.len() as int;
    let all = statements(scene, font, n).push("["@ + picture_below(n) + "]format=rgb24[comp]"@);
    assert("["@ + "comp"@ + "]"@ =~= "[comp]"@);
    let args = flattening(scene, font, quality, out).args;
    assert(args[k] == "-filter_complex"@);
    assert(args[k + 3] == "["@ + "comp"@ + "]"@);
    let f = composite_filter(scene, font);
    assert(f == crate::text::join(all, ";"@));
    lemma_join_ends(all, ";"@);
    let last = all.last();
    assert(last.subrange(last.len() - 6, last.len() as int) =~= "[comp]"@);
    assert(f.subrange(f.len() - 6, f.len() as int) =~= last.subrange(
        last.len() - 6,
        last.len() as int,
    )) by {
        assert forall|i: int| 0 <= i < 6 implies f[f.len() - 6 + i] == #[trigger] last[last.len() - 6
            + i] by {
            assert(f.skip(f.len() - last.len())[last.len() - 6 + i] == last[last.len() - 6 + i]);
        }
    }
    k
}

proof fn lemma_join_ends(s: Seq<Seq<char>>, sep: Seq<char>)
    requires
        s.len() > 0,
    ensures
        crate::text::join(s, sep).len() >= s.last().len(),
        crate::text::join(s, sep).skip(crate::text::join(s, sep).len() - s.last().len()) == s.last(),
{
    let j = crate::text::join(s, sep);
    assert(j.skip(j.len() - s.last().len()) =~= s.last());
}

/// An image is shown for as long as it is needed, a clip that loops whole begins anew, and any
/// other clip is read once. Each is read from its own file.
pub proof fn law_inputs_repeat_where_they_should(
    source: String,
    mode: LoopMode,
    start: u64,
    end: Option<u64>,
)
    ensures
        layer_input(LayerKind::Image { source }) == (InputView {
            path: source@,
            pre_args: seq!["-loop"@, "1"@],
        }),
        ({
            let clip = layer_input(
                LayerKind::Clip { source, loop_mode: mode, trim_start: start, trim_end: end },
            );
            &&& clip.path == source@
            &&& mode == LoopMode::Loop && start == 0 && end is None ==> clip.pre_args == seq![
                "-stream_loop"@,
                "-1"@,
            ]
            &&& mode != LoopMode::Loop || start > 0 || end is Some ==> clip.pre_args.len() == 0
        }),
{
}

/// A file ends as what it is.
pub proof fn law_outputs_end_as_what_they_are()
    ensures
        OutputKind::Gif.ending() == "gif"@,
        OutputKind::Mp4.ending() == "mp4"@,
{
}

}
