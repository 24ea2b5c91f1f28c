//! The screen recorder: what it asks of `slurp`, `wf-recorder` and `ffmpeg`, and what it
//! does next while one of them runs.

use crate::config::GifQuality;
use crate::paths::{path_join, System};
use crate::text::{chars_of, joined, push_dec, push_text, split_on, string_of, trimmed_text};
use vstd::prelude::*;

verus! {

/// How often a running process is looked at, in milliseconds.
pub const TICK_INTERVAL_MS: u64 = 200;

/// How long a process may take to finish its file after an interrupt, in milliseconds. One
/// whose owner is gone gets as long.
pub const GRACEFUL_KILL_TIMEOUT_MS: u64 = 3000;

/// How long a process may take to end after it was cancelled, in milliseconds.
pub const CANCEL_TIMEOUT_MS: u64 = 400;

/// What the window asks of the recorder.
#[derive(Debug, Clone, Copy, PartialEq, Eq, Structural)]
pub enum RecorderCmd {
    /// Finish the recording and convert it.
    Stop,
    /// Give up, whatever is running.
    Cancel,
}

/// What the recorder tells the window.
#[derive(Debug, Clone)]
pub enum RecorderEvent {
    /// The region is being picked.
    SelectingRegion,
    /// The region was picked and the recording runs.
    RecordingStarted { region: String },
    /// Another second of recording has passed.
    Tick { seconds: u64 },
    /// The recording is being converted.
    Converting,
    /// The GIF is on disk.
    Done { gif_path: String, seconds: u64 },
    /// The user gave up.
    Cancelled,
    /// Anything else, in words for a toast.
    Error(String),
}

// ───────────────────────────── decisions ─────────────────────────────
/// What came in from the window since the recorder last looked.
#[derive(Debug, Clone, Copy, PartialEq, Eq, Structural)]
pub enum Inbox {
    Nothing,
    Command(RecorderCmd),
    /// The window is gone: it takes no more events.
    Closed,
}

/// The recorder's next step while it records.
#[derive(Debug, Clone, Copy, PartialEq, Eq, Structural)]
pub enum RecordingStep {
    /// Interrupt the capture and convert it.
    Stop,
    /// Kill the capture, remove its file and report the cancellation.
    Cancel,
    /// The capture ended by itself: an error.
    Exited,
    /// Report that `seconds` have passed, then wait.
    Tick { seconds: u64 },
    /// Wait.
    Wait,
}

/// What the recorder does next while it records: what the window says comes first, then the
/// end of the capture, then the clock.
pub open spec fn while_recording(
    inbox: Inbox,
    exited: bool,
    elapsed: u64,
    last_tick: u64,
) -> RecordingStep {
    match inbox {
        Inbox::Command(RecorderCmd::Stop) => RecordingStep::Stop,
        Inbox::Command(RecorderCmd::Cancel) => RecordingStep::Cancel,
        Inbox::Closed => RecordingStep::Cancel,
        Inbox::Nothing => if exited {
            RecordingStep::Exited
        } else if elapsed > last_tick {
            RecordingStep::Tick { seconds: elapsed }
        } else {
            RecordingStep::Wait
        },
    }
}

/// What the window says comes first, then the end of the capture, then the clock. A recorder
/// whose window is gone gives up.
pub fn recording_step(
    inbox: Inbox,
    exited: bool,
    elapsed: u64,
    last_tick: u64,
) -> (r: RecordingStep)
    ensures
        r == while_recording(inbox, exited, elapsed, last_tick),
{
    match inbox {
        Inbox::Command(RecorderCmd::Stop) => RecordingStep::Stop,
        Inbox::Command(RecorderCmd::Cancel) => RecordingStep::Cancel,
        Inbox::Closed => RecordingStep::Cancel,
        Inbox::Nothing => if exited {
            RecordingStep::Exited
        } else if elapsed > last_tick {
            RecordingStep::Tick { seconds: elapsed }
        } else {
            RecordingStep::Wait
        },
    }
}

/// The recorder's next step while a conversion runs.
#[derive(Debug, Clone, Copy, PartialEq, Eq, Structural)]
pub enum ConvertStep {
    /// Kill the conversion: it was cancelled.
    Cancel,
    /// The conversion has ended.
    Finished,
    /// Wait.
    Wait,
}

/// What the recorder does next while a conversion runs.
pub open spec fn while_converting(inbox: Inbox, exited: bool) -> ConvertStep {
    if inbox == Inbox::Command(RecorderCmd::Cancel) || inbox == Inbox::Closed {
        ConvertStep::Cancel
    } else if exited {
        ConvertStep::Finished
    } else {
        ConvertStep::Wait
    }
}

/// A cancellation stops a conversion, and so does a window that is gone; a second stop does
/// not.
pub fn convert_step(inbox: Inbox, exited: bool) -> (r: ConvertStep)
    ensures
        r == while_converting(inbox, exited),
{
    match inbox {
        Inbox::Command(RecorderCmd::Cancel) => ConvertStep::Cancel,
        Inbox::Closed => ConvertStep::Cancel,
        _ => if exited {
            ConvertStep::Finished
        } else {
            ConvertStep::Wait
        },
    }
}

/// The next step with a process that was interrupted.
#[derive(Debug, Clone, Copy, PartialEq, Eq, Structural)]
pub enum GraceStep {
    /// It has ended.
    Ended,
    /// Its time is up: kill it.
    Kill,
    /// Wait.
    Wait,
}

/// What happens next to a process that was interrupted.
pub open spec fn after_interrupt(exited: bool, waited: u64, grace: u64) -> GraceStep {
    if exited {
        GraceStep::Ended
    } else if waited >= grace {
        GraceStep::Kill
    } else {
        GraceStep::Wait
    }
}

/// An interrupted process has `grace` milliseconds; `waited` have passed.
pub fn grace_step(exited: bool, waited: u64, grace: u64) -> (r: GraceStep)
    ensures
        r == after_interrupt(exited, waited, grace),
{
    if exited {
        GraceStep::Ended
    } else if waited >= grace {
        GraceStep::Kill
    } else {
        GraceStep::Wait
    }
}

/// How a conversion ended.
#[derive(Debug, Clone)]
pub enum ConvertOutcome {
    Done,
    Cancelled,
    Failed(String),
}

/// What is said of a stage of ffmpeg that failed.
pub open spec fn stage_error(stage: Seq<char>, stderr: Seq<char>) -> Seq<char> {
    "ffmpeg "@ + stage + " failed: "@ + crate::text::trim(stderr)
}

/// Whether a stage of ffmpeg succeeded, and otherwise what it printed.
pub fn run_checked(stage: &str, success: bool, stderr: &str) -> (r: Result<(), String>)
    ensures
        r is Ok <==> success,
        r matches Err(e) ==> e@ == stage_error(stage@, stderr@),
{
    if success {
        return Ok(());
    }
    let mut e = "ffmpeg ".to_owned();
    e.append(stage);
    e.append(" failed: ");
    e.append(trimmed_text(stderr).as_str());
    Err(e)
}

/// How a stage of a conversion ended. `exit` says whether it succeeded and what it printed;
/// without one it was cancelled.
pub fn stage_outcome(stage: &str, exit: &Option<(bool, String)>) -> (r: ConvertOutcome)
    ensures
        match *exit {
            None => r is Cancelled,
            Some(x) => if x.0 {
                r is Done
            } else {
                r matches ConvertOutcome::Failed(e) && e@ == stage_error(stage@, x.1@)
            },
        },
{
    match exit {
        None => ConvertOutcome::Cancelled,
        Some(x) => match run_checked(stage, x.0, x.1.as_str()) {
            Ok(_) => ConvertOutcome::Done,
            Err(e) => ConvertOutcome::Failed(e),
        },
    }
}

/// Whether the next stage of a conversion is run: only behind one that is done.
pub fn goes_on(outcome: &ConvertOutcome) -> (r: bool)
    ensures
        r == (outcome is Done),
{
    match outcome {
        ConvertOutcome::Done => true,
        _ => false,
    }
}

/// The last event of a session, and whether the GIF stays.
pub open spec fn session_end(
    outcome: ConvertOutcome,
    gif_path: Seq<char>,
    seconds: u64,
    event: RecorderEvent,
    keep: bool,
) -> bool {
    match outcome {
        ConvertOutcome::Done => keep && (event matches RecorderEvent::Done {
            gif_path: p,
            seconds: s,
        } && p@ == gif_path && s == seconds),
        ConvertOutcome::Cancelled => !keep && event is Cancelled,
        ConvertOutcome::Failed(e) => !keep && (event matches RecorderEvent::Error(m)
            && m@ == e@),
    }
}

/// A finished conversion is reported with the recording's length; a cancelled or failed
/// one leaves no GIF behind.
pub fn finish_session(outcome: ConvertOutcome, gif_path: &str, seconds: u64) -> (r: (
    RecorderEvent,
    bool,
))
    ensures
        session_end(outcome, gif_path@, seconds, r.0, r.1),
{
    match outcome {
        ConvertOutcome::Done => (
            RecorderEvent::Done { gif_path: gif_path.to_owned(), seconds },
            true,
        ),
        ConvertOutcome::Cancelled => (RecorderEvent::Cancelled, false),
        ConvertOutcome::Failed(e) => (RecorderEvent::Error(e), false),
    }
}

/// The length that is reported for a recording of so many seconds.
pub open spec fn shown_seconds(elapsed: u64) -> int {
    if elapsed == 0 {
        1
    } else {
        elapsed as int
    }
}

/// The length that is reported for a recording: at least a second.
pub fn recording_seconds(elapsed: u64) -> (r: u64)
    ensures
        r == shown_seconds(elapsed),
{
    if elapsed == 0 {
        1
    } else {
        elapsed
    }
}

/// The region that `slurp` printed. It printed none, or failed, when the user gave up.
pub fn slurp_region(success: bool, stdout: &str) -> (r: Option<String>)
    ensures
        r is Some <==> success && crate::text::trim(stdout@).len() > 0,
        r matches Some(s) ==> s@ == crate::text::trim(stdout@),
{
    let region = trimmed_text(stdout);
    if !success || chars_of(region.as_str()).len() == 0 {
        None
    } else {
        Some(region)
    }
}

// ───────────────────────────── presets ─────────────────────────────
pub open spec fn crf(q: GifQuality) -> u32 {
    match q {
        GifQuality::High => 17,
        GifQuality::Balanced => 22,
        GifQuality::Compact => 28,
    }
}

/// The compression of a capture.
pub fn quality_crf(q: GifQuality) -> (r: u32)
    ensures
        r == crf(q),
{
    match q {
        GifQuality::High => 17,
        GifQuality::Balanced => 22,
        GifQuality::Compact => 28,
    }
}

pub open spec fn palette_stats(q: GifQuality) -> Seq<char> {
    match q {
        GifQuality::High => "full"@,
        _ => "diff"@,
    }
}

/// Which frames count for the palette.
pub fn quality_palette_stats(q: GifQuality) -> (r: &'static str)
    ensures
        r@ == palette_stats(q),
{
    match q {
        GifQuality::High => "full",
        GifQuality::Balanced | GifQuality::Compact => "diff",
    }
}

pub open spec fn dither(q: GifQuality) -> Seq<char> {
    match q {
        GifQuality::Compact => "bayer:bayer_scale=3"@,
        _ => "sierra2_4a"@,
    }
}

/// The dithering of a GIF.
pub fn quality_dither(q: GifQuality) -> (r: &'static str)
    ensures
        r@ == dither(q),
{
    match q {
        GifQuality::High | GifQuality::Balanced => "sierra2_4a",
        GifQuality::Compact => "bayer:bayer_scale=3",
    }
}

// ───────────────────────────── tools ─────────────────────────────
/// The directories of a search path on Windows, from `i` on: between semicolons. A
/// semicolon in quotes is part of a name; the quotes are not. `dir` is the directory so far,
/// and `quoted` says whether `i` is in quotes.
pub open spec fn windows_dirs(s: Seq<char>, i: int, dir: Seq<char>, quoted: bool) -> Seq<Seq<char>>
    decreases s.len() - i,
{
    if i < 0 || i >= s.len() {
        seq![dir]
    } else if s[i] == '"' {
        windows_dirs(s, i + 1, dir, !quoted)
    } else if s[i] == ';' && !quoted {
        seq![dir] + windows_dirs(s, i + 1, Seq::empty(), false)
    } else {
        windows_dirs(s, i + 1, dir.push(s[i]), quoted)
    }
}

/// The directories of a search path.
pub open spec fn search_dirs(search_path: Seq<char>, system: System) -> Seq<Seq<char>> {
    match system {
        System::Unix => crate::text::split_from(search_path, ':', 0),
        System::Windows => windows_dirs(search_path, 0, Seq::empty(), false),
    }
}

fn split_windows_dirs(s: &Vec<char>) -> (r: Vec<Vec<char>>)
    ensures
        crate::text::char_texts(r@) == windows_dirs(s@, 0, Seq::empty(), false),
{
    let mut r: Vec<Vec<char>> = Vec::new();
    let mut dir: Vec<char> = Vec::new();
    let mut quoted: bool = false;
    let mut i: usize = 0;
    let ghost all = windows_dirs(s@, 0, Seq::empty(), false);
    assert(crate::text::char_texts(r@) =~= Seq::empty());
    assert(dir@ =~= Seq::empty());
    assert(crate::text::char_texts(r@) + all =~= all);
    while i < s.len()
        invariant
            i <= s@.len(),
            all == crate::text::char_texts(r@) + windows_dirs(s@, i as int, dir@, quoted),
        decreases s@.len() - i,
    {
        let c: char = s[i];
        if c == '"' {
            quoted = !quoted;
        } else if c == ';' && !quoted {
            let ghost before = crate::text::char_texts(r@);
            let ghost rest = windows_dirs(s@, i + 1, Seq::empty(), false);
            let ghost last = dir@;
            r.push(dir);
            dir = Vec::new();
            assert(dir@ =~= Seq::empty());
            assert(crate::text::char_texts(r@) =~= before.push(last));
            assert(before + (seq![last] + rest) =~= before.push(last) + rest);
        } else {
            dir.push(c);
        }
        i += 1;
    }
    let ghost before = crate::text::char_texts(r@);
    let ghost last = dir@;
    r.push(dir);
    assert(crate::text::char_texts(r@) =~= before + seq![last]);
    r
}

/// The files that could be the tool `name`, in the order of the search path.
pub fn tool_candidates(search_path: &str, name: &str, system: System) -> (r: Vec<String>)
    ensures
        crate::text::texts(r@) == search_dirs(search_path@, system).map_values(
            |dir: Seq<char>| crate::paths::joined_path(dir, name@, system),
        ),
{
    let all = chars_of(search_path);
    let dirs = match system {
        System::Unix => split_on(&all, ':'),
        System::Windows => split_windows_dirs(&all),
    };
    let mut r: Vec<String> = Vec::new();
    let mut i: usize = 0;
    while i < dirs.len()
        invariant
            i <= dirs@.len(),
            r@.len() == i,
            forall|k: int|
                0 <= k < i ==> (#[trigger] r@[k])@ == crate::paths::joined_path(
                    crate::text::char_texts(dirs@)[k],
                    name@,
                    system,
                ),
        decreases dirs@.len() - i,
    {
        let dir = string_of(&dirs[i]);
        r.push(path_join(dir.as_str(), name, system));
        i += 1;
    }
    assert(crate::text::texts(r@) =~= crate::text::char_texts(dirs@).map_values(
        |dir: Seq<char>| crate::paths::joined_path(dir, name@, system),
    ));
    r
}

/// Nothing where the tool is there, and otherwise how to install it.
pub fn require_tool(name: &str, found: bool) -> (r: Result<(), String>)
    ensures
        r is Ok <==> found,
        r matches Err(e) ==> e@ == "`"@ + name@
            + "` is not installed. Install it with: sudo pacman -S "@ + name@,
{
    if found {
        Ok(())
    } else {
        let mut e = "`".to_owned();
        e.append(name);
        e.append("` is not installed. Install it with: sudo pacman -S ");
        e.append(name);
        Err(e)
    }
}

/// The tools that are missing, in the order in which they are used.
pub open spec fn missing_tools(slurp: bool, wf_recorder: bool, ffmpeg: bool) -> Seq<Seq<char>> {
    (if slurp {
        Seq::empty()
    } else {
        seq!["slurp"@]
    }) + (if wf_recorder {
        Seq::empty()
    } else {
        seq!["wf-recorder"@]
    }) + (if ffmpeg {
        Seq::empty()
    } else {
        seq!["ffmpeg"@]
    })
}

/// The tools that are missing and how to install them, where any is.
pub fn missing_tools_summary(slurp: bool, wf_recorder: bool, ffmpeg: bool) -> (r: Option<String>)
    ensures
        r is None <==> slurp && wf_recorder && ffmpeg,
        r matches Some(s) ==> s@ == "Missing: "@ + crate::text::join(
            missing_tools(slurp, wf_recorder, ffmpeg),
            ", "@,
        ) + ". Install: sudo pacman -S "@ + crate::text::join(
            missing_tools(slurp, wf_recorder, ffmpeg),
            " "@,
        ),
{
    let mut missing: Vec<String> = Vec::new();
    if !slurp {
        push_text(&mut missing, "slurp");
    }
    if !wf_recorder {
        push_text(&mut missing, "wf-recorder");
    }
    if !ffmpeg {
        push_text(&mut missing, "ffmpeg");
    }
    assert(crate::text::texts(missing@) =~= missing_tools(slurp, wf_recorder, ffmpeg));
    assert(crate::text::texts(missing@).len() == missing@.len());
    if missing.len() == 0 {
        return None;
    }
    let mut s = "Missing: ".to_owned();
    s.append(joined(&missing, ", ").as_str());
    s.append(". Install: sudo pacman -S ");
    s.append(joined(&missing, " ").as_str());
    Some(s)
}

// ───────────────────────────── files and arguments ─────────────────────────────
pub open spec fn gif_dir(
    videos: Option<Seq<char>>,
    home: Option<Seq<char>>,
    system: System,
) -> Option<Seq<char>> {
    match videos {
        Some(v) => Some(crate::paths::joined_path(v, "gif"@, system)),
        None => match home {
            Some(h) => Some(
                crate::paths::joined_path(
                    crate::paths::joined_path(h, "Videos"@, system),
                    "gif"@,
                    system,
                ),
            ),
            None => None,
        },
    }
}

/// The directory of the GIFs: `gif` in the videos directory, or in `Videos` of the home
/// directory.
pub fn gif_output_dir(videos: Option<String>, home: Option<String>, system: System) -> (r: Option<
    String,
>)
    ensures
        crate::canvas::optional_text(r) == gif_dir(
            crate::canvas::optional_text(videos),
            crate::canvas::optional_text(home),
            system,
        ),
{
    match videos {
        Some(v) => Some(path_join(v.as_str(), "gif", system)),
        None => match home {
            Some(h) => Some(path_join(path_join(h.as_str(), "Videos", system).as_str(), "gif", system)),
            None => None,
        },
    }
}

fn named(stamp: &str, ending: &str) -> (r: String)
    ensures
        r@ == "jot-"@ + stamp@ + ending@,
{
    let mut r = "jot-".to_owned();
    r.append(stamp);
    r.append(ending);
    r
}

/// The name of a capture's file.
pub fn capture_name(stamp: &str) -> (r: String)
    ensures
        r@ == "jot-"@ + stamp@ + "-source.mp4"@,
{
    named(stamp, "-source.mp4")
}

/// The name of a conversion's palette.
pub fn palette_name(stamp: &str) -> (r: String)
    ensures
        r@ == "jot-"@ + stamp@ + "-palette.png"@,
{
    named(stamp, "-palette.png")
}

/// The name of the GIF.
pub fn gif_name(stamp: &str) -> (r: String)
    ensures
        r@ == "jot-"@ + stamp@ + ".gif"@,
{
    named(stamp, ".gif")
}

/// The arguments of `wf-recorder`.
pub fn capture_args(region: &str, mp4: &str, fps: u32, quality: GifQuality) -> (r: Vec<String>)
    ensures
        crate::text::texts(r@) == seq![
            "-g"@,
            region@,
            "-f"@,
            mp4@,
            "-r"@,
            crate::text::dec(fps as nat),
            "-c"@,
            "libx264"@,
            "-p"@,
            "preset=ultrafast"@,
            "-p"@,
            "crf="@ + crate::text::dec(crf(quality) as nat),
        ],
{
    let mut r: Vec<String> = Vec::new();
    let mut rate = String::new();
    push_dec(&mut rate, fps as u64);
    assert(rate@ =~= crate::text::dec(fps as nat));
    let mut factor = "crf=".to_owned();
    push_dec(&mut factor, quality_crf(quality) as u64);
    push_text(&mut r, "-g");
    push_text(&mut r, region);
    push_text(&mut r, "-f");
    push_text(&mut r, mp4);
    push_text(&mut r, "-r");
    push_text(&mut r, rate.as_str());
    push_text(&mut r, "-c");
    push_text(&mut r, "libx264");
    push_text(&mut r, "-p");
    push_text(&mut r, "preset=ultrafast");
    push_text(&mut r, "-p");
    push_text(&mut r, factor.as_str());
    assert(crate::text::texts(r@) =~= seq![
        "-g"@,
        region@,
        "-f"@,
        mp4@,
        "-r"@,
        crate::text::dec(fps as nat),
        "-c"@,
        "libx264"@,
        "-p"@,
        "preset=ultrafast"@,
        "-p"@,
        "crf="@ + crate::text::dec(crf(quality) as nat),
    ]);
    r
}

/// The arguments of the ffmpeg pass that collects a palette. `before` stands between the
/// frame rate and the pixel format.
pub open spec fn palettegen(
    src: Seq<char>,
    palette: Seq<char>,
    fps: u32,
    before: Seq<char>,
    quality: GifQuality,
) -> Seq<Seq<char>> {
    seq![
        "-y"@,
        "-loglevel"@,
        "error"@,
        "-i"@,
        src,
        "-vf"@,
        "fps="@ + crate::text::dec(fps as nat) + before + ",format=rgb24,palettegen=stats_mode="@
            + palette_stats(quality),
        palette,
    ]
}

/// The arguments of the ffmpeg pass that applies a palette.
pub open spec fn paletteuse(
    src: Seq<char>,
    palette: Seq<char>,
    out: Seq<char>,
    fps: u32,
    before: Seq<char>,
    quality: GifQuality,
) -> Seq<Seq<char>> {
    seq![
        "-y"@,
        "-loglevel"@,
        "error"@,
        "-i"@,
        src,
        "-i"@,
        palette,
        "-lavfi"@,
        "fps="@ + crate::text::dec(fps as nat) + before
            + ",format=rgb24[v];[v][1:v]paletteuse=dither="@ + dither(quality)
            + ":diff_mode=rectangle"@,
        out,
    ]
}

pub fn palettegen_args(
    src: &str,
    palette: &str,
    fps: u32,
    before: &str,
    quality: GifQuality,
) -> (r: Vec<String>)
    ensures
        crate::text::texts(r@) == palettegen(src@, palette@, fps, before@, quality),
{
    let mut filter = "fps=".to_owned();
    push_dec(&mut filter, fps as u64);
    filter.append(before);
    filter.append(",format=rgb24,palettegen=stats_mode=");
    filter.append(quality_palette_stats(quality));
    let mut r: Vec<String> = Vec::new();
    push_text(&mut r, "-y");
    push_text(&mut r, "-loglevel");
    push_text(&mut r, "error");
    push_text(&mut r, "-i");
    push_text(&mut r, src);
    push_text(&mut r, "-vf");
    push_text(&mut r, filter.as_str());
    push_text(&mut r, palette);
    assert(crate::text::texts(r@) =~= palettegen(src@, palette@, fps, before@, quality));
    r
}

pub fn paletteuse_args(
    src: &str,
    palette: &str,
    out: &str,
    fps: u32,
    before: &str,
    quality: GifQuality,
) -> (r: Vec<String>)
    ensures
        crate::text::texts(r@) == paletteuse(src@, palette@, out@, fps, before@, quality),
{
    let mut filter = "fps=".to_owned();
    push_dec(&mut filter, fps as u64);
    filter.append(before);
    filter.append(",format=rgb24[v];[v][1:v]paletteuse=dither=");
    filter.append(quality_dither(quality));
    filter.append(":diff_mode=rectangle");
    let mut r: Vec<String> = Vec::new();
    push_text(&mut r, "-y");
    push_text(&mut r, "-loglevel");
    push_text(&mut r, "error");
    push_text(&mut r, "-i");
    push_text(&mut r, src);
    push_text(&mut r, "-i");
    push_text(&mut r, palette);
    push_text(&mut r, "-lavfi");
    push_text(&mut r, filter.as_str());
    push_text(&mut r, out);
    assert(crate::text::texts(r@) =~= paletteuse(src@, palette@, out@, fps, before@, quality));
    r
}

/// The colour conversion of a screen capture.
pub open spec fn capture_colors() -> Seq<char> {
    ",colorspace=all=bt709:iall=bt709:range=pc:irange=tv"@
}

/// The first pass of a capture's conversion.
pub fn capture_palettegen_args(
    mp4: &str,
    palette: &str,
    fps: u32,
    quality: GifQuality,
) -> (r: Vec<String>)
    ensures
        crate::text::texts(r@) == palettegen(mp4@, palette@, fps, capture_colors(), quality),
{
    palettegen_args(
        mp4,
        palette,
        fps,
        ",colorspace=all=bt709:iall=bt709:range=pc:irange=tv",
        quality,
    )
}

/// The second pass of a capture's conversion.
pub fn capture_paletteuse_args(
    mp4: &str,
    palette: &str,
    gif: &str,
    fps: u32,
    quality: GifQuality,
) -> (r: Vec<String>)
    ensures
        crate::text::texts(r@) == paletteuse(mp4@, palette@, gif@, fps, capture_colors(), quality),
{
    paletteuse_args(
        mp4,
        palette,
        gif,
        fps,
        ",colorspace=all=bt709:iall=bt709:range=pc:irange=tv",
        quality,
    )
}

// ───────────────────────────── laws ─────────────────────────────
/// A recording stops only when it is told to, and then always; it is given up exactly when
/// that is asked for or the window is gone; it fails exactly when the capture ends while
/// nothing was said. Otherwise each second is reported once, when it has passed: behind a
/// report the recorder waits until the clock moves on.
pub proof fn law_recordings_do_what_they_are_told(
    inbox: Inbox,
    exited: bool,
    elapsed: u64,
    last_tick: u64,
)
    ensures
        ({
            let r = while_recording(inbox, exited, elapsed, last_tick);
            &&& r is Stop <==> inbox == Inbox::Command(RecorderCmd::Stop)
            &&& r is Cancel <==> inbox == Inbox::Command(RecorderCmd::Cancel) || inbox is Closed
            &&& r is Exited <==> inbox is Nothing && exited
            &&& r is Tick <==> inbox is Nothing && !exited && elapsed > last_tick
            &&& r matches RecordingStep::Tick { seconds } ==> seconds == elapsed && while_recording(
                Inbox::Nothing,
                false,
                elapsed,
                seconds,
            ) is Wait
        }),
{
}

/// A conversion is cancelled exactly when that is asked for or the window is gone, however far
/// it is; a stop does nothing to it. Otherwise it is over exactly when its process is.
pub proof fn law_conversions_run_to_their_end(inbox: Inbox, exited: bool)
    ensures
        while_converting(inbox, exited) is Cancel <==> inbox == Inbox::Command(RecorderCmd::Cancel)
            || inbox is Closed,
        while_converting(Inbox::Command(RecorderCmd::Stop), exited) == while_converting(
            Inbox::Nothing,
            exited,
        ),
        while_converting(Inbox::Nothing, exited) is Finished <==> exited,
{
}

/// A process that has ended is left alone, one that has not is killed as soon as its time is
/// up, and not before.
pub proof fn law_interrupted_processes_get_their_time(exited: bool, waited: u64, grace: u64)
    ensures
        after_interrupt(exited, waited, grace) is Ended <==> exited,
        after_interrupt(exited, waited, grace) is Kill <==> !exited && waited >= grace,
{
}

/// A better quality compresses less: the three presets are in order, and only the best one
/// counts every pixel for its palette, and only the smallest one dithers in a pattern.
pub proof fn law_qualities_are_in_order(q: GifQuality)
    ensures
        crf(GifQuality::High) < crf(GifQuality::Balanced) < crf(GifQuality::Compact),
        0 < crf(q) <= 51,
        palette_stats(q) == "full"@ <==> q == GifQuality::High,
        palette_stats(q) == "diff"@ <==> q != GifQuality::High,
        dither(q) == "bayer:bayer_scale=3"@ <==> q == GifQuality::Compact,
        dither(q) == "sierra2_4a"@ <==> q != GifQuality::Compact,
{
    reveal_strlit("full");
    reveal_strlit("diff");
    reveal_strlit("bayer:bayer_scale=3");
    reveal_strlit("sierra2_4a");
    assert("full"@[0] == 'f' && "diff"@[0] == 'd');
    assert("bayer:bayer_scale=3"@[0] == 'b' && "sierra2_4a"@[0] == 's');
}

/// The two passes of a GIF fit together: both read the same video at the same frame rate and
/// in the same colours; the first writes the palette that the second reads as its second
/// input, and the second writes the GIF. The palette is collected and applied as the quality
/// says.
pub proof fn law_both_passes_fit_together(
    src: Seq<char>,
    palette: Seq<char>,
    out: Seq<char>,
    fps: u32,
    before: Seq<char>,
    quality: GifQuality,
)
    ensures
        ({
            let first = palettegen(src, palette, fps, before, quality);
            let second = paletteuse(src, palette, out, fps, before, quality);
            let start = "fps="@ + crate::text::dec(fps as nat) + before + ",format=rgb24"@;
            &&& first.len() == 8 && second.len() == 10
            &&& first[0] == "-y"@ && second[0] == "-y"@
            &&& first[3] == "-i"@ && first[4] == src && first.last() == palette
            &&& second[3] == "-i"@ && second[4] == src && second[5] == "-i"@ && second[6] == palette
            &&& second.last() == out
            &&& crate::text::has_prefix(first[6], start)
            &&& crate::text::has_prefix(second[8], start)
            &&& crate::text::has_suffix(first[6], ",palettegen=stats_mode="@ + palette_stats(quality))
            &&& crate::text::has_suffix(
                second[8],
                "[v];[v][1:v]paletteuse=dither="@ + dither(quality) + ":diff_mode=rectangle"@,
            )
        }),
{
    let first = palettegen(src, palette, fps, before, quality);
    let second = paletteuse(src, palette, out, fps, before, quality);
    let start = "fps="@ + crate::text::dec(fps as nat) + before + ",format=rgb24"@;
    reveal_strlit(",format=rgb24");
    reveal_strlit(",format=rgb24,palettegen=stats_mode=");
    reveal_strlit(",palettegen=stats_mode=");
    reveal_strlit(",format=rgb24[v];[v][1:v]paletteuse=dither=");
    reveal_strlit("[v];[v][1:v]paletteuse=dither=");
    let e = ",palettegen=stats_mode="@ + palette_stats(quality);
    let f = "[v];[v][1:v]paletteuse=dither="@ + dither(quality) + ":diff_mode=rectangle"@;
    assert(",format=rgb24,palettegen=stats_mode="@ =~= ",format=rgb24"@ + ",palettegen=stats_mode="@);
    assert(",format=rgb24[v];[v][1:v]paletteuse=dither="@ =~= ",format=rgb24"@
        + "[v];[v][1:v]paletteuse=dither="@);
    assert(first[6] =~= start + e);
    assert(second[8] =~= start + f);
    let n = start.len() as int;
    assert((start + e).subrange(0, n) =~= start);
    assert((start + e).subrange(n, n + e.len()) =~= e);
    assert((start + f).subrange(0, n) =~= start);
    assert((start + f).subrange(n, n + f.len()) =~= f);
}

proof fn lemma_dirs_without_quotes(s: Seq<char>, i: int, k: int)
    requires
        0 <= i <= k <= s.len(),
        !s.contains('"'),
        forall|j: int| i <= j < k ==> #[trigger] s[j] != ';',
    ensures
        windows_dirs(s, k, s.subrange(i, k), false) == crate::text::split_from(s, ';', i),
    decreases s.len() - k, 1int,
{
    crate::text::lemma_find_char(s, ';', i);
    if k == s.len() {
        if let Some(j) = crate::text::find_char(s, ';', i) {
            assert(s[j] == ';');
        }
        assert(s.subrange(i, k) =~= s.skip(i));
    } else if s[k] == ';' {
        assert(crate::text::find_char(s, ';', i) == Some(k)) by {
            match crate::text::find_char(s, ';', i) {
                Some(j) => {
                    assert(s[j] == ';');
                },
                None => {},
            }
        }
        assert(s.subrange(k + 1, k + 1) =~= Seq::empty());
        assert(s[k] != '"');
        lemma_dirs_without_quotes(s, k + 1, k + 1);
    } else {
        assert(s.contains(s[k]));
        assert(s.subrange(i, k).push(s[k]) =~= s.subrange(i, k + 1));
        lemma_dirs_without_quotes(s, i, k + 1);
    }
}

/// A search path is split at every `:`, and on Windows at every `;`, as long as nothing is in
/// quotes.
pub proof fn law_search_paths_are_split(s: Seq<char>)
    ensures
        search_dirs(s, System::Unix) == crate::text::split_from(s, ':', 0),
        !s.contains('"') ==> search_dirs(s, System::Windows) == crate::text::split_from(s, ';', 0),
{
    if !s.contains('"') {
        lemma_dirs_without_quotes(s, 0, 0);
        assert(s.subrange(0, 0) =~= Seq::empty());
    }
}

/// The directory of the GIFs is in the videos directory where there is one, and otherwise in
/// `Videos` of the home directory.
pub proof fn law_gifs_go_to_the_videos(videos: Seq<char>, home: Option<Seq<char>>, dir: Seq<char>)
    requires
        videos.len() > 0 && videos.last() != '/',
        dir.len() > 0 && dir.last() != '/',
    ensures
        gif_dir(Some(videos), home, System::Unix) == Some(videos + "/gif"@),
        gif_dir(None, Some(dir), System::Unix) == Some(dir + "/Videos/gif"@),
        gif_dir(None, None, System::Unix) is None,
{
    reveal_strlit("gif");
    reveal_strlit("Videos");
    reveal_strlit("/gif");
    reveal_strlit("/Videos/gif");
    assert(videos.push('/') + "gif"@ =~= videos + "/gif"@);
    assert((dir.push('/') + "Videos"@).push('/') + "gif"@ =~= dir + "/Videos/gif"@);
}

/// A GIF stays exactly where its conversion was done, and only then it is reported, with its
/// own path and length; a conversion that failed is reported with its own error.
pub proof fn law_only_finished_gifs_stay(
    outcome: ConvertOutcome,
    gif_path: Seq<char>,
    seconds: u64,
    event: RecorderEvent,
    keep: bool,
)
    requires
        session_end(outcome, gif_path, seconds, event, keep),
    ensures
        keep <==> outcome is Done,
        event is Done <==> outcome is Done,
        event is Cancelled <==> outcome is Cancelled,
        event is Error <==> outcome is Failed,
        event matches RecorderEvent::Done { gif_path: p, seconds: n } ==> p@ == gif_path && n
            == seconds,
        outcome matches ConvertOutcome::Failed(e) ==> event matches RecorderEvent::Error(m) && m@
            == e@,
{
}

/// The tools that are missing are named, and no other, in the order in which they are used.
pub proof fn law_missing_tools_are_named(slurp: bool, wf_recorder: bool, ffmpeg: bool)
    ensures
        ({
            let missing = missing_tools(slurp, wf_recorder, ffmpeg);
            &&& !slurp ==> missing[0] == "slurp"@
            &&& slurp && !wf_recorder ==> missing[0] == "wf-recorder"@
            &&& !slurp && !wf_recorder ==> missing[1] == "wf-recorder"@
            &&& !ffmpeg ==> missing.last() == "ffmpeg"@
            &&& missing.len() == (if slurp {
                0int
            } else {
                1
            }) + (if wf_recorder {
                0int
            } else {
                1
            }) + (if ffmpeg {
                0int
            } else {
                1
            })
        }),
{
}

/// A recording is never reported as shorter than a second, nor otherwise than it is.
pub proof fn law_recordings_last_a_second(elapsed: u64)
    ensures
        shown_seconds(elapsed) >= 1,
        elapsed >= 1 ==> shown_seconds(elapsed) == elapsed,
{
}

/// What is said of a failed stage names the stage and holds all that was printed but the white
/// space around it, from `r.0` to `r.1`.
pub proof fn law_failures_are_quoted(stage: Seq<char>, stderr: Seq<char>) -> (r: (int, int))
    ensures
        0 <= r.0 <= r.1 <= stderr.len(),
        stage_error(stage, stderr) == "ffmpeg "@ + stage + " failed: "@ + stderr.subrange(r.0, r.1),
        forall|i: int|
            0 <= i < r.0 || r.1 <= i < stderr.len() ==> crate::text::is_space(#[trigger] stderr[i]),
{
    crate::text::law_trimming_takes_white_space_only(stderr)
}

/// A captured screen comes in the limited range of a television and leaves in the full range.
pub proof fn law_captures_get_the_full_range()
    ensures
        crate::text::has_suffix(capture_colors(), ":range=pc:irange=tv"@),
        crate::text::has_prefix(capture_colors(), ",colorspace=all=bt709:iall=bt709"@),
        capture_colors().len() == ":range=pc:irange=tv"@.len()
            + ",colorspace=all=bt709:iall=bt709"@.len(),
{
    reveal_strlit(",colorspace=all=bt709:iall=bt709:range=pc:irange=tv");
    reveal_strlit(":range=pc:irange=tv");
    reveal_strlit(",colorspace=all=bt709:iall=bt709");
    let a = capture_colors();
    assert(a.take(32) =~= ",colorspace=all=bt709:iall=bt709"@);
    assert(a.subrange(0, 32) =~= ",colorspace=all=bt709:iall=bt709"@);
    assert(a.skip(32) =~= ":range=pc:irange=tv"@);
    assert(a.subrange(32, 51) =~= ":range=pc:irange=tv"@);
}

/// A recording ticks five times a second; a recorder has three seconds to finish its file, and
/// 400 ms where the file is not wanted.
pub proof fn law_waiting_times()
    ensures
        5 * TICK_INTERVAL_MS == 1000,
        GRACEFUL_KILL_TIMEOUT_MS == 3 * 1000,
        CANCEL_TIMEOUT_MS == 400,
{
}

}
