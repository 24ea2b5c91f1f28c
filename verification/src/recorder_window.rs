//! The recorder's overlay: where it stands, what it shows, and when it closes.

use crate::gif_recorder::RecorderEvent;
use crate::json::{json_at, json_i32, JsonValue};
use crate::text::{
    chars_between, chars_of, find_char_from, parse_i32, push_dec, push_int, push_padded, same_text,
};
use vstd::prelude::*;

verus! {

// ───────────────────────────── the overlay ─────────────────────────────
/// What the overlay shows.
#[derive(Debug, Clone, Copy, PartialEq, Eq, Structural)]
pub enum UiState {
    Selecting,
    Recording,
    Converting,
    Done,
}

/// What an event of the recorder does to the overlay.
#[derive(Debug, Clone)]
pub enum OverlayStep {
    /// It shows another state.
    Show(UiState),
    /// Its timer moves on.
    Timer(u64),
    /// It closes, with an error where there is one. No event counts after it.
    Close(Option<String>),
}

/// Whether `step` is what `event` does.
pub open spec fn steps_to(event: RecorderEvent, step: OverlayStep) -> bool {
    match event {
        RecorderEvent::SelectingRegion => step == OverlayStep::Show(UiState::Selecting),
        RecorderEvent::RecordingStarted { .. } => step == OverlayStep::Show(UiState::Recording),
        RecorderEvent::Tick { seconds } => step == OverlayStep::Timer(seconds),
        RecorderEvent::Converting => step == OverlayStep::Show(UiState::Converting),
        RecorderEvent::Done { .. } => step == OverlayStep::Show(UiState::Done),
        RecorderEvent::Cancelled => step == OverlayStep::Close(None),
        RecorderEvent::Error(m) => step matches OverlayStep::Close(Some(e)) && e@ == m@,
    }
}

pub fn overlay_step(event: &RecorderEvent) -> (r: OverlayStep)
    ensures
        steps_to(*event, r),
{
    match event {
        RecorderEvent::SelectingRegion => OverlayStep::Show(UiState::Selecting),
        RecorderEvent::RecordingStarted { .. } => OverlayStep::Show(UiState::Recording),
        RecorderEvent::Tick { seconds } => OverlayStep::Timer(*seconds),
        RecorderEvent::Converting => OverlayStep::Show(UiState::Converting),
        RecorderEvent::Done { .. } => OverlayStep::Show(UiState::Done),
        RecorderEvent::Cancelled => OverlayStep::Close(None),
        RecorderEvent::Error(m) => OverlayStep::Close(Some(m.clone())),
    }
}

/// Which parts of the overlay are visible, and its style class.
#[derive(Debug, Clone, Copy)]
pub struct UiLook {
    pub spinner: bool,
    pub status: bool,
    pub timer: bool,
    pub class: &'static str,
}

/// Only a conversion spins, only a recording shows its timer, and a state is named only
/// while it converts or is done.
pub fn look(state: UiState) -> (r: UiLook)
    ensures
        r.spinner == (state == UiState::Converting),
        r.status == (state == UiState::Converting || state == UiState::Done),
        r.timer == (state == UiState::Recording),
        r.class@ == (match state {
            UiState::Converting => "jot-recorder-converting"@,
            UiState::Done => "jot-recorder-done"@,
            _ => "jot-recorder-recording"@,
        }),
{
    match state {
        UiState::Selecting => UiLook {
            spinner: false,
            status: false,
            timer: false,
            class: "jot-recorder-recording",
        },
        UiState::Recording => UiLook {
            spinner: false,
            status: false,
            timer: true,
            class: "jot-recorder-recording",
        },
        UiState::Converting => UiLook {
            spinner: true,
            status: true,
            timer: false,
            class: "jot-recorder-converting",
        },
        UiState::Done => UiLook {
            spinner: false,
            status: true,
            timer: false,
            class: "jot-recorder-done",
        },
    }
}

/// Minutes and seconds, the seconds with two digits.
pub open spec fn timer_text(seconds: u64) -> Seq<char> {
    crate::text::dec((seconds / 60) as nat) + ":"@ + crate::text::padded((seconds % 60) as nat, 2)
}

/// The length and the size of a finished GIF.
pub open spec fn done_text(seconds: u64, bytes: u64) -> Seq<char> {
    crate::text::dec(seconds as nat) + "s · "@ + crate::text::dec((bytes / 1024) as nat) + " KB"@
}

/// Minutes and seconds, the seconds with two digits.
pub fn fmt_timer(seconds: u64) -> (r: String)
    ensures
        r@ == timer_text(seconds),
{
    let mut r = String::new();
    push_dec(&mut r, seconds / 60);
    assert(r@ =~= crate::text::dec((seconds / 60) as nat));
    r.append(":");
    push_padded(&mut r, seconds % 60, 2);
    r
}

/// The length and the size of a finished GIF.
pub fn done_label(seconds: u64, bytes: u64) -> (r: String)
    ensures
        r@ == done_text(seconds, bytes),
{
    let mut r = String::new();
    push_dec(&mut r, seconds);
    assert(r@ =~= crate::text::dec(seconds as nat));
    r.append("s · ");
    push_dec(&mut r, bytes / 1024);
    r.append(" KB");
    r
}

// ───────────────────────────── regions ─────────────────────────────
/// The first position from `i` on that holds a space, or the end.
pub open spec fn word_end(s: Seq<char>, i: int) -> int
    decreases s.len() - i,
{
    if i < 0 || i >= s.len() || crate::text::is_space(s[i]) {
        i
    } else {
        word_end(s, i + 1)
    }
}

/// The first position from `i` on that holds no space, or the end.
pub open spec fn word_start(s: Seq<char>, i: int) -> int
    decreases s.len() - i,
{
    if i < 0 || i >= s.len() || !crate::text::is_space(s[i]) {
        i
    } else {
        word_start(s, i + 1)
    }
}

/// The two numbers around the first `c` of a word.
pub open spec fn number_pair(s: Seq<char>, c: char) -> Option<(int, int)> {
    match crate::text::find_char(s, c, 0) {
        Some(k) => match (
            crate::text::integer_value(s.take(k)),
            crate::text::integer_value(s.skip(k + 1)),
        ) {
            (Some(a), Some(b)) => if i32::MIN <= a <= i32::MAX && i32::MIN <= b <= i32::MAX {
                Some((a, b))
            } else {
                None
            },
            _ => None,
        },
        None => None,
    }
}

/// The region that `X,Y WxH` writes.
pub open spec fn region(s: Seq<char>) -> Option<(int, int, int, int)> {
    let a = word_start(s, 0);
    let b = word_end(s, a);
    let c = word_start(s, b);
    let d = word_end(s, c);
    if a == b || c == d {
        None
    } else {
        match (number_pair(s.subrange(a, b), ','), number_pair(s.subrange(c, d), 'x')) {
            (Some(p), Some(q)) => Some((p.0, p.1, q.0, q.1)),
            _ => None,
        }
    }
}

fn skip_space(v: &Vec<char>, from: usize) -> (r: usize)
    requires
        from <= v@.len(),
    ensures
        r == word_start(v@, from as int),
        from <= r <= v@.len(),
{
    let mut i: usize = from;
    while i < v.len() && v[i].is_whitespace()
        invariant
            from <= i <= v@.len(),
            word_start(v@, from as int) == word_start(v@, i as int),
        decreases v@.len() - i,
    {
        i += 1;
    }
    i
}

fn skip_word(v: &Vec<char>, from: usize) -> (r: usize)
    requires
        from <= v@.len(),
    ensures
        r == word_end(v@, from as int),
        from <= r <= v@.len(),
{
    let mut i: usize = from;
    while i < v.len() && !v[i].is_whitespace()
        invariant
            from <= i <= v@.len(),
            word_end(v@, from as int) == word_end(v@, i as int),
        decreases v@.len() - i,
    {
        i += 1;
    }
    i
}

fn parse_pair(v: &Vec<char>, c: char) -> (r: Option<(i32, i32)>)
    ensures
        match r {
            Some(p) => number_pair(v@, c) == Some((p.0 as int, p.1 as int)),
            None => number_pair(v@, c) is None,
        },
{
    let n: usize = v.len();
    proof {
        crate::text::lemma_find_char(v@, c, 0);
    }
    match find_char_from(v, c, 0) {
        Some(k) => {
            assert(k < n);
            let left = chars_between(v, 0, k);
            let right = chars_between(v, k + 1, n);
            assert(left@ =~= v@.take(k as int));
            assert(right@ =~= v@.skip(k + 1));
            match parse_i32(&left) {
                Some(a) => match parse_i32(&right) {
                    Some(b) => Some((a, b)),
                    None => None,
                },
                None => None,
            }
        },
        None => None,
    }
}

/// Reads what `slurp` prints, `"X,Y WxH"`, as `(x, y, w, h)`.
pub fn parse_region(s: &str) -> (r: Option<(i32, i32, i32, i32)>)
    ensures
        match r {
            Some(g) => region(s@) == Some((g.0 as int, g.1 as int, g.2 as int, g.3 as int)),
            None => region(s@) is None,
        },
{
    let v = chars_of(s);
    let a: usize = skip_space(&v, 0);
    let b: usize = skip_word(&v, a);
    let c: usize = skip_space(&v, b);
    let d: usize = skip_word(&v, c);
    if a == b || c == d {
        return None;
    }
    match parse_pair(&chars_between(&v, a, b), ',') {
        Some(p) => match parse_pair(&chars_between(&v, c, d), 'x') {
            Some(q) => Some((p.0, p.1, q.0, q.1)),
            None => None,
        },
        None => None,
    }
}

// ───────────────────────────── placement ─────────────────────────────
/// A monitor's place on the desktop.
#[derive(Debug, Clone, Copy, PartialEq, Eq, Structural)]
pub struct Geometry {
    pub x: i32,
    pub y: i32,
    pub w: i32,
    pub h: i32,
}

/// Whether a monitor shows this point.
pub open spec fn shows(g: Geometry, x: int, y: int) -> bool {
    g.x <= x < g.x + g.w && g.y <= y < g.y + g.h
}

/// The first monitor that shows the point, and otherwise the first one.
pub open spec fn monitor_for(monitors: Seq<Geometry>, x: int, y: int, i: int) -> Option<Geometry>
    decreases monitors.len() - i,
{
    if i < 0 || i >= monitors.len() {
        if monitors.len() == 0 {
            None
        } else {
            Some(monitors[0])
        }
    } else if shows(monitors[i], x, y) {
        Some(monitors[i])
    } else {
        monitor_for(monitors, x, y, i + 1)
    }
}

pub fn monitor_geometry_for(monitors: &Vec<Geometry>, x: i64, y: i64) -> (r: Option<Geometry>)
    ensures
        r == monitor_for(monitors@, x as int, y as int, 0),
{
    let mut i: usize = 0;
    while i < monitors.len()
        invariant
            i <= monitors@.len(),
            monitor_for(monitors@, x as int, y as int, 0) == monitor_for(
                monitors@,
                x as int,
                y as int,
                i as int,
            ),
        decreases monitors@.len() - i,
    {
        let g: Geometry = monitors[i];
        if x >= g.x as i64 && x < g.x as i64 + g.w as i64 && y >= g.y as i64 && y < g.y as i64
            + g.h as i64 {
            return Some(g);
        }
        i += 1;
    }
    if monitors.len() == 0 {
        None
    } else {
        Some(monitors[0])
    }
}

/// The width of the overlay at its widest, its height, and its distance to the screen's
/// edges.
pub const OVERLAY_W: i64 = 240;

pub const OVERLAY_H: i64 = 40;

pub const MARGIN: i64 = 20;

/// Half of `n`, towards zero.
pub open spec fn half(n: int) -> int {
    crate::transcribe::quotient(n, 2)
}

/// The four corners of a monitor at which the overlay can stand: top left, top right,
/// bottom left, bottom right.
pub open spec fn corners(m: Geometry) -> Seq<(int, int)> {
    seq![
        (m.x + MARGIN, m.y + MARGIN),
        (m.x + m.w - OVERLAY_W - MARGIN, m.y + MARGIN),
        (m.x + MARGIN, m.y + m.h - OVERLAY_H - MARGIN),
        (m.x + m.w - OVERLAY_W - MARGIN, m.y + m.h - OVERLAY_H - MARGIN),
    ]
}

/// The squared distance from the centre of an overlay at `corner` to a point.
pub open spec fn distance(corner: (int, int), x: int, y: int) -> int {
    let dx = corner.0 + OVERLAY_W / 2 - x;
    let dy = corner.1 + OVERLAY_H / 2 - y;
    dx * dx + dy * dy
}

/// The farthest of the first `n` corners; of equals, the last.
pub open spec fn farthest(c: Seq<(int, int)>, x: int, y: int, n: int) -> int
    decreases n,
{
    if n <= 1 {
        0
    } else {
        let best = farthest(c, x, y, n - 1);
        if distance(c[n - 1], x, y) >= distance(c[best], x, y) {
            n - 1
        } else {
            best
        }
    }
}

/// Where the overlay stands while a region is recorded: in the corner of the region's
/// monitor that is farthest from the region's centre.
pub open spec fn anchor(text: Seq<char>, monitors: Seq<Geometry>) -> Option<(int, int)> {
    match region(text) {
        Some(g) => {
            let cx = g.0 + half(g.2);
            let cy = g.1 + half(g.3);
            match monitor_for(monitors, cx, cy, 0) {
                Some(m) => Some(corners(m)[farthest(corners(m), cx, cy, 4)]),
                None => None,
            }
        },
        None => None,
    }
}

fn half_of(n: i32) -> (r: i64)
    ensures
        r == half(n as int),
{
    let wide: i64 = n as i64;
    if wide >= 0 {
        wide / 2
    } else {
        -((-wide) / 2)
    }
}

fn squared_distance(corner: (i64, i64), x: i64, y: i64) -> (r: i128)
    requires
        -0x4_0000_0000 <= corner.0 <= 0x4_0000_0000,
        -0x4_0000_0000 <= corner.1 <= 0x4_0000_0000,
        -0x4_0000_0000 <= x <= 0x4_0000_0000,
        -0x4_0000_0000 <= y <= 0x4_0000_0000,
    ensures
        r == distance((corner.0 as int, corner.1 as int), x as int, y as int),
{
    let dx: i128 = corner.0 as i128 + 120 - x as i128;
    let dy: i128 = corner.1 as i128 + 20 - y as i128;
    assert(0 <= dx * dx <= 0x10_0000_0000 * 0x10_0000_0000) by (nonlinear_arith)
        requires
            -0x10_0000_0000 <= dx <= 0x10_0000_0000,
    ;
    assert(0 <= dy * dy <= 0x10_0000_0000 * 0x10_0000_0000) by (nonlinear_arith)
        requires
            -0x10_0000_0000 <= dy <= 0x10_0000_0000,
    ;
    dx * dx + dy * dy
}

pub fn pick_overlay_anchor(region_text: &str, monitors: &Vec<Geometry>) -> (r: Option<(i64, i64)>)
    ensures
        match r {
            Some(p) => anchor(region_text@, monitors@) == Some((p.0 as int, p.1 as int)),
            None => anchor(region_text@, monitors@) is None,
        },
{
    let g = match parse_region(region_text) {
        Some(g) => g,
        None => {
            return None;
        },
    };
    let cx: i64 = g.0 as i64 + half_of(g.2);
    let cy: i64 = g.1 as i64 + half_of(g.3);
    let m = match monitor_geometry_for(monitors, cx, cy) {
        Some(m) => m,
        None => {
            return None;
        },
    };
    let left: i64 = m.x as i64 + MARGIN;
    let right: i64 = m.x as i64 + m.w as i64 - OVERLAY_W - MARGIN;
    let top: i64 = m.y as i64 + MARGIN;
    let bottom: i64 = m.y as i64 + m.h as i64 - OVERLAY_H - MARGIN;
    let ghost c = corners(m);
    let mut best: (i64, i64) = (left, top);
    let mut reach: i128 = squared_distance(best, cx, cy);
    reveal_with_fuel(farthest, 4);
    assert((best.0 as int, best.1 as int) == c[farthest(c, cx as int, cy as int, 1)]);
    let tr: i128 = squared_distance((right, top), cx, cy);
    if tr >= reach {
        best = (right, top);
        reach = tr;
    }
    assert((best.0 as int, best.1 as int) == c[farthest(c, cx as int, cy as int, 2)]);
    let bl: i128 = squared_distance((left, bottom), cx, cy);
    if bl >= reach {
        best = (left, bottom);
        reach = bl;
    }
    assert((best.0 as int, best.1 as int) == c[farthest(c, cx as int, cy as int, 3)]);
    let br: i128 = squared_distance((right, bottom), cx, cy);
    if br >= reach {
        best = (right, bottom);
    }
    assert((best.0 as int, best.1 as int) == c[farthest(c, cx as int, cy as int, 4)]);
    Some(best)
}

/// Where the overlay is put: at the place that was saved, and otherwise in a corner away
/// from the region.
pub fn overlay_place(
    saved_x: Option<i32>,
    saved_y: Option<i32>,
    region_text: &str,
    monitors: &Vec<Geometry>,
) -> (r: Option<(i64, i64)>)
    ensures
        match (saved_x, saved_y) {
            (Some(x), Some(y)) => r == Some((x as i64, y as i64)),
            _ => match r {
                Some(p) => anchor(region_text@, monitors@) == Some((p.0 as int, p.1 as int)),
                None => anchor(region_text@, monitors@) is None,
            },
        },
{
    match (saved_x, saved_y) {
        (Some(x), Some(y)) => Some((x as i64, y as i64)),
        _ => pick_overlay_anchor(region_text, monitors),
    }
}

/// The argument with which `hyprctl` moves the window of this title.
pub fn move_argument(title: &str, x: i64, y: i64) -> (r: String)
    ensures
        r@ == "exact "@ + crate::text::dec_int(x as int) + " "@ + crate::text::dec_int(y as int)
            + ",title:^("@ + title@ + ")$"@,
{
    let mut r = "exact ".to_owned();
    push_int(&mut r, x);
    r.append(" ");
    push_int(&mut r, y);
    r.append(",title:^(");
    r.append(title);
    r.append(")$");
    r
}

// ───────────────────────────── windows on the desktop ─────────────────────────────
/// A window in the list of the compositor: its title, its position, and the two numbers of
/// that.
#[derive(Debug, Clone)]
pub struct Client {
    pub title: JsonValue,
    pub at: JsonValue,
    pub x: JsonValue,
    pub y: JsonValue,
}

pub struct ClientView {
    pub title: crate::json::JsonView,
    pub at: crate::json::JsonView,
    pub x: crate::json::JsonView,
    pub y: crate::json::JsonView,
}

impl View for Client {
    type V = ClientView;

    open spec fn view(&self) -> ClientView {
        ClientView { title: self.title@, at: self.at@, x: self.x@, y: self.y@ }
    }
}

pub open spec fn client_views(clients: Seq<Client>) -> Seq<ClientView> {
    clients.map_values(|c: Client| c@)
}

/// The position in a window's entry.
pub open spec fn client_position(c: ClientView) -> Option<(int, int)> {
    if c.at matches crate::json::JsonView::Array(n) && n >= 2 {
        match (crate::json::i32_value(c.x), crate::json::i32_value(c.y)) {
            (Some(x), Some(y)) => Some((x, y)),
            _ => None,
        }
    } else {
        None
    }
}

/// The position of the first window from `i` on with this title. Windows without a title
/// are passed over.
pub open spec fn position_of(
    clients: Seq<ClientView>,
    title: Seq<char>,
    i: int,
) -> Option<(int, int)>
    decreases clients.len() - i,
{
    if i < 0 || i >= clients.len() {
        None
    } else {
        match clients[i].title {
            crate::json::JsonView::Text(t) => if t == title {
                client_position(clients[i])
            } else {
                position_of(clients, title, i + 1)
            },
            _ => position_of(clients, title, i + 1),
        }
    }
}

pub fn find_position(clients: &Vec<Client>, title: &str) -> (r: Option<(i32, i32)>)
    ensures
        match r {
            Some(p) => position_of(client_views(clients@), title@, 0) == Some(
                (p.0 as int, p.1 as int),
            ),
            None => position_of(client_views(clients@), title@, 0) is None,
        },
{
    let ghost all = client_views(clients@);
    let mut i: usize = 0;
    while i < clients.len()
        invariant
            i <= clients@.len(),
            all == client_views(clients@),
            position_of(all, title@, 0) == position_of(all, title@, i as int),
        decreases clients@.len() - i,
    {
        assert(all[i as int] == clients@[i as int]@);
        let c: &Client = &clients[i];
        match &c.title {
            JsonValue::Text(t) => {
                if same_text(t.as_str(), title) {
                    let placed: bool = match &c.at {
                        JsonValue::Array(n) => *n >= 2,
                        _ => false,
                    };
                    if !placed {
                        return None;
                    }
                    return match json_i32(&c.x) {
                        Some(x) => match json_i32(&c.y) {
                            Some(y) => Some((x, y)),
                            None => None,
                        },
                        None => None,
                    };
                }
            },
            _ => {},
        }
        i += 1;
    }
    None
}

/// Entry `i` of the compositor's list.
pub open spec fn client_in(doc: Seq<char>, i: int) -> ClientView {
    let at = "/"@ + crate::text::dec(i as nat);
    ClientView {
        title: crate::json::json_value(doc, at + "/title"@),
        at: crate::json::json_value(doc, at + "/at"@),
        x: crate::json::json_value(doc, at + "/at/0"@),
        y: crate::json::json_value(doc, at + "/at/1"@),
    }
}

/// The entries of the compositor's list, where it is one.
pub open spec fn clients_in(doc: Seq<char>) -> Option<Seq<ClientView>> {
    match crate::json::json_value(doc, ""@) {
        crate::json::JsonView::Array(n) => Some(Seq::new(n, |i: int| client_in(doc, i))),
        _ => None,
    }
}

fn value_in(doc: &str, i: usize, rest: &str) -> (r: JsonValue)
    ensures
        r@ == crate::json::json_value(doc@, "/"@ + crate::text::dec(i as nat) + rest@),
{
    let mut pointer = "/".to_owned();
    push_dec(&mut pointer, i as u64);
    pointer.append(rest);
    json_at(doc, pointer.as_str())
}

/// The windows in the compositor's list, where it is one.
pub fn read_clients(doc: &str) -> (r: Option<Vec<Client>>)
    ensures
        match r {
            Some(c) => clients_in(doc@) == Some(client_views(c@)),
            None => clients_in(doc@) is None,
        },
{
    let n: usize = match json_at(doc, "") {
        JsonValue::Array(n) => n,
        _ => {
            return None;
        },
    };
    let mut r: Vec<Client> = Vec::new();
    let mut i: usize = 0;
    while i < n
        invariant
            i <= n,
            r@.len() == i,
            forall|k: int| 0 <= k < i ==> (#[trigger] r@[k])@ == client_in(doc@, k),
        decreases n - i,
    {
        let c = Client {
            title: value_in(doc, i, "/title"),
            at: value_in(doc, i, "/at"),
            x: value_in(doc, i, "/at/0"),
            y: value_in(doc, i, "/at/1"),
        };
        r.push(c);
        i += 1;
    }
    assert(client_views(r@) =~= Seq::new(n as nat, |i: int| client_in(doc@, i)));
    Some(r)
}

/// The position of the window with this title, from the compositor's list.
pub fn window_position(doc: &str, title: &str) -> (r: Option<(i32, i32)>)
    ensures
        ({
            let place = match clients_in(doc@) {
                Some(c) => position_of(c, title@, 0),
                None => None,
            };
            match r {
                Some(p) => place == Some((p.0 as int, p.1 as int)),
                None => place is None,
            }
        }),
{
    match read_clients(doc) {
        Some(clients) => find_position(&clients, title),
        None => None,
    }
}

// ───────────────────────────── laws ─────────────────────────────
proof fn lemma_farthest(c: Seq<(int, int)>, x: int, y: int, n: int)
    requires
        1 <= n <= c.len(),
    ensures
        0 <= farthest(c, x, y, n) < n,
        forall|k: int|
            0 <= k < n ==> distance(#[trigger] c[k], x, y) <= distance(
                c[farthest(c, x, y, n)],
                x,
                y,
            ),
    decreases n,
{
    if n > 1 {
        lemma_farthest(c, x, y, n - 1);
    }
}

/// The overlay stands in a corner of the monitor, and no corner is farther from the
/// region's centre.
pub proof fn law_the_overlay_keeps_away(m: Geometry, x: int, y: int)
    ensures
        0 <= farthest(corners(m), x, y, 4) < 4,
        forall|k: int|
            0 <= k < 4 ==> distance(#[trigger] corners(m)[k], x, y) <= distance(
                corners(m)[farthest(corners(m), x, y, 4)],
                x,
                y,
            ),
{
    lemma_farthest(corners(m), x, y, 4);
}

/// Whether an overlay at `corner` and a region are `gap` pixels apart, or more, side by side
/// or one above the other.
pub open spec fn apart(corner: (int, int), g: (int, int, int, int), gap: int) -> bool {
    ||| corner.0 + OVERLAY_W + gap <= g.0
    ||| g.0 + g.2 + gap <= corner.0
    ||| corner.1 + OVERLAY_H + gap <= g.1
    ||| g.1 + g.3 + gap <= corner.1
}

proof fn lemma_squares(a: int, b: int)
    requires
        a * a >= b * b,
    ensures
        a >= b || -a >= b,
        a >= -b || -a >= -b,
{
    assert(a >= b || -a >= b) by (nonlinear_arith)
        requires
            a * a >= b * b,
    ;
    assert(a >= -b || -a >= -b) by (nonlinear_arith)
        requires
            a * a >= b * b,
    ;
}

/// The overlay does not cover what is recorded if it can be helped: where it would be clear
/// of the region in any corner, it is clear of it in the corner that is picked. (The centre
/// of a region with an odd side is rounded to a pixel, so there a corner has to be a pixel
/// away to count.)
pub proof fn law_the_overlay_is_clear_if_it_can_be(
    m: Geometry,
    g: (int, int, int, int),
    k: int,
)
    requires
        0 <= k < 4,
        g.2 >= 0,
        g.3 >= 0,
        apart(
            corners(m)[k],
            g,
            if g.2 % 2 == 0 && g.3 % 2 == 0 {
                0
            } else {
                1
            },
        ),
    ensures
        apart(corners(m)[farthest(corners(m), g.0 + half(g.2), g.1 + half(g.3), 4)], g, 0),
{
    let x = g.0 + half(g.2);
    let y = g.1 + half(g.3);
    let c = corners(m);
    lemma_farthest(c, x, y, 4);
    let best = farthest(c, x, y, 4);
    let dx = c[best].0 + OVERLAY_W / 2 - x;
    let dy = c[best].1 + OVERLAY_H / 2 - y;
    let ex = c[k].0 + OVERLAY_W / 2 - x;
    let ey = c[k].1 + OVERLAY_H / 2 - y;
    assert(exists|i: int| 0 <= i < 4 && #[trigger] c[i] == (c[k].0, c[best].1)) by {
        let i: int = (if c[best].1 == c[0].1 {
            0int
        } else {
            2
        }) + (if c[k].0 == c[0].0 {
            0int
        } else {
            1
        });
        assert(c[i] == (c[k].0, c[best].1));
    }
    assert(exists|i: int| 0 <= i < 4 && #[trigger] c[i] == (c[best].0, c[k].1)) by {
        let i: int = (if c[k].1 == c[0].1 {
            0int
        } else {
            2
        }) + (if c[best].0 == c[0].0 {
            0int
        } else {
            1
        });
        assert(c[i] == (c[best].0, c[k].1));
    }
    assert(dx * dx >= ex * ex);
    assert(dy * dy >= ey * ey);
    lemma_squares(dx, ex);
    lemma_squares(dy, ey);
}

/// On a monitor that is large enough, the overlay lies on the monitor.
pub proof fn law_the_overlay_lies_on_the_monitor(m: Geometry, k: int)
    requires
        0 <= k < 4,
        m.w >= OVERLAY_W + 2 * MARGIN,
        m.h >= OVERLAY_H + 2 * MARGIN,
    ensures
        m.x <= corners(m)[k].0,
        corners(m)[k].0 + OVERLAY_W <= m.x + m.w,
        m.y <= corners(m)[k].1,
        corners(m)[k].1 + OVERLAY_H <= m.y + m.h,
{
}

/// Whether a character can stand in a whole number.
spec fn is_number_char(c: char) -> bool {
    crate::text::is_digit(c) || c == '-'
}

proof fn lemma_number_chars(i: int)
    ensures
        crate::text::dec_int(i).len() > 0,
        forall|k: int|
            0 <= k < crate::text::dec_int(i).len() ==> is_number_char(
                #[trigger] crate::text::dec_int(i)[k],
            ),
{
    let n = (if i < 0 {
        -i
    } else {
        i
    }) as nat;
    crate::text::law_numbers_read_back(n);
    let t = crate::text::dec_int(i);
    assert forall|k: int| 0 <= k < t.len() implies is_number_char(#[trigger] t[k]) by {
        if i < 0 {
            if k > 0 {
                assert(t[k] == crate::text::dec(n)[k - 1]);
            }
        } else {
            assert(t[k] == crate::text::dec(n)[k]);
        }
    }
}

proof fn lemma_word(s: Seq<char>, i: int, k: int)
    requires
        0 <= i <= k <= s.len(),
        forall|j: int| i <= j < k ==> !crate::text::is_space(#[trigger] s[j]),
        k == s.len() || crate::text::is_space(s[k]),
    ensures
        word_end(s, i) == k,
    decreases k - i,
{
    if i < k {
        lemma_word(s, i + 1, k);
    }
}

proof fn lemma_number_pair(a: int, b: int, c: char)
    requires
        c == ',' || c == 'x',
        i32::MIN <= a <= i32::MAX,
        i32::MIN <= b <= i32::MAX,
    ensures
        number_pair(crate::text::dec_int(a).push(c) + crate::text::dec_int(b), c) == Some((a, b)),
{
    let x = crate::text::dec_int(a);
    let y = crate::text::dec_int(b);
    let s = x.push(c) + y;
    let n = x.len() as int;
    lemma_number_chars(a);
    crate::text::law_integers_read_back(a);
    crate::text::law_integers_read_back(b);
    crate::text::lemma_find_char(s, c, 0);
    assert(s[n] == c);
    assert forall|k: int| 0 <= k < n implies #[trigger] s[k] != c by {
        assert(s[k] == x[k]);
        assert(is_number_char(x[k]));
    }
    assert(crate::text::find_char(s, c, 0) == Some(n)) by {
        match crate::text::find_char(s, c, 0) {
            Some(k) => {
                assert(s[k] == c);
            },
            None => {},
        }
    }
    assert(s.take(n) =~= x);
    assert(s.skip(n + 1) =~= y);
}

/// A region reads back: `X,Y WxH` is the region at X and Y that is W wide and H high.
pub proof fn law_regions_read_back(x: int, y: int, w: int, h: int)
    requires
        i32::MIN <= x <= i32::MAX,
        i32::MIN <= y <= i32::MAX,
        i32::MIN <= w <= i32::MAX,
        i32::MIN <= h <= i32::MAX,
    ensures
        region(
            crate::text::dec_int(x) + ","@ + crate::text::dec_int(y) + " "@ + crate::text::dec_int(w)
                + "x"@ + crate::text::dec_int(h),
        ) == Some((x, y, w, h)),
{
    reveal_strlit(",");
    reveal_strlit(" ");
    reveal_strlit("x");
    let s = crate::text::dec_int(x) + ","@ + crate::text::dec_int(y) + " "@ + crate::text::dec_int(w)
        + "x"@ + crate::text::dec_int(h);
    let first = crate::text::dec_int(x).push(',') + crate::text::dec_int(y);
    let second = crate::text::dec_int(w).push('x') + crate::text::dec_int(h);
    assert(s =~= first.push(' ') + second);
    let n = first.len() as int;
    lemma_number_chars(x);
    lemma_number_chars(y);
    lemma_number_chars(w);
    lemma_number_chars(h);
    lemma_number_pair(x, y, ',');
    lemma_number_pair(w, h, 'x');
    assert(crate::text::is_space(' '));
    assert forall|k: int| 0 <= k < first.len() implies !crate::text::is_space(#[trigger] first[k]) by {
        let m = crate::text::dec_int(x).len();
        if k < m {
            assert(first[k] == crate::text::dec_int(x)[k]);
            assert(is_number_char(first[k]));
        } else if k > m {
            assert(first[k] == crate::text::dec_int(y)[k - m - 1]);
            assert(is_number_char(first[k]));
        }
    }
    assert forall|k: int| 0 <= k < second.len() implies !crate::text::is_space(
        #[trigger] second[k],
    ) by {
        let m = crate::text::dec_int(w).len();
        if k < m {
            assert(second[k] == crate::text::dec_int(w)[k]);
            assert(is_number_char(second[k]));
        } else if k > m {
            assert(second[k] == crate::text::dec_int(h)[k - m - 1]);
            assert(is_number_char(second[k]));
        }
    }
    assert forall|k: int| 0 <= k < n implies !crate::text::is_space(#[trigger] s[k]) by {
        assert(s[k] == first[k]);
    }
    assert(s[n] == ' ');
    assert forall|k: int| n + 1 <= k < s.len() implies !crate::text::is_space(#[trigger] s[k]) by {
        assert(s[k] == second[k - n - 1]);
    }
    assert(s[0] == first[0]);
    assert(word_start(s, 0) == 0);
    lemma_word(s, 0, n);
    assert(!crate::text::is_space(s[n + 1]));
    reveal_with_fuel(word_start, 3);
    assert(word_start(s, n) == n + 1);
    lemma_word(s, n + 1, s.len() as int);
    assert(s.subrange(0, n) =~= first);
    assert(s.subrange(n + 1, s.len() as int) =~= second);
}

/// The monitor of a point is the first one that shows it: the point is at or behind its left
/// and upper edges and before its right and lower ones. Where none does, it is the first.
pub proof fn law_monitors_show_their_points(monitors: Seq<Geometry>, x: int, y: int, i: int)
    requires
        0 <= i <= monitors.len(),
    ensures
        match monitor_for(monitors, x, y, i) {
            Some(m) => {
                ||| exists|k: int|
                    i <= k < monitors.len() && m == #[trigger] monitors[k] && m.x <= x < m.x + m.w
                        && m.y <= y < m.y + m.h && forall|j: int|
                        i <= j < k ==> !((#[trigger] monitors[j]).x <= x < monitors[j].x
                            + monitors[j].w && monitors[j].y <= y < monitors[j].y + monitors[j].h)
                ||| m == monitors[0] && forall|j: int|
                    i <= j < monitors.len() ==> !((#[trigger] monitors[j]).x <= x < monitors[j].x
                        + monitors[j].w && monitors[j].y <= y < monitors[j].y + monitors[j].h)
            },
            None => monitors.len() == 0,
        },
    decreases monitors.len() - i,
{
    if i < monitors.len() {
        if shows(monitors[i], x, y) {
            assert(monitors[i].x <= x);
        } else {
            law_monitors_show_their_points(monitors, x, y, i + 1);
        }
    }
}

/// The overlay keeps 20 pixels from the edges of its corner: the four places are at the left
/// or the right edge and at the upper or the lower one, and they are four.
pub proof fn law_corners_are_at_the_edges(m: Geometry, k: int)
    requires
        0 <= k < 4,
    ensures
        corners(m).len() == 4,
        corners(m)[k].0 == (if k == 0 || k == 2 {
            m.x + 20
        } else {
            m.x + m.w - 20 - 240
        }),
        corners(m)[k].1 == (if k < 2 {
            m.y + 20
        } else {
            m.y + m.h - 20 - 40
        }),
{
}

/// The overlay follows the recorder: it shows the state that the recorder is in, moves its
/// timer only with the seconds that were reported, and closes only when the recording was
/// given up or failed, with the error.
pub proof fn law_the_overlay_follows_the_recorder(event: RecorderEvent, step: OverlayStep)
    requires
        steps_to(event, step),
    ensures
        step is Close <==> event is Cancelled || event is Error,
        step is Timer <==> event is Tick,
        event matches RecorderEvent::Tick { seconds } ==> step == OverlayStep::Timer(seconds),
        event is SelectingRegion ==> step == OverlayStep::Show(UiState::Selecting),
        event is RecordingStarted ==> step == OverlayStep::Show(UiState::Recording),
        event is Converting ==> step == OverlayStep::Show(UiState::Converting),
        event is Done ==> step == OverlayStep::Show(UiState::Done),
        event is Cancelled ==> step == OverlayStep::Close(None),
        event matches RecorderEvent::Error(m) ==> step matches OverlayStep::Close(Some(e)) && e@
            == m@,
{
}

/// A window's position is the one of the first window with its title, and no window without a
/// title is taken for it.
pub proof fn law_windows_are_found_by_title(clients: Seq<ClientView>, title: Seq<char>, k: int)
    requires
        0 <= k < clients.len(),
        clients[k].title == crate::json::JsonView::Text(title),
        forall|j: int|
            0 <= j < k ==> (#[trigger] clients[j]).title != crate::json::JsonView::Text(title),
    ensures
        position_of(clients, title, 0) == client_position(clients[k]),
{
    lemma_position(clients, title, 0, k);
}

proof fn lemma_position(clients: Seq<ClientView>, title: Seq<char>, i: int, k: int)
    requires
        0 <= i <= k < clients.len(),
        clients[k].title == crate::json::JsonView::Text(title),
        forall|j: int|
            i <= j < k ==> (#[trigger] clients[j]).title != crate::json::JsonView::Text(title),
    ensures
        position_of(clients, title, i) == client_position(clients[k]),
    decreases k - i,
{
    if i < k {
        lemma_position(clients, title, i + 1, k);
    }
}

/// The timer reads back: `r.0` minutes and `r.1` seconds, fewer than sixty, are the time. The
/// size of a GIF is given in whole kilobytes, `r.2` of them.
pub proof fn law_timers_read_back(seconds: u64, bytes: u64) -> (r: (nat, nat, nat))
    ensures
        timer_text(seconds) == crate::text::dec(r.0) + ":"@ + crate::text::padded(r.1, 2),
        60 * r.0 + r.1 == seconds && r.1 < 60,
        done_text(seconds, bytes) == crate::text::dec(seconds as nat) + "s · "@
            + crate::text::dec(r.2) + " KB"@,
        1024 * r.2 <= bytes < 1024 * (r.2 + 1),
{
    ((seconds / 60) as nat, (seconds % 60) as nat, (bytes / 1024) as nat)
}

/// The compositor's windows are the entries of its list, in order, each with what its own
/// entry says; an answer that is no list has none.
pub proof fn law_windows_are_read_in_order(doc: Seq<char>, i: int)
    ensures
        clients_in(doc) is Some <==> crate::json::json_value(doc, ""@) is Array,
        clients_in(doc) matches Some(c) ==> {
            &&& crate::json::json_value(doc, ""@) == crate::json::JsonView::Array(c.len())
            &&& 0 <= i < c.len() ==> {
                let entry = "/"@ + crate::text::dec(i as nat);
                &&& c[i].title == crate::json::json_value(doc, entry + "/title"@)
                &&& c[i].at == crate::json::json_value(doc, entry + "/at"@)
                &&& c[i].x == crate::json::json_value(doc, entry + "/at/0"@)
                &&& c[i].y == crate::json::json_value(doc, entry + "/at/1"@)
            }
        },
{
}

}
