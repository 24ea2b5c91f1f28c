//! The editor's text: loading and saving a body, copy blocks, links, embedded images and
//! dropped files.

use crate::body::{split_body, BodyPart};
use crate::note::Note;
use crate::paths::{name_extension, name_stem, path_file_name, System};
use crate::text::{
    chars_between, chars_of, find_from, replaced, same_text, starts_at, string_of, to_lowercase,
};
use vstd::prelude::*;

verus! {

/// How long after a keystroke the note is saved, in milliseconds.
pub const AUTOSAVE_DEBOUNCE_MS: u64 = 400;

/// The size that an image in the text has at most.
pub const IMAGE_MAX_W: i32 = 400;

pub const IMAGE_MAX_H: i32 = 260;

pub open spec fn at_most(n: int, top: int) -> int {
    if n > top {
        top
    } else {
        n
    }
}

pub open spec fn at_least(n: int, bottom: int) -> int {
    if n < bottom {
        bottom
    } else {
        n
    }
}

/// The size of an image in a box: as it is where it fits, otherwise as it was shrunk, each
/// side at least 40 pixels. An image without a size takes a square of 160 pixels, or less
/// where the box is smaller.
pub open spec fn fitted(
    tex_w: int,
    tex_h: int,
    max_w: int,
    max_h: int,
    shrunk: (int, int),
) -> (int, int) {
    if tex_w <= 0 || tex_h <= 0 {
        (at_most(max_w, 160), at_most(max_h, 160))
    } else if tex_w <= max_w && tex_h <= max_h {
        (tex_w, tex_h)
    } else {
        (at_least(shrunk.0, 40), at_least(shrunk.1, 40))
    }
}

/// The size at which an image is shown in a box. `shrunk` is its size scaled down to the
/// box, which counts where the image is too large.
pub fn scale_to_fit(tex_w: i32, tex_h: i32, max_w: i32, max_h: i32, shrunk: (i32, i32)) -> (r: (
    i32,
    i32,
))
    ensures
        (r.0 as int, r.1 as int) == fitted(
            tex_w as int,
            tex_h as int,
            max_w as int,
            max_h as int,
            (shrunk.0 as int, shrunk.1 as int),
        ),
{
    if tex_w <= 0 || tex_h <= 0 {
        (
            if max_w > 160 {
                160
            } else {
                max_w
            },
            if max_h > 160 {
                160
            } else {
                max_h
            },
        )
    } else if tex_w <= max_w && tex_h <= max_h {
        (tex_w, tex_h)
    } else {
        (
            if shrunk.0 < 40 {
                40
            } else {
                shrunk.0
            },
            if shrunk.1 < 40 {
                40
            } else {
                shrunk.1
            },
        )
    }
}

// ───────────────────────────── loading and saving ─────────────────────────────
/// The parts of a body, copy blocks among them.
pub fn parse_markdown_body(body: &str) -> (r: Vec<BodyPart>)
    ensures
        crate::body::part_views(r@) == crate::body::body_parts(body@, true),
{
    split_body(body, true)
}

/// The character that stands for a widget in the editor's text.
pub open spec fn anchor_char() -> char {
    '\u{FFFC}'
}

/// What a part puts into the editor: a widget where there is one to show, and the part's
/// source, which is hidden behind a widget.
#[derive(Debug)]
pub struct Insert {
    pub anchor: bool,
    pub source: String,
}

/// Whether a part is shown as a widget. An image is one only if it could be loaded.
pub open spec fn is_widget(p: crate::body::PartView, loaded: bool) -> bool {
    match p {
        crate::body::PartView::Text(_) => false,
        crate::body::PartView::Image(_) => loaded,
        crate::body::PartView::CopyBlock(_) => true,
    }
}

pub fn part_insert(part: &BodyPart, loaded: bool) -> (r: Insert)
    ensures
        r.anchor == is_widget(part@, loaded),
        r.source@ == crate::body::part_source(part@),
{
    match part {
        BodyPart::Text(t) => Insert { anchor: false, source: t.clone() },
        BodyPart::Image(p) => Insert { anchor: loaded, source: image_source(p.as_str()) },
        BodyPart::CopyBlock(c) => {
            let mut source = "{copy}".to_owned();
            source.append(c.as_str());
            source.append("{/copy}");
            Insert { anchor: true, source }
        },
    }
}

/// The source of an image.
pub fn image_source(path: &str) -> (r: String)
    ensures
        r@ == crate::body::part_source(crate::body::PartView::Image(path@)),
{
    let mut r = "![image](".to_owned();
    r.append(path);
    r.append(")");
    r
}

/// The hidden source of an image that is put in at the cursor: on a line of its own.
pub fn pasted_image_source(path: &str) -> (r: String)
    ensures
        r@ == "\n"@ + crate::body::part_source(crate::body::PartView::Image(path@)) + "\n"@,
{
    let mut r = "\n".to_owned();
    r.append(image_source(path).as_str());
    r.append("\n");
    r
}

/// The body that is saved when `raw` is the editor's text, hidden text included.
pub fn extract_body_for_save(raw: &str) -> (r: String)
    ensures
        r@ == crate::text::replace_char(raw@, anchor_char(), ""@),
{
    replaced(&chars_of(raw), '\u{FFFC}', "")
}

/// Whether the editor's text holds a widget.
pub fn has_child_anchors(raw: &str) -> (r: bool)
    ensures
        r == raw@.contains(anchor_char()),
{
    let v = chars_of(raw);
    let mut i: usize = 0;
    while i < v.len()
        invariant
            i <= v@.len(),
            v@ == raw@,
            forall|k: int| 0 <= k < i ==> v@[k] != anchor_char(),
        decreases v@.len() - i,
    {
        if v[i] == '\u{FFFC}' {
            assert(v@[i as int] == anchor_char());
            return true;
        }
        i += 1;
    }
    false
}

/// The title over the editor.
pub fn shown_title(body: &str) -> (r: String)
    ensures
        r@ == (if crate::note::title_of(body@).len() == 0 {
            "Untitled note"@
        } else {
            crate::note::title_of(body@)
        }),
{
    let title = Note::derive_title(body);
    if chars_of(title.as_str()).len() == 0 {
        "Untitled note".to_owned()
    } else {
        title
    }
}

/// What stands in the editor where there is nothing else.
pub fn placeholder(note_open: bool, chars: i32) -> (r: Option<&'static str>)
    ensures
        match r {
            Some(t) => t@ == (if !note_open {
                "Pick a note or hit Ctrl+N to start"@
            } else {
                "Start typing…"@
            }),
            None => true,
        },
        r is Some <==> !note_open || chars == 0,
{
    if !note_open {
        Some("Pick a note or hit Ctrl+N to start")
    } else if chars == 0 {
        Some("Start typing…")
    } else {
        None
    }
}

// ───────────────────────────── copy blocks ─────────────────────────────
/// `s` without a line break at its start.
pub open spec fn without_first_break(s: Seq<char>) -> Seq<char> {
    if s.len() >= 2 && s[0] == '\r' && s[1] == '\n' {
        s.skip(2)
    } else if s.len() >= 1 && s[0] == '\n' {
        s.skip(1)
    } else {
        s
    }
}

/// `s` without a line break at its end.
pub open spec fn without_last_break(s: Seq<char>) -> Seq<char> {
    if s.len() >= 2 && s[s.len() - 2] == '\r' && s.last() == '\n' {
        s.take(s.len() - 2)
    } else if s.len() >= 1 && s.last() == '\n' {
        s.drop_last()
    } else {
        s
    }
}

/// What a copy block puts on the clipboard.
pub open spec fn payload(content: Seq<char>) -> Seq<char> {
    without_last_break(without_first_break(content))
}

/// What a copy block puts on the clipboard: its source without a line break at either end.
pub fn copy_block_payload(content: &str) -> (r: String)
    ensures
        r@ == payload(content@),
{
    let v = chars_of(content);
    let n: usize = v.len();
    let from: usize = if n >= 2 && v[0] == '\r' && v[1] == '\n' {
        2
    } else if n >= 1 && v[0] == '\n' {
        1
    } else {
        0
    };
    let rest = chars_between(&v, from, n);
    assert(rest@ =~= without_first_break(content@));
    let m: usize = rest.len();
    let to: usize = if m >= 2 && rest[m - 2] == '\r' && rest[m - 1] == '\n' {
        m - 2
    } else if m >= 1 && rest[m - 1] == '\n' {
        m - 1
    } else {
        m
    };
    let r = chars_between(&rest, 0, to);
    assert(r@ =~= without_last_break(rest@));
    string_of(&r)
}

/// What a copy block shows.
pub fn copy_block_label(payload: &str) -> (r: String)
    ensures
        r@ == (if payload@.len() == 0 {
            "(empty)"@
        } else {
            payload@
        }),
{
    if chars_of(payload).len() == 0 {
        "(empty)".to_owned()
    } else {
        payload.to_owned()
    }
}

/// Where the copy blocks of `s` from `i` on begin. A block that is not closed is none, and
/// ends the search.
pub open spec fn copy_starts(s: Seq<char>, i: int) -> Seq<int>
    decreases s.len() - i,
{
    if i < 0 || i > s.len() {
        Seq::empty()
    } else {
        proof {
            crate::body::lemma_marks();
            crate::text::lemma_find_at(s, crate::body::copy_open(), i);
            if let Some(o) = crate::text::find_at(s, crate::body::copy_open(), i) {
                crate::text::lemma_find_at(s, crate::body::copy_close(), o + 6);
            }
        }
        match crate::text::find_at(s, crate::body::copy_open(), i) {
            Some(o) => match crate::text::find_at(
                s,
                crate::body::copy_close(),
                o + crate::body::copy_open().len(),
            ) {
                Some(c) => seq![o] + copy_starts(s, c + crate::body::copy_close().len()),
                None => Seq::empty(),
            },
            None => Seq::empty(),
        }
    }
}

/// Where the copy blocks of a text begin, in characters.
pub fn copy_block_starts(text: &str) -> (r: Vec<usize>)
    ensures
        r@.map_values(|o: usize| o as int) == copy_starts(text@, 0),
        r@.len() <= text@.len(),
        forall|k: int| 0 <= k < r@.len() ==> #[trigger] r@[k] + 13 <= text@.len(),
{
    let v = chars_of(text);
    let n: usize = v.len();
    let open = chars_of("{copy}");
    let close = chars_of("{/copy}");
    let mut r: Vec<usize> = Vec::new();
    let mut i: usize = 0;
    proof {
        crate::body::lemma_marks();
        assert(copy_starts(v@, 0) =~= r@.map_values(|o: usize| o as int) + copy_starts(v@, 0));
    }
    loop
        invariant_except_break
            i <= n,
            n == v@.len(),
            v@ == text@,
            open@ == crate::body::copy_open(),
            close@ == crate::body::copy_close(),
            open@.len() == 6,
            close@.len() == 7,
            r@.len() <= i,
            forall|k: int| 0 <= k < r@.len() ==> #[trigger] r@[k] + 13 <= n,
            copy_starts(v@, 0) == r@.map_values(|o: usize| o as int) + copy_starts(v@, i as int),
        ensures
            n == text@.len(),
            r@.len() <= n,
            forall|k: int| 0 <= k < r@.len() ==> #[trigger] r@[k] + 13 <= n,
            copy_starts(text@, 0) == r@.map_values(|o: usize| o as int),
        decreases n - i,
    {
        let ghost before = r@.map_values(|o: usize| o as int);
        proof {
            crate::text::lemma_find_at(v@, open@, i as int);
        }
        let o: usize = match find_from(&v, &open, i) {
            Some(o) => o,
            None => {
                assert(before + copy_starts(v@, i as int) =~= before);
                break;
            },
        };
        proof {
            crate::text::lemma_find_at(v@, close@, o + 6);
        }
        let c: usize = match find_from(&v, &close, o + 6) {
            Some(c) => c,
            None => {
                assert(before + copy_starts(v@, i as int) =~= before);
                break;
            },
        };
        r.push(o);
        assert(r@.map_values(|o: usize| o as int) =~= before.push(o as int));
        assert(before + (seq![o as int] + copy_starts(v@, c + 7)) =~= r@.map_values(
            |o: usize| o as int,
        ) + copy_starts(v@, c + 7));
        i = c + 7;
    }
    r
}

/// How many of the first `n` positions lie before `limit`.
pub open spec fn count_before(starts: Seq<int>, limit: int, n: int) -> int
    decreases n,
{
    if n <= 0 {
        0
    } else {
        count_before(starts, limit, n - 1) + (if starts[n - 1] < limit {
            1int
        } else {
            0
        })
    }
}

/// How many copy blocks begin before this position: each has a widget in front of it once
/// it is shown.
pub fn copy_blocks_before_char_offset(body: &str, char_offset: i32) -> (r: i32)
    requires
        body@.len() <= i32::MAX,
    ensures
        r == count_before(
            copy_starts(body@, 0),
            char_offset as int,
            copy_starts(body@, 0).len() as int,
        ),
        0 <= r <= body@.len(),
{
    let starts = copy_block_starts(body);
    let ghost all = starts@.map_values(|o: usize| o as int);
    let mut count: i32 = 0;
    let mut i: usize = 0;
    while i < starts.len()
        invariant
            i <= starts@.len(),
            starts@.len() <= i32::MAX,
            all == starts@.map_values(|o: usize| o as int),
            0 <= count <= i,
            count == count_before(all, char_offset as int, i as int),
        decreases starts@.len() - i,
    {
        assert(all[i as int] == starts@[i as int]);
        if char_offset > 0 && starts[i] < char_offset as usize {
            count += 1;
        }
        i += 1;
    }
    assert(all.len() == starts@.len());
    count
}

/// Where the cursor goes when the copy blocks before it are shown.
pub open spec fn shown_cursor(body: Seq<char>, cursor: int, end: int) -> int {
    let to = cursor + count_before(
        copy_starts(body, 0),
        cursor,
        copy_starts(body, 0).len() as int,
    );
    if to > end {
        end
    } else {
        to
    }
}

/// Where the cursor goes when the copy blocks before it are shown: behind their widgets,
/// and not behind the end.
pub fn rendered_cursor(body: &str, cursor: i32, end: i32) -> (r: i32)
    requires
        body@.len() <= i32::MAX,
        0 <= cursor,
        0 <= end,
    ensures
        r == shown_cursor(body@, cursor as int, end as int),
{
    let to: i64 = cursor as i64 + copy_blocks_before_char_offset(body, cursor) as i64;
    if to > end as i64 {
        end
    } else {
        to as i32
    }
}

/// Whether the text holds a copy block that is not shown as one yet. `hidden` says of each
/// character whether it is a copy block's hidden source. The character behind a block's
/// first one is asked: at the boundary itself the answer is not settled.
pub fn has_unrendered_copy_block(text: &str, hidden: &Vec<bool>) -> (r: bool)
    requires
        hidden@.len() == text@.len(),
    ensures
        r == exists|k: int|
            0 <= k < copy_starts(text@, 0).len() && !hidden@[#[trigger] copy_starts(text@, 0)[k]
                + 1],
{
    let starts = copy_block_starts(text);
    let ghost all = starts@.map_values(|o: usize| o as int);
    let mut i: usize = 0;
    while i < starts.len()
        invariant
            i <= starts@.len(),
            hidden@.len() == text@.len(),
            all == starts@.map_values(|o: usize| o as int),
            all == copy_starts(text@, 0),
            forall|k: int| 0 <= k < starts@.len() ==> #[trigger] starts@[k] + 13 <= text@.len(),
            forall|k: int| 0 <= k < i ==> hidden@[#[trigger] all[k] + 1],
        decreases starts@.len() - i,
    {
        assert(all[i as int] == starts@[i as int]);
        assert(starts@[i as int] + 13 <= text@.len());
        let n: usize = hidden.len();
        assert(starts@[i as int] + 1 < n);
        if !hidden[starts[i] + 1] {
            return true;
        }
        i += 1;
    }
    assert(all.len() == starts@.len());
    false
}

// ───────────────────────────── links ─────────────────────────────
/// The length of the scheme that stands at `i`, or 0.
pub open spec fn scheme_len(s: Seq<char>, i: int) -> int {
    if crate::text::stands_at(s, i, "https://"@) {
        8
    } else if crate::text::stands_at(s, i, "http://"@) {
        7
    } else {
        0
    }
}

pub fn url_prefix_len(chars: &Vec<char>, i: usize) -> (r: usize)
    ensures
        r == scheme_len(chars@, i as int),
{
    if starts_at(chars, i, &chars_of("https://")) {
        8
    } else if starts_at(chars, i, &chars_of("http://")) {
        7
    } else {
        0
    }
}

/// Whether a link goes on with `c`.
pub open spec fn in_link(c: char) -> bool {
    !crate::text::is_space(c) && c != ')' && c != ']' && c != '<' && c != '>' && c != '"' && c
        != '\'' && c != '`'
}

pub fn is_url_char(c: char) -> (r: bool)
    ensures
        r == in_link(c),
{
    !c.is_whitespace() && c != ')' && c != ']' && c != '<' && c != '>' && c != '"' && c != '\'' && c
        != '`'
}

/// Whether `c` belongs to the sentence around a link rather than to the link's end.
pub open spec fn ends_sentence(c: char) -> bool {
    c == '.' || c == ',' || c == ';' || c == ':' || c == '!' || c == '?'
}

pub fn is_trailing_punct(c: char) -> (r: bool)
    ensures
        r == ends_sentence(c),
{
    c == '.' || c == ',' || c == ';' || c == ':' || c == '!' || c == '?'
}

/// The first position from `i` on that no link goes on with.
pub open spec fn link_run(s: Seq<char>, i: int) -> int
    decreases s.len() - i,
{
    if i < 0 || i >= s.len() || !in_link(s[i]) {
        i
    } else {
        link_run(s, i + 1)
    }
}

/// `end` moved back over what ends a sentence, but not before `from`.
pub open spec fn without_punct(s: Seq<char>, from: int, end: int) -> int
    decreases end,
{
    if end <= from || end <= 0 || !ends_sentence(s[end - 1]) {
        end
    } else {
        without_punct(s, from, end - 1)
    }
}

/// Where the link that begins at `i` ends.
pub open spec fn link_end(s: Seq<char>, i: int) -> int {
    let from = i + scheme_len(s, i);
    without_punct(s, from, link_run(s, from))
}

pub proof fn lemma_link_run(s: Seq<char>, i: int)
    requires
        0 <= i <= s.len(),
    ensures
        i <= link_run(s, i) <= s.len(),
        forall|k: int| i <= k < link_run(s, i) ==> in_link(#[trigger] s[k]),
    decreases s.len() - i,
{
    if i < s.len() && in_link(s[i]) {
        lemma_link_run(s, i + 1);
    }
}

pub proof fn lemma_without_punct(s: Seq<char>, from: int, end: int)
    requires
        0 <= from <= end <= s.len(),
    ensures
        from <= without_punct(s, from, end) <= end,
        without_punct(s, from, end) > from ==> !ends_sentence(s[without_punct(s, from, end) - 1]),
    decreases end,
{
    if end > from && ends_sentence(s[end - 1]) {
        lemma_without_punct(s, from, end - 1);
    }
}

pub proof fn lemma_scheme(s: Seq<char>, i: int)
    ensures
        scheme_len(s, i) > 0 ==> 0 <= i && i + scheme_len(s, i) <= s.len(),
{
    reveal_strlit("https://");
    reveal_strlit("http://");
}

/// The links of `s` from `i` on, each with its position and its length. A scheme alone is
/// no link.
pub open spec fn links(s: Seq<char>, i: int) -> Seq<(int, int)>
    decreases s.len() - i,
{
    if i < 0 || i >= s.len() {
        Seq::empty()
    } else if scheme_len(s, i) == 0 {
        links(s, i + 1)
    } else {
        proof {
            lemma_scheme(s, i);
            lemma_link_run(s, i + scheme_len(s, i));
            lemma_without_punct(s, i + scheme_len(s, i), link_run(s, i + scheme_len(s, i)));
        }
        let end = link_end(s, i);
        (if end > i + scheme_len(s, i) {
            seq![(i, end - i)]
        } else {
            Seq::empty()
        }) + links(s, end)
    }
}

pub open spec fn link_views(v: Seq<(usize, usize)>) -> Seq<(int, int)> {
    v.map_values(|l: (usize, usize)| (l.0 as int, l.1 as int))
}

/// Every `http://…` and `https://…` in a text: position and length, in characters.
pub fn find_urls(text: &str) -> (r: Vec<(usize, usize)>)
    ensures
        link_views(r@) == links(text@, 0),
{
    let v = chars_of(text);
    let n: usize = v.len();
    let mut out: Vec<(usize, usize)> = Vec::new();
    let mut i: usize = 0;
    assert(links(v@, 0) =~= link_views(out@) + links(v@, 0));
    while i < n
        invariant
            i <= n,
            n == v@.len(),
            v@ == text@,
            links(v@, 0) == link_views(out@) + links(v@, i as int),
        decreases n - i,
    {
        let ghost before = link_views(out@);
        proof {
            lemma_scheme(v@, i as int);
        }
        let prefix: usize = url_prefix_len(&v, i);
        if prefix == 0 {
            i += 1;
            continue;
        }
        let from: usize = i + prefix;
        proof {
            lemma_link_run(v@, from as int);
            lemma_without_punct(v@, from as int, link_run(v@, from as int));
        }
        let mut end: usize = from;
        while end < n && is_url_char(v[end])
            invariant
                from <= end <= n,
                n == v@.len(),
                link_run(v@, from as int) == link_run(v@, end as int),
            decreases n - end,
        {
            end += 1;
        }
        while end > from && is_trailing_punct(v[end - 1])
            invariant
                from <= end <= n,
                n == v@.len(),
                without_punct(v@, from as int, link_run(v@, from as int)) == without_punct(
                    v@,
                    from as int,
                    end as int,
                ),
            decreases end,
        {
            end -= 1;
        }
        if end > from {
            out.push((i, (end - i) as usize));
            assert(link_views(out@) =~= before.push((i as int, end - i)));
        }
        assert(links(v@, 0) =~= link_views(out@) + links(v@, end as int));
        i = end;
    }
    assert(links(v@, 0) =~= link_views(out@));
    out
}

/// Those of the first `n` links that do not begin in hidden text.
pub open spec fn open_links(all: Seq<(int, int)>, hidden: Seq<bool>, n: int) -> Seq<(int, int)>
    decreases n,
{
    if n <= 0 {
        Seq::empty()
    } else if hidden[all[n - 1].0] {
        open_links(all, hidden, n - 1)
    } else {
        open_links(all, hidden, n - 1).push(all[n - 1])
    }
}

/// The links that are underlined: those that do not begin in hidden text. `hidden` says of
/// each character whether it is hidden source.
pub fn shown_links(text: &str, hidden: &Vec<bool>) -> (r: Vec<(usize, usize)>)
    requires
        hidden@.len() == text@.len(),
    ensures
        link_views(r@) == open_links(links(text@, 0), hidden@, links(text@, 0).len() as int),
{
    let found = find_urls(text);
    let ghost all = link_views(found@);
    let mut r: Vec<(usize, usize)> = Vec::new();
    let mut i: usize = 0;
    assert(all.len() == found@.len());
    assert(link_views(r@) =~= open_links(all, hidden@, 0));
    while i < found.len()
        invariant
            i <= found@.len(),
            all == link_views(found@),
            all == links(text@, 0),
            hidden@.len() == text@.len(),
            link_views(r@) == open_links(all, hidden@, i as int),
        decreases found@.len() - i,
    {
        let ghost before = link_views(r@);
        proof {
            assert(all[i as int] == (found@[i as int].0 as int, found@[i as int].1 as int));
            law_links_are_links(text@, 0, i as int);
        }
        let link: (usize, usize) = found[i];
        if !hidden[link.0] {
            r.push(link);
            assert(link_views(r@) =~= before.push(all[i as int]));
        }
        i += 1;
    }
    r
}

// ───────────────────────────── embedded widgets ─────────────────────────────
/// The last widget at or before `i`.
pub open spec fn anchor_before(text: Seq<char>, i: int) -> Option<int>
    decreases i + 1,
{
    if i < 0 {
        None
    } else if text[i] == anchor_char() {
        Some(i)
    } else {
        anchor_before(text, i - 1)
    }
}

/// The end of the hidden source that goes on at `i`.
pub open spec fn hidden_end(hidden: Seq<bool>, i: int) -> int
    decreases hidden.len() - i,
{
    if i < 0 || i >= hidden.len() || !hidden[i] {
        i
    } else {
        hidden_end(hidden, i + 1)
    }
}

/// The widget, with its hidden source, that a keystroke at `cursor` would eat into. A
/// backspace eats the character before the cursor, a delete the one behind it.
pub open spec fn embed_at(
    text: Seq<char>,
    hidden: Seq<bool>,
    cursor: int,
    backward: bool,
) -> Option<(int, int)> {
    let probe = if backward {
        cursor - 1
    } else {
        cursor
    };
    if probe < 0 || probe >= text.len() {
        None
    } else if text[probe] == anchor_char() || hidden[probe] {
        match anchor_before(text, probe) {
            Some(a) => Some((a, hidden_end(hidden, a + 1))),
            None => None,
        }
    } else {
        None
    }
}

/// What is deleted when a keystroke at `cursor` hits a widget or its hidden source: both.
/// `hidden` says of each character whether it is hidden source.
pub fn adjacent_embed(text: &Vec<char>, hidden: &Vec<bool>, cursor: usize, backward: bool) -> (r:
    Option<(usize, usize)>)
    requires
        hidden@.len() == text@.len(),
    ensures
        match r {
            Some(e) => embed_at(text@, hidden@, cursor as int, backward) == Some(
                (e.0 as int, e.1 as int),
            ) && e.0 < e.1 <= text@.len(),
            None => embed_at(text@, hidden@, cursor as int, backward) is None,
        },
{
    if backward && cursor == 0 {
        return None;
    }
    let probe: usize = if backward {
        cursor - 1
    } else {
        cursor
    };
    let n: usize = text.len();
    if probe >= n {
        return None;
    }
    if text[probe] != '\u{FFFC}' && !hidden[probe] {
        return None;
    }
    let mut a: usize = probe;
    while text[a] != '\u{FFFC}'
        invariant
            a <= probe < n,
            n == text@.len(),
            hidden@.len() == n,
            anchor_before(text@, probe as int) == anchor_before(text@, a as int),
            text@[probe as int] == anchor_char() || hidden@[probe as int],
            probe == (if backward {
                cursor - 1
            } else {
                cursor as int
            }),
        decreases a,
    {
        if a == 0 {
            assert(anchor_before(text@, -1) is None);
            return None;
        }
        a -= 1;
    }
    let mut end: usize = a + 1;
    while end < n && hidden[end]
        invariant
            a < end <= n,
            n == text@.len(),
            hidden@.len() == n,
            hidden_end(hidden@, a + 1) == hidden_end(hidden@, end as int),
        decreases n - end,
    {
        end += 1;
    }
    Some((a, end))
}

// ───────────────────────────── pasted and dropped files ─────────────────────────────
/// Whether a clipboard with these types holds an image.
pub fn pastes_image(has_texture: bool, types: &Vec<String>) -> (r: bool)
    ensures
        r == (has_texture || exists|i: int|
            0 <= i < types@.len() && crate::text::has_prefix(
                (#[trigger] types@[i])@,
                "image/"@,
            )),
{
    if has_texture {
        return true;
    }
    let image = chars_of("image/");
    let mut i: usize = 0;
    while i < types.len()
        invariant
            i <= types@.len(),
            image@ == "image/"@,
            forall|k: int|
                0 <= k < i ==> !crate::text::has_prefix((#[trigger] types@[k])@, "image/"@),
        decreases types@.len() - i,
    {
        if starts_at(&chars_of(types[i].as_str()), 0, &image) {
            assert(crate::text::has_prefix(types@[i as int]@, "image/"@));
            return true;
        }
        i += 1;
    }
    false
}

/// What is done with a file that is dropped on the editor.
#[derive(Debug, Clone, Copy, PartialEq, Eq, Structural)]
pub enum DropKind {
    /// It is put into the open note.
    Image,
    /// It becomes a note.
    Text,
    /// Nothing.
    Other,
}

pub open spec fn drop_images() -> Seq<Seq<char>> {
    seq!["png"@, "jpg"@, "jpeg"@, "gif"@, "bmp"@, "webp"@]
}

pub open spec fn drop_texts() -> Seq<Seq<char>> {
    seq!["md"@, "markdown"@, "txt"@]
}

/// What a file with this ending, in lower case, is.
pub open spec fn drop_kind(ending: Seq<char>) -> DropKind {
    if drop_images().contains(ending) {
        DropKind::Image
    } else if drop_texts().contains(ending) {
        DropKind::Text
    } else {
        DropKind::Other
    }
}

fn among(list: &Vec<&'static str>, s: &str) -> (r: bool)
    ensures
        r == list@.map_values(|x: &'static str| x@).contains(s@),
{
    let ghost all = list@.map_values(|x: &'static str| x@);
    let mut i: usize = 0;
    while i < list.len()
        invariant
            i <= list@.len(),
            all == list@.map_values(|x: &'static str| x@),
            forall|k: int| 0 <= k < i ==> all[k] != s@,
        decreases list@.len() - i,
    {
        assert(all[i as int] == list@[i as int]@);
        if same_text(list[i], s) {
            assert(all.contains(s@));
            return true;
        }
        i += 1;
    }
    assert(all.len() == list@.len());
    false
}

pub fn drop_kind_of(ending: &str) -> (r: DropKind)
    ensures
        r == drop_kind(ending@),
{
    let images: Vec<&'static str> = vec!["png", "jpg", "jpeg", "gif", "bmp", "webp"];
    let texts: Vec<&'static str> = vec!["md", "markdown", "txt"];
    assert(images@.map_values(|x: &'static str| x@) =~= drop_images());
    assert(texts@.map_values(|x: &'static str| x@) =~= drop_texts());
    if among(&images, ending) {
        DropKind::Image
    } else if among(&texts, ending) {
        DropKind::Text
    } else {
        DropKind::Other
    }
}

/// The ending of a path's file, or nothing.
pub open spec fn path_ending(path: Seq<char>, system: System) -> Seq<char> {
    match crate::paths::file_name(path, system) {
        Some(name) => match crate::paths::extension(name) {
            Some(e) => crate::text::lowercase(e),
            None => Seq::empty(),
        },
        None => Seq::empty(),
    }
}

/// What is done with a dropped file, and its ending in lower case.
pub fn dropped_file(path: &str, system: System) -> (r: (DropKind, String))
    ensures
        r.1@ == path_ending(path@, system),
        r.0 == drop_kind(path_ending(path@, system)),
{
    let ending: String = match path_file_name(path, system) {
        Some(name) => match name_extension(name.as_str()) {
            Some(e) => to_lowercase(e.as_str()),
            None => String::new(),
        },
        None => String::new(),
    };
    assert(ending@ =~= path_ending(path@, system));
    (drop_kind_of(ending.as_str()), ending)
}

/// The name of a new image file.
pub fn image_file_name(unique: &str, ending: &str) -> (r: String)
    ensures
        r@ == unique@ + "."@ + ending@,
{
    let mut r = unique.to_owned();
    r.append(".");
    r.append(ending);
    r
}

/// The stem of a path's file, or a stand-in.
pub open spec fn path_stem(path: Seq<char>, system: System) -> Seq<char> {
    match crate::paths::file_name(path, system) {
        Some(name) => crate::paths::stem(name),
        None => "Note"@,
    }
}

/// The body of a note that is made from a text file.
pub open spec fn body_of_file(path: Seq<char>, content: Seq<char>, system: System) -> Seq<char> {
    if crate::note::title_of(content).len() == 0 {
        path_stem(path, system) + "\n\n"@ + content
    } else {
        content
    }
}

/// The body of a note that is made from a dropped text file. A text without a title of its
/// own gets the file's name as one.
pub fn dropped_text_body(path: &str, content: &str, system: System) -> (r: String)
    ensures
        r@ == body_of_file(path@, content@, system),
{
    if chars_of(Note::derive_title(content).as_str()).len() > 0 {
        return content.to_owned();
    }
    let mut r: String = match path_file_name(path, system) {
        Some(name) => name_stem(name.as_str()),
        None => "Note".to_owned(),
    };
    r.append("\n\n");
    r.append(content);
    r
}

// ───────────────────────────── laws ─────────────────────────────
/// The editor's text when these parts are loaded. `loaded` says of each part whether its
/// image could be loaded.
pub open spec fn editor_text(parts: Seq<crate::body::PartView>, loaded: Seq<bool>) -> Seq<char>
    decreases parts.len(),
{
    if parts.len() == 0 {
        Seq::empty()
    } else {
        (if is_widget(parts[0], loaded[0]) {
            seq![anchor_char()]
        } else {
            Seq::empty()
        }) + crate::body::part_source(parts[0]) + editor_text(parts.skip(1), loaded.skip(1))
    }
}

/// Whether `s` holds no character that stands for a widget.
pub open spec fn no_anchors(s: Seq<char>) -> bool {
    forall|i: int| 0 <= i < s.len() ==> #[trigger] s[i] != anchor_char()
}

proof fn lemma_saved_sum(a: Seq<char>, b: Seq<char>)
    ensures
        crate::text::replace_char(a + b, anchor_char(), ""@) == crate::text::replace_char(
            a,
            anchor_char(),
            ""@,
        ) + crate::text::replace_char(b, anchor_char(), ""@),
    decreases b.len(),
{
    let f = |s: Seq<char>| crate::text::replace_char(s, anchor_char(), ""@);
    if b.len() == 0 {
        assert(a + b =~= a);
        assert(f(a + b) =~= f(a) + f(b));
    } else {
        lemma_saved_sum(a, b.drop_last());
        assert((a + b).drop_last() =~= a + b.drop_last());
        let one = if b.last() == anchor_char() {
            ""@
        } else {
            seq![b.last()]
        };
        assert(f(a) + (f(b.drop_last()) + one) =~= f(a) + f(b.drop_last()) + one);
    }
}

proof fn lemma_saved_plain(s: Seq<char>)
    requires
        no_anchors(s),
    ensures
        crate::text::replace_char(s, anchor_char(), ""@) == s,
    decreases s.len(),
{
    if s.len() > 0 {
        assert(no_anchors(s.drop_last())) by {
            assert forall|i: int| 0 <= i < s.drop_last().len() implies #[trigger] s.drop_last()[i]
                != anchor_char() by {
                assert(s.drop_last()[i] == s[i]);
            }
        }
        lemma_saved_plain(s.drop_last());
        assert(s.drop_last() + seq![s.last()] =~= s);
    }
}

proof fn lemma_saved_anchor()
    ensures
        crate::text::replace_char(seq![anchor_char()], anchor_char(), ""@) == Seq::<char>::empty(),
        crate::text::replace_char(Seq::empty(), anchor_char(), ""@) == Seq::<char>::empty(),
{
    reveal_strlit("");
    reveal_with_fuel(crate::text::replace_char, 2);
    let one = seq![anchor_char()];
    assert(one.drop_last() =~= Seq::<char>::empty());
    assert(crate::text::replace_char(one, anchor_char(), ""@) =~= Seq::<char>::empty());
}

proof fn lemma_saved_parts(parts: Seq<crate::body::PartView>, loaded: Seq<bool>)
    requires
        no_anchors(crate::body::parts_source(parts)),
    ensures
        crate::text::replace_char(editor_text(parts, loaded), anchor_char(), ""@)
            == crate::body::parts_source(parts),
    decreases parts.len(),
{
    lemma_saved_anchor();
    if parts.len() > 0 {
        let source = crate::body::part_source(parts[0]);
        let rest = crate::body::parts_source(parts.skip(1));
        let all = crate::body::parts_source(parts);
        assert(no_anchors(source)) by {
            assert forall|i: int| 0 <= i < source.len() implies #[trigger] source[i]
                != anchor_char() by {
                assert(all[i] == source[i]);
            }
        }
        assert(no_anchors(rest)) by {
            assert forall|i: int| 0 <= i < rest.len() implies #[trigger] rest[i]
                != anchor_char() by {
                assert(all[source.len() + i] == rest[i]);
            }
        }
        lemma_saved_plain(source);
        lemma_saved_parts(parts.skip(1), loaded.skip(1));
        let mark = if is_widget(parts[0], loaded[0]) {
            seq![anchor_char()]
        } else {
            Seq::empty()
        };
        lemma_saved_sum(mark + source, editor_text(parts.skip(1), loaded.skip(1)));
        lemma_saved_sum(mark, source);
        assert(Seq::<char>::empty() + source =~= source);
    }
}

/// Saving gives back what was loaded: the editor's text for a body, without the characters
/// that stand for widgets, is the body, whichever of its images could be loaded. (A body
/// that holds such a character itself would lose it.)
pub proof fn law_saving_gives_the_loaded_body_back(body: Seq<char>, loaded: Seq<bool>)
    requires
        no_anchors(body),
    ensures
        crate::text::replace_char(
            editor_text(crate::body::body_parts(body, true), loaded),
            anchor_char(),
            ""@,
        ) == body,
{
    crate::body::law_parts_give_the_body_back(body, true);
    lemma_saved_parts(crate::body::body_parts(body, true), loaded);
}

/// Links stand in the text one after the other, begin with a scheme, go on only with what a
/// link can hold, and do not end with what ends a sentence.
pub proof fn law_links_are_links(s: Seq<char>, i: int, k: int)
    requires
        0 <= i <= s.len(),
        0 <= k < links(s, i).len(),
    ensures
        ({
            let (at, len) = links(s, i)[k];
            &&& i <= at && at + len <= s.len()
            &&& scheme_len(s, at) > 0 && len > scheme_len(s, at)
            &&& forall|j: int|
                at + scheme_len(s, at) <= j < at + len ==> in_link(#[trigger] s[j])
            &&& !ends_sentence(s[at + len - 1])
            &&& k > 0 ==> links(s, i)[k - 1].0 + links(s, i)[k - 1].1 <= at
        }),
    decreases s.len() - i,
{
    if i < s.len() {
        if scheme_len(s, i) == 0 {
            law_links_are_links(s, i + 1, k);
        } else {
            let from = i + scheme_len(s, i);
            lemma_scheme(s, i);
            lemma_link_run(s, from);
            lemma_without_punct(s, from, link_run(s, from));
            let end = link_end(s, i);
            if end > from {
                if k > 0 {
                    law_links_are_links(s, end, k - 1);
                    assert(links(s, i)[k] == links(s, end)[k - 1]);
                    if k > 1 {
                        assert(links(s, i)[k - 1] == links(s, end)[k - 2]);
                    }
                }
            } else {
                law_links_are_links(s, end, k);
                assert(links(s, i) =~= links(s, end));
            }
        }
    }
}

/// What a keystroke deletes with a widget begins with the widget and ends where its hidden
/// source does.
pub proof fn law_embeds_go_whole(text: Seq<char>, hidden: Seq<bool>, cursor: int, backward: bool)
    requires
        hidden.len() == text.len(),
    ensures
        embed_at(text, hidden, cursor, backward) matches Some(e) ==> {
            &&& 0 <= e.0 < e.1 <= text.len()
            &&& text[e.0] == anchor_char()
            &&& forall|k: int| e.0 < k < e.1 ==> #[trigger] hidden[k]
            &&& e.1 < text.len() ==> !hidden[e.1]
        },
{
    let probe = if backward {
        cursor - 1
    } else {
        cursor
    };
    if 0 <= probe < text.len() {
        lemma_anchor_before(text, probe);
        if let Some(a) = anchor_before(text, probe) {
            lemma_hidden_end(hidden, a + 1);
        }
    }
}

proof fn lemma_anchor_before(text: Seq<char>, i: int)
    requires
        i < text.len(),
    ensures
        anchor_before(text, i) matches Some(a) ==> 0 <= a <= i && text[a] == anchor_char(),
    decreases i + 1,
{
    if i >= 0 && text[i] != anchor_char() {
        lemma_anchor_before(text, i - 1);
    }
}

proof fn lemma_hidden_end(hidden: Seq<bool>, i: int)
    requires
        0 <= i <= hidden.len(),
    ensures
        i <= hidden_end(hidden, i) <= hidden.len(),
        forall|k: int| i <= k < hidden_end(hidden, i) ==> #[trigger] hidden[k],
        hidden_end(hidden, i) < hidden.len() ==> !hidden[hidden_end(hidden, i)],
    decreases hidden.len() - i,
{
    if i < hidden.len() && hidden[i] {
        lemma_hidden_end(hidden, i + 1);
    }
}

// ───────────────────────────── keys ─────────────────────────────
/// The keys that mean something to the window.
#[derive(Debug, Clone, Copy, PartialEq, Eq, Structural)]
pub enum Key {
    Escape,
    N,
    D,
    F,
    Z,
    V,
    BackSpace,
    Delete,
    Other,
}

/// What a key asks of the window.
#[derive(Debug, Clone, Copy, PartialEq, Eq, Structural)]
pub enum Shortcut {
    Hide,
    NewNote,
    DeleteNote,
    Search,
    /// The note that was deleted last comes back.
    UndoDelete,
    /// The open note gets an earlier body back. Where there is none, the editor undoes by
    /// itself.
    UndoText,
}

/// What a key asks for.
pub open spec fn asked(key: Key, ctrl: bool, shift: bool, has_deleted: bool) -> Option<Shortcut> {
    match key {
        Key::Escape => Some(Shortcut::Hide),
        Key::N => if ctrl {
            Some(Shortcut::NewNote)
        } else {
            None
        },
        Key::D => if ctrl {
            Some(Shortcut::DeleteNote)
        } else {
            None
        },
        Key::F => if ctrl {
            Some(Shortcut::Search)
        } else {
            None
        },
        Key::Z => if !ctrl || shift {
            None
        } else if has_deleted {
            Some(Shortcut::UndoDelete)
        } else {
            Some(Shortcut::UndoText)
        },
        _ => None,
    }
}

/// Escape hides the window; the other shortcuts need Ctrl. An undo brings deleted notes
/// back before it turns to the text.
pub fn shortcut(key: Key, ctrl: bool, shift: bool, has_deleted: bool) -> (r: Option<Shortcut>)
    ensures
        r == asked(key, ctrl, shift, has_deleted),
{
    let asked = match key {
        Key::Escape => {
            return Some(Shortcut::Hide);
        },
        Key::N => Shortcut::NewNote,
        Key::D => Shortcut::DeleteNote,
        Key::F => Shortcut::Search,
        Key::Z => {
            if shift {
                return None;
            }
            if has_deleted {
                Shortcut::UndoDelete
            } else {
                Shortcut::UndoText
            }
        },
        _ => {
            return None;
        },
    };
    if ctrl {
        Some(asked)
    } else {
        None
    }
}

/// Whether a key pastes, so that an image on the clipboard goes first.
pub fn is_paste(key: Key, ctrl: bool) -> (r: bool)
    ensures
        r == (ctrl && key == Key::V),
{
    ctrl && key == Key::V
}

/// The direction in which a key removes what is beside the cursor: backward, or not.
pub open spec fn removal(key: Key, ctrl: bool, alt: bool) -> Option<bool> {
    if ctrl || alt {
        None
    } else if key == Key::BackSpace {
        Some(true)
    } else if key == Key::Delete {
        Some(false)
    } else {
        None
    }
}

/// The direction in which a key removes what is beside the cursor, backward or forward.
/// With Ctrl or Alt the key means something else.
pub fn removes_backward(key: Key, ctrl: bool, alt: bool) -> (r: Option<bool>)
    ensures
        r == removal(key, ctrl, alt),
{
    if ctrl || alt {
        None
    } else if key == Key::BackSpace {
        Some(true)
    } else if key == Key::Delete {
        Some(false)
    } else {
        None
    }
}

/// Whether `c` ends every link: white space, or what closes a bracket or a quotation.
pub open spec fn closes_links(c: char) -> bool {
    crate::text::is_space(c) || seq![')', ']', '<', '>', '"', '\'', '`'].contains(c)
}

/// Whether `c` is a mark of the sentence around a link.
pub open spec fn is_sentence_mark(c: char) -> bool {
    seq!['.', ',', ';', ':', '!', '?'].contains(c)
}

/// Whether every link ends at `i` at the latest.
pub open spec fn stops_links(s: Seq<char>, i: int) -> bool {
    i == s.len() || (0 <= i < s.len() && closes_links(s[i]))
}

/// The end of the scheme that stands at `i`.
pub open spec fn scheme_ends(s: Seq<char>, i: int, from: int) -> bool {
    ||| from == i + 8 && crate::text::stands_at(s, i, "https://"@)
    ||| from == i + 7 && crate::text::stands_at(s, i, "http://"@)
}

proof fn lemma_link_chars(c: char)
    ensures
        in_link(c) == !closes_links(c),
        ends_sentence(c) == is_sentence_mark(c),
{
    let closers = seq![')', ']', '<', '>', '"', '\'', '`'];
    assert(closers[0] == ')' && closers[1] == ']' && closers[2] == '<' && closers[3] == '>'
        && closers[4] == '"' && closers[5] == '\'' && closers[6] == '`');
    let marks = seq!['.', ',', ';', ':', '!', '?'];
    assert(marks[0] == '.' && marks[1] == ',' && marks[2] == ';' && marks[3] == ':' && marks[4]
        == '!' && marks[5] == '?');
}

proof fn lemma_link_run_stops(s: Seq<char>, i: int)
    requires
        0 <= i <= s.len(),
    ensures
        i <= link_run(s, i) <= s.len(),
        stops_links(s, link_run(s, i)),
        forall|k: int| i <= k < link_run(s, i) ==> !closes_links(#[trigger] s[k]),
    decreases s.len() - i,
{
    if i < s.len() {
        lemma_link_chars(s[i]);
        if in_link(s[i]) {
            lemma_link_run_stops(s, i + 1);
        }
    }
}

proof fn lemma_link_run_passes(s: Seq<char>, i: int, q: int)
    requires
        0 <= i <= q < s.len(),
        forall|k: int| i <= k <= q ==> !closes_links(#[trigger] s[k]),
    ensures
        link_run(s, i) > q,
    decreases q - i,
{
    lemma_link_chars(s[i]);
    if i < q {
        lemma_link_run_passes(s, i + 1, q);
    } else {
        lemma_link_run_stops(s, i + 1);
    }
}

proof fn lemma_punct_only(s: Seq<char>, from: int, end: int)
    requires
        0 <= from <= end <= s.len(),
    ensures
        from <= without_punct(s, from, end) <= end,
        forall|k: int| without_punct(s, from, end) <= k < end ==> is_sentence_mark(#[trigger] s[k]),
        without_punct(s, from, end) > from ==> !is_sentence_mark(
            s[without_punct(s, from, end) - 1],
        ),
    decreases end,
{
    if end > from {
        lemma_link_chars(s[end - 1]);
        if ends_sentence(s[end - 1]) {
            lemma_punct_only(s, from, end - 1);
        }
    }
}

proof fn lemma_schemes(s: Seq<char>, i: int)
    requires
        scheme_len(s, i) > 0,
    ensures
        scheme_ends(s, i, i + scheme_len(s, i)),
        0 <= i && i + scheme_len(s, i) <= s.len(),
        s[i] == 'h',
        forall|k: int| i < k < i + scheme_len(s, i) ==> #[trigger] s[k] != 'h',
{
    reveal_strlit("https://");
    reveal_strlit("http://");
    let n = scheme_len(s, i);
    let t = s.subrange(i, i + n);
    assert(t[0] == s[i]);
    assert forall|k: int| i < k < i + n implies #[trigger] s[k] != 'h' by {
        assert(t[k - i] == s[k]);
    }
}

proof fn lemma_link_found(s: Seq<char>, i: int, p: int, from: int, q: int)
    requires
        0 <= i <= p,
        scheme_ends(s, p, from),
        from <= q < s.len(),
        forall|k: int| from <= k <= q ==> !closes_links(#[trigger] s[k]),
        !is_sentence_mark(s[q]),
    ensures
        exists|k: int|
            0 <= k < links(s, i).len() && (#[trigger] links(s, i)[k]).0 <= p && q < links(
                s,
                i,
            )[k].0 + links(s, i)[k].1,
    decreases s.len() - i,
{
    reveal_strlit("https://");
    reveal_strlit("http://");
    assert(!(crate::text::stands_at(s, p, "https://"@) && crate::text::stands_at(s, p, "http://"@)))
        by {
        if crate::text::stands_at(s, p, "https://"@) && crate::text::stands_at(s, p, "http://"@) {
            assert(s.subrange(p, p + 8)[4] == s[p + 4]);
            assert(s.subrange(p, p + 7)[4] == s[p + 4]);
        }
    }
    lemma_schemes(s, p);
    if scheme_len(s, i) == 0 {
        lemma_link_found(s, i + 1, p, from, q);
        assert(links(s, i) == links(s, i + 1));
    } else {
        lemma_schemes(s, i);
        let start = i + scheme_len(s, i);
        let run = link_run(s, start);
        let end = link_end(s, i);
        lemma_link_run_stops(s, start);
        lemma_punct_only(s, start, run);
        if p < run {
            assert(p == i || p >= start);
            assert(run > q) by {
                if p > i {
                    assert forall|k: int| start <= k <= q implies !closes_links(#[trigger] s[k]) by {
                        if k < from && k >= run {
                            lemma_scheme_is_link(s, p, k);
                        }
                    }
                    lemma_link_run_passes(s, start, q);
                } else {
                    lemma_link_run_passes(s, start, q);
                }
            }
            assert(end > q);
            assert(links(s, i)[0] == (i, end - i));
        } else {
            lemma_link_found(s, end, p, from, q);
            let own: int = if end > start {
                1
            } else {
                0
            };
            let k = choose|k: int|
                0 <= k < links(s, end).len() && (#[trigger] links(s, end)[k]).0 <= p && q < links(
                    s,
                    end,
                )[k].0 + links(s, end)[k].1;
            assert(links(s, i)[k + own] == links(s, end)[k]);
        }
    }
}

proof fn lemma_scheme_is_link(s: Seq<char>, p: int, k: int)
    requires
        scheme_len(s, p) > 0,
        p <= k < p + scheme_len(s, p),
    ensures
        !closes_links(s[k]),
{
    reveal_strlit("https://");
    reveal_strlit("http://");
    lemma_link_chars(s[k]);
    let t = s.subrange(p, p + scheme_len(s, p));
    assert(t[k - p] == s[k]);
}

/// A link is as long as it can be: behind its scheme it goes on to the first white space or
/// the first of `)`, `]`, `<`, `>`, `"`, `'` and `` ` ``, or to the end of the text, and from
/// there only `.`, `,`, `;`, `:`, `!` and `?` are taken off its end.
pub proof fn law_links_are_as_long_as_they_can_be(s: Seq<char>, k: int) -> (r: (int, int))
    requires
        0 <= k < links(s, 0).len(),
    ensures
        ({
            let (at, len) = links(s, 0)[k];
            let (from, stop) = r;
            &&& scheme_ends(s, at, from)
            &&& from < at + len <= stop <= s.len()
            &&& stops_links(s, stop)
            &&& forall|j: int| from <= j < stop ==> !closes_links(#[trigger] s[j])
            &&& forall|j: int| at + len <= j < stop ==> is_sentence_mark(#[trigger] s[j])
            &&& !is_sentence_mark(s[at + len - 1])
        }),
{
    law_links_are_links(s, 0, k);
    lemma_link_lengths(s, 0, k);
    let (at, len) = links(s, 0)[k];
    let from = at + scheme_len(s, at);
    lemma_schemes(s, at);
    lemma_link_run_stops(s, from);
    lemma_punct_only(s, from, link_run(s, from));
    (from, link_run(s, from))
}

proof fn lemma_link_lengths(s: Seq<char>, i: int, k: int)
    requires
        0 <= i,
        0 <= k < links(s, i).len(),
    ensures
        links(s, i)[k].0 + links(s, i)[k].1 == link_end(s, links(s, i)[k].0),
    decreases s.len() - i,
{
    if i < s.len() {
        if scheme_len(s, i) == 0 {
            lemma_link_lengths(s, i + 1, k);
        } else {
            let from = i + scheme_len(s, i);
            lemma_scheme(s, i);
            lemma_link_run(s, from);
            lemma_without_punct(s, from, link_run(s, from));
            let end = link_end(s, i);
            if end > from {
                if k > 0 {
                    lemma_link_lengths(s, end, k - 1);
                    assert(links(s, i)[k] == links(s, end)[k - 1]);
                }
            } else {
                lemma_link_lengths(s, end, k);
                assert(links(s, i) =~= links(s, end));
            }
        }
    }
}

/// Every link is found: where a scheme stands and goes on, without white space and the other
/// characters that end a link, to a character that ends no sentence, one link holds it all.
pub proof fn law_every_link_is_found(s: Seq<char>, at: int, from: int, q: int)
    requires
        0 <= at,
        scheme_ends(s, at, from),
        from <= q < s.len(),
        forall|k: int| from <= k <= q ==> !closes_links(#[trigger] s[k]),
        !is_sentence_mark(s[q]),
    ensures
        exists|k: int|
            0 <= k < links(s, 0).len() && (#[trigger] links(s, 0)[k]).0 <= at && q < links(
                s,
                0,
            )[k].0 + links(s, 0)[k].1,
{
    lemma_link_found(s, 0, at, from, q);
}

/// What the keys do: Escape alone hides the window; new note, delete and search are Ctrl with
/// N, D and F; Ctrl with Z and without Shift undoes, a deleted note first. Nothing else does
/// anything, and without Ctrl nothing but Escape does.
pub proof fn law_keys_do_what_they_say(key: Key, ctrl: bool, shift: bool, has_deleted: bool)
    ensures
        ({
            let r = asked(key, ctrl, shift, has_deleted);
            &&& r == Some(Shortcut::Hide) <==> key == Key::Escape
            &&& r == Some(Shortcut::NewNote) <==> ctrl && key == Key::N
            &&& r == Some(Shortcut::DeleteNote) <==> ctrl && key == Key::D
            &&& r == Some(Shortcut::Search) <==> ctrl && key == Key::F
            &&& r == Some(Shortcut::UndoDelete) <==> ctrl && !shift && key == Key::Z && has_deleted
            &&& r == Some(Shortcut::UndoText) <==> ctrl && !shift && key == Key::Z && !has_deleted
            &&& !ctrl && key != Key::Escape ==> r is None
        }),
{
}

/// Backspace removes backward and Delete forward, each on its own; no other key removes.
pub proof fn law_two_keys_remove(key: Key, ctrl: bool, alt: bool)
    ensures
        removal(key, ctrl, alt) == Some(true) <==> key == Key::BackSpace && !ctrl && !alt,
        removal(key, ctrl, alt) == Some(false) <==> key == Key::Delete && !ctrl && !alt,
{
}

/// Files are dropped by their endings: pictures are `png`, `jpg`, `jpeg`, `gif`, `bmp` and
/// `webp`, texts are `md`, `markdown` and `txt`, and everything else is neither.
pub proof fn law_files_are_dropped_by_ending(e: Seq<char>)
    ensures
        drop_kind(e) is Image <==> e == "png"@ || e == "jpg"@ || e == "jpeg"@ || e == "gif"@ || e
            == "bmp"@ || e == "webp"@,
        drop_kind(e) is Text <==> e == "md"@ || e == "markdown"@ || e == "txt"@,
{
    reveal_strlit("png");
    reveal_strlit("jpg");
    reveal_strlit("jpeg");
    reveal_strlit("gif");
    reveal_strlit("bmp");
    reveal_strlit("webp");
    reveal_strlit("md");
    reveal_strlit("markdown");
    reveal_strlit("txt");
    let a = drop_images();
    let b = drop_texts();
    assert(a[0] == "png"@ && a[1] == "jpg"@ && a[2] == "jpeg"@ && a[3] == "gif"@ && a[4] == "bmp"@
        && a[5] == "webp"@);
    assert(b[0] == "md"@ && b[1] == "markdown"@ && b[2] == "txt"@);
    assert("md"@.len() == 2 && "markdown"@.len() == 8 && "txt"@[0] == 't');
    assert("png"@[0] == 'p' && "jpg"@[0] == 'j' && "gif"@[0] == 'g' && "bmp"@[0] == 'b');
    assert("jpeg"@[0] == 'j' && "webp"@[0] == 'w');
}

/// A note from a text file holds the whole text, at its end; a text with a title of its own is
/// the note, and another one has the file's name in front.
pub proof fn law_dropped_texts_are_kept(path: Seq<char>, content: Seq<char>, system: System)
    ensures
        crate::text::has_suffix(body_of_file(path, content, system), content),
        crate::note::title_of(content).len() > 0 ==> body_of_file(path, content, system) == content,
        crate::note::title_of(content).len() == 0 ==> match crate::paths::file_name(path, system) {
            Some(name) => body_of_file(path, content, system) == crate::paths::stem(name)
                + seq!['\n', '\n'] + content,
            None => body_of_file(path, content, system) == seq!['N', 'o', 't', 'e', '\n', '\n']
                + content,
        },
{
    reveal_strlit("\n\n");
    reveal_strlit("Note");
    let r = body_of_file(path, content, system);
    assert(r.subrange(r.len() - content.len(), r.len() as int) =~= content);
    assert("\n\n"@ =~= seq!['\n', '\n']);
    assert("Note"@ + "\n\n"@ =~= seq!['N', 'o', 't', 'e', '\n', '\n']);
}

/// A copy block copies what stands between its marks: one line break behind the opening mark
/// and one before the closing mark are left out, and nothing else is.
pub proof fn law_copy_blocks_copy_their_text(t: Seq<char>)
    requires
        t.len() > 0,
        t[0] != '\n' && t[0] != '\r',
        t.last() != '\n' && t.last() != '\r',
    ensures
        payload(t) == t,
        payload(seq!['\n'] + t + seq!['\n']) == t,
        payload(seq!['\r', '\n'] + t + seq!['\r', '\n']) == t,
        payload(seq!['\n', '\n'] + t + seq!['\n', '\n']) == seq!['\n'] + t + seq!['\n'],
        payload(t + seq!['\n']) == t,
        payload(seq!['\n'] + t) == t,
{
    let n = t.len() as int;
    let a = seq!['\n'] + t + seq!['\n'];
    assert(a.skip(1) =~= t + seq!['\n']);
    assert((t + seq!['\n']).drop_last() =~= t);
    let b = seq!['\r', '\n'] + t + seq!['\r', '\n'];
    assert(b.skip(2) =~= t + seq!['\r', '\n']);
    assert((t + seq!['\r', '\n']).take(n) =~= t);
    let c = seq!['\n', '\n'] + t + seq!['\n', '\n'];
    assert(c.skip(1) =~= a + seq!['\n']);
    assert((a + seq!['\n']).drop_last() =~= a);
    assert(a[n] == t.last());
    assert((seq!['\n'] + t).skip(1) =~= t);
}

proof fn lemma_copy_starts(s: Seq<char>, i: int)
    requires
        0 <= i,
    ensures
        forall|k: int|
            0 <= k < copy_starts(s, i).len() ==> i <= #[trigger] copy_starts(s, i)[k]
                && crate::text::stands_at(s, copy_starts(s, i)[k], "{copy}"@),
        forall|j: int, k: int|
            0 <= j < k < copy_starts(s, i).len() ==> (#[trigger] copy_starts(s, i)[j]) + 13 <= (
            #[trigger] copy_starts(s, i)[k]),
    decreases s.len() - i,
{
    crate::body::lemma_marks();
    if i <= s.len() {
        crate::text::lemma_find_at(s, crate::body::copy_open(), i);
        if let Some(o) = crate::text::find_at(s, crate::body::copy_open(), i) {
            crate::text::lemma_find_at(s, crate::body::copy_close(), o + 6);
            if let Some(c) = crate::text::find_at(s, crate::body::copy_close(), o + 6) {
                lemma_copy_starts(s, c + 7);
                let all = copy_starts(s, i);
                let rest = copy_starts(s, c + 7);
                assert(all =~= seq![o] + rest);
                assert forall|k: int| 0 < k < all.len() implies #[trigger] all[k] == rest[k - 1] by {}
            }
        }
    }
}

/// Copy blocks begin with `{copy}`, one after the other, and the number of those before a
/// position splits them: all before it begin earlier, and none behind it does.
pub proof fn law_copy_blocks_are_counted(body: Seq<char>, limit: int, k: int)
    requires
        0 <= k < copy_starts(body, 0).len(),
    ensures
        ({
            let starts = copy_starts(body, 0);
            let count = count_before(starts, limit, starts.len() as int);
            &&& 0 <= count <= starts.len()
            &&& crate::text::stands_at(body, starts[k], "{copy}"@)
            &&& starts[k] < limit <==> k < count
        }),
{
    let starts = copy_starts(body, 0);
    lemma_copy_starts(body, 0);
    lemma_count_splits(starts, limit, starts.len() as int);
}

proof fn lemma_count_splits(starts: Seq<int>, limit: int, n: int)
    requires
        0 <= n <= starts.len(),
        forall|j: int, k: int|
            0 <= j < k < starts.len() ==> (#[trigger] starts[j]) + 13 <= (#[trigger] starts[k]),
    ensures
        0 <= count_before(starts, limit, n) <= n,
        forall|k: int|
            0 <= k < n ==> (#[trigger] starts[k] < limit <==> k < count_before(starts, limit, n)),
    decreases n,
{
    if n > 0 {
        lemma_count_splits(starts, limit, n - 1);
        let c = count_before(starts, limit, n - 1);
        if starts[n - 1] < limit && c < n - 1 {
            assert(starts[c] + 13 <= starts[n - 1]);
            assert(!(starts[c] < limit));
        }
    }
}

/// The cursor moves on by one for each copy block before it, and not past the end.
pub proof fn law_the_cursor_keeps_its_place(body: Seq<char>, cursor: int, end: int)
    requires
        cursor <= end,
    ensures
        ({
            let count = count_before(
                copy_starts(body, 0),
                cursor,
                copy_starts(body, 0).len() as int,
            );
            &&& cursor <= shown_cursor(body, cursor, end) <= end
            &&& cursor + count <= end ==> shown_cursor(body, cursor, end) == cursor + count
        }),
{
    lemma_copy_starts(body, 0);
    lemma_count_splits(copy_starts(body, 0), cursor, copy_starts(body, 0).len() as int);
}

/// An image that fits its box is shown as it is; a larger one is shown as it was shrunk, but
/// for a side that became less than 40 pixels.
pub proof fn law_images_fit_their_box(w: int, h: int, max_w: int, max_h: int, shrunk: (int, int))
    requires
        w > 0 && h > 0,
    ensures
        w <= max_w && h <= max_h ==> fitted(w, h, max_w, max_h, shrunk) == (w, h),
        !(w <= max_w && h <= max_h) && shrunk.0 >= 40 && shrunk.1 >= 40 ==> fitted(
            w,
            h,
            max_w,
            max_h,
            shrunk,
        ) == shrunk,
        40 <= max_w && 40 <= max_h && shrunk.0 <= max_w && shrunk.1 <= max_h ==> fitted(
            w,
            h,
            max_w,
            max_h,
            shrunk,
        ).0 <= max_w && fitted(w, h, max_w, max_h, shrunk).1 <= max_h,
{
}

/// The links that are shown are exactly those that begin in no hidden text, in their order.
pub proof fn law_hidden_links_are_not_shown(
    all: Seq<(int, int)>,
    hidden: Seq<bool>,
    n: int,
    l: (int, int),
)
    requires
        0 <= n <= all.len(),
    ensures
        open_links(all, hidden, n) == all.take(n).filter(|x: (int, int)| !hidden[x.0]),
        open_links(all, hidden, n).contains(l) <==> all.take(n).contains(l) && !hidden[l.0],
    decreases n,
{
    let p = |x: (int, int)| !hidden[x.0];
    lemma_open_links(all, hidden, n);
    let t = all.take(n);
    broadcast use vstd::seq_lib::group_filter_ensures;

    if t.contains(l) && !hidden[l.0] {
        let i = choose|i: int| 0 <= i < t.len() && t[i] == l;
        assert(p(t[i]));
        assert(t.filter(p).contains(t[i]));
    }
    if t.filter(p).contains(l) {
        let i = choose|i: int| 0 <= i < t.filter(p).len() && t.filter(p)[i] == l;
        assert(p(t.filter(p)[i]));
        t.lemma_filter_contains_rev(p, l);
    }
}

proof fn lemma_open_links(all: Seq<(int, int)>, hidden: Seq<bool>, n: int)
    requires
        0 <= n <= all.len(),
    ensures
        open_links(all, hidden, n) == all.take(n).filter(|x: (int, int)| !hidden[x.0]),
    decreases n,
{
    reveal(Seq::filter);
    if n > 0 {
        lemma_open_links(all, hidden, n - 1);
        assert(all.take(n).drop_last() =~= all.take(n - 1));
        assert(all.take(n).last() == all[n - 1]);
    } else {
        assert(all.take(0) =~= Seq::empty());
        assert(all.take(0).filter(|x: (int, int)| !hidden[x.0]) =~= Seq::empty());
    }
}

/// A keystroke takes a widget exactly where it hits one or hidden text behind one: a backspace
/// hits the character before the cursor, a delete the one behind it. The widget is the last
/// one up to that character.
pub proof fn law_keystrokes_hit_what_is_beside_them(
    text: Seq<char>,
    hidden: Seq<bool>,
    cursor: int,
    backward: bool,
)
    requires
        hidden.len() == text.len(),
    ensures
        ({
            let probe = if backward {
                cursor - 1
            } else {
                cursor
            };
            let hit = 0 <= probe < text.len() && (text[probe] == '\u{FFFC}' || hidden[probe]);
            match embed_at(text, hidden, cursor, backward) {
                Some(e) => hit && e.0 <= probe && text[e.0] == '\u{FFFC}' && forall|k: int|
                    e.0 < k <= probe ==> #[trigger] text[k] != '\u{FFFC}',
                None => hit ==> forall|k: int| 0 <= k <= probe ==> #[trigger] text[k] != '\u{FFFC}',
            }
        }),
{
    let probe = if backward {
        cursor - 1
    } else {
        cursor
    };
    if 0 <= probe < text.len() {
        lemma_last_anchor(text, probe);
    }
}

proof fn lemma_last_anchor(text: Seq<char>, i: int)
    requires
        i < text.len(),
    ensures
        match anchor_before(text, i) {
            Some(a) => 0 <= a <= i && text[a] == '\u{FFFC}' && forall|k: int|
                a < k <= i ==> #[trigger] text[k] != '\u{FFFC}',
            None => forall|k: int| 0 <= k <= i ==> #[trigger] text[k] != '\u{FFFC}',
        },
    decreases i + 1,
{
    if i >= 0 && text[i] != anchor_char() {
        lemma_last_anchor(text, i - 1);
    }
}

/// A widget stands for an image that could be loaded and for every copy block, and never for
/// text; its source is what the body has.
pub proof fn law_widgets_stand_for_images_and_copies(t: Seq<char>, loaded: bool)
    ensures
        !is_widget(crate::body::PartView::Text(t), loaded),
        is_widget(crate::body::PartView::Image(t), loaded) <==> loaded,
        is_widget(crate::body::PartView::CopyBlock(t), loaded),
        crate::body::part_source(crate::body::PartView::Text(t)) == t,
        crate::body::part_source(crate::body::PartView::Image(t)) == "![image]("@ + t + ")"@,
        crate::body::part_source(crate::body::PartView::CopyBlock(t)) == "{copy}"@ + t + "{/copy}"@,
{
}

proof fn lemma_copy_starts_shift(s: Seq<char>, n: int, i: int)
    requires
        0 <= n <= i,
        n <= s.len(),
    ensures
        copy_starts(s, i) == copy_starts(s.skip(n), i - n).map_values(|o: int| o + n),
    decreases s.len() - i,
{
    crate::body::lemma_marks();
    let t = s.skip(n);
    let f = |o: int| o + n;
    if i <= s.len() {
        crate::text::lemma_find_at(s, crate::body::copy_open(), i);
        crate::body::lemma_find_at_shift(s, crate::body::copy_open(), n, i);
        match crate::text::find_at(s, crate::body::copy_open(), i) {
            Some(o) => {
                crate::text::lemma_find_at(s, crate::body::copy_close(), o + 6);
                crate::body::lemma_find_at_shift(s, crate::body::copy_close(), n, o + 6);
                match crate::text::find_at(s, crate::body::copy_close(), o + 6) {
                    Some(c) => {
                        lemma_copy_starts_shift(s, n, c + 7);
                        let rest = copy_starts(t, c + 7 - n);
                        assert(copy_starts(t, i - n) =~= seq![o - n] + rest);
                        assert((seq![o - n] + rest).map_values(f) =~= seq![o] + rest.map_values(f));
                    },
                    None => {
                        assert(copy_starts(t, i - n).map_values(f) =~= Seq::empty());
                    },
                }
            },
            None => {
                assert(copy_starts(t, i - n).map_values(f) =~= Seq::empty());
            },
        }
    } else {
        assert(copy_starts(t, i - n).map_values(f) =~= Seq::empty());
    }
}

/// Every copy block is found where it begins: behind some text, at the text's end, and those
/// of what follows it are found there.
pub proof fn law_every_copy_block_is_found(t: Seq<char>, content: Seq<char>, rest: Seq<char>)
    requires
        !t.contains('{'),
        !content.contains('{'),
    ensures
        copy_starts(t + "{copy}"@ + content + "{/copy}"@ + rest, 0) == seq![t.len() as int]
            + copy_starts(rest, 0).map_values(|o: int| o + t.len() + content.len() + 13),
        copy_starts(t, 0).len() == 0,
{
    crate::body::lemma_marks();
    reveal_strlit("{copy}");
    reveal_strlit("{/copy}");
    let s = t + "{copy}"@ + content + "{/copy}"@ + rest;
    let n = t.len() as int;
    let e = n + 6 + content.len();
    crate::text::lemma_find_at(s, crate::body::copy_open(), 0);
    assert(s.subrange(n, n + 6) =~= "{copy}"@);
    assert(crate::text::stands_at(s, n, crate::body::copy_open()));
    assert forall|k: int| 0 <= k < n implies !crate::text::stands_at(s, k, crate::body::copy_open()) by {
        if crate::text::stands_at(s, k, crate::body::copy_open()) {
            assert(s.subrange(k, k + 6)[0] == s[k]);
            assert(s[k] == t[k]);
            assert(t.contains(t[k]));
        }
    }
    assert(crate::text::find_at(s, crate::body::copy_open(), 0) == Some(n));
    crate::text::lemma_find_at(s, crate::body::copy_close(), n + 6);
    assert(s.subrange(e, e + 7) =~= "{/copy}"@);
    assert(crate::text::stands_at(s, e, crate::body::copy_close()));
    assert forall|k: int| n + 6 <= k < e implies !crate::text::stands_at(
        s,
        k,
        crate::body::copy_close(),
    ) by {
        if crate::text::stands_at(s, k, crate::body::copy_close()) {
            assert(s.subrange(k, k + 7)[0] == s[k]);
            assert(s[k] == content[k - n - 6]);
            assert(content.contains(content[k - n - 6]));
        }
    }
    assert(crate::text::find_at(s, crate::body::copy_close(), n + 6) == Some(e));
    assert(s.skip(e + 7) =~= rest);
    lemma_copy_starts_shift(s, e + 7, e + 7);
    assert(copy_starts(rest, 0).map_values(|o: int| o + (e + 7)) =~= copy_starts(rest, 0).map_values(
        |o: int| o + t.len() + content.len() + 13,
    ));
    crate::text::lemma_find_at(t, crate::body::copy_open(), 0);
    if let Some(k) = crate::text::find_at(t, crate::body::copy_open(), 0) {
        assert(t.subrange(k, k + 6)[0] == t[k]);
        assert(t.contains(t[k]));
    }
}

/// A dropped file goes by the ending of its name, in small letters; one without an ending has
/// none.
pub proof fn law_endings_are_those_of_the_name(dir: Seq<char>, s: Seq<char>, e: Seq<char>)
    requires
        s.len() > 0,
        !e.contains('.'),
        crate::paths::is_plain_name(s.push('.') + e),
    ensures
        path_ending(
            crate::paths::joined_path(dir, s.push('.') + e, System::Unix),
            System::Unix,
        ) == crate::text::lowercase(e),
        crate::paths::is_plain_name(e) ==> path_ending(
            crate::paths::joined_path(dir, e, System::Unix),
            System::Unix,
        ).len() == 0,
{
    crate::paths::law_joined_names_come_back(dir, s.push('.') + e);
    crate::paths::law_extensions_follow_the_last_point(s, e);
    if crate::paths::is_plain_name(e) {
        crate::paths::law_joined_names_come_back(dir, e);
    }
}

/// An image without a size takes a square of 160 pixels, or as much of it as the box has.
pub proof fn law_images_without_a_size_take_a_square(
    w: int,
    h: int,
    max_w: int,
    max_h: int,
    shrunk: (int, int),
)
    requires
        w <= 0 || h <= 0,
    ensures
        ({
            let r = fitted(w, h, max_w, max_h, shrunk);
            &&& r.0 <= 160 && r.0 <= max_w && (r.0 == 160 || r.0 == max_w)
            &&& r.1 <= 160 && r.1 <= max_h && (r.1 == 160 || r.1 == max_h)
        }),
{
}

/// A note is saved 400 ms after the last keystroke, and its images are shown in a box of 400 by
/// 260 pixels.
pub proof fn law_limits_of_the_window()
    ensures
        AUTOSAVE_DEBOUNCE_MS == 400,
        IMAGE_MAX_W == 400 && IMAGE_MAX_H == 260,
{
}

}
