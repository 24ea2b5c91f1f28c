//! Which runs of a note's text are markdown, and which characters of them are markers.
//!
//! Offsets count characters. A span covers the whole construct (`**bold**`); its
//! markers are the characters to hide while the cursor is on another line.

use crate::text::{chars_of, find_char, find_char_from, is_alnum, lemma_find_char};
use vstd::prelude::*;

verus! {

/// What a span is styled as.
#[derive(Debug, Clone, Copy, PartialEq, Eq, Structural)]
pub enum Kind {
    Bold,
    Italic,
    Code,
    CodeBlock,
    H1,
    H2,
    List,
}

/// A run of markdown: its range of offsets, and the ranges of its markers.
#[derive(Debug)]
pub struct MdSpan {
    pub kind: Kind,
    pub full: (usize, usize),
    /// Marker ranges to hide (the opening and the closing `**`, for one).
    pub markers: Vec<(usize, usize)>,
}

/// A span, as offsets.
#[verifier::ext_equal]
pub struct SpanView {
    pub kind: Kind,
    pub full: (int, int),
    pub markers: Seq<(int, int)>,
}

/// A range of machine offsets as a range of offsets.
pub open spec fn range_of(r: (usize, usize)) -> (int, int) {
    (r.0 as int, r.1 as int)
}

/// Ranges of machine offsets as ranges of offsets.
pub open spec fn ranges_of(v: Seq<(usize, usize)>) -> Seq<(int, int)> {
    v.map_values(|r: (usize, usize)| range_of(r))
}

impl View for MdSpan {
    type V = SpanView;

    open spec fn view(&self) -> SpanView {
        SpanView {
            kind: self.kind,
            full: range_of(self.full),
            markers: ranges_of(self.markers@),
        }
    }
}

/// The spans that a sequence of `MdSpan`s stands for.
pub open spec fn span_views(v: Seq<MdSpan>) -> Seq<SpanView> {
    v.map_values(|x: MdSpan| x@)
}

// ───────────────────────────── lines and fences ─────────────────────────────
/// The end of the line that position `i` is on: its newline, or the end of the text.
pub open spec fn line_end(s: Seq<char>, i: int) -> int {
    match find_char(s, '\n', i) {
        Some(k) => k,
        None => s.len() as int,
    }
}

/// Whether three backticks stand at `i`.
pub open spec fn fence_at(s: Seq<char>, i: int) -> bool {
    0 <= i && i + 2 < s.len() && s[i] == '`' && s[i + 1] == '`' && s[i + 2] == '`'
}

/// The first fence at the start of a line, from position `k` on. `sol` says whether `k`
/// itself starts a line.
pub open spec fn fence_close(s: Seq<char>, k: int, sol: bool) -> Option<int>
    decreases s.len() - k,
{
    if k >= s.len() {
        None
    } else if sol && fence_at(s, k) {
        Some(k)
    } else {
        fence_close(s, k + 1, s[k] == '\n')
    }
}

/// The start of the line after the one that `i` is on, or the end of the text.
pub open spec fn next_line(s: Seq<char>, i: int) -> int {
    let e = line_end(s, i);
    if e < s.len() {
        e + 1
    } else {
        e
    }
}

/// The fenced code blocks from position `i` on: from an opening fence at the start of a
/// line to the end of the line of the closing one, or to the end of the text.
pub open spec fn fenced(s: Seq<char>, i: int, sol: bool) -> Seq<(int, int)>
    decreases s.len() - i,
{
    if i < 0 || i >= s.len() {
        Seq::empty()
    } else if sol && fence_at(s, i) {
        match fence_close(s, next_line(s, i + 3), true) {
            None => seq![(i, s.len() as int)],
            Some(k) => {
                let e = line_end(s, k + 3);
                proof {
                    lemma_next_line(s, i + 3);
                    lemma_fence_close(s, next_line(s, i + 3), true);
                    lemma_line_end(s, k + 3);
                }
                seq![(i, e)] + if e < s.len() {
                    fenced(s, e + 1, true)
                } else {
                    Seq::empty()
                }
            },
        }
    } else {
        fenced(s, i + 1, s[i] == '\n')
    }
}

pub proof fn lemma_line_end(s: Seq<char>, i: int)
    requires
        0 <= i,
    ensures
        i <= s.len() ==> i <= line_end(s, i) <= s.len(),
        i > s.len() ==> line_end(s, i) == s.len(),
        line_end(s, i) < s.len() ==> s[line_end(s, i)] == '\n',
        forall|j: int| i <= j < line_end(s, i) ==> s[j] != '\n',
{
    lemma_find_char(s, '\n', i);
}

pub proof fn lemma_next_line(s: Seq<char>, i: int)
    requires
        0 <= i <= s.len(),
    ensures
        i <= next_line(s, i) <= s.len(),
{
    lemma_line_end(s, i);
}

pub proof fn lemma_fence_close(s: Seq<char>, k: int, sol: bool)
    requires
        0 <= k,
    ensures
        fence_close(s, k, sol) matches Some(j) ==> k <= j && fence_at(s, j),
    decreases s.len() - k,
{
    if k < s.len() && !(sol && fence_at(s, k)) {
        lemma_fence_close(s, k + 1, s[k] == '\n');
    }
}

// ───────────────────────────── inline delimiters ─────────────────────────────
/// The first `delim` from `k` on that is on the same line.
pub open spec fn close_at(s: Seq<char>, k: int, delim: char) -> Option<int>
    decreases s.len() - k,
{
    if k >= s.len() || s[k] == '\n' {
        None
    } else if s[k] == delim {
        Some(k)
    } else {
        close_at(s, k + 1, delim)
    }
}

/// The first pair of `delim` from `k` on that is in the same paragraph.
pub open spec fn close_pair_at(s: Seq<char>, k: int, delim: char) -> Option<int>
    decreases s.len() - k,
{
    if k + 1 >= s.len() || (s[k] == '\n' && s[k + 1] == '\n') {
        None
    } else if s[k] == delim && s[k + 1] == delim {
        Some(k)
    } else {
        close_pair_at(s, k + 1, delim)
    }
}

pub proof fn lemma_close_at(s: Seq<char>, k: int, delim: char)
    requires
        0 <= k,
    ensures
        close_at(s, k, delim) matches Some(e) ==> {
            &&& k <= e < s.len()
            &&& s[e] == delim
            &&& forall|j: int| k <= j < e ==> s[j] != '\n' && s[j] != delim
        },
    decreases s.len() - k,
{
    if k < s.len() && s[k] != '\n' && s[k] != delim {
        lemma_close_at(s, k + 1, delim);
    }
}

pub proof fn lemma_close_pair_at(s: Seq<char>, k: int, delim: char)
    requires
        0 <= k,
    ensures
        close_pair_at(s, k, delim) matches Some(e) ==> {
            &&& k <= e
            &&& e + 1 < s.len()
            &&& s[e] == delim
            &&& s[e + 1] == delim
        },
    decreases s.len() - k,
{
    if k + 1 < s.len() && !(s[k] == '\n' && s[k + 1] == '\n') && !(s[k] == delim && s[k + 1]
        == delim) {
        lemma_close_pair_at(s, k + 1, delim);
    }
}

/// The end of the run of `#` at `i`.
pub open spec fn hashes_end(s: Seq<char>, i: int) -> int
    decreases s.len() - i,
{
    if 0 <= i < s.len() && s[i] == '#' {
        hashes_end(s, i + 1)
    } else {
        i
    }
}

pub proof fn lemma_hashes_end(s: Seq<char>, i: int)
    requires
        0 <= i <= s.len(),
    ensures
        i <= hashes_end(s, i) <= s.len(),
        forall|j: int| i <= j < hashes_end(s, i) ==> s[j] == '#',
    decreases s.len() - i,
{
    if i < s.len() && s[i] == '#' {
        lemma_hashes_end(s, i + 1);
    }
}

/// Whether the character at `i` is there and is `c`.
pub open spec fn is_at(s: Seq<char>, i: int, c: char) -> bool {
    0 <= i < s.len() && s[i] == c
}

// ───────────────────────────── the spans of a text ─────────────────────────────
/// Walking back from `p`: the nearest fence, or the last position that is not past the
/// opening fence at `open`.
pub open spec fn back_to_fence(s: Seq<char>, p: int, open: int) -> int
    decreases p,
{
    if p <= 0 || fence_at(s, p) {
        p
    } else if p - 1 <= open + 3 {
        p - 1
    } else {
        back_to_fence(s, p - 1, open)
    }
}

/// The span of the code block at `b`: its opening line is a marker, and so is what
/// follows the last fence of the block, where there is one past the opening fence.
pub open spec fn block_span(s: Seq<char>, b: (int, int)) -> SpanView {
    let open_end = if line_end(s, b.0 + 3) <= b.1 {
        line_end(s, b.0 + 3)
    } else {
        b.1
    };
    let opening = (b.0, if open_end + 1 <= b.1 {
        open_end + 1
    } else {
        b.1
    });
    let close = back_to_fence(s, b.1, b.0);
    SpanView {
        kind: Kind::CodeBlock,
        full: b,
        markers: if close > b.0 + 3 {
            seq![opening, (close, b.1)]
        } else {
            seq![opening]
        },
    }
}

/// The spans of the code blocks.
pub open spec fn block_spans(s: Seq<char>, blocks: Seq<(int, int)>) -> Seq<SpanView> {
    blocks.map_values(|b: (int, int)| block_span(s, b))
}

/// Whether position `i` lies in one of the code blocks.
pub open spec fn masked(blocks: Seq<(int, int)>, i: int) -> bool {
    exists|k: int| 0 <= k < blocks.len() && (#[trigger] blocks[k]).0 <= i < blocks[k].1
}

/// The level of the heading that starts at `i`: one or two `#` and a space.
pub open spec fn heading_level(s: Seq<char>, i: int) -> Option<int> {
    let level = hashes_end(s, i) - i;
    if (level == 1 || level == 2) && is_at(s, i + level, ' ') {
        Some(level)
    } else {
        None
    }
}

/// Whether a list bullet stands at `i`.
pub open spec fn bullet_at(s: Seq<char>, i: int) -> bool {
    (is_at(s, i, '-') || is_at(s, i, '*')) && is_at(s, i + 1, ' ')
}

/// A span whose markers are its first and its last `w` characters.
pub open spec fn delimited(kind: Kind, from: int, end: int, w: int) -> SpanView {
    SpanView { kind, full: (from, end + w), markers: seq![(from, from + w), (end, end + w)] }
}

/// Whether emphasis may open at `i`: a single `*`, or a `_` that does not follow a
/// letter or a digit.
pub open spec fn italic_opens(s: Seq<char>, i: int) -> bool {
    ||| is_at(s, i, '*') && !is_at(s, i + 1, '*')
    ||| is_at(s, i, '_') && (i == 0 || !is_alnum(s[i - 1]))
}

/// The inline span that starts at `i`: code, bold or italic, in this order.
pub open spec fn inline_span(s: Seq<char>, i: int) -> Option<SpanView> {
    let code = if is_at(s, i, '`') && !is_at(s, i + 1, '`') {
        close_at(s, i + 1, '`')
    } else {
        None
    };
    let bold = if is_at(s, i, '*') && is_at(s, i + 1, '*') {
        close_pair_at(s, i + 2, '*')
    } else {
        None
    };
    let italic = if italic_opens(s, i) {
        close_at(s, i + 1, s[i])
    } else {
        None
    };
    if code is Some {
        Some(delimited(Kind::Code, i, code->0, 1))
    } else if bold is Some {
        Some(delimited(Kind::Bold, i, bold->0, 2))
    } else if italic is Some && italic->0 > i + 1 {
        Some(delimited(Kind::Italic, i, italic->0, 1))
    } else {
        None
    }
}

pub proof fn lemma_inline_span(s: Seq<char>, i: int)
    requires
        0 <= i < s.len(),
    ensures
        inline_span(s, i) matches Some(x) ==> {
            &&& x.full.0 == i
            &&& i + 2 <= x.full.1 <= s.len()
            &&& x.markers.len() == 2
            &&& x.markers[0].0 == i
            &&& i < x.markers[0].1 <= x.markers[1].0 < x.markers[1].1
            &&& x.markers[1].1 == x.full.1
        },
{
    lemma_close_at(s, i + 1, '`');
    lemma_close_pair_at(s, i + 2, '*');
    lemma_close_at(s, i + 1, s[i]);
}

/// The spans outside the code blocks from position `i` on; `sol` says whether a line
/// starts there. A heading takes its whole line. A list item does not: inline spans
/// are found in it too.
pub open spec fn spans_from(
    s: Seq<char>,
    blocks: Seq<(int, int)>,
    i: int,
    sol: bool,
) -> Seq<SpanView>
    decreases s.len() - i,
{
    if i < 0 || i >= s.len() {
        Seq::empty()
    } else if masked(blocks, i) {
        spans_from(s, blocks, i + 1, s[i] == '\n')
    } else if sol && heading_level(s, i) is Some {
        let level = heading_level(s, i)->0;
        let e = line_end(s, i);
        proof {
            lemma_heading(s, i);
        }
        seq![
            SpanView {
                kind: if level == 1 {
                    Kind::H1
                } else {
                    Kind::H2
                },
                full: (i, e),
                markers: seq![(i, i + level + 1)],
            },
        ] + spans_from(s, blocks, e, true)
    } else {
        let item = if sol && bullet_at(s, i) {
            seq![
                SpanView { kind: Kind::List, full: (i, line_end(s, i)), markers: seq![(i, i + 2)] },
            ]
        } else {
            Seq::empty()
        };
        proof {
            lemma_inline_span(s, i);
        }
        match inline_span(s, i) {
            Some(x) => item + seq![x] + spans_from(s, blocks, x.full.1, false),
            None => item + spans_from(s, blocks, i + 1, s[i] == '\n'),
        }
    }
}

pub proof fn lemma_heading(s: Seq<char>, i: int)
    requires
        0 <= i < s.len(),
        heading_level(s, i) is Some,
    ensures
        s[i] == '#',
        i + heading_level(s, i)->0 < line_end(s, i) <= s.len(),
{
    lemma_hashes_end(s, i);
    lemma_line_end(s, i);
    let level = heading_level(s, i)->0;
    assert forall|j: int| i <= j <= i + level implies s[j] != '\n' by {
        if j < i + level {
            assert(s[j] == '#');
        }
    }
}

/// The markdown spans of a text: the code blocks, then what is found outside them.
pub open spec fn spans(s: Seq<char>) -> Seq<SpanView> {
    let blocks = fenced(s, 0, true);
    block_spans(s, blocks) + spans_from(s, blocks, 0, true)
}

// ───────────────────────────── scanning ─────────────────────────────
fn line_end_from(chars: &Vec<char>, i: usize) -> (e: usize)
    ensures
        e == line_end(chars@, i as int),
{
    match find_char_from(chars, '\n', i) {
        Some(k) => k,
        None => chars.len(),
    }
}

fn is_fence(chars: &Vec<char>, i: usize) -> (b: bool)
    ensures
        b == fence_at(chars@, i as int),
{
    i < chars.len() && chars.len() - i > 2 && chars[i] == '`' && chars[i + 1] == '`' && chars[i
        + 2] == '`'
}

fn char_is(chars: &Vec<char>, i: usize, c: char) -> (b: bool)
    ensures
        b == is_at(chars@, i as int, c),
{
    i < chars.len() && chars[i] == c
}

/// The offset of the `delim` that closes an inline span: the first one from `from` on,
/// unless the line ends before it.
pub fn find_close(chars: &Vec<char>, from: usize, delim: char) -> (r: Option<usize>)
    ensures
        match r {
            Some(e) => close_at(chars@, from as int, delim) == Some(e as int),
            None => close_at(chars@, from as int, delim) is None,
        },
{
    let mut k: usize = from;
    while k < chars.len()
        invariant
            from <= k,
            close_at(chars@, from as int, delim) == close_at(chars@, k as int, delim),
        decreases chars@.len() - k,
    {
        if chars[k] == '\n' {
            return None;
        }
        if chars[k] == delim {
            return Some(k);
        }
        k += 1;
    }
    None
}

/// The offset of the pair of `delim` that closes a bold span: the first one from `from`
/// on, unless a blank line comes before it.
pub fn find_close_pair(chars: &Vec<char>, from: usize, delim: char) -> (r: Option<usize>)
    ensures
        match r {
            Some(e) => close_pair_at(chars@, from as int, delim) == Some(e as int),
            None => close_pair_at(chars@, from as int, delim) is None,
        },
{
    let mut k: usize = from;
    while k < chars.len() && chars.len() - k > 1
        invariant
            from <= k,
            close_pair_at(chars@, from as int, delim) == close_pair_at(chars@, k as int, delim),
        decreases chars@.len() - k,
    {
        if chars[k] == '\n' && chars[k + 1] == '\n' {
            return None;
        }
        if chars[k] == delim && chars[k + 1] == delim {
            return Some(k);
        }
        k += 1;
    }
    None
}

fn find_fence_close(chars: &Vec<char>, from: usize) -> (r: Option<usize>)
    ensures
        match r {
            Some(k) => fence_close(chars@, from as int, true) == Some(k as int),
            None => fence_close(chars@, from as int, true) is None,
        },
{
    let mut k: usize = from;
    let mut sol: bool = true;
    while k < chars.len()
        invariant
            from <= k,
            fence_close(chars@, from as int, true) == fence_close(chars@, k as int, sol),
        decreases chars@.len() - k,
    {
        if sol && is_fence(chars, k) {
            return Some(k);
        }
        sol = chars[k] == '\n';
        k += 1;
    }
    None
}

/// The ranges of the fenced code blocks of a text.
pub fn find_fenced_code(chars: &Vec<char>) -> (r: Vec<(usize, usize)>)
    ensures
        ranges_of(r@) == fenced(chars@, 0, true),
{
    let n: usize = chars.len();
    let mut r: Vec<(usize, usize)> = Vec::new();
    let mut i: usize = 0;
    let mut sol: bool = true;
    while i < n
        invariant
            n == chars@.len(),
            i <= n,
            fenced(chars@, 0, true) == ranges_of(r@) + fenced(chars@, i as int, sol),
        decreases n - i,
    {
        if sol && is_fence(chars, i) {
            proof {
                lemma_line_end(chars@, i + 3);
            }
            let open_line = line_end_from(chars, i + 3);
            let inner: usize = if open_line < n { open_line + 1 } else { open_line };
            proof {
                lemma_fence_close(chars@, inner as int, true);
            }
            match find_fence_close(chars, inner) {
                None => {
                    r.push((i, n));
                    i = n;
                },
                Some(k) => {
                    proof {
                        lemma_line_end(chars@, k + 3);
                    }
                    let e = line_end_from(chars, k + 3);
                    r.push((i, e));
                    sol = true;
                    i = if e < n { e + 1 } else { n };
                },
            }
            assert(fenced(chars@, 0, true) =~= ranges_of(r@) + fenced(chars@, i as int, sol));
        } else {
            sol = chars[i] == '\n';
            i += 1;
        }
    }
    assert(fenced(chars@, 0, true) =~= ranges_of(r@));
    r
}

fn find_back_fence(chars: &Vec<char>, p: usize, open: usize) -> (r: usize)
    requires
        open + 3 <= usize::MAX,
    ensures
        r == back_to_fence(chars@, p as int, open as int),
{
    let mut q: usize = p;
    while q > 0 && !is_fence(chars, q)
        invariant
            open + 3 <= usize::MAX,
            back_to_fence(chars@, p as int, open as int) == back_to_fence(
                chars@,
                q as int,
                open as int,
            ),
        decreases q,
    {
        if q - 1 <= open + 3 {
            return q - 1;
        }
        q -= 1;
    }
    q
}

fn scan_block(chars: &Vec<char>, b: (usize, usize)) -> (x: MdSpan)
    requires
        b.0 + 3 <= b.1 <= chars@.len(),
    ensures
        x@ == block_span(chars@, range_of(b)),
{
    let (from, end) = b;
    let line = line_end_from(chars, from + 3);
    let open_end: usize = if line <= end { line } else { end };
    let opening_end: usize = if open_end < end { open_end + 1 } else { end };
    let mut markers: Vec<(usize, usize)> = Vec::new();
    markers.push((from, opening_end));
    let close = find_back_fence(chars, end, from);
    if close > from + 3 {
        markers.push((close, end));
    }
    let x = MdSpan { kind: Kind::CodeBlock, full: b, markers };
    assert(x@.markers =~= block_span(chars@, range_of(b)).markers);
    x
}

fn in_block(blocks: &Vec<(usize, usize)>, i: usize) -> (b: bool)
    ensures
        b == masked(ranges_of(blocks@), i as int),
{
    let mut k: usize = 0;
    while k < blocks.len()
        invariant
            k <= blocks@.len(),
            forall|j: int|
                0 <= j < k ==> !(#[trigger] ranges_of(blocks@)[j].0 <= i < ranges_of(blocks@)[j].1),
        decreases blocks@.len() - k,
    {
        let (from, end) = blocks[k];
        if from <= i && i < end {
            assert(ranges_of(blocks@)[k as int].0 <= i < ranges_of(blocks@)[k as int].1);
            return true;
        }
        k += 1;
    }
    false
}

fn count_hashes(chars: &Vec<char>, i: usize) -> (j: usize)
    requires
        i <= chars@.len(),
    ensures
        i <= j <= chars@.len(),
        j == hashes_end(chars@, i as int),
{
    let mut j: usize = i;
    while j < chars.len() && chars[j] == '#'
        invariant
            i <= j <= chars@.len(),
            hashes_end(chars@, i as int) == hashes_end(chars@, j as int),
        decreases chars@.len() - j,
    {
        j += 1;
    }
    j
}

fn delimited_span(kind: Kind, from: usize, end: usize, w: usize) -> (x: MdSpan)
    requires
        from + w <= end,
        end + w <= usize::MAX,
    ensures
        x@ == delimited(kind, from as int, end as int, w as int),
{
    let mut markers: Vec<(usize, usize)> = Vec::new();
    markers.push((from, from + w));
    markers.push((end, end + w));
    let x = MdSpan { kind, full: (from, end + w), markers };
    assert(x@.markers =~= delimited(kind, from as int, end as int, w as int).markers);
    x
}

fn scan_inline(chars: &Vec<char>, i: usize) -> (r: Option<MdSpan>)
    requires
        i < chars@.len(),
    ensures
        match r {
            Some(x) => inline_span(chars@, i as int) == Some(x@),
            None => inline_span(chars@, i as int) is None,
        },
{
    proof {
        lemma_close_at(chars@, i + 1, '`');
        lemma_close_pair_at(chars@, i + 2, '*');
        lemma_close_at(chars@, i + 1, chars@[i as int]);
    }
    let n: usize = chars.len();
    assert(i < n);
    let c = chars[i];
    if c == '`' && !char_is(chars, i + 1, '`') {
        if let Some(end) = find_close(chars, i + 1, '`') {
            return Some(delimited_span(Kind::Code, i, end, 1));
        }
    }
    if c == '*' && char_is(chars, i + 1, '*') {
        if let Some(end) = find_close_pair(chars, i + 2, '*') {
            return Some(delimited_span(Kind::Bold, i, end, 2));
        }
    }
    let opens = (c == '*' && !char_is(chars, i + 1, '*')) || (c == '_' && (i == 0
        || !chars[i - 1].is_alphanumeric()));
    if opens {
        if let Some(end) = find_close(chars, i + 1, c) {
            if end > i + 1 {
                return Some(delimited_span(Kind::Italic, i, end, 1));
            }
        }
    }
    None
}

/// The markdown spans of `text`.
pub fn scan(text: &str) -> (out: Vec<MdSpan>)
    ensures
        span_views(out@) == spans(text@),
{
    let chars = chars_of(text);
    let n: usize = chars.len();
    let mut out: Vec<MdSpan> = Vec::new();
    let blocks = find_fenced_code(&chars);
    let ghost s = chars@;
    let ghost bs = ranges_of(blocks@);
    proof {
        lemma_fenced_in_bounds(s, 0, true);
    }
    let mut k: usize = 0;
    while k < blocks.len()
        invariant
            k <= blocks@.len(),
            bs == ranges_of(blocks@),
            s == chars@,
            forall|j: int| 0 <= j < bs.len() ==> block_in_bounds(s, #[trigger] bs[j]),
            span_views(out@) == block_spans(s, bs.take(k as int)),
        decreases blocks@.len() - k,
    {
        assert(block_in_bounds(s, bs[k as int]));
        let ghost before = span_views(out@);
        let x = scan_block(&chars, blocks[k]);
        out.push(x);
        k += 1;
        assert(span_views(out@) =~= before.push(x@));
        assert(bs.take(k as int) =~= bs.take(k - 1).push(bs[k - 1]));
        assert(span_views(out@) =~= block_spans(s, bs.take(k as int)));
    }
    assert(bs.take(k as int) =~= bs);

    let mut i: usize = 0;
    let mut sol: bool = true;
    while i < n
        invariant
            n == chars@.len(),
            s == chars@,
            bs == ranges_of(blocks@),
            i <= n,
            spans(s) == span_views(out@) + spans_from(s, bs, i as int, sol),
        decreases n - i,
    {
        let ghost before = span_views(out@);
        let ghost at = i as int;
        if in_block(&blocks, i) {
            sol = chars[i] == '\n';
            i += 1;
            continue;
        }
        if sol {
            let j = count_hashes(&chars, i);
            let level: usize = j - i;
            if (level == 1 || level == 2) && char_is(&chars, j, ' ') {
                proof {
                    lemma_heading(s, i as int);
                }
                let e = line_end_from(&chars, i);
                let mut markers: Vec<(usize, usize)> = Vec::new();
                markers.push((i, j + 1));
                let kind = if level == 1 { Kind::H1 } else { Kind::H2 };
                let x = MdSpan { kind, full: (i, e), markers };
                assert(x@.markers =~= seq![(at, at + level + 1)]);
                out.push(x);
                assert(span_views(out@) =~= before.push(x@));
                i = e;
                assert(spans(s) =~= span_views(out@) + spans_from(s, bs, i as int, sol));
                continue;
            }
            if (chars[i] == '-' || chars[i] == '*') && char_is(&chars, i + 1, ' ') {
                let mut markers: Vec<(usize, usize)> = Vec::new();
                markers.push((i, i + 2));
                let x = MdSpan { kind: Kind::List, full: (i, line_end_from(&chars, i)), markers };
                assert(x@.markers =~= seq![(at, at + 2)]);
                out.push(x);
                assert(span_views(out@) =~= before.push(x@));
            }
        }
        let ghost with_item = span_views(out@);
        proof {
            lemma_inline_span(s, at);
        }
        if let Some(x) = scan_inline(&chars, i) {
            i = x.full.1;
            sol = false;
            out.push(x);
            assert(span_views(out@) =~= with_item.push(x@));
        } else {
            sol = chars[i] == '\n';
            i += 1;
        }
        assert(spans(s) =~= span_views(out@) + spans_from(s, bs, i as int, sol));
    }
    assert(spans(s) =~= span_views(out@));
    out
}

/// Whether a code block lies in the text, holds at least its opening fence and ends with
/// its line.
pub open spec fn block_in_bounds(s: Seq<char>, b: (int, int)) -> bool {
    0 <= b.0 && b.0 + 3 <= b.1 <= s.len() && ends_line(s, b.1)
}

/// Whether a line starts at `i`.
pub open spec fn starts_line(s: Seq<char>, i: int) -> bool {
    i == 0 || is_at(s, i - 1, '\n')
}

/// Whether a line ends at `i`.
pub open spec fn ends_line(s: Seq<char>, i: int) -> bool {
    i == s.len() || is_at(s, i, '\n')
}

/// Every code block lies in the text.
pub proof fn lemma_fenced_in_bounds(s: Seq<char>, i: int, sol: bool)
    ensures
        forall|j: int|
            0 <= j < fenced(s, i, sol).len() ==> block_in_bounds(s, #[trigger] fenced(s, i, sol)[j]),
    decreases s.len() - i,
{
    if 0 <= i < s.len() {
        if sol && fence_at(s, i) {
            lemma_next_line(s, i + 3);
            lemma_fence_close(s, next_line(s, i + 3), true);
            match fence_close(s, next_line(s, i + 3), true) {
                None => {},
                Some(k) => {
                    let e = line_end(s, k + 3);
                    lemma_line_end(s, k + 3);
                    if e < s.len() {
                        lemma_fenced_in_bounds(s, e + 1, true);
                    }
                    let all = fenced(s, i, sol);
                    assert forall|j: int| 0 <= j < all.len() implies block_in_bounds(
                        s,
                        #[trigger] all[j],
                    ) by {
                        if j > 0 {
                            assert(all[j] == fenced(s, e + 1, true)[j - 1]);
                        }
                    }
                },
            }
        } else {
            lemma_fenced_in_bounds(s, i + 1, s[i] == '\n');
            assert(fenced(s, i, sol) == fenced(s, i + 1, s[i] == '\n'));
        }
    }
}

// ───────────────────────────── laws of the spans ─────────────────────────────
/// Whether a span lies in the text, is not empty, and holds its markers, none of which is
/// empty.
pub open spec fn span_fits(s: Seq<char>, x: SpanView) -> bool {
    &&& 0 <= x.full.0 < x.full.1 <= s.len()
    &&& forall|m: int|
        0 <= m < x.markers.len() ==> x.full.0 <= (#[trigger] x.markers[m]).0 < x.markers[m].1
            <= x.full.1
}

proof fn lemma_back_to_fence(s: Seq<char>, p: int, open: int)
    requires
        0 <= p,
    ensures
        back_to_fence(s, p, open) <= p,
        p > 0 && !fence_at(s, p) ==> back_to_fence(s, p, open) < p,
    decreases p,
{
    if p > 0 && !fence_at(s, p) && p - 1 > open + 3 {
        lemma_back_to_fence(s, p - 1, open);
    }
}

proof fn lemma_block_span_fits(s: Seq<char>, b: (int, int))
    requires
        block_in_bounds(s, b),
    ensures
        span_fits(s, block_span(s, b)),
{
    lemma_line_end(s, b.0 + 3);
    lemma_back_to_fence(s, b.1, b.0);
}

proof fn lemma_spans_from_fit(s: Seq<char>, blocks: Seq<(int, int)>, i: int, sol: bool)
    ensures
        forall|j: int|
            0 <= j < spans_from(s, blocks, i, sol).len() ==> {
                let x = #[trigger] spans_from(s, blocks, i, sol)[j];
                span_fits(s, x) && x.kind != Kind::CodeBlock && !masked(blocks, x.full.0)
            },
    decreases s.len() - i,
{
    let all = spans_from(s, blocks, i, sol);
    if 0 <= i < s.len() {
        if masked(blocks, i) {
            lemma_spans_from_fit(s, blocks, i + 1, s[i] == '\n');
        } else if sol && heading_level(s, i) is Some {
            lemma_heading(s, i);
            let e = line_end(s, i);
            lemma_spans_from_fit(s, blocks, e, true);
            assert forall|j: int| 0 <= j < all.len() implies {
                let x = #[trigger] all[j];
                span_fits(s, x) && x.kind != Kind::CodeBlock && !masked(blocks, x.full.0)
            } by {
                if j > 0 {
                    assert(all[j] == spans_from(s, blocks, e, true)[j - 1]);
                }
            }
        } else {
            lemma_inline_span(s, i);
            lemma_line_end(s, i);
            let item_len: int = if sol && bullet_at(s, i) {
                1
            } else {
                0
            };
            let (next, next_sol, own): (int, bool, int) = match inline_span(s, i) {
                Some(x) => (x.full.1, false, item_len + 1),
                None => (i + 1, s[i] == '\n', item_len),
            };
            lemma_spans_from_fit(s, blocks, next, next_sol);
            assert forall|j: int| 0 <= j < all.len() implies {
                let x = #[trigger] all[j];
                span_fits(s, x) && x.kind != Kind::CodeBlock && !masked(blocks, x.full.0)
            } by {
                if j >= own {
                    assert(all[j] == spans_from(s, blocks, next, next_sol)[j - own]);
                } else if j < item_len {
                    assert(s[i] != '\n' && s[i + 1] != '\n');
                }
            }
        }
    }
}

/// Every span that `scan` finds lies in the text, is not empty and holds its markers, none
/// of which is empty.
pub proof fn law_spans_fit(s: Seq<char>, j: int)
    requires
        0 <= j < spans(s).len(),
    ensures
        span_fits(s, spans(s)[j]),
{
    let blocks = fenced(s, 0, true);
    lemma_fenced_in_bounds(s, 0, true);
    lemma_spans_from_fit(s, blocks, 0, true);
    if j < blocks.len() {
        assert(block_in_bounds(s, blocks[j]));
        lemma_block_span_fits(s, blocks[j]);
    } else {
        assert(spans(s)[j] == spans_from(s, blocks, 0, true)[j - blocks.len()]);
    }
}

proof fn lemma_blocks_lie_apart(s: Seq<char>, i: int, sol: bool)
    requires
        sol ==> starts_line(s, i),
        0 <= i,
    ensures
        forall|j: int|
            0 <= j < fenced(s, i, sol).len() ==> i <= (#[trigger] fenced(s, i, sol)[j]).0
                && starts_line(s, fenced(s, i, sol)[j].0),
        forall|j: int, k: int|
            0 <= j < k < fenced(s, i, sol).len() ==> (#[trigger] fenced(s, i, sol)[j]).1 < (
            #[trigger] fenced(s, i, sol)[k]).0,
    decreases s.len() - i,
{
    if i < s.len() {
        if sol && fence_at(s, i) {
            lemma_next_line(s, i + 3);
            lemma_fence_close(s, next_line(s, i + 3), true);
            match fence_close(s, next_line(s, i + 3), true) {
                None => {},
                Some(k) => {
                    let e = line_end(s, k + 3);
                    lemma_line_end(s, k + 3);
                    let all = fenced(s, i, sol);
                    if e < s.len() {
                        lemma_blocks_lie_apart(s, e + 1, true);
                        assert forall|j: int| 0 < j < all.len() implies #[trigger] all[j] == fenced(
                            s,
                            e + 1,
                            true,
                        )[j - 1] by {}
                    }
                },
            }
        } else {
            lemma_blocks_lie_apart(s, i + 1, s[i] == '\n');
            assert(fenced(s, i, sol) == fenced(s, i + 1, s[i] == '\n'));
        }
    }
}

/// Whether a span takes a whole line.
pub open spec fn is_line_span(x: SpanView) -> bool {
    x.kind == Kind::H1 || x.kind == Kind::H2 || x.kind == Kind::List
}

/// Whether a span is one line of the text.
pub open spec fn is_one_line(s: Seq<char>, x: SpanView) -> bool {
    &&& starts_line(s, x.full.0)
    &&& ends_line(s, x.full.1)
    &&& forall|i: int| x.full.0 <= i < x.full.1 ==> s[i] != '\n'
}

proof fn lemma_spans_from_in_order(s: Seq<char>, blocks: Seq<(int, int)>, i: int, sol: bool)
    requires
        0 <= i,
        sol ==> starts_line(s, i) || ends_line(s, i),
    ensures
        forall|j: int|
            0 <= j < spans_from(s, blocks, i, sol).len() ==> {
                let x = #[trigger] spans_from(s, blocks, i, sol)[j];
                i <= x.full.0 && (is_line_span(x) ==> is_one_line(s, x))
            },
        forall|j: int, k: int|
            0 <= j < k < spans_from(s, blocks, i, sol).len() ==> {
                let x = #[trigger] spans_from(s, blocks, i, sol)[j];
                let y = #[trigger] spans_from(s, blocks, i, sol)[k];
                &&& x.kind == Kind::List || x.full.1 <= y.full.0
                &&& y.kind == Kind::List ==> x.full.0 < y.full.0
            },
    decreases s.len() - i,
{
    let all = spans_from(s, blocks, i, sol);
    if i < s.len() {
        if masked(blocks, i) {
            lemma_spans_from_in_order(s, blocks, i + 1, s[i] == '\n');
        } else if sol && heading_level(s, i) is Some {
            lemma_heading(s, i);
            lemma_line_end(s, i);
            let e = line_end(s, i);
            lemma_spans_from_in_order(s, blocks, e, true);
            assert forall|j: int| 0 < j < all.len() implies #[trigger] all[j] == spans_from(
                s,
                blocks,
                e,
                true,
            )[j - 1] by {}
        } else {
            lemma_inline_span(s, i);
            lemma_line_end(s, i);
            let item_len: int = if sol && bullet_at(s, i) {
                1
            } else {
                0
            };
            let (next, next_sol, own): (int, bool, int) = match inline_span(s, i) {
                Some(x) => (x.full.1, false, item_len + 1),
                None => (i + 1, s[i] == '\n', item_len),
            };
            lemma_spans_from_in_order(s, blocks, next, next_sol);
            assert forall|j: int| own <= j < all.len() implies #[trigger] all[j] == spans_from(
                s,
                blocks,
                next,
                next_sol,
            )[j - own] by {}
        }
    }
}

/// Spans of one kind lie apart, in the order of the text: the code blocks with a newline
/// between them, and headings and inline spans with nothing of one in another. (A list item
/// holds the inline spans that begin in it.)
pub proof fn law_spans_lie_apart(s: Seq<char>, j: int, k: int)
    requires
        0 <= j < k < spans(s).len(),
    ensures
        spans(s)[k].kind == Kind::CodeBlock ==> spans(s)[j].kind == Kind::CodeBlock
            && spans(s)[j].full.1 < spans(s)[k].full.0,
        spans(s)[j].kind != Kind::CodeBlock && spans(s)[j].kind != Kind::List
            ==> spans(s)[j].full.1 <= spans(s)[k].full.0,
{
    let blocks = fenced(s, 0, true);
    let rest = spans_from(s, blocks, 0, true);
    lemma_blocks_lie_apart(s, 0, true);
    lemma_spans_from_in_order(s, blocks, 0, true);
    lemma_spans_from_fit(s, blocks, 0, true);
    let n = blocks.len() as int;
    if k < n {
        assert(spans(s)[j].full == blocks[j] && spans(s)[k].full == blocks[k]);
    } else {
        assert(spans(s)[k] == rest[k - n]);
        if j >= n {
            assert(spans(s)[j] == rest[j - n]);
        }
    }
}

/// List items lie apart too.
pub proof fn law_list_items_lie_apart(s: Seq<char>, j: int, k: int)
    requires
        0 <= j < k < spans(s).len(),
        spans(s)[j].kind == Kind::List,
        spans(s)[k].kind == Kind::List,
    ensures
        spans(s)[j].full.1 < spans(s)[k].full.0,
{
    let blocks = fenced(s, 0, true);
    let rest = spans_from(s, blocks, 0, true);
    let n = blocks.len() as int;
    law_line_spans_keep_to_their_line(s, j);
    law_line_spans_keep_to_their_line(s, k);
    lemma_spans_from_in_order(s, blocks, 0, true);
    assert(spans(s)[j] == rest[j - n] && spans(s)[k] == rest[k - n]);
    let (x, y) = (spans(s)[j], spans(s)[k]);
    assert(x.full.0 < y.full.0);
    assert(s[y.full.0 - 1] == '\n');
    law_spans_fit(s, k);
}

/// Headings and list items are a line of the text: they start one, end with it and hold no
/// newline. Code blocks start a line and end with one.
pub proof fn law_line_spans_keep_to_their_line(s: Seq<char>, j: int)
    requires
        0 <= j < spans(s).len(),
    ensures
        is_line_span(spans(s)[j]) ==> is_one_line(s, spans(s)[j]),
        spans(s)[j].kind == Kind::CodeBlock ==> starts_line(s, spans(s)[j].full.0) && ends_line(
            s,
            spans(s)[j].full.1,
        ),
{
    let blocks = fenced(s, 0, true);
    let rest = spans_from(s, blocks, 0, true);
    lemma_fenced_in_bounds(s, 0, true);
    lemma_blocks_lie_apart(s, 0, true);
    lemma_spans_from_in_order(s, blocks, 0, true);
    lemma_spans_from_fit(s, blocks, 0, true);
    let n = blocks.len() as int;
    if j < n {
        assert(spans(s)[j].full == blocks[j]);
        assert(block_in_bounds(s, blocks[j]));
    } else {
        assert(spans(s)[j] == rest[j - n]);
    }
}

/// The inside of a code block is left alone: no other span starts in one.
pub proof fn law_code_blocks_are_opaque(s: Seq<char>, j: int)
    requires
        0 <= j < spans(s).len(),
        spans(s)[j].kind != Kind::CodeBlock,
    ensures
        !masked(fenced(s, 0, true), spans(s)[j].full.0),
{
    let blocks = fenced(s, 0, true);
    lemma_spans_from_fit(s, blocks, 0, true);
    assert(j >= blocks.len());
    assert(spans(s)[j] == spans_from(s, blocks, 0, true)[j - blocks.len()]);
}

// ───────────────────────────── applying the tags ─────────────────────────────
/// Whether the character at `i` carries a flag. Past the end, none does.
pub open spec fn flagged(flags: Seq<bool>, i: int) -> bool {
    0 <= i < flags.len() && flags[i]
}

/// The spans of `s` that do not start at a flagged character.
pub open spec fn unflagged_spans(s: Seq<char>, excluded: Seq<bool>) -> Seq<SpanView> {
    spans(s).filter(|x: SpanView| !flagged(excluded, x.full.0))
}

/// Exactly those spans are styled that begin at no character of a hidden embed.
pub proof fn law_hidden_embeds_are_not_styled(s: Seq<char>, excluded: Seq<bool>, x: SpanView)
    requires
        excluded.len() == s.len(),
    ensures
        unflagged_spans(s, excluded).contains(x) <==> spans(s).contains(x)
            && !excluded[x.full.0],
{
    let keep = |x: SpanView| !flagged(excluded, x.full.0);
    let all = unflagged_spans(s, excluded);
    broadcast use vstd::seq_lib::group_filter_ensures;

    if spans(s).contains(x) {
        let j = choose|j: int| 0 <= j < spans(s).len() && spans(s)[j] == x;
        law_spans_fit(s, j);
        assert(flagged(excluded, x.full.0) == excluded[x.full.0]);
        if !excluded[x.full.0] {
            assert(keep(spans(s)[j]));
            assert(all.contains(spans(s)[j]));
        }
    }
    if all.contains(x) {
        let i = choose|i: int| 0 <= i < all.len() && all[i] == x;
        assert(keep(all[i]));
        assert(spans(s).contains(x)) by {
            spans(s).lemma_filter_contains_rev(keep, x);
        }
        let j = choose|j: int| 0 <= j < spans(s).len() && spans(s)[j] == x;
        law_spans_fit(s, j);
    }
}

/// The spans to style in a buffer that holds `text`: those that do not start at a
/// character of a hidden embed. `excluded` says of each character whether it is one.
pub fn refresh_markdown_tags(text: &str, excluded: &Vec<bool>) -> (out: Vec<MdSpan>)
    ensures
        span_views(out@) == unflagged_spans(text@, excluded@),
{
    let found = scan(text);
    let ghost all = span_views(found@);
    let ghost keep = |x: SpanView| !flagged(excluded@, x.full.0);
    let mut out: Vec<MdSpan> = Vec::new();
    assert(all.take(0).filter(keep) =~= Seq::<SpanView>::empty()) by {
        reveal(Seq::filter);
    }
    for x in it: found
        invariant
            it.seq() == found@,
            all == span_views(found@),
            keep == |x: SpanView| !flagged(excluded@, x.full.0),
            span_views(out@) == all.take(it.index()).filter(keep),
    {
        let ghost before = span_views(out@);
        proof {
            reveal(Seq::filter);
            assert(all.take(it.index() + 1).drop_last() =~= all.take(it.index()));
            assert(all.take(it.index() + 1).last() == x@);
        }
        let start: usize = x.full.0;
        if !(start < excluded.len() && excluded[start]) {
            out.push(x);
            assert(span_views(out@) =~= before.push(x@));
        }
    }
    assert(all.take(all.len() as int) =~= all);
    out
}

/// The end of the run of hidden characters at `p`, not past the character at `last`.
pub open spec fn run_end(hidden: Seq<bool>, p: int, last: int) -> int
    decreases hidden.len() - p,
{
    if 0 <= p < hidden.len() && p <= last && hidden[p] {
        run_end(hidden, p + 1, last)
    } else {
        p
    }
}

/// The runs of hidden characters between `i` and `last`.
pub open spec fn hidden_runs(hidden: Seq<bool>, i: int, last: int) -> Seq<(int, int)>
    decreases hidden.len() - i,
{
    if i < 0 || i >= hidden.len() || i > last {
        Seq::empty()
    } else if hidden[i] {
        proof {
            lemma_run_end(hidden, i, last);
        }
        seq![(i, run_end(hidden, i, last))] + hidden_runs(hidden, run_end(hidden, i, last), last)
    } else {
        hidden_runs(hidden, i + 1, last)
    }
}

pub proof fn lemma_run_end(hidden: Seq<bool>, p: int, last: int)
    requires
        0 <= p,
    ensures
        p <= run_end(hidden, p, last),
        p <= hidden.len() ==> run_end(hidden, p, last) <= hidden.len(),
        p < hidden.len() && p <= last && hidden[p] ==> p < run_end(hidden, p, last),
        p < run_end(hidden, p, last) ==> run_end(hidden, p, last) <= last + 1,
        forall|k: int| p <= k < run_end(hidden, p, last) ==> hidden[k],
        run_end(hidden, p, last) < hidden.len() && run_end(hidden, p, last) <= last
            ==> !hidden[run_end(hidden, p, last)],
    decreases hidden.len() - p,
{
    if p < hidden.len() && p <= last && hidden[p] {
        lemma_run_end(hidden, p + 1, last);
    }
}

/// The runs of markers to show again on the cursor's line, whose characters are those
/// from `line_start` to `line_last`. `hidden` says of each character of the buffer
/// whether it is a hidden marker.
pub fn reveal_markers_at_cursor(
    hidden: &Vec<bool>,
    line_start: usize,
    line_last: usize,
) -> (runs: Vec<(usize, usize)>)
    ensures
        ranges_of(runs@) == hidden_runs(hidden@, line_start as int, line_last as int),
{
    let mut runs: Vec<(usize, usize)> = Vec::new();
    let mut i: usize = line_start;
    assert(ranges_of(runs@) =~= Seq::<(int, int)>::empty());
    while i < hidden.len() && i <= line_last
        invariant
            hidden_runs(hidden@, line_start as int, line_last as int) == ranges_of(runs@)
                + hidden_runs(hidden@, i as int, line_last as int),
        decreases hidden@.len() - i,
    {
        let ghost before = ranges_of(runs@);
        if hidden[i] {
            let mut end: usize = i;
            while end < hidden.len() && end <= line_last && hidden[end]
                invariant
                    i <= end <= hidden@.len(),
                    i < hidden@.len(),
                    run_end(hidden@, i as int, line_last as int) == run_end(
                        hidden@,
                        end as int,
                        line_last as int,
                    ),
                decreases hidden@.len() - end,
            {
                end += 1;
            }
            proof {
                lemma_run_end(hidden@, i as int, line_last as int);
            }
            runs.push((i, end));
            assert(ranges_of(runs@) =~= before.push((i as int, end as int)));
            i = end;
        } else {
            i += 1;
        }
        assert(hidden_runs(hidden@, line_start as int, line_last as int) =~= ranges_of(runs@)
            + hidden_runs(hidden@, i as int, line_last as int));
    }
    assert(hidden_runs(hidden@, line_start as int, line_last as int) =~= ranges_of(runs@));
    runs
}

/// The runs to show cover the hidden markers of the line, and nothing else.
pub proof fn law_reveal_covers_the_line(hidden: Seq<bool>, start: int, last: int, p: int)
    requires
        0 <= start,
    ensures
        masked(hidden_runs(hidden, start, last), p) <==> start <= p <= last && flagged(hidden, p),
    decreases hidden.len() - start,
{
    let all = hidden_runs(hidden, start, last);
    if start < hidden.len() && start <= last {
        if hidden[start] {
            let e = run_end(hidden, start, last);
            lemma_run_end(hidden, start, last);
            law_reveal_covers_the_line(hidden, e, last, p);
            let rest = hidden_runs(hidden, e, last);
            assert(all[0] == (start, e));
            if masked(rest, p) {
                let k = choose|k: int|
                    0 <= k < rest.len() && (#[trigger] rest[k]).0 <= p < rest[k].1;
                assert(all[k + 1] == rest[k]);
            }
            if masked(all, p) {
                let k = choose|k: int| 0 <= k < all.len() && (#[trigger] all[k]).0 <= p < all[k].1;
                if k > 0 {
                    assert(all[k] == rest[k - 1]);
                } else {
                    assert(hidden[p]);
                }
            }
        } else {
            law_reveal_covers_the_line(hidden, start + 1, last, p);
        }
    }
}

// ───────────────────────────── what the kinds mean ─────────────────────────────
/// Whether a span is what its kind says, by the characters of the text: code stands between
/// two backticks on one line, bold between two pairs of stars, italic between two single
/// stars or two underscores on one line; a heading begins with one or two `#` and a space, a
/// list item with `-` or `*` and a space, and a code block with three backticks. The markers
/// are these characters, and nothing else.
pub open spec fn is_what_it_says(s: Seq<char>, x: SpanView) -> bool {
    let (from, end) = x.full;
    match x.kind {
        Kind::Code => {
            &&& from + 1 < end
            &&& s[from] == '`' && s[end - 1] == '`'
            &&& forall|i: int| from < i < end - 1 ==> #[trigger] s[i] != '`' && s[i] != '\n'
            &&& x.markers == seq![(from, from + 1), (end - 1, end)]
        },
        Kind::Bold => {
            &&& from + 4 <= end
            &&& s[from] == '*' && s[from + 1] == '*' && s[end - 2] == '*' && s[end - 1] == '*'
            &&& x.markers == seq![(from, from + 2), (end - 2, end)]
            &&& forall|i: int|
                #![trigger s[i]]
                from + 2 <= i < end - 2 ==> !(s[i] == '*' && s[i + 1] == '*') && !(s[i] == '\n'
                    && s[i + 1] == '\n')
        },
        Kind::Italic => {
            &&& from + 2 < end
            &&& s[from] == '*' || s[from] == '_'
            &&& s[end - 1] == s[from]
            &&& forall|i: int| from < i < end - 1 ==> #[trigger] s[i] != s[from] && s[i] != '\n'
            &&& x.markers == seq![(from, from + 1), (end - 1, end)]
        },
        Kind::H1 => {
            &&& from + 2 <= end
            &&& s[from] == '#' && s[from + 1] == ' '
            &&& x.markers == seq![(from, from + 2)]
        },
        Kind::H2 => {
            &&& from + 3 <= end
            &&& s[from] == '#' && s[from + 1] == '#' && s[from + 2] == ' '
            &&& x.markers == seq![(from, from + 3)]
        },
        Kind::List => {
            &&& from + 2 <= end
            &&& s[from] == '-' || s[from] == '*'
            &&& s[from + 1] == ' '
            &&& x.markers == seq![(from, from + 2)]
        },
        Kind::CodeBlock => {
            &&& from + 3 <= end
            &&& s[from] == '`' && s[from + 1] == '`' && s[from + 2] == '`'
        },
    }
}

proof fn lemma_close_pair_first(s: Seq<char>, k: int, delim: char)
    requires
        0 <= k,
    ensures
        close_pair_at(s, k, delim) matches Some(e) ==> forall|j: int|
            #![trigger s[j]]
            k <= j < e ==> !(s[j] == delim && s[j + 1] == delim) && !(s[j] == '\n' && s[j + 1]
                == '\n'),
    decreases s.len() - k,
{
    if k + 1 < s.len() && !(s[k] == '\n' && s[k + 1] == '\n') && !(s[k] == delim && s[k + 1]
        == delim) {
        lemma_close_pair_first(s, k + 1, delim);
    }
}

proof fn lemma_inline_says(s: Seq<char>, i: int)
    requires
        0 <= i < s.len(),
    ensures
        inline_span(s, i) matches Some(x) ==> is_what_it_says(s, x) && (x.kind == Kind::Code
            || x.kind == Kind::Bold || x.kind == Kind::Italic),
{
    lemma_close_at(s, i + 1, '`');
    lemma_close_pair_at(s, i + 2, '*');
    lemma_close_pair_first(s, i + 2, '*');
    lemma_close_at(s, i + 1, s[i]);
}

proof fn lemma_spans_from_say(s: Seq<char>, blocks: Seq<(int, int)>, i: int, sol: bool)
    requires
        0 <= i,
    ensures
        forall|j: int|
            0 <= j < spans_from(s, blocks, i, sol).len() ==> is_what_it_says(
                s,
                #[trigger] spans_from(s, blocks, i, sol)[j],
            ),
    decreases s.len() - i,
{
    let all = spans_from(s, blocks, i, sol);
    if i < s.len() {
        if masked(blocks, i) {
            lemma_spans_from_say(s, blocks, i + 1, s[i] == '\n');
            assert(all == spans_from(s, blocks, i + 1, s[i] == '\n'));
        } else if sol && heading_level(s, i) is Some {
            lemma_heading(s, i);
            lemma_hashes_end(s, i);
            let e = line_end(s, i);
            lemma_spans_from_say(s, blocks, e, true);
            assert(is_what_it_says(s, all[0]));
            assert forall|j: int| 0 <= j < all.len() implies is_what_it_says(s, #[trigger] all[j]) by {
                if j > 0 {
                    assert(all[j] == spans_from(s, blocks, e, true)[j - 1]);
                }
            }
        } else {
            lemma_inline_span(s, i);
            lemma_inline_says(s, i);
            lemma_line_end(s, i);
            let item_len: int = if sol && bullet_at(s, i) {
                1
            } else {
                0
            };
            let (next, next_sol, own): (int, bool, int) = match inline_span(s, i) {
                Some(x) => (x.full.1, false, item_len + 1),
                None => (i + 1, s[i] == '\n', item_len),
            };
            lemma_spans_from_say(s, blocks, next, next_sol);
            if item_len == 1 {
                assert(s[i] != '\n' && s[i + 1] != '\n');
                assert(line_end(s, i) >= i + 2);
                assert(is_what_it_says(s, all[0]));
            }
            if let Some(x) = inline_span(s, i) {
                assert(all[item_len] == x);
            }
            assert forall|j: int| 0 <= j < all.len() implies is_what_it_says(s, #[trigger] all[j]) by {
                if j >= own {
                    assert(all[j] == spans_from(s, blocks, next, next_sol)[j - own]);
                }
            }
        }
    }
}

proof fn lemma_blocks_open_with_fences(s: Seq<char>, i: int, sol: bool)
    requires
        0 <= i,
    ensures
        forall|j: int|
            0 <= j < fenced(s, i, sol).len() ==> fence_at(s, (#[trigger] fenced(s, i, sol)[j]).0),
    decreases s.len() - i,
{
    if i < s.len() {
        if sol && fence_at(s, i) {
            lemma_next_line(s, i + 3);
            lemma_fence_close(s, next_line(s, i + 3), true);
            match fence_close(s, next_line(s, i + 3), true) {
                None => {},
                Some(k) => {
                    let e = line_end(s, k + 3);
                    lemma_line_end(s, k + 3);
                    let all = fenced(s, i, sol);
                    if e < s.len() {
                        lemma_blocks_open_with_fences(s, e + 1, true);
                        assert forall|j: int| 0 < j < all.len() implies #[trigger] all[j] == fenced(
                            s,
                            e + 1,
                            true,
                        )[j - 1] by {}
                    }
                },
            }
        } else {
            lemma_blocks_open_with_fences(s, i + 1, s[i] == '\n');
            assert(fenced(s, i, sol) == fenced(s, i + 1, s[i] == '\n'));
        }
    }
}

/// The kind of a span follows from the characters it begins and ends with, and its markers
/// are those characters.
pub proof fn law_spans_are_what_they_say(s: Seq<char>, j: int)
    requires
        0 <= j < spans(s).len(),
    ensures
        is_what_it_says(s, spans(s)[j]),
{
    let blocks = fenced(s, 0, true);
    let rest = spans_from(s, blocks, 0, true);
    let n = blocks.len() as int;
    if j < n {
        lemma_fenced_in_bounds(s, 0, true);
        lemma_blocks_open_with_fences(s, 0, true);
        assert(block_in_bounds(s, blocks[j]));
        assert(fence_at(s, blocks[j].0));
        assert(spans(s)[j] == block_span(s, blocks[j]));
    } else {
        lemma_spans_from_say(s, blocks, 0, true);
        assert(spans(s)[j] == rest[j - n]);
    }
}

// ───────────────────────────── what is found ─────────────────────────────
/// Whether position `i` is free: in no code block, and not behind the first character of a
/// heading or an inline span that holds it.
pub open spec fn is_free(s: Seq<char>, i: int) -> bool {
    forall|j: int|
        #![trigger spans(s)[j]]
        0 <= j < spans(s).len() && spans(s)[j].kind != Kind::List ==> !(spans(s)[j].full.0 < i
            < spans(s)[j].full.1) && !(spans(s)[j].kind == Kind::CodeBlock && spans(s)[j].full.0
            == i)
}

/// Whether no span from position `p` on but a list item holds position `i` behind its first
/// character.
spec fn is_open(s: Seq<char>, blocks: Seq<(int, int)>, p: int, sol: bool, i: int) -> bool {
    forall|j: int|
        #![trigger spans_from(s, blocks, p, sol)[j]]
        0 <= j < spans_from(s, blocks, p, sol).len() && spans_from(s, blocks, p, sol)[j].kind
            != Kind::List ==> !(spans_from(s, blocks, p, sol)[j].full.0 < i < spans_from(
            s,
            blocks,
            p,
            sol,
        )[j].full.1)
}

proof fn lemma_open_rest(
    s: Seq<char>,
    blocks: Seq<(int, int)>,
    p: int,
    sol: bool,
    q: int,
    next: bool,
    own: int,
    i: int,
)
    requires
        is_open(s, blocks, p, sol, i),
        0 <= own,
        spans_from(s, blocks, p, sol).len() == own + spans_from(s, blocks, q, next).len(),
        forall|j: int|
            own <= j < spans_from(s, blocks, p, sol).len() ==> #[trigger] spans_from(
                s,
                blocks,
                p,
                sol,
            )[j] == spans_from(s, blocks, q, next)[j - own],
    ensures
        is_open(s, blocks, q, next, i),
{
    let all = spans_from(s, blocks, p, sol);
    let rest = spans_from(s, blocks, q, next);
    assert forall|j: int|
        #![trigger rest[j]]
        0 <= j < rest.len() && rest[j].kind != Kind::List implies !(rest[j].full.0 < i
        < rest[j].full.1) by {
        assert(all[j + own] == rest[j]);
    }
}

/// The scan comes by every free position: the spans from `p` on end with those from `i` on.
proof fn lemma_scan_comes_by(
    s: Seq<char>,
    blocks: Seq<(int, int)>,
    p: int,
    sol: bool,
    i: int,
) -> (r: (int, bool))
    requires
        0 <= p <= i < s.len(),
        sol ==> starts_line(s, p) || ends_line(s, p),
        starts_line(s, p) ==> sol,
        is_open(s, blocks, p, sol, i),
    ensures
        0 <= r.0,
        starts_line(s, i) ==> r.1,
        r.1 ==> starts_line(s, i) || ends_line(s, i),
        spans_from(s, blocks, p, sol).len() == r.0 + spans_from(s, blocks, i, r.1).len(),
        forall|j: int|
            r.0 <= j < spans_from(s, blocks, p, sol).len() ==> #[trigger] spans_from(
                s,
                blocks,
                p,
                sol,
            )[j] == spans_from(s, blocks, i, r.1)[j - r.0],
    decreases s.len() - p,
{
    let all = spans_from(s, blocks, p, sol);
    if p == i {
        (0, sol)
    } else {
        let (q, next, own): (int, bool, int) = if masked(blocks, p) {
            (p + 1, s[p] == '\n', 0int)
        } else if sol && heading_level(s, p) is Some {
            (line_end(s, p), true, 1int)
        } else {
            let item: int = if sol && bullet_at(s, p) {
                1
            } else {
                0
            };
            match inline_span(s, p) {
                Some(x) => (x.full.1, false, item + 1),
                None => (p + 1, s[p] == '\n', item),
            }
        };
        let rest = spans_from(s, blocks, q, next);
        if masked(blocks, p) {
        } else if sol && heading_level(s, p) is Some {
            lemma_heading(s, p);
            lemma_line_end(s, p);
            assert(all[0].full == (p, q));
        } else {
            lemma_inline_span(s, p);
            if let Some(x) = inline_span(s, p) {
                lemma_inline_says(s, p);
                assert(all[own - 1] == x);
                assert(s[q - 1] != '\n');
            }
        }
        assert(q <= i);
        assert forall|j: int| own <= j < all.len() implies #[trigger] all[j] == rest[j - own] by {}
        lemma_open_rest(s, blocks, p, sol, q, next, own, i);
        let (k, at) = lemma_scan_comes_by(s, blocks, q, next, i);
        let last = spans_from(s, blocks, i, at);
        assert forall|j: int| own + k <= j < all.len() implies #[trigger] all[j] == last[j - own
            - k] by {
            assert(all[j] == rest[j - own]);
        }
        (own + k, at)
    }
}

/// The place among all spans at which those from the free position `i` on begin.
proof fn lemma_free_position(s: Seq<char>, i: int) -> (r: (int, bool))
    requires
        0 <= i < s.len(),
        is_free(s, i),
    ensures
        0 <= r.0,
        starts_line(s, i) ==> r.1,
        r.1 ==> starts_line(s, i) || ends_line(s, i),
        !masked(fenced(s, 0, true), i),
        spans(s).len() == r.0 + spans_from(s, fenced(s, 0, true), i, r.1).len(),
        forall|j: int|
            r.0 <= j < spans(s).len() ==> #[trigger] spans(s)[j] == spans_from(
                s,
                fenced(s, 0, true),
                i,
                r.1,
            )[j - r.0],
{
    let blocks = fenced(s, 0, true);
    let rest = spans_from(s, blocks, 0, true);
    let n = blocks.len() as int;
    assert(!masked(blocks, i)) by {
        if masked(blocks, i) {
            let k = choose|k: int| 0 <= k < blocks.len() && (#[trigger] blocks[k]).0 <= i
                < blocks[k].1;
            assert(spans(s)[k] == block_span(s, blocks[k]));
        }
    }
    assert(is_open(s, blocks, 0, true, i)) by {
        assert forall|j: int|
            #![trigger rest[j]]
            0 <= j < rest.len() && rest[j].kind != Kind::List implies !(rest[j].full.0 < i
            < rest[j].full.1) by {
            assert(spans(s)[n + j] == rest[j]);
        }
    }
    let (k, at) = lemma_scan_comes_by(s, blocks, 0, true, i);
    let last = spans_from(s, blocks, i, at);
    assert forall|j: int| n + k <= j < spans(s).len() implies #[trigger] spans(s)[j] == last[j - n
        - k] by {
        assert(spans(s)[j] == rest[j - n]);
    }
    (n + k, at)
}

proof fn lemma_close_at_first(s: Seq<char>, k: int, e: int, delim: char)
    requires
        0 <= k <= e < s.len(),
        s[e] == delim,
        delim != '\n',
        forall|j: int| k <= j < e ==> #[trigger] s[j] != delim && s[j] != '\n',
    ensures
        close_at(s, k, delim) == Some(e),
    decreases e - k,
{
    if k < e {
        lemma_close_at_first(s, k + 1, e, delim);
    }
}

proof fn lemma_close_pair_at_first(s: Seq<char>, k: int, e: int)
    requires
        0 <= k <= e,
        e + 1 < s.len(),
        s[e] == '*' && s[e + 1] == '*',
        forall|j: int|
            #![trigger s[j]]
            k <= j < e ==> !(s[j] == '*' && s[j + 1] == '*') && !(s[j] == '\n' && s[j + 1] == '\n'),
    ensures
        close_pair_at(s, k, '*') == Some(e),
    decreases e - k,
{
    if k < e {
        lemma_close_pair_at_first(s, k + 1, e);
    }
}

/// Whether `scan` finds a span of this kind and range.
pub open spec fn finds(s: Seq<char>, kind: Kind, from: int, end: int) -> bool {
    exists|j: int|
        0 <= j < spans(s).len() && (#[trigger] spans(s)[j]).kind == kind && spans(s)[j].full == (
            from,
            end,
        )
}

proof fn lemma_found_inline(s: Seq<char>, i: int)
    requires
        0 <= i < s.len(),
        is_free(s, i),
        !(starts_line(s, i) && heading_level(s, i) is Some),
        s[i] != '\n',
        inline_span(s, i) is Some,
    ensures
        finds(s, inline_span(s, i)->0.kind, i, inline_span(s, i)->0.full.1),
{
    let (k, sol) = lemma_free_position(s, i);
    let blocks = fenced(s, 0, true);
    let x = inline_span(s, i)->0;
    lemma_inline_span(s, i);
    let item: int = if sol && bullet_at(s, i) {
        1
    } else {
        0
    };
    assert(spans_from(s, blocks, i, sol)[item] == x);
    assert(spans(s)[k + item] == x);
}

/// Every closed pair of backticks on one line, at a free position, is code.
pub proof fn law_code_is_found(s: Seq<char>, from: int, end: int)
    requires
        0 <= from,
        from + 2 < end <= s.len(),
        is_free(s, from),
        s[from] == '`' && s[end - 1] == '`',
        forall|i: int| from < i < end - 1 ==> #[trigger] s[i] != '`' && s[i] != '\n',
    ensures
        finds(s, Kind::Code, from, end),
{
    lemma_close_at_first(s, from + 1, end - 1, '`');
    assert(s[from + 1] != '`');
    lemma_no_heading(s, from);
    lemma_found_inline(s, from);
}

proof fn lemma_no_heading(s: Seq<char>, i: int)
    requires
        0 <= i < s.len(),
        s[i] != '#',
    ensures
        heading_level(s, i) is None,
{
}

/// Every text between two pairs of stars in one paragraph, at a free position, is bold.
pub proof fn law_bold_is_found(s: Seq<char>, from: int, end: int)
    requires
        0 <= from,
        from + 4 <= end <= s.len(),
        is_free(s, from),
        s[from] == '*' && s[from + 1] == '*' && s[end - 2] == '*' && s[end - 1] == '*',
        forall|i: int|
            #![trigger s[i]]
            from + 2 <= i < end - 2 ==> !(s[i] == '*' && s[i + 1] == '*') && !(s[i] == '\n' && s[i
                + 1] == '\n'),
    ensures
        finds(s, Kind::Bold, from, end),
{
    lemma_close_pair_at_first(s, from + 2, end - 2);
    lemma_no_heading(s, from);
    lemma_found_inline(s, from);
}

/// Every text between two single stars, or between two underscores that follow no letter or
/// digit, on one line and at a free position, is italic.
pub proof fn law_italic_is_found(s: Seq<char>, from: int, end: int)
    requires
        0 <= from,
        from + 2 < end <= s.len(),
        is_free(s, from),
        s[from] == '*' || (s[from] == '_' && (from == 0 || !is_alnum(s[from - 1]))),
        s[end - 1] == s[from],
        forall|i: int| from < i < end - 1 ==> #[trigger] s[i] != s[from] && s[i] != '\n',
    ensures
        finds(s, Kind::Italic, from, end),
{
    assert(s[from + 1] != s[from]);
    lemma_close_at_first(s, from + 1, end - 1, s[from]);
    lemma_no_heading(s, from);
    lemma_found_inline(s, from);
}

/// Every line that begins with `# ` or `## ` at a free position is a heading of that level.
pub proof fn law_headings_are_found(s: Seq<char>, from: int, end: int, level: int)
    requires
        0 <= from,
        level == 1 || level == 2,
        from + level < end <= s.len(),
        is_free(s, from),
        starts_line(s, from),
        forall|i: int| from <= i < from + level ==> #[trigger] s[i] == '#',
        s[from + level] == ' ',
        forall|i: int| from <= i < end ==> #[trigger] s[i] != '\n',
        ends_line(s, end),
    ensures
        finds(s, if level == 1 {
            Kind::H1
        } else {
            Kind::H2
        }, from, end),
{
    let (k, sol) = lemma_free_position(s, from);
    let blocks = fenced(s, 0, true);
    assert(s[from] == '#');
    assert(hashes_end(s, from) == from + level) by {
        reveal_with_fuel(hashes_end, 3);
        assert(s[from + level - 1] == '#');
    }
    lemma_line_end_at(s, from, end);
    assert(spans_from(s, blocks, from, sol)[0].full == (from, end));
    assert(spans(s)[k] == spans_from(s, blocks, from, sol)[0]);
}

/// Every line that begins with `- ` or `* ` at a free position is a list item.
pub proof fn law_list_items_are_found(s: Seq<char>, from: int, end: int)
    requires
        0 <= from,
        from + 1 < end <= s.len(),
        is_free(s, from),
        starts_line(s, from),
        s[from] == '-' || s[from] == '*',
        s[from + 1] == ' ',
        forall|i: int| from <= i < end ==> #[trigger] s[i] != '\n',
        ends_line(s, end),
    ensures
        finds(s, Kind::List, from, end),
{
    let (k, sol) = lemma_free_position(s, from);
    let blocks = fenced(s, 0, true);
    lemma_no_heading(s, from);
    lemma_line_end_at(s, from, end);
    let first = spans_from(s, blocks, from, sol)[0];
    assert(first.full == (from, end) && first.kind == Kind::List) by {
        lemma_inline_span(s, from);
    }
    assert(spans(s)[k] == first);
}

proof fn lemma_line_end_at(s: Seq<char>, i: int, end: int)
    requires
        0 <= i <= end <= s.len(),
        forall|k: int| i <= k < end ==> #[trigger] s[k] != '\n',
        ends_line(s, end),
    ensures
        line_end(s, i) == end,
{
    lemma_line_end(s, i);
    let e = line_end(s, i);
    if e < end {
        assert(s[e] == '\n');
    } else if e > end {
        assert(s[end] == '\n');
    }
}

proof fn lemma_fence_close_first(s: Seq<char>, k: int, sol: bool)
    requires
        0 <= k,
        sol <==> starts_line(s, k),
    ensures
        match fence_close(s, k, sol) {
            Some(e) => {
                &&& k <= e && fence_at(s, e) && starts_line(s, e)
                &&& forall|j: int| k <= j < e && fence_at(s, j) ==> !#[trigger] starts_line(s, j)
            },
            None => forall|j: int| k <= j && fence_at(s, j) ==> !#[trigger] starts_line(s, j),
        },
    decreases s.len() - k,
{
    if k < s.len() && !(sol && fence_at(s, k)) {
        lemma_fence_close_first(s, k + 1, s[k] == '\n');
    }
}

/// Whether a code block goes from `from` to `end`: from a fence at the start of a line to the
/// end of the line of the next such fence behind that line, or to the end of the text where
/// there is none.
pub open spec fn is_block(s: Seq<char>, from: int, end: int) -> bool {
    &&& fence_at(s, from) && starts_line(s, from)
    &&& from + 3 <= end <= s.len()
    &&& exists|line: int, close: int| #[trigger] closes_block(s, from, line, close, end)
}

/// Whether the block that opens at `from`, on a line that ends at `line`, is closed by the
/// fence at `close`, or by the end of the text where `close` is it.
pub open spec fn closes_block(s: Seq<char>, from: int, line: int, close: int, end: int) -> bool {
    &&& from + 3 <= line <= s.len() && ends_line(s, line)
    &&& forall|i: int| from <= i < line ==> #[trigger] s[i] != '\n'
    &&& line <= close
    &&& forall|i: int| line < i < close && fence_at(s, i) ==> !#[trigger] starts_line(s, i)
    &&& if close < s.len() {
        &&& line < close && fence_at(s, close) && starts_line(s, close)
        &&& ends_line(s, end) && close + 3 <= end
        &&& forall|i: int| close <= i < end ==> #[trigger] s[i] != '\n'
    } else {
        close == s.len() && end == s.len()
    }
}

proof fn lemma_block_is_block(s: Seq<char>, i: int) -> (end: int)
    requires
        0 <= i < s.len(),
        fence_at(s, i),
        starts_line(s, i),
    ensures
        fenced(s, i, true).len() > 0,
        fenced(s, i, true)[0] == (i, end),
        is_block(s, i, end),
        end == s.len() ==> fenced(s, i, true).len() == 1,
        end < s.len() ==> fenced(s, i, true) == seq![(i, end)] + fenced(s, end + 1, true),
{
    let line = line_end(s, i + 3);
    let inner = next_line(s, i + 3);
    lemma_line_end(s, i + 3);
    lemma_next_line(s, i + 3);
    lemma_fence_close(s, inner, true);
    if line < s.len() {
        lemma_fence_close_first(s, inner, true);
    }
    assert forall|j: int| i <= j < line implies #[trigger] s[j] != '\n' by {}
    match fence_close(s, inner, true) {
        None => {
            assert forall|j: int| line < j < s.len() && fence_at(s, j) implies !#[trigger] starts_line(
                s,
                j,
            ) by {}
            assert(closes_block(s, i, line, s.len() as int, s.len() as int));
            s.len() as int
        },
        Some(k) => {
            let e = line_end(s, k + 3);
            lemma_line_end(s, k + 3);
            assert forall|j: int| k <= j < e implies #[trigger] s[j] != '\n' by {}
            assert(closes_block(s, i, line, k, e));
            assert(seq![(i, e)] + Seq::<(int, int)>::empty() =~= seq![(i, e)]);
            e
        },
    }
}

proof fn lemma_blocks(s: Seq<char>, i: int, sol: bool)
    requires
        0 <= i,
        sol <==> starts_line(s, i),
    ensures
        forall|j: int|
            0 <= j < fenced(s, i, sol).len() ==> is_block(
                s,
                (#[trigger] fenced(s, i, sol)[j]).0,
                fenced(s, i, sol)[j].1,
            ),
        forall|p: int|
            #![trigger masked(fenced(s, i, sol), p)]
            i <= p && fence_at(s, p) && starts_line(s, p) ==> masked(fenced(s, i, sol), p),
    decreases s.len() - i,
{
    let all = fenced(s, i, sol);
    if i < s.len() {
        if sol && fence_at(s, i) {
            let e = lemma_block_is_block(s, i);
            if e < s.len() {
                assert(s[e] == '\n') by {
                    let (line, close) = choose|line: int, close: int| #[trigger]
                        closes_block(s, i, line, close, e);
                }
                lemma_blocks(s, e + 1, true);
                let rest = fenced(s, e + 1, true);
                assert forall|j: int| 0 <= j < all.len() implies is_block(
                    s,
                    (#[trigger] all[j]).0,
                    all[j].1,
                ) by {
                    if j > 0 {
                        assert(all[j] == rest[j - 1]);
                    }
                }
                assert forall|p: int|
                    #![trigger masked(all, p)]
                    i <= p && fence_at(s, p) && starts_line(s, p) implies masked(all, p) by {
                    if p < e {
                        assert(all[0].0 <= p < all[0].1);
                    } else {
                        assert(p > e);
                        assert(masked(rest, p));
                        let k = choose|k: int|
                            0 <= k < rest.len() && (#[trigger] rest[k]).0 <= p < rest[k].1;
                        assert(all[k + 1] == rest[k]);
                    }
                }
            } else {
                assert forall|p: int|
                    #![trigger masked(all, p)]
                    i <= p && fence_at(s, p) && starts_line(s, p) implies masked(all, p) by {
                    assert(all[0].0 <= p < all[0].1);
                }
            }
        } else {
            lemma_blocks(s, i + 1, s[i] == '\n');
            assert(all == fenced(s, i + 1, s[i] == '\n'));
        }
    }
}

/// A code block goes from a fence to the end of the line of the next one, and every fence at
/// the start of a line belongs to a code block.
pub proof fn law_code_blocks_go_from_fence_to_fence(s: Seq<char>, j: int, p: int)
    ensures
        0 <= j < spans(s).len() && spans(s)[j].kind == Kind::CodeBlock ==> is_block(
            s,
            spans(s)[j].full.0,
            spans(s)[j].full.1,
        ),
        fence_at(s, p) && starts_line(s, p) ==> exists|k: int|
            0 <= k < spans(s).len() && (#[trigger] spans(s)[k]).kind == Kind::CodeBlock && spans(
                s,
            )[k].full.0 <= p < spans(s)[k].full.1,
{
    let blocks = fenced(s, 0, true);
    lemma_blocks(s, 0, true);
    lemma_spans_from_fit(s, blocks, 0, true);
    let n = blocks.len() as int;
    if 0 <= j < spans(s).len() && spans(s)[j].kind == Kind::CodeBlock {
        if j >= n {
            assert(spans(s)[j] == spans_from(s, blocks, 0, true)[j - n]);
        }
        assert(spans(s)[j] == block_span(s, blocks[j]));
    }
    if fence_at(s, p) && starts_line(s, p) {
        assert(masked(blocks, p));
        let k = choose|k: int| 0 <= k < blocks.len() && (#[trigger] blocks[k]).0 <= p < blocks[k].1;
        assert(spans(s)[k] == block_span(s, blocks[k]));
    }
}

/// The opening line of a code block is its first marker, newline and all.
pub proof fn law_opening_fences_are_markers(s: Seq<char>, j: int, line: int)
    requires
        0 <= j < spans(s).len(),
        spans(s)[j].kind == Kind::CodeBlock,
        spans(s)[j].full.0 <= line <= spans(s)[j].full.1,
        ends_line(s, line),
        forall|i: int| spans(s)[j].full.0 <= i < line ==> #[trigger] s[i] != '\n',
    ensures
        spans(s)[j].markers.len() > 0,
        spans(s)[j].markers[0].0 == spans(s)[j].full.0,
        spans(s)[j].markers[0].1 == (if line < spans(s)[j].full.1 {
            line + 1
        } else {
            line
        }),
{
    let blocks = fenced(s, 0, true);
    lemma_fenced_in_bounds(s, 0, true);
    lemma_spans_from_fit(s, blocks, 0, true);
    lemma_blocks_open_with_fences(s, 0, true);
    let n = blocks.len() as int;
    if j >= n {
        assert(spans(s)[j] == spans_from(s, blocks, 0, true)[j - n]);
    }
    let b = blocks[j];
    assert(block_in_bounds(s, b));
    assert(fence_at(s, b.0));
    assert(spans(s)[j] == block_span(s, b));
    assert(line >= b.0 + 3) by {
        if line < b.0 + 3 {
            assert(s[line] == '`');
        }
    }
    lemma_line_end_at(s, b.0 + 3, line);
}

proof fn lemma_last_fence(s: Seq<char>, p: int, open: int, q: int)
    requires
        0 <= open,
        open + 4 <= q <= p,
        fence_at(s, q),
    ensures
        q <= back_to_fence(s, p, open) <= p,
        fence_at(s, back_to_fence(s, p, open)),
        forall|k: int| back_to_fence(s, p, open) < k <= p ==> !#[trigger] fence_at(s, k),
    decreases p,
{
    if !fence_at(s, p) {
        lemma_last_fence(s, p - 1, open, q);
    }
}

/// Where a code block holds another fence behind its opening one, the last of them is a
/// marker, with what follows it on its line.
pub proof fn law_closing_fences_are_markers(s: Seq<char>, j: int, q: int)
    requires
        0 <= j < spans(s).len(),
        spans(s)[j].kind == Kind::CodeBlock,
        spans(s)[j].full.0 + 4 <= q <= spans(s)[j].full.1,
        fence_at(s, q),
    ensures
        spans(s)[j].markers.len() == 2,
        q <= spans(s)[j].markers[1].0,
        fence_at(s, spans(s)[j].markers[1].0),
        forall|k: int|
            spans(s)[j].markers[1].0 < k <= spans(s)[j].full.1 ==> !#[trigger] fence_at(s, k),
        spans(s)[j].markers[1].1 == spans(s)[j].full.1,
{
    let blocks = fenced(s, 0, true);
    lemma_fenced_in_bounds(s, 0, true);
    lemma_spans_from_fit(s, blocks, 0, true);
    let n = blocks.len() as int;
    if j >= n {
        assert(spans(s)[j] == spans_from(s, blocks, 0, true)[j - n]);
    }
    let b = blocks[j];
    assert(block_in_bounds(s, b));
    assert(spans(s)[j] == block_span(s, b));
    lemma_last_fence(s, b.1, b.0, q);
}

proof fn lemma_no_fence_behind(s: Seq<char>, p: int, open: int)
    requires
        0 <= open,
        open + 3 <= p,
        forall|k: int| open + 3 < k <= p ==> !#[trigger] fence_at(s, k),
    ensures
        back_to_fence(s, p, open) <= open + 3,
    decreases p,
{
    if p > open + 3 {
        if p - 1 > open + 3 {
            lemma_no_fence_behind(s, p - 1, open);
        }
    }
}

/// A block that nothing closes hides its opening line and nothing else.
pub proof fn law_open_blocks_hide_their_opening_only(s: Seq<char>, b: (int, int))
    requires
        0 <= b.0,
        b.0 + 3 <= b.1 <= s.len(),
        forall|k: int| b.0 + 3 < k <= b.1 ==> !#[trigger] fence_at(s, k),
    ensures
        block_span(s, b).markers.len() == 1,
        block_span(s, b).markers[0].0 == b.0,
        block_span(s, b).full == b,
        block_span(s, b).kind == Kind::CodeBlock,
{
    lemma_no_fence_behind(s, b.1, b.0);
}

}
