//! A note's body as a row of text, images and copy blocks.
//!
//! An image stands in a body as `![image](path)`, a copy block as `{copy}…{/copy}`. What is
//! not closed is text.

use crate::text::{chars_of, find_char_from, find_from, starts_at, string_between};
use vstd::prelude::*;

verus! {

#[derive(Debug, Clone, PartialEq, Eq)]
pub enum BodyPart {
    Text(String),
    /// An image, by its path.
    Image(String),
    /// A block that is copied by a click, by its source.
    CopyBlock(String),
}

pub enum PartView {
    Text(Seq<char>),
    Image(Seq<char>),
    CopyBlock(Seq<char>),
}

impl View for BodyPart {
    type V = PartView;

    open spec fn view(&self) -> PartView {
        match self {
            BodyPart::Text(t) => PartView::Text(t@),
            BodyPart::Image(p) => PartView::Image(p@),
            BodyPart::CopyBlock(c) => PartView::CopyBlock(c@),
        }
    }
}

pub open spec fn part_views(v: Seq<BodyPart>) -> Seq<PartView> {
    v.map_values(|p: BodyPart| p@)
}

pub open spec fn image_open() -> Seq<char> {
    "![image]("@
}

pub open spec fn copy_open() -> Seq<char> {
    "{copy}"@
}

pub open spec fn copy_close() -> Seq<char> {
    "{/copy}"@
}

/// Where the image that begins at `i` has its `)`.
pub open spec fn image_end(s: Seq<char>, i: int) -> Option<int> {
    if crate::text::stands_at(s, i, image_open()) {
        crate::text::find_char(s, ')', i + image_open().len())
    } else {
        None
    }
}

/// Where the copy block that begins at `i` has its closing mark.
pub open spec fn copy_end(s: Seq<char>, i: int) -> Option<int> {
    if crate::text::stands_at(s, i, copy_open()) {
        crate::text::find_at(s, copy_close(), i + copy_open().len())
    } else {
        None
    }
}

/// The text between two positions, unless it is empty.
pub open spec fn text_part(s: Seq<char>, from: int, to: int) -> Seq<PartView> {
    if from < to {
        seq![PartView::Text(s.subrange(from, to))]
    } else {
        Seq::empty()
    }
}

/// The parts of `s` from `i` on, where the text since `from` is still open. Copy blocks
/// count only with `copies`.
pub open spec fn parts_from(s: Seq<char>, from: int, i: int, copies: bool) -> Seq<PartView>
    decreases s.len() - i,
{
    if i < 0 || i >= s.len() {
        text_part(s, from, s.len() as int)
    } else {
        proof {
            lemma_marks();
            crate::text::lemma_find_char(s, ')', i + image_open().len());
            crate::text::lemma_find_at(s, copy_close(), i + copy_open().len());
        }
        match image_end(s, i) {
            Some(e) => text_part(s, from, i) + seq![
                PartView::Image(s.subrange(i + image_open().len(), e)),
            ] + parts_from(s, e + 1, e + 1, copies),
            None => match copy_end(s, i) {
                Some(e) => if copies {
                    text_part(s, from, i) + seq![
                        PartView::CopyBlock(s.subrange(i + copy_open().len(), e)),
                    ] + parts_from(s, e + copy_close().len(), e + copy_close().len(), copies)
                } else {
                    parts_from(s, from, i + 1, copies)
                },
                None => parts_from(s, from, i + 1, copies),
            },
        }
    }
}

pub proof fn lemma_marks()
    ensures
        image_open().len() == 9,
        copy_open().len() == 6,
        copy_close().len() == 7,
{
    reveal_strlit("![image](");
    reveal_strlit("{copy}");
    reveal_strlit("{/copy}");
}

/// The parts of a body.
pub open spec fn body_parts(s: Seq<char>, copies: bool) -> Seq<PartView> {
    parts_from(s, 0, 0, copies)
}

fn push_open_text(parts: &mut Vec<BodyPart>, v: &Vec<char>, from: usize, to: usize)
    requires
        to <= v@.len(),
    ensures
        part_views(final(parts)@) == part_views(old(parts)@) + text_part(
            v@,
            from as int,
            to as int,
        ),
{
    let ghost before = part_views(parts@);
    if from < to {
        let part = BodyPart::Text(string_between(v, from, to));
        parts.push(part);
        assert(part_views(parts@) =~= before.push(part@));
    }
    assert(part_views(parts@) =~= before + text_part(v@, from as int, to as int));
}

/// Splits a body. Copy blocks count only with `copies`.
pub fn split_body(body: &str, copies: bool) -> (r: Vec<BodyPart>)
    ensures
        part_views(r@) == body_parts(body@, copies),
{
    let v = chars_of(body);
    let n: usize = v.len();
    let image_mark = chars_of("![image](");
    let open_mark = chars_of("{copy}");
    let close_mark = chars_of("{/copy}");
    let mut parts: Vec<BodyPart> = Vec::new();
    let mut from: usize = 0;
    let mut i: usize = 0;
    proof {
        lemma_marks();
        assert(body_parts(v@, copies) =~= part_views(parts@) + parts_from(v@, 0, 0, copies));
    }
    while i < n
        invariant
            n == v@.len(),
            v@ == body@,
            from <= i <= n,
            image_mark@ == image_open(),
            open_mark@ == copy_open(),
            close_mark@ == copy_close(),
            image_open().len() == 9,
            copy_open().len() == 6,
            copy_close().len() == 7,
            body_parts(v@, copies) == part_views(parts@) + parts_from(
                v@,
                from as int,
                i as int,
                copies,
            ),
        decreases n - i,
    {
        let ghost before = part_views(parts@);
        let image: Option<usize> = if starts_at(&v, i, &image_mark) {
            proof {
                crate::text::lemma_find_char(v@, ')', i + 9);
            }
            find_char_from(&v, ')', i + 9)
        } else {
            None
        };
        if let Some(e) = image {
            push_open_text(&mut parts, &v, from, i);
            let ghost with_text = part_views(parts@);
            let part = BodyPart::Image(string_between(&v, i + 9, e));
            parts.push(part);
            proof {
                assert(part_views(parts@) =~= with_text.push(part@));
                assert(part_views(parts@) + parts_from(v@, e + 1, e + 1, copies) =~= before + (
                text_part(v@, from as int, i as int) + seq![part@] + parts_from(
                    v@,
                    e + 1,
                    e + 1,
                    copies,
                )));
            }
            i = e + 1;
            from = i;
            continue;
        }
        let copy: Option<usize> = if copies && starts_at(&v, i, &open_mark) {
            proof {
                crate::text::lemma_find_at(v@, copy_close(), i + 6);
            }
            find_from(&v, &close_mark, i + 6)
        } else {
            None
        };
        if let Some(e) = copy {
            push_open_text(&mut parts, &v, from, i);
            let ghost with_text = part_views(parts@);
            let part = BodyPart::CopyBlock(string_between(&v, i + 6, e));
            parts.push(part);
            proof {
                assert(part_views(parts@) =~= with_text.push(part@));
                assert(part_views(parts@) + parts_from(v@, e + 7, e + 7, copies) =~= before + (
                text_part(v@, from as int, i as int) + seq![part@] + parts_from(
                    v@,
                    e + 7,
                    e + 7,
                    copies,
                )));
            }
            i = e + 7;
            from = i;
            continue;
        }
        i += 1;
    }
    push_open_text(&mut parts, &v, from, n);
    parts
}

// ───────────────────────────── laws ─────────────────────────────
/// The source of a part.
pub open spec fn part_source(p: PartView) -> Seq<char> {
    match p {
        PartView::Text(t) => t,
        PartView::Image(path) => image_open() + path + ")"@,
        PartView::CopyBlock(c) => copy_open() + c + copy_close(),
    }
}

/// The sources of `parts`, in a row.
pub open spec fn parts_source(parts: Seq<PartView>) -> Seq<char>
    decreases parts.len(),
{
    if parts.len() == 0 {
        Seq::empty()
    } else {
        part_source(parts[0]) + parts_source(parts.skip(1))
    }
}

pub proof fn lemma_source_of_sum(a: Seq<PartView>, b: Seq<PartView>)
    ensures
        parts_source(a + b) == parts_source(a) + parts_source(b),
    decreases a.len(),
{
    if a.len() == 0 {
        assert(a + b =~= b);
        assert(parts_source(a + b) =~= parts_source(a) + parts_source(b));
    } else {
        lemma_source_of_sum(a.skip(1), b);
        assert((a + b).skip(1) =~= a.skip(1) + b);
        assert(parts_source(a + b) =~= parts_source(a) + parts_source(b));
    }
}

proof fn lemma_source_of_one(p: PartView)
    ensures
        parts_source(seq![p]) == part_source(p),
{
    assert(seq![p].skip(1) =~= Seq::<PartView>::empty());
    assert(parts_source(seq![p].skip(1)) =~= Seq::<char>::empty());
    assert(parts_source(seq![p]) =~= part_source(p));
}

proof fn lemma_source_of_text(s: Seq<char>, from: int, to: int)
    requires
        0 <= from <= to <= s.len(),
    ensures
        parts_source(text_part(s, from, to)) == s.subrange(from, to),
{
    if from < to {
        lemma_source_of_one(PartView::Text(s.subrange(from, to)));
    } else {
        assert(parts_source(text_part(s, from, to)) =~= s.subrange(from, to));
    }
}

proof fn lemma_source_from(s: Seq<char>, from: int, i: int, copies: bool)
    requires
        0 <= from <= i <= s.len(),
    ensures
        parts_source(parts_from(s, from, i, copies)) == s.skip(from),
    decreases s.len() - i,
{
    lemma_marks();
    reveal_strlit(")");
    if i >= s.len() {
        lemma_source_of_text(s, from, s.len() as int);
        assert(s.subrange(from, s.len() as int) =~= s.skip(from));
    } else {
        crate::text::lemma_find_char(s, ')', i + 9);
        crate::text::lemma_find_at(s, copy_close(), i + 6);
        lemma_source_of_text(s, from, i);
        match image_end(s, i) {
            Some(e) => {
                let part = PartView::Image(s.subrange(i + 9, e));
                let rest = parts_from(s, e + 1, e + 1, copies);
                lemma_source_from(s, e + 1, e + 1, copies);
                lemma_source_of_one(part);
                lemma_source_of_sum(text_part(s, from, i), seq![part]);
                lemma_source_of_sum(text_part(s, from, i) + seq![part], rest);
                assert(s.subrange(i, i + 9) == image_open());
                assert(s.subrange(from, i) + (s.subrange(i, i + 9) + s.subrange(i + 9, e) + ")"@)
                    + s.skip(e + 1) =~= s.skip(from));
            },
            None => {
                if copies && copy_end(s, i) is Some {
                    let e = copy_end(s, i)->0;
                    let part = PartView::CopyBlock(s.subrange(i + 6, e));
                    let rest = parts_from(s, e + 7, e + 7, copies);
                    lemma_source_from(s, e + 7, e + 7, copies);
                    lemma_source_of_one(part);
                    lemma_source_of_sum(text_part(s, from, i), seq![part]);
                    lemma_source_of_sum(text_part(s, from, i) + seq![part], rest);
                    assert(s.subrange(i, i + 6) == copy_open());
                    assert(s.subrange(e, e + 7) == copy_close());
                    assert(s.subrange(from, i) + (s.subrange(i, i + 6) + s.subrange(i + 6, e)
                        + s.subrange(e, e + 7)) + s.skip(e + 7) =~= s.skip(from));
                } else {
                    lemma_source_from(s, from, i + 1, copies);
                }
            },
        }
    }
}

/// The sources of a body's parts, in a row, are the body: splitting loses nothing and
/// adds nothing.
pub proof fn law_parts_give_the_body_back(s: Seq<char>, copies: bool)
    ensures
        parts_source(body_parts(s, copies)) == s,
{
    lemma_source_from(s, 0, 0, copies);
    assert(s.skip(0) =~= s);
}

/// Without copy blocks, a body is text and images only.
pub proof fn law_no_copy_blocks_without_copies(s: Seq<char>, from: int, i: int)
    requires
        0 <= i,
    ensures
        forall|k: int|
            0 <= k < parts_from(s, from, i, false).len() ==> !(#[trigger] parts_from(
                s,
                from,
                i,
                false,
            )[k] is CopyBlock),
    decreases s.len() - i,
{
    lemma_marks();
    if i < s.len() {
        crate::text::lemma_find_char(s, ')', i + 9);
        match image_end(s, i) {
            Some(e) => law_no_copy_blocks_without_copies(s, e + 1, e + 1),
            None => law_no_copy_blocks_without_copies(s, from, i + 1),
        }
    }
}

proof fn lemma_find_char_shift(s: Seq<char>, c: char, n: int, i: int)
    requires
        0 <= n <= i,
        n <= s.len(),
    ensures
        match crate::text::find_char(s.skip(n), c, i - n) {
            Some(k) => crate::text::find_char(s, c, i) == Some(k + n),
            None => crate::text::find_char(s, c, i) is None,
        },
    decreases s.len() - i,
{
    if i < s.len() {
        assert(s.skip(n)[i - n] == s[i]);
        lemma_find_char_shift(s, c, n, i + 1);
    }
}

proof fn lemma_stands_shift(s: Seq<char>, p: Seq<char>, n: int, i: int)
    requires
        0 <= n <= i,
        n <= s.len(),
    ensures
        crate::text::stands_at(s.skip(n), i - n, p) == crate::text::stands_at(s, i, p),
{
    if i + p.len() <= s.len() {
        assert(s.skip(n).subrange(i - n, i - n + p.len()) =~= s.subrange(i, i + p.len()));
    }
}

pub proof fn lemma_find_at_shift(s: Seq<char>, p: Seq<char>, n: int, i: int)
    requires
        0 <= n <= i,
        n <= s.len(),
    ensures
        match crate::text::find_at(s.skip(n), p, i - n) {
            Some(k) => crate::text::find_at(s, p, i) == Some(k + n),
            None => crate::text::find_at(s, p, i) is None,
        },
    decreases s.len() - i + 1,
{
    if i + p.len() <= s.len() {
        lemma_stands_shift(s, p, n, i);
        if !crate::text::stands_at(s, i, p) {
            lemma_find_at_shift(s, p, n, i + 1);
        }
    }
}

proof fn lemma_parts_shift(s: Seq<char>, n: int, from: int, i: int, copies: bool)
    requires
        0 <= n <= from <= i,
        n <= s.len(),
    ensures
        parts_from(s.skip(n), from - n, i - n, copies) == parts_from(s, from, i, copies),
    decreases s.len() - i,
{
    let t = s.skip(n);
    lemma_marks();
    if i < s.len() {
        lemma_stands_shift(s, image_open(), n, i);
        lemma_stands_shift(s, copy_open(), n, i);
        lemma_find_char_shift(s, ')', n, i + image_open().len());
        lemma_find_at_shift(s, copy_close(), n, i + copy_open().len());
        crate::text::lemma_find_char(s, ')', i + image_open().len());
        crate::text::lemma_find_at(s, copy_close(), i + copy_open().len());
        if from < i {
            assert(t.subrange(from - n, i - n) =~= s.subrange(from, i));
        }
        match image_end(s, i) {
            Some(e) => {
                lemma_parts_shift(s, n, e + 1, e + 1, copies);
                assert(t.subrange(i - n + image_open().len(), e - n) =~= s.subrange(
                    i + image_open().len(),
                    e,
                ));
            },
            None => match copy_end(s, i) {
                Some(e) => {
                    if copies {
                        lemma_parts_shift(
                            s,
                            n,
                            e + copy_close().len(),
                            e + copy_close().len(),
                            copies,
                        );
                        assert(t.subrange(i - n + copy_open().len(), e - n) =~= s.subrange(
                            i + copy_open().len(),
                            e,
                        ));
                    } else {
                        lemma_parts_shift(s, n, from, i + 1, copies);
                    }
                },
                None => {
                    lemma_parts_shift(s, n, from, i + 1, copies);
                },
            },
        }
    } else {
        if from < s.len() {
            assert(t.subrange(from - n, t.len() as int) =~= s.subrange(from, s.len() as int));
        }
    }
}

/// Whether a text holds no character with which an image or a copy block begins.
pub open spec fn has_no_marks(s: Seq<char>) -> bool {
    !s.contains('!') && !s.contains('{')
}

proof fn lemma_parts_of_text(s: Seq<char>, i: int, n: int, copies: bool)
    requires
        0 <= i <= n <= s.len(),
        forall|k: int| i <= k < n ==> #[trigger] s[k] != '!' && s[k] != '{',
    ensures
        parts_from(s, 0, i, copies) == parts_from(s, 0, n, copies),
    decreases n - i,
{
    if i < n {
        lemma_marks();
        reveal_strlit("![image](");
        reveal_strlit("{copy}");
        if crate::text::stands_at(s, i, image_open()) {
            assert(s.subrange(i, i + image_open().len())[0] == s[i]);
        }
        if crate::text::stands_at(s, i, copy_open()) {
            assert(s.subrange(i, i + copy_open().len())[0] == s[i]);
        }
        lemma_parts_of_text(s, i + 1, n, copies);
    }
}

/// The text part that `t` makes: none where it is empty.
pub open spec fn as_text(t: Seq<char>) -> Seq<PartView> {
    if t.len() == 0 {
        Seq::empty()
    } else {
        seq![PartView::Text(t)]
    }
}

/// A body without images and copy blocks is one text.
pub proof fn law_plain_bodies_are_one_text(t: Seq<char>, copies: bool)
    requires
        has_no_marks(t),
    ensures
        body_parts(t, copies) == as_text(t),
{
    let n = t.len() as int;
    assert forall|k: int| 0 <= k < n implies #[trigger] t[k] != '!' && t[k] != '{' by {
        assert(t.contains(t[k]));
    }
    lemma_parts_of_text(t, 0, n, copies);
    assert(t.subrange(0, n) =~= t);
}

/// Every image is a part of its own: behind some text, `![image](` and a path up to the next
/// `)` give an image with that path, and what follows is split on its own.
pub proof fn law_images_are_parts(t: Seq<char>, path: Seq<char>, rest: Seq<char>, copies: bool)
    requires
        has_no_marks(t),
        !path.contains(')'),
    ensures
        body_parts(t + "![image]("@ + path + ")"@ + rest, copies) == as_text(t) + seq![
            PartView::Image(path),
        ] + body_parts(rest, copies),
{
    lemma_marks();
    reveal_strlit("![image](");
    reveal_strlit(")");
    let s = t + "![image]("@ + path + ")"@ + rest;
    let n = t.len() as int;
    let from = n + 9;
    let e = from + path.len();
    assert forall|k: int| 0 <= k < n implies #[trigger] s[k] != '!' && s[k] != '{' by {
        assert(s[k] == t[k]);
        assert(t.contains(t[k]));
    }
    lemma_parts_of_text(s, 0, n, copies);
    assert(s.subrange(n, n + 9) =~= "![image]("@);
    assert(crate::text::stands_at(s, n, image_open()));
    assert(s[e] == ')');
    assert forall|k: int| from <= k < e implies #[trigger] s[k] != ')' by {
        assert(s[k] == path[k - from]);
        assert(path.contains(path[k - from]));
    }
    lemma_find_first(s, ')', from, e);
    assert(s.subrange(from, e) =~= path);
    assert(s.subrange(0, n) =~= t);
    assert(s.skip(e + 1) =~= rest);
    lemma_parts_shift(s, e + 1, e + 1, e + 1, copies);
    assert(body_parts(s, copies) =~= as_text(t) + seq![PartView::Image(path)] + body_parts(
        rest,
        copies,
    ));
}

proof fn lemma_find_first(s: Seq<char>, c: char, i: int, k: int)
    requires
        0 <= i <= k < s.len(),
        s[k] == c,
        forall|j: int| i <= j < k ==> #[trigger] s[j] != c,
    ensures
        crate::text::find_char(s, c, i) == Some(k),
    decreases k - i,
{
    if i < k {
        lemma_find_first(s, c, i + 1, k);
    }
}

/// Every copy block is a part of its own where copy blocks count: behind some text, `{copy}`
/// and a content up to the next `{/copy}` give a block with that content, and what follows is
/// split on its own. Where they do not count, the block is text.
pub proof fn law_copy_blocks_are_parts(t: Seq<char>, content: Seq<char>, rest: Seq<char>)
    requires
        has_no_marks(t),
        !content.contains('{'),
    ensures
        body_parts(t + "{copy}"@ + content + "{/copy}"@ + rest, true) == as_text(t) + seq![
            PartView::CopyBlock(content),
        ] + body_parts(rest, true),
{
    lemma_marks();
    reveal_strlit("![image](");
    reveal_strlit("{copy}");
    reveal_strlit("{/copy}");
    let s = t + "{copy}"@ + content + "{/copy}"@ + rest;
    let n = t.len() as int;
    let from = n + 6;
    let e = from + content.len();
    assert forall|k: int| 0 <= k < n implies #[trigger] s[k] != '!' && s[k] != '{' by {
        assert(s[k] == t[k]);
        assert(t.contains(t[k]));
    }
    lemma_parts_of_text(s, 0, n, true);
    assert(s.subrange(n, n + 6) =~= "{copy}"@);
    assert(crate::text::stands_at(s, n, copy_open()));
    assert(!crate::text::stands_at(s, n, image_open())) by {
        if crate::text::stands_at(s, n, image_open()) {
            assert(s.subrange(n, n + 9)[0] == s[n]);
        }
    }
    assert(s.subrange(e, e + 7) =~= "{/copy}"@);
    assert(crate::text::stands_at(s, e, copy_close()));
    crate::text::lemma_find_at(s, copy_close(), from);
    assert(crate::text::find_at(s, copy_close(), from) == Some(e)) by {
        assert forall|k: int| from <= k < e implies !crate::text::stands_at(s, k, copy_close()) by {
            if crate::text::stands_at(s, k, copy_close()) {
                assert(s.subrange(k, k + 7)[0] == s[k]);
                assert(s[k] == content[k - from]);
                assert(content.contains(content[k - from]));
            }
        }
    }
    assert(s.subrange(from, e) =~= content);
    assert(s.subrange(0, n) =~= t);
    assert(s.skip(e + 7) =~= rest);
    lemma_parts_shift(s, e + 7, e + 7, e + 7, true);
    assert(body_parts(s, true) =~= as_text(t) + seq![PartView::CopyBlock(content)] + body_parts(
        rest,
        true,
    ));
}

}
