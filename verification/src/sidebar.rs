//! The list of notes: what a row of it shows.

use crate::note::Note;
use crate::tags::{normalize_note_tag, note_color_css_class};
use crate::text::chars_of;
use vstd::prelude::*;

verus! {

/// What a note's row shows.
#[derive(Debug)]
pub struct NoteRow {
    pub title: String,
    /// The line under the title, where there is one.
    pub snippet: Option<String>,
    /// The tag behind a `#`, where there is one.
    pub tag: Option<String>,
    /// The style of the coloured strip.
    pub color_class: String,
    /// Whether the star is filled.
    pub pinned: bool,
    /// What the star offers.
    pub pin_hint: &'static str,
}

pub open spec fn nonempty(s: Seq<char>) -> Option<Seq<char>> {
    if s.len() == 0 {
        None
    } else {
        Some(s)
    }
}

/// Whether `r` is the row of `n`.
pub open spec fn is_row(r: NoteRow, n: crate::note::NoteView) -> bool {
    &&& r.title@ == (if crate::text::trim(n.title).len() == 0 {
        "Untitled note"@
    } else {
        n.title
    })
    &&& crate::canvas::optional_text(r.snippet) == nonempty(crate::note::snippet_of(n.body))
    &&& crate::canvas::optional_text(r.tag) == (if crate::tags::normal_tag(n.tag).len() == 0 {
        None
    } else {
        Some("#"@ + crate::tags::normal_tag(n.tag))
    })
    &&& r.color_class@ == crate::tags::color_class(n.color)
    &&& r.pinned == n.pinned
    &&& r.pin_hint@ == (if n.pinned {
        "Unpin"@
    } else {
        "Pin to top"@
    })
}

/// The row of a note.
pub fn note_row(note: &Note) -> (r: NoteRow)
    ensures
        is_row(r, note@),
{
    let snippet = note.snippet();
    let tag = normalize_note_tag(note.tag.as_str());
    let tag_empty: bool = chars_of(tag.as_str()).len() == 0;
    let mut hashed = "#".to_owned();
    hashed.append(tag.as_str());
    let snippet_empty: bool = chars_of(snippet.as_str()).len() == 0;
    NoteRow {
        title: note.display_title(),
        snippet: if snippet_empty {
            None
        } else {
            Some(snippet)
        },
        tag: if tag_empty {
            None
        } else {
            Some(hashed)
        },
        color_class: note_color_css_class(note.color.as_str()),
        pinned: note.pinned,
        pin_hint: if note.pinned {
            "Unpin"
        } else {
            "Pin to top"
        },
    }
}

/// A row shows the note's own title, or a stand-in for a blank one; its tag behind a `#` where
/// it has one; a filled star exactly where it is pinned, with the offer to do the opposite.
pub proof fn law_rows_show_their_notes(r: NoteRow, n: crate::note::NoteView)
    requires
        is_row(r, n),
    ensures
        crate::text::trim(n.title).len() > 0 ==> r.title@ == n.title,
        crate::text::trim(n.title).len() == 0 ==> r.title@ == "Untitled note"@,
        r.snippet is Some <==> crate::note::snippet_of(n.body).len() > 0,
        r.snippet matches Some(t) ==> t@ == crate::note::snippet_of(n.body),
        r.tag is Some <==> crate::tags::normal_tag(n.tag).len() > 0,
        r.tag matches Some(t) ==> t@.len() > 0 && t@[0] == '#' && t@.skip(1)
            == crate::tags::normal_tag(n.tag),
        r.pinned <==> n.pinned,
        r.pinned ==> r.pin_hint@ == "Unpin"@,
        !r.pinned ==> r.pin_hint@ == "Pin to top"@,
        r.color_class@ == crate::tags::color_class(n.color),
{
    reveal_strlit("#");
    if let Some(t) = r.tag {
        assert(t@.skip(1) =~= crate::tags::normal_tag(n.tag));
    }
}

}
