//! The state of the editor: the notes, the one that is open, and what can be undone.
//!
//! Every change is split in two where the database stands between: a question that changes
//! nothing and says what to store, and a step that is taken once it is stored.

use crate::note::{Note, Timestamp};
use crate::tags::{normalize_note_color, normalize_note_tag, note_matches_tag_filter};
use crate::text::{chars_of, same_text, to_lowercase, trimmed_text};
use vstd::prelude::*;

verus! {

/// How many deleted notes can be brought back.
pub const UNDO_STACK_LIMIT: usize = 25;

/// How many earlier bodies can be brought back.
pub const TEXT_UNDO_LIMIT: usize = 80;

/// A body that a note had.
#[derive(Debug, Clone)]
pub struct TextSnapshot {
    pub note_id: i64,
    pub body: String,
}

pub struct SnapshotView {
    pub note_id: i64,
    pub body: Seq<char>,
}

impl View for TextSnapshot {
    type V = SnapshotView;

    open spec fn view(&self) -> SnapshotView {
        SnapshotView { note_id: self.note_id, body: self.body@ }
    }
}

pub open spec fn snapshot_views(s: Seq<TextSnapshot>) -> Seq<SnapshotView> {
    s.map_values(|t: TextSnapshot| t@)
}

#[derive(Debug)]
pub struct State {
    notes: Vec<Note>,
    current_id: Option<i64>,
    filter: String,
    active_tag: Option<String>,
    deleted_stack: Vec<Note>,
    text_undo: Vec<TextSnapshot>,
}

pub struct StateView {
    pub notes: Seq<crate::note::NoteView>,
    pub current_id: Option<i64>,
    pub filter: Seq<char>,
    pub active_tag: Option<Seq<char>>,
    pub deleted: Seq<crate::note::NoteView>,
    pub undo: Seq<SnapshotView>,
}

impl View for State {
    type V = StateView;

    closed spec fn view(&self) -> StateView {
        StateView {
            notes: crate::note::note_views(self.notes@),
            current_id: self.current_id,
            filter: self.filter@,
            active_tag: crate::canvas::optional_text(self.active_tag),
            deleted: crate::note::note_views(self.deleted_stack@),
            undo: snapshot_views(self.text_undo@),
        }
    }
}

// ───────────────────────────── order ─────────────────────────────
/// The pinned first, and then the latest.
pub open spec fn by_pin() -> spec_fn(crate::note::NoteView, crate::note::NoteView) -> bool {
    |a: crate::note::NoteView, b: crate::note::NoteView|
        (a.pinned && !b.pinned) || (a.pinned == b.pinned && !a.updated_at.before(b.updated_at))
}

fn insert_note(list: &mut Vec<Note>, note: Note)
    ensures
        crate::note::note_views(final(list)@) == crate::sort::inserted(
            crate::note::note_views(old(list)@),
            note@,
            by_pin(),
        ),
{
    let ghost before = crate::note::note_views(list@);
    let ghost le = by_pin();
    let mut i: usize = 0;
    while i < list.len()
        invariant_except_break
            i <= list@.len(),
            before == crate::note::note_views(list@),
            le == by_pin(),
            crate::sort::place(before, note@, le, 0) == crate::sort::place(
                before,
                note@,
                le,
                i as int,
            ),
        ensures
            i <= list@.len(),
            before == crate::note::note_views(list@),
            crate::sort::place(before, note@, le, 0) == i,
        decreases list@.len() - i,
    {
        assert(before[i as int] == list@[i as int]@);
        let fits: bool = if list[i].pinned != note.pinned {
            list[i].pinned
        } else {
            !list[i].updated_at.is_before(note.updated_at)
        };
        if !fits {
            break;
        }
        i += 1;
    }
    list.insert(i, note);
    assert(crate::note::note_views(list@) =~= before.insert(i as int, note@));
}

/// Notes in order.
pub fn sort_notes(notes: Vec<Note>) -> (r: Vec<Note>)
    ensures
        crate::note::note_views(r@) == crate::sort::sorted(
            crate::note::note_views(notes@),
            by_pin(),
        ),
{
    let ghost all = crate::note::note_views(notes@);
    let ghost le = by_pin();
    let mut rest = notes;
    let mut r: Vec<Note> = Vec::new();
    let ghost mut done: int = 0;
    assert(all.skip(0) =~= all);
    assert(all.take(0) =~= Seq::empty());
    assert(crate::note::note_views(r@) =~= crate::sort::sorted(all.take(0), le));
    while rest.len() > 0
        invariant
            0 <= done <= all.len(),
            crate::note::note_views(rest@) == all.skip(done),
            le == by_pin(),
            crate::note::note_views(r@) == crate::sort::sorted(all.take(done), le),
        decreases rest@.len(),
    {
        let ghost before = crate::note::note_views(rest@);
        assert(before.len() == rest@.len());
        let first = rest.remove(0);
        assert(before[0] == first@);
        assert(crate::note::note_views(rest@) =~= before.skip(1));
        assert(before.skip(1) =~= all.skip(done + 1));
        assert(all.take(done + 1).drop_last() =~= all.take(done));
        insert_note(&mut r, first);
        proof {
            done = done + 1;
        }
    }
    assert(crate::note::note_views(rest@).len() == rest@.len());
    assert(all.take(done) =~= all);
    r
}

// ───────────────────────────── finding ─────────────────────────────
/// The first note from `i` on with this id.
pub open spec fn find_note(
    notes: Seq<crate::note::NoteView>,
    id: i64,
    i: int,
) -> Option<int>
    decreases notes.len() - i,
{
    if i < 0 || i >= notes.len() {
        None
    } else if notes[i].id == id {
        Some(i)
    } else {
        find_note(notes, id, i + 1)
    }
}

pub proof fn lemma_find_note(notes: Seq<crate::note::NoteView>, id: i64, i: int)
    requires
        0 <= i,
    ensures
        find_note(notes, id, i) matches Some(k) ==> i <= k < notes.len() && notes[k].id == id,
        find_note(notes, id, i) is None ==> forall|k: int|
            i <= k < notes.len() ==> (#[trigger] notes[k]).id != id,
    decreases notes.len() - i,
{
    if i < notes.len() && notes[i].id != id {
        lemma_find_note(notes, id, i + 1);
    }
}

fn position(notes: &Vec<Note>, id: i64) -> (r: Option<usize>)
    ensures
        match r {
            Some(k) => k < notes@.len() && find_note(crate::note::note_views(notes@), id, 0) == Some(
                k as int,
            ),
            None => find_note(crate::note::note_views(notes@), id, 0) is None,
        },
{
    let ghost all = crate::note::note_views(notes@);
    let mut i: usize = 0;
    while i < notes.len()
        invariant
            i <= notes@.len(),
            all == crate::note::note_views(notes@),
            find_note(all, id, 0) == find_note(all, id, i as int),
        decreases notes@.len() - i,
    {
        assert(all[i as int] == notes@[i as int]@);
        if notes[i].id == id {
            return Some(i);
        }
        i += 1;
    }
    None
}

// ───────────────────────────── what the steps do ─────────────────────────────
/// At most the last `n` items.
pub open spec fn last_items<A>(s: Seq<A>, n: int) -> Seq<A> {
    if s.len() <= n {
        s
    } else {
        s.skip(s.len() - n)
    }
}

/// A note with another body.
pub open spec fn with_body(n: crate::note::NoteView, body: Seq<char>) -> crate::note::NoteView {
    crate::note::NoteView { title: crate::note::title_of(body), body, ..n }
}

/// The notes without those that have this id.
pub open spec fn without_note(
    notes: Seq<crate::note::NoteView>,
    id: i64,
) -> Seq<crate::note::NoteView>
    decreases notes.len(),
{
    if notes.len() == 0 {
        notes
    } else if notes.last().id == id {
        without_note(notes.drop_last(), id)
    } else {
        without_note(notes.drop_last(), id).push(notes.last())
    }
}

/// The open note is gone, and can be brought back with the body that it had on screen.
pub open spec fn deleted(s: StateView, live_body: Seq<char>) -> StateView {
    match s.current_id {
        None => s,
        Some(id) => StateView {
            notes: without_note(s.notes, id),
            current_id: None,
            deleted: match find_note(s.notes, id, 0) {
                Some(i) => last_items(
                    s.deleted.push(with_body(s.notes[i], live_body)),
                    UNDO_STACK_LIMIT as int,
                ),
                None => s.deleted,
            },
            ..s
        },
    }
}

/// A note is in the list, which is in order again.
pub open spec fn added(s: StateView, note: crate::note::NoteView) -> StateView {
    StateView { notes: crate::sort::sorted(s.notes.insert(0, note), by_pin()), ..s }
}

/// The note is back in the list, which is in order again.
pub open spec fn restored(s: StateView, note: crate::note::NoteView) -> StateView {
    StateView { notes: crate::sort::sorted(s.notes.push(note), by_pin()), ..s }
}

/// The notes with this one changed by `f`, where it is there.
pub open spec fn changed(
    notes: Seq<crate::note::NoteView>,
    id: i64,
    f: spec_fn(crate::note::NoteView) -> crate::note::NoteView,
) -> Seq<crate::note::NoteView> {
    match find_note(notes, id, 0) {
        Some(i) => notes.update(i, f(notes[i])),
        None => notes,
    }
}

/// A note gets this body at this time.
pub open spec fn saving(
    body: Seq<char>,
    now: Timestamp,
) -> spec_fn(crate::note::NoteView) -> crate::note::NoteView {
    |n: crate::note::NoteView| crate::note::NoteView { updated_at: now, ..with_body(n, body) }
}

/// A note is pinned or unpinned.
pub open spec fn pinning(pin: bool) -> spec_fn(crate::note::NoteView) -> crate::note::NoteView {
    |n: crate::note::NoteView| crate::note::NoteView { pinned: pin, ..n }
}

/// A note was stored with this body at this time. The list is in order again.
pub open spec fn saved(s: StateView, id: i64, body: Seq<char>, now: Timestamp) -> StateView {
    StateView {
        notes: crate::sort::sorted(
            changed(s.notes, id, saving(body, now)),
            by_pin(),
        ),
        ..s
    }
}

/// A note was pinned or unpinned. The list is in order again.
pub open spec fn pinned(s: StateView, id: i64, pin: bool) -> StateView {
    StateView {
        notes: crate::sort::sorted(
            changed(s.notes, id, pinning(pin)),
            by_pin(),
        ),
        ..s
    }
}

pub open spec fn tagged(s: StateView, id: i64, tag: Seq<char>) -> StateView {
    StateView {
        notes: changed(s.notes, id, |n: crate::note::NoteView| crate::note::NoteView { tag, ..n }),
        ..s
    }
}

pub open spec fn colored(s: StateView, id: i64, color: Seq<char>) -> StateView {
    StateView {
        notes: changed(
            s.notes,
            id,
            |n: crate::note::NoteView| crate::note::NoteView { color, ..n },
        ),
        ..s
    }
}

/// A body is remembered, unless it is the one that was remembered last.
pub open spec fn snapped(s: StateView, id: i64, body: Seq<char>) -> StateView {
    let snap = SnapshotView { note_id: id, body };
    if s.undo.len() > 0 && s.undo.last() == snap {
        s
    } else {
        StateView { undo: last_items(s.undo.push(snap), TEXT_UNDO_LIMIT as int), ..s }
    }
}

/// How many of the remembered bodies are left when the last one of note `id` that is not
/// `body` has been taken, and that one's place.
pub open spec fn undo_place(undo: Seq<SnapshotView>, id: i64, body: Seq<char>) -> Option<int>
    decreases undo.len(),
{
    if undo.len() == 0 {
        None
    } else if undo.last().note_id == id && undo.last().body != body {
        Some(undo.len() - 1)
    } else {
        undo_place(undo.drop_last(), id, body)
    }
}

/// The note that was deleted last.
pub open spec fn reviving(s: StateView) -> Option<crate::note::NoteView> {
    if s.deleted.len() == 0 {
        None
    } else {
        Some(s.deleted.last())
    }
}

/// The state without the note that was deleted last.
pub open spec fn revived(s: StateView) -> StateView {
    if s.deleted.len() == 0 {
        s
    } else {
        StateView { deleted: s.deleted.drop_last(), ..s }
    }
}

/// What opening a note shows: its body and its time. A note that is not there, or that is
/// open already, shows nothing.
pub open spec fn opening(s: StateView, id: i64) -> Option<(Seq<char>, Timestamp)> {
    match find_note(s.notes, id, 0) {
        Some(i) => if s.current_id == Some(id) {
            None
        } else {
            Some((s.notes[i].body, s.notes[i].updated_at))
        },
        None => None,
    }
}

/// The state after a note was opened: its body is remembered.
pub open spec fn opened(s: StateView, id: i64) -> StateView {
    match opening(s, id) {
        Some(b) => snapped((StateView { current_id: Some(id), ..s }), id, b.0),
        None => s,
    }
}

/// The note that comes up when the open one was deleted.
pub open spec fn comes_up(s: StateView, live_body: Seq<char>) -> Option<i64> {
    if s.current_id is Some && deleted(s, live_body).notes.len() > 0 {
        Some(deleted(s, live_body).notes[0].id)
    } else {
        None
    }
}

/// What an undo of the text brings back.
pub open spec fn undoing(s: StateView, body: Seq<char>) -> Option<SnapshotView> {
    match s.current_id {
        Some(id) => match undo_place(s.undo, id, body) {
            Some(k) => Some(s.undo[k]),
            None => None,
        },
        None => None,
    }
}

/// The state after an undo of the text: what was remembered after the body is forgotten.
pub open spec fn undone(s: StateView, body: Seq<char>) -> StateView {
    match s.current_id {
        Some(id) => StateView {
            undo: match undo_place(s.undo, id, body) {
                Some(k) => s.undo.take(k),
                None => Seq::empty(),
            },
            ..s
        },
        None => s,
    }
}

/// What has to be stored when this body is on screen: the open note's id and the new title.
pub open spec fn unsaved(s: StateView, body: Seq<char>) -> Option<(i64, Seq<char>)> {
    match s.current_id {
        Some(id) => match find_note(s.notes, id, 0) {
            Some(i) => if s.notes[i].body == body {
                None
            } else {
                Some((id, crate::note::title_of(body)))
            },
            None => Some((id, crate::note::title_of(body))),
        },
        None => None,
    }
}

/// The note that has to be stored when its tag becomes `tag`.
pub open spec fn untagged(s: StateView, tag: Seq<char>) -> Option<i64> {
    match s.current_id {
        Some(id) => match find_note(s.notes, id, 0) {
            Some(i) => if s.notes[i].tag == tag {
                None
            } else {
                Some(id)
            },
            None => Some(id),
        },
        None => None,
    }
}

/// The note that has to be stored when its colour becomes `color`, with the colour as it
/// counts.
pub open spec fn uncolored(s: StateView, color: Seq<char>) -> Option<(i64, Seq<char>)> {
    match s.current_id {
        Some(id) => match find_note(s.notes, id, 0) {
            Some(i) => if crate::tags::normal_color(s.notes[i].color) == crate::tags::normal_color(
                color,
            ) {
                None
            } else {
                Some((id, crate::tags::normal_color(color)))
            },
            None => Some((id, crate::tags::normal_color(color))),
        },
        None => None,
    }
}

/// Whether a note is in the list while a tag and a search are active.
pub open spec fn listed(s: StateView, n: crate::note::NoteView) -> bool {
    let needle = crate::text::lowercase(crate::text::trim(s.filter));
    crate::tags::tag_shown(n.tag, s.active_tag) && (needle.len() == 0 || crate::note::note_matches(
        n,
        needle,
    ))
}

/// The notes of the first `k` that are in the list.
pub open spec fn visible(s: StateView, k: int) -> Seq<crate::note::NoteView>
    decreases k,
{
    if k <= 0 {
        Seq::empty()
    } else if listed(s, s.notes[k - 1]) {
        visible(s, k - 1).push(s.notes[k - 1])
    } else {
        visible(s, k - 1)
    }
}

impl State {
    /// What can be undone is bounded.
    pub open spec fn wf(&self) -> bool {
        self@.deleted.len() <= UNDO_STACK_LIMIT && self@.undo.len() <= TEXT_UNDO_LIMIT
    }

    /// The state of a window that was just opened on these notes.
    pub fn new(notes: Vec<Note>) -> (r: State)
        ensures
            r.wf(),
            r@.notes == crate::note::note_views(notes@),
            r@.current_id is None,
            r@.filter == Seq::<char>::empty(),
            r@.active_tag is None,
            r@.deleted.len() == 0,
            r@.undo.len() == 0,
    {
        State {
            notes,
            current_id: None,
            filter: String::new(),
            active_tag: None,
            deleted_stack: Vec::new(),
            text_undo: Vec::new(),
        }
    }

    pub fn notes(&self) -> (r: &Vec<Note>)
        ensures
            crate::note::note_views(r@) == self@.notes,
    {
        &self.notes
    }

    pub fn current_id(&self) -> (r: Option<i64>)
        ensures
            r == self@.current_id,
    {
        self.current_id
    }

    pub fn active_tag(&self) -> (r: &Option<String>)
        ensures
            crate::canvas::optional_text(*r) == self@.active_tag,
    {
        &self.active_tag
    }

    /// The open note.
    pub fn current_note(&self) -> (r: Option<Note>)
        ensures
            match self@.current_id {
                Some(id) => match find_note(self@.notes, id, 0) {
                    Some(i) => r matches Some(n) && n@ == self@.notes[i],
                    None => r is None,
                },
                None => r is None,
            },
    {
        match self.current_id {
            Some(id) => match position(&self.notes, id) {
                Some(i) => {
                    assert(self@.notes[i as int] == self.notes@[i as int]@);
                    Some(self.notes[i].duplicate())
                },
                None => None,
            },
            None => None,
        }
    }

    /// What the controls for tag and colour show: the open note's tag, and its colour as it
    /// counts. Nothing where no note is open.
    pub fn metadata(&self) -> (r: Option<(String, String)>)
        ensures
            match self@.current_id {
                Some(id) => match find_note(self@.notes, id, 0) {
                    Some(i) => r matches Some(m) && m.0@ == self@.notes[i].tag && m.1@
                        == crate::tags::normal_color(self@.notes[i].color),
                    None => r is None,
                },
                None => r is None,
            },
    {
        match self.current_note() {
            Some(n) => {
                let color = normalize_note_color(n.color.as_str());
                Some((n.tag, color))
            },
            None => None,
        }
    }

    /// Whether a deleted note can be brought back.
    pub fn has_deleted(&self) -> (r: bool)
        ensures
            r == (self@.deleted.len() > 0),
    {
        assert(self@.deleted.len() == self.deleted_stack@.len());
        self.deleted_stack.len() > 0
    }

    /// The notes as the database has them.
    pub fn set_notes(&mut self, notes: Vec<Note>)
        requires
            old(self).wf(),
        ensures
            final(self).wf(),
            final(self)@ == (StateView {
                notes: crate::note::note_views(notes@),
                ..old(self)@
            }),
    {
        self.notes = notes;
    }

    pub fn set_filter(&mut self, filter: String)
        requires
            old(self).wf(),
        ensures
            final(self).wf(),
            final(self)@ == (StateView { filter: filter@, ..old(self)@ }),
    {
        self.filter = filter;
    }

    pub fn set_active_tag(&mut self, tag: Option<String>)
        requires
            old(self).wf(),
        ensures
            final(self).wf(),
            final(self)@ == (StateView {
                active_tag: crate::canvas::optional_text(tag),
                ..old(self)@
            }),
    {
        self.active_tag = tag;
    }

    /// A note that was just made goes to its place in the list: above the notes that are not
    /// newer, and below those that are pinned.
    pub fn add_note(&mut self, note: Note)
        requires
            old(self).wf(),
        ensures
            final(self).wf(),
            final(self)@ == added(old(self)@, note@),
    {
        let ghost before = self@;
        let mut notes: Vec<Note> = Vec::new();
        std::mem::swap(&mut notes, &mut self.notes);
        notes.insert(0, note);
        assert(crate::note::note_views(notes@) =~= before.notes.insert(0, note@));
        self.notes = sort_notes(notes);
    }

    /// Opens a note: its body and its time, and the body is remembered. A note that is
    /// not there, or that is open already, changes nothing.
    pub fn open_note(&mut self, id: i64) -> (r: Option<(String, Timestamp)>)
        requires
            old(self).wf(),
        ensures
            final(self).wf(),
            final(self)@ == opened(old(self)@, id),
            match r {
                Some(b) => opening(old(self)@, id) == Some((b.0@, b.1)),
                None => opening(old(self)@, id) is None,
            },
    {
        if let Some(c) = self.current_id {
            if c == id {
                return None;
            }
        }
        match position(&self.notes, id) {
            Some(i) => {
                assert(self@.notes[i as int] == self.notes@[i as int]@);
                let body = self.notes[i].body.clone();
                let time = self.notes[i].updated_at;
                self.current_id = Some(id);
                self.push_text_snapshot(id, body.as_str());
                Some((body, time))
            },
            None => None,
        }
    }

    /// Takes the open note out of the list and remembers it with the body on screen. Gives
    /// the note that comes up in its place.
    pub fn remove_current(&mut self, live_body: &str) -> (r: Option<i64>)
        requires
            old(self).wf(),
        ensures
            final(self).wf(),
            final(self)@ == deleted(old(self)@, live_body@),
            r == comes_up(old(self)@, live_body@),
    {
        let ghost before = self@;
        let id: i64 = match self.current_id {
            Some(c) => c,
            None => {
                return None;
            },
        };
        if let Some(i) = position(&self.notes, id) {
            assert(before.notes[i as int] == self.notes@[i as int]@);
            let mut copy = self.notes[i].duplicate();
            copy.title = Note::derive_title(live_body);
            copy.body = live_body.to_owned();
            self.deleted_stack.push(copy);
            let ghost pushed = crate::note::note_views(self.deleted_stack@);
            assert(pushed =~= before.deleted.push(with_body(before.notes[i as int], live_body@)));
            assert(pushed.len() == self.deleted_stack@.len());
            if self.deleted_stack.len() > UNDO_STACK_LIMIT {
                let _oldest = self.deleted_stack.remove(0);
                assert(crate::note::note_views(self.deleted_stack@) =~= pushed.skip(1));
            }
        }
        let mut rest: Vec<Note> = Vec::new();
        std::mem::swap(&mut rest, &mut self.notes);
        let ghost all = crate::note::note_views(rest@);
        let mut kept: Vec<Note> = Vec::new();
        let ghost mut done: int = 0;
        assert(all.skip(0) =~= all);
        assert(all.take(0) =~= Seq::empty());
        assert(crate::note::note_views(kept@) =~= without_note(all.take(0), id));
        while rest.len() > 0
            invariant
                0 <= done <= all.len(),
                crate::note::note_views(rest@) == all.skip(done),
                crate::note::note_views(kept@) == without_note(all.take(done), id),
            decreases rest@.len(),
        {
            let ghost left = crate::note::note_views(rest@);
            let ghost have = crate::note::note_views(kept@);
            assert(left.len() == rest@.len());
            let first = rest.remove(0);
            assert(left[0] == first@);
            assert(crate::note::note_views(rest@) =~= left.skip(1));
            assert(left.skip(1) =~= all.skip(done + 1));
            assert(all.take(done + 1).drop_last() =~= all.take(done));
            if first.id != id {
                kept.push(first);
                assert(crate::note::note_views(kept@) =~= have.push(first@));
            }
            proof {
                done = done + 1;
            }
        }
        assert(crate::note::note_views(rest@).len() == rest@.len());
        assert(all.take(done) =~= all);
        self.notes = kept;
        self.current_id = None;
        assert(self@.notes.len() == self.notes@.len());
        if self.notes.len() > 0 {
            assert(self@.notes[0] == self.notes@[0]@);
            Some(self.notes[0].id)
        } else {
            None
        }
    }

    /// Takes the note that was deleted last, to store it again.
    pub fn take_deleted(&mut self) -> (r: Option<Note>)
        requires
            old(self).wf(),
        ensures
            final(self).wf(),
            final(self)@ == revived(old(self)@),
            match r {
                Some(n) => reviving(old(self)@) == Some(n@),
                None => reviving(old(self)@) is None,
            },
    {
        let ghost before = self@;
        assert(before.deleted.len() == self.deleted_stack@.len());
        let r = self.deleted_stack.pop();
        proof {
            if before.deleted.len() > 0 {
                assert(self@.deleted =~= before.deleted.drop_last());
            } else {
                assert(self@.deleted =~= before.deleted);
            }
        }
        r
    }

    /// Puts a deleted note back among the deleted ones: it could not be stored.
    pub fn put_back_deleted(&mut self, note: Note)
        requires
            old(self).wf(),
            old(self)@.deleted.len() < UNDO_STACK_LIMIT,
        ensures
            final(self).wf(),
            final(self)@ == (StateView {
                deleted: old(self)@.deleted.push(note@),
                ..old(self)@
            }),
    {
        let ghost before = self@;
        self.deleted_stack.push(note);
        assert(self@.deleted =~= before.deleted.push(note@));
    }

    /// A deleted note was stored again and is back in the list.
    pub fn restore_note(&mut self, note: Note)
        requires
            old(self).wf(),
        ensures
            final(self).wf(),
            final(self)@ == restored(old(self)@, note@),
    {
        let ghost before = self@;
        let mut notes: Vec<Note> = Vec::new();
        std::mem::swap(&mut notes, &mut self.notes);
        notes.push(note);
        assert(crate::note::note_views(notes@) =~= before.notes.push(note@));
        self.notes = sort_notes(notes);
    }

    /// What has to be stored when this body is on screen: the open note's id and the new
    /// title. Nothing where no note is open or the body is the one that is stored.
    pub fn pending_save(&self, body: &str) -> (r: Option<(i64, String)>)
        ensures
            match r {
                Some(p) => unsaved(self@, body@) == Some((p.0, p.1@)),
                None => unsaved(self@, body@) is None,
            },
    {
        let id: i64 = match self.current_id {
            Some(c) => c,
            None => {
                return None;
            },
        };
        if let Some(i) = position(&self.notes, id) {
            assert(self@.notes[i as int] == self.notes@[i as int]@);
            if same_text(self.notes[i].body.as_str(), body) {
                return None;
            }
        }
        Some((id, Note::derive_title(body)))
    }

    /// Takes the note at `i` through `note` and puts the list in order again.
    fn replace_and_sort(&mut self, i: usize, note: Note)
        requires
            i < old(self)@.notes.len(),
            old(self).wf(),
        ensures
            final(self).wf(),
            final(self)@ == (StateView {
                notes: crate::sort::sorted(old(self)@.notes.update(i as int, note@), by_pin()),
                ..old(self)@
            }),
    {
        let ghost before = self@;
        assert(before.notes.len() == self.notes@.len());
        let mut notes: Vec<Note> = Vec::new();
        std::mem::swap(&mut notes, &mut self.notes);
        notes.set(i, note);
        assert(crate::note::note_views(notes@) =~= before.notes.update(i as int, note@));
        self.notes = sort_notes(notes);
    }

    fn sort(&mut self)
        requires
            old(self).wf(),
        ensures
            final(self).wf(),
            final(self)@ == (StateView {
                notes: crate::sort::sorted(old(self)@.notes, by_pin()),
                ..old(self)@
            }),
    {
        let mut notes: Vec<Note> = Vec::new();
        std::mem::swap(&mut notes, &mut self.notes);
        self.notes = sort_notes(notes);
    }

    /// The body was stored at `now`.
    pub fn apply_save(&mut self, id: i64, body: &str, now: Timestamp)
        requires
            old(self).wf(),
        ensures
            final(self).wf(),
            final(self)@ == saved(old(self)@, id, body@, now),
    {
        match position(&self.notes, id) {
            Some(i) => {
                assert(self@.notes[i as int] == self.notes@[i as int]@);
                let mut note = self.notes[i].duplicate();
                note.title = Note::derive_title(body);
                note.body = body.to_owned();
                note.updated_at = now;
                self.replace_and_sort(i, note);
            },
            None => {
                self.sort();
            },
        }
    }

    /// A note was pinned or unpinned.
    pub fn apply_pin(&mut self, id: i64, pin: bool)
        requires
            old(self).wf(),
        ensures
            final(self).wf(),
            final(self)@ == pinned(old(self)@, id, pin),
    {
        match position(&self.notes, id) {
            Some(i) => {
                assert(self@.notes[i as int] == self.notes@[i as int]@);
                let mut note = self.notes[i].duplicate();
                note.pinned = pin;
                self.replace_and_sort(i, note);
            },
            None => {
                self.sort();
            },
        }
    }

    /// The note that has to be stored when its tag becomes `tag`. None where no note is
    /// open or it has the tag already.
    pub fn pending_tag(&self, tag: &str) -> (r: Option<i64>)
        ensures
            r == untagged(self@, tag@),
    {
        let id: i64 = match self.current_id {
            Some(c) => c,
            None => {
                return None;
            },
        };
        if let Some(i) = position(&self.notes, id) {
            assert(self@.notes[i as int] == self.notes@[i as int]@);
            if same_text(self.notes[i].tag.as_str(), tag) {
                return None;
            }
        }
        Some(id)
    }

    /// A note's tag was stored.
    pub fn apply_tag(&mut self, id: i64, tag: &str)
        requires
            old(self).wf(),
        ensures
            final(self).wf(),
            final(self)@ == tagged(old(self)@, id, tag@),
    {
        let ghost before = self@;
        if let Some(i) = position(&self.notes, id) {
            assert(before.notes[i as int] == self.notes@[i as int]@);
            let mut note = self.notes[i].duplicate();
            note.tag = tag.to_owned();
            self.notes.set(i, note);
            assert(self@.notes =~= before.notes.update(i as int, note@));
        }
    }

    /// The note that has to be stored when its colour becomes `color`, with the colour as
    /// it counts. None where no note is open or it has the colour already.
    pub fn pending_color(&self, color: &str) -> (r: Option<(i64, String)>)
        ensures
            match r {
                Some(p) => uncolored(self@, color@) == Some((p.0, p.1@)),
                None => uncolored(self@, color@) is None,
            },
    {
        let id: i64 = match self.current_id {
            Some(c) => c,
            None => {
                return None;
            },
        };
        let wanted = normalize_note_color(color);
        if let Some(i) = position(&self.notes, id) {
            assert(self@.notes[i as int] == self.notes@[i as int]@);
            let has = normalize_note_color(self.notes[i].color.as_str());
            if same_text(has.as_str(), wanted.as_str()) {
                return None;
            }
        }
        Some((id, wanted))
    }

    /// A note's colour was stored.
    pub fn apply_color(&mut self, id: i64, color: &str)
        requires
            old(self).wf(),
        ensures
            final(self).wf(),
            final(self)@ == colored(old(self)@, id, color@),
    {
        let ghost before = self@;
        if let Some(i) = position(&self.notes, id) {
            assert(before.notes[i as int] == self.notes@[i as int]@);
            let mut note = self.notes[i].duplicate();
            note.color = color.to_owned();
            self.notes.set(i, note);
            assert(self@.notes =~= before.notes.update(i as int, note@));
        }
    }

    /// The open note's tag as it counts; empty where no note is open.
    pub fn current_note_tag(&self) -> (r: String)
        ensures
            match self@.current_id {
                Some(id) => match find_note(self@.notes, id, 0) {
                    Some(i) => r@ == crate::tags::normal_tag(self@.notes[i].tag),
                    None => r@.len() == 0,
                },
                None => r@.len() == 0,
            },
    {
        match self.current_note() {
            Some(n) => normalize_note_tag(n.tag.as_str()),
            None => String::new(),
        }
    }

    /// Remembers a body.
    pub fn push_text_snapshot(&mut self, note_id: i64, body: &str)
        requires
            old(self).wf(),
        ensures
            final(self).wf(),
            final(self)@ == snapped(old(self)@, note_id, body@),
    {
        let ghost before = self@;
        let ghost snap = SnapshotView { note_id, body: body@ };
        let n: usize = self.text_undo.len();
        assert(before.undo.len() == n);
        if n > 0 {
            assert(before.undo.last() == self.text_undo@[n - 1]@);
            let last: &TextSnapshot = &self.text_undo[n - 1];
            if last.note_id == note_id && same_text(last.body.as_str(), body) {
                return;
            }
        }
        self.text_undo.push(TextSnapshot { note_id, body: body.to_owned() });
        let ghost pushed = snapshot_views(self.text_undo@);
        assert(pushed =~= before.undo.push(snap));
        if self.text_undo.len() > TEXT_UNDO_LIMIT {
            let _oldest = self.text_undo.remove(0);
            assert(snapshot_views(self.text_undo@) =~= pushed.skip(1));
        }
    }

    /// Takes the last remembered body of the open note that is not the one on screen. What
    /// was remembered after it is forgotten.
    pub fn take_text_undo(&mut self, current_body: &str) -> (r: Option<TextSnapshot>)
        requires
            old(self).wf(),
        ensures
            final(self).wf(),
            final(self)@ == undone(old(self)@, current_body@),
            match r {
                Some(t) => undoing(old(self)@, current_body@) == Some(t@),
                None => undoing(old(self)@, current_body@) is None,
            },
    {
        let ghost before = self@;
        let id: i64 = match self.current_id {
            Some(c) => c,
            None => {
                return None;
            },
        };
        assert(before.undo.take(before.undo.len() as int) =~= before.undo);
        while self.text_undo.len() > 0
            invariant
                self.wf(),
                before.current_id == Some(id),
                before == old(self)@,
                self@.undo.len() <= before.undo.len(),
                self@ == (StateView { undo: before.undo.take(self@.undo.len() as int), ..before }),
                undo_place(before.undo, id, current_body@) == undo_place(
                    self@.undo,
                    id,
                    current_body@,
                ),
            decreases self.text_undo@.len(),
        {
            let ghost now = self@.undo;
            assert(now.len() == self.text_undo@.len());
            let n: usize = self.text_undo.len();
            assert(now.last() == self.text_undo@[n - 1]@);
            let top = self.text_undo.pop();
            assert(self@.undo =~= now.drop_last());
            assert(now.drop_last() =~= before.undo.take(now.len() - 1));
            if let Some(snap) = top {
                if snap.note_id == id && !same_text(snap.body.as_str(), current_body) {
                    return Some(snap);
                }
            }
        }
        assert(self@.undo.len() == self.text_undo@.len());
        assert(self@.undo =~= Seq::empty());
        None
    }

    /// The notes that are in the list while a tag and a search are active.
    pub fn visible_notes(&self) -> (r: Vec<Note>)
        ensures
            crate::note::note_views(r@) == visible(self@, self@.notes.len() as int),
    {
        let needle = to_lowercase(trimmed_text(self.filter.as_str()).as_str());
        let all: bool = chars_of(needle.as_str()).len() == 0;
        let mut r: Vec<Note> = Vec::new();
        let mut i: usize = 0;
        assert(crate::note::note_views(r@) =~= visible(self@, 0));
        assert(self@.notes.len() == self.notes@.len());
        while i < self.notes.len()
            invariant
                i <= self.notes@.len(),
                self@.notes.len() == self.notes@.len(),
                needle@ == crate::text::lowercase(crate::text::trim(self@.filter)),
                all == (needle@.len() == 0),
                crate::note::note_views(r@) == visible(self@, i as int),
            decreases self.notes@.len() - i,
        {
            let ghost before = crate::note::note_views(r@);
            let note: &Note = &self.notes[i];
            assert(self@.notes[i as int] == note@);
            let active: Option<&str> = match &self.active_tag {
                Some(a) => Some(a.as_str()),
                None => None,
            };
            if note_matches_tag_filter(note, active) && (all || note.matches(needle.as_str())) {
                r.push(note.duplicate());
                assert(crate::note::note_views(r@) =~= before.push(note@));
            }
            i += 1;
        }
        r
    }
}

// ───────────────────────────── laws ─────────────────────────────
/// The order of the notes is one.
pub proof fn law_note_order()
    ensures
        crate::sort::is_order(by_pin()),
{
}

/// A note that is not pinned never stands above one that is, whatever was saved, pinned,
/// made or brought back last.
pub proof fn law_pinned_notes_stay_on_top(
    s: StateView,
    id: i64,
    body: Seq<char>,
    now: Timestamp,
    pin: bool,
    note: crate::note::NoteView,
    i: int,
    j: int,
)
    requires
        0 <= i <= j,
    ensures
        j < s.notes.len() && saved(s, id, body, now).notes[j].pinned ==> saved(
            s,
            id,
            body,
            now,
        ).notes[i].pinned,
        j < s.notes.len() && pinned(s, id, pin).notes[j].pinned ==> pinned(s, id, pin).notes[i].pinned,
        j <= s.notes.len() && added(s, note).notes[j].pinned ==> added(s, note).notes[i].pinned,
        j <= s.notes.len() && restored(s, note).notes[j].pinned ==> restored(s, note).notes[i].pinned,
{
    law_every_step_keeps_the_order(s, id, body, now, pin, note);
    lemma_find_note(s.notes, id, 0);
    let a = saved(s, id, body, now).notes;
    let b = pinned(s, id, pin).notes;
    let c = added(s, note).notes;
    let d = restored(s, note).notes;
    crate::sort::law_sorted_keeps_items(changed(s.notes, id, saving(body, now)), by_pin());
    crate::sort::law_sorted_keeps_items(changed(s.notes, id, pinning(pin)), by_pin());
    crate::sort::law_sorted_keeps_items(s.notes.insert(0, note), by_pin());
    crate::sort::law_sorted_keeps_items(s.notes.push(note), by_pin());
    if j < s.notes.len() {
        assert(by_pin()(a[i], a[j]));
        assert(by_pin()(b[i], b[j]));
    }
    if j <= s.notes.len() {
        assert(by_pin()(c[i], c[j]));
        assert(by_pin()(d[i], d[j]));
    }
}

proof fn lemma_without_keeps_order(notes: Seq<crate::note::NoteView>, id: i64)
    requires
        crate::sort::in_order(notes, by_pin()),
    ensures
        crate::sort::in_order(without_note(notes, id), by_pin()),
        forall|x: crate::note::NoteView| #[trigger]
            without_note(notes, id).contains(x) ==> notes.contains(x),
    decreases notes.len(),
{
    if notes.len() > 0 {
        let front = notes.drop_last();
        let rest = without_note(front, id);
        let all = without_note(notes, id);
        assert(crate::sort::in_order(front, by_pin())) by {
            assert forall|i: int, j: int| 0 <= i <= j < front.len() implies by_pin()(
                #[trigger] front[i],
                #[trigger] front[j],
            ) by {
                assert(by_pin()(notes[i], notes[j]));
            }
        }
        lemma_without_keeps_order(front, id);
        assert forall|x: crate::note::NoteView| #[trigger] all.contains(x) implies notes.contains(
            x,
        ) by {
            let k = choose|k: int| 0 <= k < all.len() && all[k] == x;
            if k < rest.len() {
                assert(rest[k] == x);
                assert(rest.contains(x));
                let m = choose|m: int| 0 <= m < front.len() && front[m] == x;
                assert(notes[m] == x);
            } else {
                assert(notes[notes.len() - 1] == x);
            }
        }
        assert forall|i: int, j: int| 0 <= i <= j < all.len() implies by_pin()(
            #[trigger] all[i],
            #[trigger] all[j],
        ) by {
            if j < rest.len() {
                assert(by_pin()(rest[i], rest[j]));
            } else if i < rest.len() {
                assert(rest.contains(rest[i]));
                let m = choose|m: int| 0 <= m < front.len() && front[m] == rest[i];
                assert(by_pin()(notes[m], notes[notes.len() - 1]));
            }
        }
    }
}

/// The list is in order after every step. Saving, pinning, making and bringing back put it
/// in order; deleting, tagging and colouring keep it so.
pub proof fn law_every_step_keeps_the_order(
    s: StateView,
    id: i64,
    text: Seq<char>,
    now: Timestamp,
    pin: bool,
    note: crate::note::NoteView,
)
    ensures
        crate::sort::in_order(saved(s, id, text, now).notes, by_pin()),
        crate::sort::in_order(pinned(s, id, pin).notes, by_pin()),
        crate::sort::in_order(added(s, note).notes, by_pin()),
        crate::sort::in_order(restored(s, note).notes, by_pin()),
        crate::sort::in_order(s.notes, by_pin()) ==> {
            &&& crate::sort::in_order(deleted(s, text).notes, by_pin())
            &&& crate::sort::in_order(tagged(s, id, text).notes, by_pin())
            &&& crate::sort::in_order(colored(s, id, text).notes, by_pin())
        },
{
    law_note_order();
    lemma_find_note(s.notes, id, 0);
    crate::sort::law_sorted_is_in_order(changed(s.notes, id, saving(text, now)), by_pin());
    crate::sort::law_sorted_is_in_order(changed(s.notes, id, pinning(pin)), by_pin());
    crate::sort::law_sorted_is_in_order(s.notes.insert(0, note), by_pin());
    crate::sort::law_sorted_is_in_order(s.notes.push(note), by_pin());
    if crate::sort::in_order(s.notes, by_pin()) {
        if let Some(open) = s.current_id {
            lemma_without_keeps_order(s.notes, open);
        }
        let t = tagged(s, id, text).notes;
        assert forall|i: int, j: int| 0 <= i <= j < t.len() implies by_pin()(
            #[trigger] t[i],
            #[trigger] t[j],
        ) by {
            assert(by_pin()(s.notes[i], s.notes[j]));
        }
        let c = colored(s, id, text).notes;
        assert forall|i: int, j: int| 0 <= i <= j < c.len() implies by_pin()(
            #[trigger] c[i],
            #[trigger] c[j],
        ) by {
            assert(by_pin()(s.notes[i], s.notes[j]));
        }
    }
}

/// Whether no two notes have the same id.
pub open spec fn ids_differ(notes: Seq<crate::note::NoteView>) -> bool {
    forall|i: int, j: int|
        0 <= i < j < notes.len() ==> (#[trigger] notes[i]).id != (#[trigger] notes[j]).id
}

/// What was saved is what the list has: the note's body is the one that was stored, so
/// storing it again is not asked for.
pub proof fn law_a_saved_body_is_not_pending(
    s: StateView,
    id: i64,
    body: Seq<char>,
    now: Timestamp,
)
    requires
        ids_differ(s.notes),
        find_note(s.notes, id, 0) is Some,
    ensures
        ({
            let after = saved(s, id, body, now).notes;
            find_note(after, id, 0) matches Some(k) && after[k].body == body && after[k].title
                == crate::note::title_of(body) && after[k].updated_at == now
        }),
{
    broadcast use vstd::seq_lib::group_to_multiset_ensures;

    lemma_find_note(s.notes, id, 0);
    let i = find_note(s.notes, id, 0)->0;
    let a = changed(s.notes, id, saving(body, now));
    let after = crate::sort::sorted(a, by_pin());
    crate::sort::law_sorted_keeps_items(a, by_pin());
    lemma_find_note(after, id, 0);
    assert(a[i].id == id);
    assert(a.contains(a[i]));
    vstd::seq_lib::to_multiset_contains(a, a[i]);
    vstd::seq_lib::to_multiset_contains(after, a[i]);
    assert(after.contains(a[i]));
    let p = choose|p: int| 0 <= p < after.len() && after[p] == a[i];
    assert(after[p].id == id);
    let k = find_note(after, id, 0)->0;
    assert(after.contains(after[k]));
    vstd::seq_lib::to_multiset_contains(a, after[k]);
    vstd::seq_lib::to_multiset_contains(after, after[k]);
    assert(a.contains(after[k]));
    let q = choose|q: int| 0 <= q < a.len() && a[q] == after[k];
    if q != i {
        assert(s.notes[q].id == id);
    }
}

proof fn lemma_without_absent(notes: Seq<crate::note::NoteView>, id: i64)
    requires
        forall|k: int| 0 <= k < notes.len() ==> (#[trigger] notes[k]).id != id,
    ensures
        without_note(notes, id) == notes,
    decreases notes.len(),
{
    if notes.len() > 0 {
        assert forall|k: int| 0 <= k < notes.drop_last().len() implies (
        #[trigger] notes.drop_last()[k]).id != id by {
            assert(notes.drop_last()[k] == notes[k]);
        }
        lemma_without_absent(notes.drop_last(), id);
        assert(notes.drop_last().push(notes.last()) =~= notes);
    }
}

proof fn lemma_without_one(notes: Seq<crate::note::NoteView>, id: i64, i: int)
    requires
        ids_differ(notes),
        0 <= i < notes.len(),
        notes[i].id == id,
    ensures
        without_note(notes, id) == notes.remove(i),
    decreases notes.len(),
{
    let front = notes.drop_last();
    if i == notes.len() - 1 {
        assert forall|k: int| 0 <= k < front.len() implies (#[trigger] front[k]).id != id by {
            assert(front[k] == notes[k]);
        }
        lemma_without_absent(front, id);
        assert(notes.remove(i) =~= front);
    } else {
        assert(ids_differ(front)) by {
            assert forall|a: int, b: int| 0 <= a < b < front.len() implies (#[trigger] front[a]).id
                != (#[trigger] front[b]).id by {
                assert(front[a] == notes[a] && front[b] == notes[b]);
            }
        }
        lemma_without_one(front, id, i);
        assert(notes[i].id != notes[notes.len() - 1].id);
        assert(front.remove(i).push(notes.last()) =~= notes.remove(i));
    }
}

/// Undoing a deletion brings the note back as it was on screen, to its place in the order,
/// and changes no other note.
pub proof fn law_undo_brings_the_note_back(s: StateView, live_body: Seq<char>, id: i64)
    requires
        s.current_id == Some(id),
        ids_differ(s.notes),
        find_note(s.notes, id, 0) is Some,
    ensures
        ({
            let i = find_note(s.notes, id, 0)->0;
            let d = deleted(s, live_body);
            let back = restored(
                (StateView { deleted: d.deleted.drop_last(), ..d }),
                d.deleted.last(),
            );
            &&& d.deleted.len() > 0
            &&& d.deleted.last() == with_body(s.notes[i], live_body)
            &&& back.notes.to_multiset() == s.notes.update(
                i,
                with_body(s.notes[i], live_body),
            ).to_multiset()
            &&& crate::sort::in_order(back.notes, by_pin())
        }),
{
    broadcast use vstd::seq_lib::group_to_multiset_ensures;

    lemma_find_note(s.notes, id, 0);
    let i = find_note(s.notes, id, 0)->0;
    let x = with_body(s.notes[i], live_body);
    let d = deleted(s, live_body);
    lemma_without_one(s.notes, id, i);
    assert(d.deleted.last() == x);
    let listed = s.notes.remove(i).push(x);
    crate::sort::law_sorted_keeps_items(listed, by_pin());
    law_note_order();
    crate::sort::law_sorted_is_in_order(listed, by_pin());
    let there = s.notes.update(i, x);
    assert(there.remove(i) =~= s.notes.remove(i));
    assert(s.notes.remove(i).insert(i, x) =~= there);
    vstd::seq_lib::to_multiset_insert(s.notes.remove(i), i, x);
}

/// A remembered body that is brought back belongs to the open note and is not the one on
/// screen.
pub proof fn law_undo_gives_another_body(undo: Seq<SnapshotView>, id: i64, body: Seq<char>)
    ensures
        undo_place(undo, id, body) matches Some(k) ==> 0 <= k < undo.len() && undo[k].note_id == id
            && undo[k].body != body,
    decreases undo.len(),
{
    if undo.len() > 0 {
        law_undo_gives_another_body(undo.drop_last(), id, body);
    }
}

/// Undoing right after a save brings back the body before it.
pub proof fn law_undo_goes_one_save_back(
    s: StateView,
    id: i64,
    before: Seq<char>,
    after: Seq<char>,
)
    requires
        before != after,
    ensures
        ({
            let undo = snapped(snapped(s, id, before), id, after).undo;
            undo_place(undo, id, after) matches Some(k) && undo[k].body == before
        }),
{
    let one = snapped(s, id, before);
    let two = snapped(one, id, after).undo;
    assert(one.undo.last() == (SnapshotView { note_id: id, body: before }));
    assert(two.last() == (SnapshotView { note_id: id, body: after }));
    assert(two.drop_last().last() == one.undo.last());
    reveal_with_fuel(undo_place, 3);
}

/// Whether notes stand as the list shows them: the pinned ones first, and within each group
/// the one that was changed last first.
pub open spec fn stand_in_order(notes: Seq<crate::note::NoteView>) -> bool {
    forall|i: int, j: int|
        0 <= i <= j < notes.len() ==> {
            let a = #[trigger] notes[i];
            let b = #[trigger] notes[j];
            &&& b.pinned ==> a.pinned
            &&& a.pinned == b.pinned ==> a.updated_at.secs > b.updated_at.secs || (
            a.updated_at.secs == b.updated_at.secs && a.updated_at.nanos >= b.updated_at.nanos)
        }
}

proof fn lemma_sorted_stand(notes: Seq<crate::note::NoteView>)
    ensures
        stand_in_order(crate::sort::sorted(notes, by_pin())),
        crate::sort::sorted(notes, by_pin()).to_multiset() == notes.to_multiset(),
{
    law_note_order();
    crate::sort::law_sorted_is_in_order(notes, by_pin());
    crate::sort::law_sorted_keeps_items(notes, by_pin());
    let r = crate::sort::sorted(notes, by_pin());
    assert forall|i: int, j: int| 0 <= i <= j < r.len() implies {
        let a = #[trigger] r[i];
        let b = #[trigger] r[j];
        &&& b.pinned ==> a.pinned
        &&& a.pinned == b.pinned ==> a.updated_at.secs > b.updated_at.secs || (a.updated_at.secs
            == b.updated_at.secs && a.updated_at.nanos >= b.updated_at.nanos)
    } by {
        assert(by_pin()(r[i], r[j]));
    }
}

/// After a note was saved, pinned, made or brought back, the pinned notes stand first and in
/// each group the latest change does.
pub proof fn law_the_latest_notes_stand_first(
    s: StateView,
    id: i64,
    body: Seq<char>,
    now: Timestamp,
    pin: bool,
    note: crate::note::NoteView,
)
    ensures
        stand_in_order(saved(s, id, body, now).notes),
        stand_in_order(pinned(s, id, pin).notes),
        stand_in_order(added(s, note).notes),
        stand_in_order(restored(s, note).notes),
{
    lemma_sorted_stand(changed(s.notes, id, saving(body, now)));
    lemma_sorted_stand(changed(s.notes, id, pinning(pin)));
    lemma_sorted_stand(s.notes.insert(0, note));
    lemma_sorted_stand(s.notes.push(note));
}

proof fn lemma_find_this(notes: Seq<crate::note::NoteView>, id: i64, i: int, k: int)
    requires
        0 <= k <= i < notes.len(),
        notes[i].id == id,
        forall|j: int| k <= j < i ==> (#[trigger] notes[j]).id != id,
    ensures
        find_note(notes, id, k) == Some(i),
    decreases i - k,
{
    if k < i {
        lemma_find_this(notes, id, i, k + 1);
    }
}

/// A step changes the one note that it is about, in the one way that it is about, and nothing
/// else: saving sets the body, the title that follows from it and the time; pinning the pin;
/// tagging the tag; colouring the colour.
pub proof fn law_a_step_changes_one_note(
    s: StateView,
    i: int,
    text: Seq<char>,
    now: Timestamp,
    pin: bool,
)
    requires
        0 <= i < s.notes.len(),
        forall|j: int| 0 <= j < i ==> (#[trigger] s.notes[j]).id != s.notes[i].id,
    ensures
        ({
            let n = s.notes[i];
            let a = saved(s, n.id, text, now);
            let b = pinned(s, n.id, pin);
            let c = tagged(s, n.id, text);
            let d = colored(s, n.id, text);
            &&& a.notes.to_multiset() == s.notes.update(
                i,
                crate::note::NoteView {
                    title: crate::note::title_of(text),
                    body: text,
                    updated_at: now,
                    ..n
                },
            ).to_multiset()
            &&& b.notes.to_multiset() == s.notes.update(
                i,
                crate::note::NoteView { pinned: pin, ..n },
            ).to_multiset()
            &&& c.notes == s.notes.update(i, crate::note::NoteView { tag: text, ..n })
            &&& d.notes == s.notes.update(i, crate::note::NoteView { color: text, ..n })
            &&& a == (StateView { notes: a.notes, ..s })
            &&& b == (StateView { notes: b.notes, ..s })
            &&& c == (StateView { notes: c.notes, ..s })
            &&& d == (StateView { notes: d.notes, ..s })
        }),
{
    let n = s.notes[i];
    lemma_find_this(s.notes, n.id, i, 0);
    lemma_sorted_stand(changed(s.notes, n.id, saving(text, now)));
    lemma_sorted_stand(changed(s.notes, n.id, pinning(pin)));
}

/// A note that is made or brought back joins the others, which stay as they are.
pub proof fn law_a_new_note_joins_the_others(s: StateView, note: crate::note::NoteView)
    ensures
        added(s, note).notes.to_multiset() == s.notes.to_multiset().insert(note),
        restored(s, note).notes.to_multiset() == s.notes.to_multiset().insert(note),
        added(s, note) == (StateView { notes: added(s, note).notes, ..s }),
        restored(s, note) == (StateView { notes: restored(s, note).notes, ..s }),
{
    lemma_sorted_stand(s.notes.insert(0, note));
    lemma_sorted_stand(s.notes.push(note));
    vstd::seq_lib::to_multiset_build(s.notes, note);
    vstd::seq_lib::to_multiset_insert(s.notes, 0, note);
}

proof fn lemma_without_is_filter(notes: Seq<crate::note::NoteView>, id: i64)
    ensures
        without_note(notes, id) == notes.filter(|n: crate::note::NoteView| n.id != id),
    decreases notes.len(),
{
    reveal(Seq::filter);
    if notes.len() > 0 {
        lemma_without_is_filter(notes.drop_last(), id);
    }
}

/// Deleting takes the open note out of the list and no other one, and closes it. It is
/// remembered with the body on screen as the last of at most 25, of which the oldest goes.
/// Without an open note nothing happens.
pub proof fn law_deleting_takes_the_open_note(s: StateView, live: Seq<char>, i: int)
    requires
        s.deleted.len() <= 25,
        s.current_id is Some ==> 0 <= i < s.notes.len() && s.notes[i].id == s.current_id->0
            && forall|j: int| 0 <= j < i ==> (#[trigger] s.notes[j]).id != s.notes[i].id,
    ensures
        s.current_id is None ==> deleted(s, live) == s,
        s.current_id is Some ==> ({
            let d = deleted(s, live);
            let n = s.notes[i];
            let gone = crate::note::NoteView {
                title: crate::note::title_of(live),
                body: live,
                ..n
            };
            &&& d.notes == s.notes.filter(|m: crate::note::NoteView| m.id != n.id)
            &&& d.current_id is None
            &&& d.filter == s.filter && d.active_tag == s.active_tag && d.undo == s.undo
            &&& s.deleted.len() < 25 ==> d.deleted == s.deleted.push(gone)
            &&& s.deleted.len() == 25 ==> d.deleted == s.deleted.skip(1).push(gone)
        }),
{
    if let Some(id) = s.current_id {
        lemma_find_this(s.notes, id, i, 0);
        lemma_without_is_filter(s.notes, id);
        let gone = with_body(s.notes[i], live);
        if s.deleted.len() == 25 {
            assert(s.deleted.push(gone).skip(1) =~= s.deleted.skip(1).push(gone));
        }
    }
}

/// What is in the list: the notes that the tag filter shows and that hold what is searched,
/// in their order. Without a filter and a search all of them are.
pub proof fn law_the_list_shows_what_is_searched(s: StateView, n: crate::note::NoteView, k: int)
    requires
        0 <= k <= s.notes.len(),
    ensures
        visible(s, k) == s.notes.take(k).filter(|m: crate::note::NoteView| listed(s, m)),
        ({
            let needle = crate::text::lowercase(crate::text::trim(s.filter));
            listed(s, n) <==> crate::tags::tag_shown(n.tag, s.active_tag) && (needle.len() == 0
                || crate::text::occurs(
                crate::text::lowercase(n.title),
                crate::text::lowercase(needle),
            ) || crate::text::occurs(
                crate::text::lowercase(n.body),
                crate::text::lowercase(needle),
            ))
        }),
        s.active_tag is None && crate::text::lowercase(crate::text::trim(s.filter)).len() == 0
            ==> visible(s, k) == s.notes.take(k),
    decreases k,
{
    reveal(Seq::filter);
    let p = |m: crate::note::NoteView| listed(s, m);
    if k > 0 {
        law_the_list_shows_what_is_searched(s, n, k - 1);
        assert(s.notes.take(k).drop_last() =~= s.notes.take(k - 1));
        assert(s.notes.take(k).last() == s.notes[k - 1]);
        assert(s.notes.take(k - 1).push(s.notes[k - 1]) =~= s.notes.take(k));
    } else {
        assert(s.notes.take(0) =~= Seq::empty());
        assert(s.notes.take(0).filter(p) =~= Seq::empty());
    }
}

/// An undo takes the last body of the open note that is not the one on screen; where it takes
/// none, there is none.
pub proof fn law_undo_takes_the_last_body(undo: Seq<SnapshotView>, id: i64, body: Seq<char>)
    ensures
        match undo_place(undo, id, body) {
            Some(k) => {
                &&& 0 <= k < undo.len()
                &&& undo[k].note_id == id && undo[k].body != body
                &&& forall|j: int|
                    k < j < undo.len() ==> (#[trigger] undo[j]).note_id != id || undo[j].body
                        == body
            },
            None => forall|j: int|
                0 <= j < undo.len() ==> (#[trigger] undo[j]).note_id != id || undo[j].body == body,
        },
    decreases undo.len(),
{
    if undo.len() > 0 {
        let front = undo.drop_last();
        law_undo_takes_the_last_body(front, id, body);
        if !(undo.last().note_id == id && undo.last().body != body) {
            let from = match undo_place(front, id, body) {
                Some(k) => k,
                None => -1,
            };
            assert forall|j: int| from < j < undo.len() implies (#[trigger] undo[j]).note_id != id
                || undo[j].body == body by {
                if j < front.len() {
                    assert(front[j] == undo[j]);
                }
            }
            if let Some(k) = undo_place(front, id, body) {
                assert(front[k] == undo[k]);
            }
        }
    }
}

/// A body is remembered behind the others, of which the oldest goes when there are 80. One
/// that was remembered last already is not remembered again.
pub proof fn law_bodies_are_remembered_in_order(s: StateView, id: i64, body: Seq<char>)
    requires
        s.undo.len() <= 80,
    ensures
        ({
            let r = snapped(s, id, body);
            let again = s.undo.len() > 0 && s.undo.last().note_id == id && s.undo.last().body
                == body;
            &&& r == (StateView { undo: r.undo, ..s })
            &&& again ==> r.undo == s.undo
            &&& !again && s.undo.len() < 80 ==> r.undo == s.undo.push(
                SnapshotView { note_id: id, body },
            )
            &&& !again && s.undo.len() == 80 ==> r.undo == s.undo.skip(1).push(
                SnapshotView { note_id: id, body },
            )
        }),
{
    let snap = SnapshotView { note_id: id, body };
    if s.undo.len() == 80 {
        assert(s.undo.push(snap).skip(1) =~= s.undo.skip(1).push(snap));
    }
}

/// What has to be stored is what differs from the open note: its body, its tag, or its colour
/// as it counts. Once it was stored, nothing has to be.
pub proof fn law_only_changes_are_stored(s: StateView, i: int, text: Seq<char>, now: Timestamp)
    requires
        s.current_id is Some,
        0 <= i < s.notes.len(),
        s.notes[i].id == s.current_id->0,
        ids_differ(s.notes),
    ensures
        ({
            let n = s.notes[i];
            &&& unsaved(s, text) == (if n.body == text {
                None
            } else {
                Some((n.id, crate::note::title_of(text)))
            })
            &&& untagged(s, text) == (if n.tag == text {
                None
            } else {
                Some(n.id)
            })
            &&& uncolored(s, text) == (if crate::tags::normal_color(n.color)
                == crate::tags::normal_color(text) {
                None
            } else {
                Some((n.id, crate::tags::normal_color(text)))
            })
            &&& unsaved(saved(s, n.id, text, now), text) is None
            &&& untagged(tagged(s, n.id, text), text) is None
            &&& uncolored(colored(s, n.id, crate::tags::normal_color(text)), text) is None
        }),
{
    let n = s.notes[i];
    lemma_find_this(s.notes, n.id, i, 0);
    law_a_saved_body_is_not_pending(s, n.id, text, now);
    law_a_step_changes_one_note(s, i, text, now, false);
    law_a_step_changes_one_note(s, i, crate::tags::normal_color(text), now, false);
    let c = tagged(s, n.id, text);
    assert forall|j: int| 0 <= j < i implies (#[trigger] c.notes[j]).id != n.id by {
        assert(c.notes[j] == s.notes[j]);
    }
    lemma_find_this(c.notes, n.id, i, 0);
    let d = colored(s, n.id, crate::tags::normal_color(text));
    assert forall|j: int| 0 <= j < i implies (#[trigger] d.notes[j]).id != n.id by {
        assert(d.notes[j] == s.notes[j]);
    }
    lemma_find_this(d.notes, n.id, i, 0);
    crate::tags::law_normal_colors_stay(text);
}

/// Opening a note shows that note's body and time, makes it the open one and remembers its
/// body; the notes stay as they are. Opening it again, or one that is not there, does nothing.
pub proof fn law_opening_shows_the_note(s: StateView, i: int, id: i64)
    requires
        0 <= i < s.notes.len(),
        forall|j: int| 0 <= j < i ==> (#[trigger] s.notes[j]).id != s.notes[i].id,
        forall|j: int| 0 <= j < s.notes.len() ==> (#[trigger] s.notes[j]).id != id,
    ensures
        ({
            let n = s.notes[i];
            let r = opened(s, n.id);
            &&& s.current_id != Some(n.id) ==> {
                &&& opening(s, n.id) == Some((n.body, n.updated_at))
                &&& r.current_id == Some(n.id)
                &&& r.undo.len() > 0 && r.undo.last() == (SnapshotView {
                    note_id: n.id,
                    body: n.body,
                })
                &&& r == (StateView { current_id: r.current_id, undo: r.undo, ..s })
                &&& opening(r, n.id) is None && opened(r, n.id) == r
            }
            &&& s.current_id == Some(n.id) ==> opening(s, n.id) is None && r == s
            &&& opening(s, id) is None && opened(s, id) == s
        }),
{
    let n = s.notes[i];
    lemma_find_this(s.notes, n.id, i, 0);
    lemma_find_note(s.notes, id, 0);
    if let Some(k) = find_note(s.notes, id, 0) {
        assert(s.notes[k].id == id);
    }
    let snap = SnapshotView { note_id: n.id, body: n.body };
    let t = StateView { current_id: Some(n.id), ..s };
    if s.current_id != Some(n.id) {
        if !(s.undo.len() > 0 && s.undo.last() == snap) {
            let all = s.undo.push(snap);
            assert(all.last() == snap);
            assert(last_items(all, TEXT_UNDO_LIMIT as int).last() == snap);
        }
    }
}

/// An undo of the text brings back the last body of the open note that is not on screen and
/// forgets it and what came after; without an open note it does nothing.
pub proof fn law_undoing_the_text(s: StateView, body: Seq<char>)
    ensures
        s.current_id is None ==> undoing(s, body) is None && undone(s, body) == s,
        s.current_id matches Some(id) ==> match undoing(s, body) {
            Some(t) => {
                &&& t.note_id == id && t.body != body
                &&& undone(s, body).undo.len() < s.undo.len()
                &&& s.undo[undone(s, body).undo.len() as int] == t
                &&& undone(s, body).undo == s.undo.take(undone(s, body).undo.len() as int)
                &&& forall|j: int|
                    undone(s, body).undo.len() < j < s.undo.len() ==> (#[trigger] s.undo[j]).note_id
                        != id || s.undo[j].body == body
            },
            None => undone(s, body).undo.len() == 0 && forall|j: int|
                0 <= j < s.undo.len() ==> (#[trigger] s.undo[j]).note_id != id || s.undo[j].body
                    == body,
        },
        undone(s, body) == (StateView { undo: undone(s, body).undo, ..s }),
{
    if let Some(id) = s.current_id {
        law_undo_takes_the_last_body(s.undo, id, body);
    }
}

/// When the open note was deleted, the first of those that are left comes up, if any is.
pub proof fn law_the_next_note_comes_up(s: StateView, live: Seq<char>)
    ensures
        s.current_id is None ==> comes_up(s, live) is None,
        s.current_id matches Some(id) ==> ({
            let left = s.notes.filter(|n: crate::note::NoteView| n.id != id);
            comes_up(s, live) == (if left.len() > 0 {
                Some(left[0].id)
            } else {
                None
            })
        }),
{
    if let Some(id) = s.current_id {
        lemma_without_is_filter(s.notes, id);
    }
}

/// The note that was deleted last comes back first, with the body that was on screen, and the
/// notes deleted before it come next.
pub proof fn law_deleted_notes_come_back(s: StateView, i: int, live: Seq<char>)
    requires
        0 <= i < s.notes.len(),
        s.current_id == Some(s.notes[i].id),
        forall|j: int| 0 <= j < i ==> (#[trigger] s.notes[j]).id != s.notes[i].id,
    ensures
        ({
            let d = deleted(s, live);
            &&& reviving(d) == Some(
                crate::note::NoteView {
                    title: crate::note::title_of(live),
                    body: live,
                    ..s.notes[i]
                },
            )
            &&& s.deleted.len() < UNDO_STACK_LIMIT ==> revived(d).deleted == s.deleted
            &&& revived(d) == (StateView { deleted: revived(d).deleted, ..d })
        }),
        s.deleted.len() == 0 ==> reviving(s) is None && revived(s) == s,
{
    lemma_find_this(s.notes, s.notes[i].id, i, 0);
    let all = s.deleted.push(with_body(s.notes[i], live));
    let d = deleted(s, live);
    assert(all.last() == with_body(s.notes[i], live));
    assert(d.deleted.last() == with_body(s.notes[i], live));
    if s.deleted.len() < UNDO_STACK_LIMIT {
        assert(last_items(all, UNDO_STACK_LIMIT as int) =~= all);
        assert(all.drop_last() =~= s.deleted);
    }
}

/// The last 25 deleted notes and the last 80 bodies are remembered: what is remembered anew
/// stands at the end, and only what comes before the last 25 or 80 is forgotten.
pub proof fn law_so_much_can_be_undone(s: StateView, i: int, id: i64, body: Seq<char>)
    requires
        0 <= i < s.notes.len(),
        forall|j: int| 0 <= j < i ==> (#[trigger] s.notes[j]).id != s.notes[i].id,
        s.current_id == Some(s.notes[i].id),
    ensures
        ({
            let all = s.deleted.push(with_body(s.notes[i], body));
            let kept = deleted(s, body).deleted;
            &&& all.len() <= 25 ==> kept == all
            &&& all.len() > 25 ==> kept.len() == 25 && kept == all.skip(all.len() - 25)
        }),
        ({
            let snap = SnapshotView { note_id: id, body };
            let all = s.undo.push(snap);
            let kept = snapped(s, id, body).undo;
            &&& s.undo.len() > 0 && s.undo.last() == snap ==> kept == s.undo
            &&& !(s.undo.len() > 0 && s.undo.last() == snap) ==> {
                &&& all.len() <= 80 ==> kept == all
                &&& all.len() > 80 ==> kept.len() == 80 && kept == all.skip(all.len() - 80)
            }
        }),
{
    lemma_find_this(s.notes, s.notes[i].id, i, 0);
}

}
