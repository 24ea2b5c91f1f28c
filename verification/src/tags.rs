//! Tags and colours of notes, and the tabs and picker that are made from them.

use crate::note::Note;
use crate::text::{
    chars_between, chars_of, contains, eq_ignore_ascii_case, precedes, same_text, string_of,
    to_lowercase, trimmed, trimmed_text,
};
use vstd::prelude::*;

verus! {

// ───────────────────────────── tags ─────────────────────────────
/// `s` without its control characters.
pub open spec fn printable(s: Seq<char>) -> Seq<char>
    decreases s.len(),
{
    if s.len() == 0 {
        s
    } else if crate::text::is_control_char(s.last()) {
        printable(s.drop_last())
    } else {
        printable(s.drop_last()).push(s.last())
    }
}

/// A tag as it counts: without the space around it and control characters, at most 40
/// characters.
pub open spec fn normal_tag(s: Seq<char>) -> Seq<char> {
    crate::note::first_chars(printable(crate::text::trim(s)), 40)
}

pub fn normalize_note_tag(tag: &str) -> (r: String)
    ensures
        r@ == normal_tag(tag@),
{
    let v = trimmed(&chars_of(tag));
    let mut kept: Vec<char> = Vec::new();
    let mut i: usize = 0;
    while i < v.len()
        invariant
            i <= v@.len(),
            kept@ == printable(v@.take(i as int)),
        decreases v@.len() - i,
    {
        assert(v@.take(i + 1).drop_last() =~= v@.take(i as int));
        if !v[i].is_control() {
            kept.push(v[i]);
        }
        i += 1;
    }
    assert(v@.take(i as int) =~= v@);
    if kept.len() <= 40 {
        return string_of(&kept);
    }
    assert(kept@.subrange(0, 40) =~= kept@.take(40));
    string_of(&chars_between(&kept, 0, 40))
}

/// Whether a note with this tag is shown while `active` is picked: everything without a
/// pick, the untagged notes for the empty one.
pub open spec fn tag_shown(tag: Seq<char>, active: Option<Seq<char>>) -> bool {
    match active {
        None => true,
        Some(a) => if a.len() == 0 {
            normal_tag(tag).len() == 0
        } else {
            crate::text::same_ignoring_case(normal_tag(tag), a)
        },
    }
}

pub fn note_matches_tag_filter(note: &Note, active_tag: Option<&str>) -> (r: bool)
    ensures
        r == tag_shown(note.tag@, match active_tag {
            Some(a) => Some(a@),
            None => None,
        }),
{
    match active_tag {
        None => true,
        Some(a) => {
            let tag = normalize_note_tag(note.tag.as_str());
            if chars_of(a).len() == 0 {
                chars_of(tag.as_str()).len() == 0
            } else {
                eq_ignore_ascii_case(tag.as_str(), a)
            }
        },
    }
}

/// The first place from `i` on at which `tag` stands, whatever its case.
pub open spec fn tag_place(tags: Seq<(Seq<char>, nat)>, tag: Seq<char>, i: int) -> int
    decreases tags.len() - i,
{
    if i < 0 || i >= tags.len() || crate::text::same_ignoring_case(tags[i].0, tag) {
        i
    } else {
        tag_place(tags, tag, i + 1)
    }
}

/// `tags` with one more note that has `tag`.
pub open spec fn count_tag(tags: Seq<(Seq<char>, nat)>, tag: Seq<char>) -> Seq<(Seq<char>, nat)> {
    let p = tag_place(tags, tag, 0);
    if tag.len() == 0 {
        tags
    } else if p < tags.len() {
        tags.update(p, (tags[p].0, tags[p].1 + 1))
    } else {
        tags.push((tag, 1))
    }
}

/// The tags of the first `n` notes, each once and in the spelling that came first, with
/// the number of notes that have it.
pub open spec fn tag_counts(notes: Seq<Note>, n: int) -> Seq<(Seq<char>, nat)>
    decreases n,
{
    if n <= 0 {
        Seq::empty()
    } else {
        count_tag(tag_counts(notes, n - 1), normal_tag(notes[n - 1].tag@))
    }
}

/// Tags by name, whatever their case.
pub open spec fn by_name() -> spec_fn((Seq<char>, nat), (Seq<char>, nat)) -> bool {
    |a: (Seq<char>, nat), b: (Seq<char>, nat)|
        crate::text::text_le(crate::text::lowercase(a.0), crate::text::lowercase(b.0))
}

/// Tags by how many notes have them, the most first, and then by name.
pub open spec fn by_count() -> spec_fn((Seq<char>, nat), (Seq<char>, nat)) -> bool {
    |a: (Seq<char>, nat), b: (Seq<char>, nat)|
        a.1 > b.1 || (a.1 == b.1 && crate::text::text_le(
            crate::text::lowercase(a.0),
            crate::text::lowercase(b.0),
        ))
}

pub open spec fn count_views(tags: Seq<(String, usize)>) -> Seq<(Seq<char>, nat)> {
    tags.map_values(|t: (String, usize)| (t.0@, t.1 as nat))
}

/// The tags of notes in the order in which they first come.
fn count_tags(notes: &Vec<Note>) -> (r: Vec<(String, usize)>)
    ensures
        count_views(r@) == tag_counts(notes@, notes@.len() as int),
{
    let mut tags: Vec<(String, usize)> = Vec::new();
    let mut i: usize = 0;
    let n: usize = notes.len();
    assert(count_views(tags@) =~= tag_counts(notes@, 0));
    while i < n
        invariant
            i <= n,
            n == notes@.len(),
            forall|k: int| 0 <= k < tags@.len() ==> (#[trigger] tags@[k]).1 <= i,
            count_views(tags@) == tag_counts(notes@, i as int),
        decreases n - i,
    {
        let tag = normalize_note_tag(notes[i].tag.as_str());
        let ghost before = count_views(tags@);
        if chars_of(tag.as_str()).len() > 0 {
            let mut p: usize = 0;
            while p < tags.len() && !eq_ignore_ascii_case(tags[p].0.as_str(), tag.as_str())
                invariant
                    p <= tags@.len(),
                    before == count_views(tags@),
                    tag_place(before, tag@, 0) == tag_place(before, tag@, p as int),
                decreases tags@.len() - p,
            {
                p += 1;
            }
            if p < tags.len() {
                let (name, count) = tags.remove(p);
                tags.insert(p, (name, count + 1));
                assert(count_views(tags@) =~= before.update(p as int, (name@, count as nat + 1)));
            } else {
                tags.push((tag, 1));
                assert(count_views(tags@) =~= before.push((tag@, 1nat)));
            }
        }
        i += 1;
    }
    tags
}

/// Puts `tag` into its place by name, or by count and name.
fn insert_tag(list: &mut Vec<(String, usize)>, tag: (String, usize), counts: bool)
    ensures
        count_views(final(list)@) == crate::sort::inserted(
            count_views(old(list)@),
            (tag.0@, tag.1 as nat),
            if counts {
                by_count()
            } else {
                by_name()
            },
        ),
{
    let ghost before = count_views(list@);
    let ghost x = (tag.0@, tag.1 as nat);
    let ghost le = if counts {
        by_count()
    } else {
        by_name()
    };
    let lower = chars_of(to_lowercase(tag.0.as_str()).as_str());
    let mut i: usize = 0;
    while i < list.len()
        invariant_except_break
            i <= list@.len(),
            before == count_views(list@),
            x == (tag.0@, tag.1 as nat),
            lower@ == crate::text::lowercase(tag.0@),
            le == (if counts {
                by_count()
            } else {
                by_name()
            }),
            crate::sort::place(before, x, le, 0) == crate::sort::place(before, x, le, i as int),
        ensures
            i <= list@.len(),
            before == count_views(list@),
            crate::sort::place(before, x, le, 0) == i,
        decreases list@.len() - i,
    {
        assert(before[i as int] == (list@[i as int].0@, list@[i as int].1 as nat));
        let here = chars_of(to_lowercase(list[i].0.as_str()).as_str());
        let fits: bool = if counts && list[i].1 != tag.1 {
            list[i].1 > tag.1
        } else {
            precedes(&here, &lower)
        };
        if !fits {
            break;
        }
        i += 1;
    }
    list.insert(i, tag);
    assert(count_views(list@) =~= before.insert(i as int, x));
}

fn sort_tags(tags: Vec<(String, usize)>, counts: bool) -> (r: Vec<(String, usize)>)
    ensures
        count_views(r@) == crate::sort::sorted(
            count_views(tags@),
            if counts {
                by_count()
            } else {
                by_name()
            },
        ),
{
    let ghost all = count_views(tags@);
    let ghost le = if counts {
        by_count()
    } else {
        by_name()
    };
    let mut rest = tags;
    let mut r: Vec<(String, usize)> = Vec::new();
    let ghost mut done: int = 0;
    assert(all.skip(0) =~= all);
    assert(all.take(0) =~= Seq::empty());
    assert(count_views(r@) =~= crate::sort::sorted(all.take(0), le));
    while rest.len() > 0
        invariant
            0 <= done <= all.len(),
            count_views(rest@) == all.skip(done),
            le == (if counts {
                by_count()
            } else {
                by_name()
            }),
            count_views(r@) == crate::sort::sorted(all.take(done), le),
        decreases rest@.len(),
    {
        let ghost before = count_views(rest@);
        assert(before.len() == rest@.len());
        let first = rest.remove(0);
        assert(before[0] == (first.0@, first.1 as nat));
        assert(count_views(rest@) =~= before.skip(1));
        assert(before.skip(1) =~= all.skip(done + 1));
        assert(all.take(done + 1).drop_last() =~= all.take(done));
        assert(all.take(done + 1).last() == all[done]);
        insert_tag(&mut r, first, counts);
        proof {
            done = done + 1;
        }
    }
    assert(count_views(rest@).len() == rest@.len());
    assert(all.take(done) =~= all);
    r
}

/// The tags of notes with how many have each, the most used first.
pub fn collect_note_tags_with_counts(notes: &Vec<Note>) -> (r: Vec<(String, usize)>)
    ensures
        count_views(r@) == crate::sort::sorted(
            tag_counts(notes@, notes@.len() as int),
            by_count(),
        ),
{
    sort_tags(count_tags(notes), true)
}

/// Whether one of the first `n` notes has no tag.
pub open spec fn any_untagged(notes: Seq<Note>, n: int) -> bool {
    exists|k: int| 0 <= k < n && normal_tag((#[trigger] notes[k]).tag@).len() == 0
}

/// The tags of notes by name, and whether a note has none.
pub fn collect_note_tags(notes: &Vec<Note>) -> (r: (Vec<String>, bool))
    ensures
        crate::text::texts(r.0@) == crate::sort::sorted(
            tag_counts(notes@, notes@.len() as int),
            by_name(),
        ).map_values(|t: (Seq<char>, nat)| t.0),
        r.1 == any_untagged(notes@, notes@.len() as int),
{
    let tags = sort_tags(count_tags(notes), false);
    let ghost views = count_views(tags@);
    let mut names: Vec<String> = Vec::new();
    let mut i: usize = 0;
    while i < tags.len()
        invariant
            i <= tags@.len(),
            names@.len() == i,
            forall|k: int| 0 <= k < i ==> (#[trigger] names@[k])@ == tags@[k].0@,
        decreases tags@.len() - i,
    {
        names.push(tags[i].0.clone());
        i += 1;
    }
    assert(crate::text::texts(names@) =~= views.map_values(|t: (Seq<char>, nat)| t.0));
    let mut untagged: bool = false;
    let mut k: usize = 0;
    while k < notes.len()
        invariant
            k <= notes@.len(),
            untagged == any_untagged(notes@, k as int),
        decreases notes@.len() - k,
    {
        let tag = normalize_note_tag(notes[k].tag.as_str());
        let empty: bool = chars_of(tag.as_str()).len() == 0;
        proof {
            assert(normal_tag(notes@[k as int].tag@) == tag@);
            if any_untagged(notes@, k + 1) && !empty {
                let j = choose|j: int|
                    0 <= j < k + 1 && normal_tag((#[trigger] notes@[j]).tag@).len() == 0;
                assert(j < k);
            }
        }
        untagged = untagged || empty;
        k += 1;
    }
    (names, untagged)
}

// ───────────────────────────── tabs ─────────────────────────────
/// A tab over the list of notes.
#[derive(Debug, Clone)]
pub struct TagTab {
    pub label: String,
    /// What picking the tab makes active.
    pub filter: Option<String>,
    pub active: bool,
}

pub struct TabView {
    pub label: Seq<char>,
    pub filter: Option<Seq<char>>,
    pub active: bool,
}

impl View for TagTab {
    type V = TabView;

    open spec fn view(&self) -> TabView {
        TabView {
            label: self.label@,
            filter: crate::canvas::optional_text(self.filter),
            active: self.active,
        }
    }
}

pub open spec fn tab_views(tabs: Seq<TagTab>) -> Seq<TabView> {
    tabs.map_values(|t: TagTab| t@)
}

/// The active tag, unless no note has it any more.
pub open spec fn kept_active(
    active: Option<Seq<char>>,
    names: Seq<Seq<char>>,
    untagged: bool,
) -> Option<Seq<char>> {
    match active {
        Some(a) => if a.len() == 0 {
            if untagged {
                active
            } else {
                None
            }
        } else if exists|k: int|
            0 <= k < names.len() && crate::text::same_ignoring_case(#[trigger] names[k], a) {
            active
        } else {
            None
        },
        None => None,
    }
}

/// The tab of a tag.
pub open spec fn name_tab(name: Seq<char>, active: Option<Seq<char>>) -> TabView {
    TabView {
        label: name,
        filter: Some(name),
        active: active matches Some(a) && crate::text::same_ignoring_case(a, name),
    }
}

/// One tab for all notes, one for those without a tag where there are any, and one for
/// each tag.
pub open spec fn tabs(
    names: Seq<Seq<char>>,
    untagged: bool,
    active: Option<Seq<char>>,
) -> Seq<TabView> {
    seq![TabView { label: "All"@, filter: None, active: active is None }] + (if untagged {
        seq![
            TabView {
                label: "Untagged"@,
                filter: Some(Seq::empty()),
                active: active == Some(Seq::<char>::empty()),
            },
        ]
    } else {
        Seq::empty()
    }) + names.map_values(|n: Seq<char>| name_tab(n, active))
}

fn keep_active(active: &Option<String>, names: &Vec<String>, untagged: bool) -> (r: Option<String>)
    ensures
        crate::canvas::optional_text(r) == kept_active(
            crate::canvas::optional_text(*active),
            crate::text::texts(names@),
            untagged,
        ),
{
    let ghost all = crate::text::texts(names@);
    match active {
        None => None,
        Some(a) => {
            if chars_of(a.as_str()).len() == 0 {
                return if untagged {
                    Some(a.clone())
                } else {
                    None
                };
            }
            let mut i: usize = 0;
            while i < names.len()
                invariant
                    i <= names@.len(),
                    all == crate::text::texts(names@),
                    a@.len() > 0,
                    *active == Some(*a),
                    forall|k: int|
                        0 <= k < i ==> !crate::text::same_ignoring_case(#[trigger] all[k], a@),
                decreases names@.len() - i,
            {
                assert(all[i as int] == names@[i as int]@);
                if eq_ignore_ascii_case(names[i].as_str(), a.as_str()) {
                    return Some(a.clone());
                }
                i += 1;
            }
            None
        },
    }
}

/// The tabs for a list of notes, and the active tag that is left: one that no note has any
/// more is dropped.
pub fn tag_tabs(notes: &Vec<Note>, active_tag: &Option<String>) -> (r: (
    Vec<TagTab>,
    Option<String>,
))
    ensures
        ({
            let names = crate::sort::sorted(
                tag_counts(notes@, notes@.len() as int),
                by_name(),
            ).map_values(|t: (Seq<char>, nat)| t.0);
            let untagged = any_untagged(notes@, notes@.len() as int);
            let active = kept_active(crate::canvas::optional_text(*active_tag), names, untagged);
            &&& crate::canvas::optional_text(r.1) == active
            &&& tab_views(r.0@) == tabs(names, untagged, active)
        }),
{
    let (names, untagged) = collect_note_tags(notes);
    let active = keep_active(active_tag, &names, untagged);
    let ghost texts = crate::text::texts(names@);
    let ghost picked = crate::canvas::optional_text(active);
    let empty: Vec<char> = Vec::new();
    let mut list: Vec<TagTab> = Vec::new();
    list.push(TagTab { label: "All".to_owned(), filter: None, active: active.is_none() });
    if untagged {
        let on: bool = match &active {
            Some(a) => chars_of(a.as_str()).len() == 0,
            None => false,
        };
        proof {
            if on {
                assert(picked->0 =~= Seq::<char>::empty());
            }
        }
        list.push(TagTab {
            label: "Untagged".to_owned(),
            filter: Some(string_of(&empty)),
            active: on,
        });
        assert(list@[1]@.filter->0 =~= Seq::<char>::empty());
    }
    let ghost head = tab_views(list@);
    let mut i: usize = 0;
    assert(head =~= tabs(texts.take(0), untagged, picked));
    while i < names.len()
        invariant
            i <= names@.len(),
            texts == crate::text::texts(names@),
            picked == crate::canvas::optional_text(active),
            tab_views(list@) == tabs(texts.take(i as int), untagged, picked),
        decreases names@.len() - i,
    {
        let ghost before = tab_views(list@);
        let on: bool = match &active {
            Some(a) => eq_ignore_ascii_case(a.as_str(), names[i].as_str()),
            None => false,
        };
        let tab = TagTab { label: names[i].clone(), filter: Some(names[i].clone()), active: on };
        list.push(tab);
        assert(tab_views(list@) =~= before.push(tab@));
        assert(tab@ == name_tab(texts[i as int], picked));
        i += 1;
        assert(tabs(texts.take(i as int), untagged, picked) =~= before.push(
            name_tab(texts[i - 1], picked),
        ));
    }
    assert(texts.take(i as int) =~= texts);
    (list, active)
}

// ───────────────────────────── the picker ─────────────────────────────
/// What a row of the tag picker does.
#[derive(Debug, Clone)]
pub enum TagPickerAction {
    Apply(String),
    Create(String),
}

#[derive(Debug, Clone)]
pub struct TagPickerRow {
    pub action: TagPickerAction,
    /// How many notes have the tag.
    pub count: usize,
    /// Whether the current note has it.
    pub is_current: bool,
}

pub enum ActionView {
    Apply(Seq<char>),
    Create(Seq<char>),
}

pub struct RowView {
    pub action: ActionView,
    pub count: nat,
    pub is_current: bool,
}

impl View for TagPickerRow {
    type V = RowView;

    open spec fn view(&self) -> RowView {
        RowView {
            action: match self.action {
                TagPickerAction::Apply(t) => ActionView::Apply(t@),
                TagPickerAction::Create(t) => ActionView::Create(t@),
            },
            count: self.count as nat,
            is_current: self.is_current,
        }
    }
}

pub open spec fn row_views(rows: Seq<TagPickerRow>) -> Seq<RowView> {
    rows.map_values(|r: TagPickerRow| r@)
}

/// A query and the current tag, as they are and in lower case.
pub struct PickerQuery {
    pub query: Seq<char>,
    pub query_lower: Seq<char>,
    pub current: Seq<char>,
    pub current_lower: Seq<char>,
}

/// Whether the query finds this tag.
pub open spec fn picked(q: PickerQuery, lower: Seq<char>) -> bool {
    q.query_lower.len() == 0 || crate::text::occurs(lower, q.query_lower)
}

/// The rows of the first `n` tags, as far as the query finds them.
pub open spec fn tag_rows(
    q: PickerQuery,
    tags: Seq<(Seq<char>, nat)>,
    lower: Seq<Seq<char>>,
    n: int,
) -> Seq<RowView>
    decreases n,
{
    if n <= 0 {
        Seq::empty()
    } else if picked(q, lower[n - 1]) {
        tag_rows(q, tags, lower, n - 1).push(
            RowView {
                action: ActionView::Apply(tags[n - 1].0),
                count: tags[n - 1].1,
                is_current: lower[n - 1] == q.current_lower,
            },
        )
    } else {
        tag_rows(q, tags, lower, n - 1)
    }
}

/// A row that takes the tag away, where the query finds "no tag"; a row for each tag that
/// it finds; and a row that makes a new tag, where none is spelled like the query.
pub open spec fn picker_rows(
    q: PickerQuery,
    tags: Seq<(Seq<char>, nat)>,
    lower: Seq<Seq<char>>,
) -> Seq<RowView> {
    let clear = RowView {
        action: ActionView::Apply(Seq::empty()),
        count: 0,
        is_current: q.current.len() == 0,
    };
    let create = RowView {
        action: ActionView::Create(normal_tag(q.query)),
        count: 0,
        is_current: false,
    };
    (if picked(q, "no tag"@) {
        seq![clear]
    } else {
        Seq::empty()
    }) + tag_rows(q, tags, lower, tags.len() as int) + (if q.query.len() > 0 && !lower.contains(
        q.query_lower,
    ) && normal_tag(q.query).len() > 0 {
        seq![create]
    } else {
        Seq::empty()
    })
}

/// The rows for a query, given the tags and the query, the current tag and the tags in
/// lower case.
pub fn tag_picker_rows_for(
    tags: &Vec<(String, usize)>,
    lower: &Vec<String>,
    query: &str,
    query_lower: &str,
    current: &str,
    current_lower: &str,
) -> (r: Vec<TagPickerRow>)
    requires
        lower@.len() == tags@.len(),
    ensures
        row_views(r@) == picker_rows(
            (PickerQuery {
                query: query@,
                query_lower: query_lower@,
                current: current@,
                current_lower: current_lower@,
            }),
            count_views(tags@),
            crate::text::texts(lower@),
        ),
{
    let ghost q = PickerQuery {
        query: query@,
        query_lower: query_lower@,
        current: current@,
        current_lower: current_lower@,
    };
    let ghost views = count_views(tags@);
    let ghost lowers = crate::text::texts(lower@);
    let needle = chars_of(query_lower);
    let mut rows: Vec<TagPickerRow> = Vec::new();
    if needle.len() == 0 || contains(&chars_of("no tag"), &needle) {
        let row = TagPickerRow {
            action: TagPickerAction::Apply(String::new()),
            count: 0,
            is_current: chars_of(current).len() == 0,
        };
        assert(row@.action->Apply_0 =~= Seq::<char>::empty());
        rows.push(row);
    }
    let ghost head = row_views(rows@);
    let mut exact: bool = false;
    let mut i: usize = 0;
    assert(head + tag_rows(q, views, lowers, 0) =~= head);
    while i < tags.len()
        invariant
            i <= tags@.len(),
            lower@.len() == tags@.len(),
            views == count_views(tags@),
            lowers == crate::text::texts(lower@),
            needle@ == q.query_lower,
            query_lower@ == q.query_lower,
            current_lower@ == q.current_lower,
            row_views(rows@) == head + tag_rows(q, views, lowers, i as int),
            exact <==> exists|k: int| 0 <= k < i && #[trigger] lowers[k] == q.query_lower,
        decreases tags@.len() - i,
    {
        let ghost before = row_views(rows@);
        assert(lowers[i as int] == lower@[i as int]@);
        assert(views[i as int] == (tags@[i as int].0@, tags@[i as int].1 as nat));
        if needle.len() == 0 || contains(&chars_of(lower[i].as_str()), &needle) {
            let row = TagPickerRow {
                action: TagPickerAction::Apply(tags[i].0.clone()),
                count: tags[i].1,
                is_current: same_text(lower[i].as_str(), current_lower),
            };
            rows.push(row);
            assert(row_views(rows@) =~= before.push(row@));
            assert(row_views(rows@) =~= head + tag_rows(q, views, lowers, i + 1));
        }
        if same_text(lower[i].as_str(), query_lower) {
            exact = true;
        }
        i += 1;
    }
    let ghost found = row_views(rows@);
    proof {
        if exact {
            let k = choose|k: int| 0 <= k < i && #[trigger] lowers[k] == q.query_lower;
            assert(lowers.contains(q.query_lower));
        }
    }
    let wanted: bool = chars_of(query).len() > 0 && !exact;
    if wanted {
        let normalized = normalize_note_tag(query);
        if chars_of(normalized.as_str()).len() > 0 {
            let row = TagPickerRow {
                action: TagPickerAction::Create(normalized),
                count: 0,
                is_current: false,
            };
            rows.push(row);
            assert(row_views(rows@) =~= found.push(row@));
        }
    }
    assert(row_views(rows@) =~= picker_rows(q, views, lowers));
    rows
}

/// The rows of the picker for these notes, the current tag and what was typed.
pub fn tag_picker_rows(notes: &Vec<Note>, current: &str, typed: &str) -> (r: Vec<TagPickerRow>)
    ensures
        ({
            let tags = crate::sort::sorted(tag_counts(notes@, notes@.len() as int), by_count());
            row_views(r@) == picker_rows(
                (PickerQuery {
                    query: crate::text::trim(typed@),
                    query_lower: crate::text::lowercase(crate::text::trim(typed@)),
                    current: current@,
                    current_lower: crate::text::lowercase(current@),
                }),
                tags,
                tags.map_values(|t: (Seq<char>, nat)| crate::text::lowercase(t.0)),
            )
        }),
{
    let tags = collect_note_tags_with_counts(notes);
    let ghost views = count_views(tags@);
    let query = trimmed_text(typed);
    let query_lower = to_lowercase(query.as_str());
    let current_lower = to_lowercase(current);
    let mut lower: Vec<String> = Vec::new();
    let mut i: usize = 0;
    while i < tags.len()
        invariant
            i <= tags@.len(),
            lower@.len() == i,
            forall|k: int|
                0 <= k < i ==> (#[trigger] lower@[k])@ == crate::text::lowercase(tags@[k].0@),
        decreases tags@.len() - i,
    {
        lower.push(to_lowercase(tags[i].0.as_str()));
        i += 1;
    }
    assert(crate::text::texts(lower@) =~= views.map_values(
        |t: (Seq<char>, nat)| crate::text::lowercase(t.0),
    ));
    tag_picker_rows_for(
        &tags,
        &lower,
        query.as_str(),
        query_lower.as_str(),
        current,
        current_lower.as_str(),
    )
}

/// The tag that a picker row stands for.
pub fn picked_tag(action: &TagPickerAction) -> (r: String)
    ensures
        r@ == (match *action {
            TagPickerAction::Apply(t) => normal_tag(t@),
            TagPickerAction::Create(t) => normal_tag(t@),
        }),
{
    match action {
        TagPickerAction::Apply(t) => normalize_note_tag(t.as_str()),
        TagPickerAction::Create(t) => normalize_note_tag(t.as_str()),
    }
}

/// The row that a step of the selection leads to.
pub open spec fn moved_row(selected: Option<i32>, delta: i32) -> int {
    let from: int = match selected {
        Some(s) => s as int,
        None => -1,
    };
    if from + delta < 0 {
        0
    } else if from + delta > i32::MAX {
        i32::MAX as int
    } else {
        from + delta
    }
}

/// The row that a step of the selection leads to. Nothing selected counts as -1, and the
/// selection does not leave the list at the top.
pub fn moved_selection(selected: Option<i32>, delta: i32) -> (r: i32)
    ensures
        r == moved_row(selected, delta),
{
    let from: i64 = match selected {
        Some(s) => s as i64,
        None => -1,
    };
    let to: i64 = from + delta as i64;
    if to < 0 {
        0
    } else if to > i32::MAX as i64 {
        i32::MAX
    } else {
        to as i32
    }
}

// ───────────────────────────── colours ─────────────────────────────
/// The colours that a note can have; the empty one is none.
pub open spec fn color_ids() -> Seq<Seq<char>> {
    seq![""@, "red"@, "orange"@, "yellow"@, "green"@, "blue"@, "purple"@, "pink"@]
}

/// The colours and what they are called.
pub fn note_colors() -> (r: Vec<(&'static str, &'static str)>)
    ensures
        r@.map_values(|c: (&'static str, &'static str)| c.0@) == color_ids(),
        r@.map_values(|c: (&'static str, &'static str)| c.1@) == seq![
            "No color"@,
            "Red"@,
            "Orange"@,
            "Yellow"@,
            "Green"@,
            "Blue"@,
            "Purple"@,
            "Pink"@,
        ],
{
    let r: Vec<(&'static str, &'static str)> = vec![
        ("", "No color"),
        ("red", "Red"),
        ("orange", "Orange"),
        ("yellow", "Yellow"),
        ("green", "Green"),
        ("blue", "Blue"),
        ("purple", "Purple"),
        ("pink", "Pink"),
    ];
    assert(r@.map_values(|c: (&'static str, &'static str)| c.0@) =~= color_ids());
    assert(r@.map_values(|c: (&'static str, &'static str)| c.1@) =~= seq![
        "No color"@,
        "Red"@,
        "Orange"@,
        "Yellow"@,
        "Green"@,
        "Blue"@,
        "Purple"@,
        "Pink"@,
    ]);
    r
}

/// A colour as it counts: one that notes can have, or none.
pub open spec fn normal_color(s: Seq<char>) -> Seq<char> {
    if color_ids().contains(crate::text::trim(s)) {
        crate::text::trim(s)
    } else {
        Seq::empty()
    }
}

pub fn normalize_note_color(color: &str) -> (r: String)
    ensures
        r@ == normal_color(color@),
{
    let wanted = trimmed_text(color);
    let known = note_colors();
    let ghost ids = known@.map_values(|c: (&'static str, &'static str)| c.0@);
    let mut i: usize = 0;
    while i < known.len()
        invariant
            i <= known@.len(),
            ids == known@.map_values(|c: (&'static str, &'static str)| c.0@),
            ids == color_ids(),
            wanted@ == crate::text::trim(color@),
            forall|k: int| 0 <= k < i ==> ids[k] != wanted@,
        decreases known@.len() - i,
    {
        assert(ids[i as int] == known@[i as int].0@);
        if same_text(known[i].0, wanted.as_str()) {
            assert(color_ids().contains(wanted@));
            return wanted;
        }
        i += 1;
    }
    assert(ids.len() == known@.len());
    String::new()
}

/// The style class of a colour.
pub open spec fn color_class(color: Seq<char>) -> Seq<char> {
    if normal_color(color).len() == 0 {
        "jot-color-default"@
    } else {
        "jot-color-"@ + normal_color(color)
    }
}

pub fn note_color_css_class(color: &str) -> (r: String)
    ensures
        r@ == color_class(color@),
{
    let id = normalize_note_color(color);
    if chars_of(id.as_str()).len() == 0 {
        "jot-color-default".to_owned()
    } else {
        let mut r = "jot-color-".to_owned();
        r.append(id.as_str());
        r
    }
}

// ───────────────────────────── laws ─────────────────────────────
pub proof fn lemma_tag_place(tags: Seq<(Seq<char>, nat)>, tag: Seq<char>, i: int)
    requires
        0 <= i <= tags.len(),
    ensures
        i <= tag_place(tags, tag, i) <= tags.len(),
        tag_place(tags, tag, i) < tags.len() ==> crate::text::same_ignoring_case(
            tags[tag_place(tags, tag, i)].0,
            tag,
        ),
        forall|k: int|
            i <= k < tag_place(tags, tag, i) ==> !crate::text::same_ignoring_case(
                (#[trigger] tags[k]).0,
                tag,
            ),
    decreases tags.len() - i,
{
    if i < tags.len() && !crate::text::same_ignoring_case(tags[i].0, tag) {
        lemma_tag_place(tags, tag, i + 1);
    }
}

/// No tag is listed twice, whatever its case, and none is empty.
pub proof fn law_tags_are_listed_once(notes: Seq<Note>, n: int)
    requires
        0 <= n <= notes.len(),
    ensures
        forall|i: int, j: int|
            0 <= i < j < tag_counts(notes, n).len() ==> !crate::text::same_ignoring_case(
                (#[trigger] tag_counts(notes, n)[i]).0,
                (#[trigger] tag_counts(notes, n)[j]).0,
            ),
        forall|i: int|
            0 <= i < tag_counts(notes, n).len() ==> (#[trigger] tag_counts(notes, n)[i]).0.len()
                > 0,
    decreases n,
{
    if n > 0 {
        law_tags_are_listed_once(notes, n - 1);
        lemma_tag_place(tag_counts(notes, n - 1), normal_tag(notes[n - 1].tag@), 0);
    }
}

/// Every tag that a note has is listed.
pub proof fn law_every_tag_is_listed(notes: Seq<Note>, n: int, k: int)
    requires
        0 <= k < n <= notes.len(),
        normal_tag(notes[k].tag@).len() > 0,
    ensures
        exists|i: int|
            0 <= i < tag_counts(notes, n).len() && crate::text::same_ignoring_case(
                (#[trigger] tag_counts(notes, n)[i]).0,
                normal_tag(notes[k].tag@),
            ),
    decreases n,
{
    let before = tag_counts(notes, n - 1);
    let after = tag_counts(notes, n);
    let p = tag_place(before, normal_tag(notes[n - 1].tag@), 0);
    lemma_tag_place(before, normal_tag(notes[n - 1].tag@), 0);
    if k == n - 1 {
        assert(crate::text::same_ignoring_case(after[p].0, normal_tag(notes[k].tag@)));
    } else {
        law_every_tag_is_listed(notes, n - 1, k);
        let i = choose|i: int|
            0 <= i < before.len() && crate::text::same_ignoring_case(
                (#[trigger] before[i]).0,
                normal_tag(notes[k].tag@),
            );
        assert(after[i].0 == before[i].0);
    }
}

/// The sum of the counts of the first `i` tags.
pub open spec fn count_sum(tags: Seq<(Seq<char>, nat)>, i: int) -> nat
    decreases i,
{
    if i <= 0 {
        0
    } else {
        count_sum(tags, i - 1) + tags[i - 1].1
    }
}

/// How many of the first `n` notes have a tag.
pub open spec fn tagged(notes: Seq<Note>, n: int) -> nat
    decreases n,
{
    if n <= 0 {
        0
    } else {
        tagged(notes, n - 1) + (if normal_tag(notes[n - 1].tag@).len() > 0 {
            1nat
        } else {
            0
        })
    }
}

proof fn lemma_count_sum_same(a: Seq<(Seq<char>, nat)>, b: Seq<(Seq<char>, nat)>, i: int)
    requires
        0 <= i <= a.len(),
        i <= b.len(),
        forall|k: int| 0 <= k < i ==> (#[trigger] a[k]).1 == (#[trigger] b[k]).1,
    ensures
        count_sum(a, i) == count_sum(b, i),
    decreases i,
{
    if i > 0 {
        lemma_count_sum_same(a, b, i - 1);
        assert(a[i - 1].1 == b[i - 1].1);
    }
}

proof fn lemma_count_sum_one_more(
    a: Seq<(Seq<char>, nat)>,
    b: Seq<(Seq<char>, nat)>,
    p: int,
    i: int,
)
    requires
        0 <= p < i <= a.len(),
        b == a.update(p, (a[p].0, a[p].1 + 1)),
    ensures
        count_sum(b, i) == count_sum(a, i) + 1,
    decreases i,
{
    if p < i - 1 {
        lemma_count_sum_one_more(a, b, p, i - 1);
    } else {
        lemma_count_sum_same(a, b, i - 1);
    }
}

/// The counts of the tags add up to the number of notes that have one.
pub proof fn law_counts_add_up(notes: Seq<Note>, n: int)
    requires
        0 <= n <= notes.len(),
    ensures
        count_sum(tag_counts(notes, n), tag_counts(notes, n).len() as int) == tagged(notes, n),
    decreases n,
{
    if n > 0 {
        law_counts_add_up(notes, n - 1);
        let before = tag_counts(notes, n - 1);
        let after = tag_counts(notes, n);
        let tag = normal_tag(notes[n - 1].tag@);
        let p = tag_place(before, tag, 0);
        lemma_tag_place(before, tag, 0);
        if tag.len() > 0 {
            if p < before.len() {
                lemma_count_sum_one_more(before, after, p, before.len() as int);
            } else {
                lemma_count_sum_same(before, after, before.len() as int);
            }
        }
    }
}

/// Both orders of the tags are orders, so what sorting promises holds of the lists.
pub proof fn law_tag_orders()
    ensures
        crate::sort::is_order(by_name()),
        crate::sort::is_order(by_count()),
{
    assert forall|a: (Seq<char>, nat), b: (Seq<char>, nat)| #[trigger]
        by_name()(a, b) || by_name()(b, a) by {
        crate::text::lemma_text_le_total(
            crate::text::lowercase(a.0),
            crate::text::lowercase(b.0),
        );
    }
    assert forall|a: (Seq<char>, nat), b: (Seq<char>, nat)| #[trigger]
        by_count()(a, b) || by_count()(b, a) by {
        crate::text::lemma_text_le_total(
            crate::text::lowercase(a.0),
            crate::text::lowercase(b.0),
        );
    }
    assert forall|a: (Seq<char>, nat), b: (Seq<char>, nat), c: (Seq<char>, nat)| #[trigger]
        by_name()(a, b) && #[trigger] by_name()(b, c) implies by_name()(a, c) by {
        crate::text::lemma_text_le_transitive(
            crate::text::lowercase(a.0),
            crate::text::lowercase(b.0),
            crate::text::lowercase(c.0),
        );
    }
    assert forall|a: (Seq<char>, nat), b: (Seq<char>, nat), c: (Seq<char>, nat)| #[trigger]
        by_count()(a, b) && #[trigger] by_count()(b, c) implies by_count()(a, c) by {
        if a.1 == b.1 && b.1 == c.1 {
            crate::text::lemma_text_le_transitive(
                crate::text::lowercase(a.0),
                crate::text::lowercase(b.0),
                crate::text::lowercase(c.0),
            );
        }
    }
}

/// A normal tag has at most 40 characters, and a normal colour is one that notes can have.
pub proof fn law_normal_tags_and_colors(s: Seq<char>)
    ensures
        normal_tag(s).len() <= 40,
        color_ids().contains(normal_color(s)),
{
    reveal_strlit("");
    assert(color_ids()[0] =~= Seq::<char>::empty());
}

proof fn lemma_printable(s: Seq<char>)
    ensures
        printable(s) == s.filter(|c: char| !crate::text::is_control_char(c)),
    decreases s.len(),
{
    reveal(Seq::filter);
    if s.len() > 0 {
        lemma_printable(s.drop_last());
    }
}

/// A normal tag is what is left of a tag, up to 40 characters, without the white space around
/// it and without control characters. A tag that is short and has neither stays as it is.
pub proof fn law_normal_tags_are_short_and_printable(s: Seq<char>)
    ensures
        ({
            let rest = crate::text::trim(s).filter(|c: char| !crate::text::is_control_char(c));
            normal_tag(s) == (if rest.len() <= 40 {
                rest
            } else {
                rest.take(40)
            })
        }),
        forall|i: int|
            0 <= i < normal_tag(s).len() ==> !crate::text::is_control_char(#[trigger] normal_tag(s)[i]),
        s.len() <= 40 && (s.len() > 0 ==> !crate::text::is_space(s[0]) && !crate::text::is_space(
            s.last(),
        )) && (forall|i: int|
            0 <= i < s.len() ==> !crate::text::is_control_char(#[trigger] s[i])) ==> normal_tag(s)
            == s,
{
    let t = crate::text::trim(s);
    let p = |c: char| !crate::text::is_control_char(c);
    lemma_printable(t);
    broadcast use vstd::seq_lib::group_filter_ensures;

    assert forall|i: int| 0 <= i < normal_tag(s).len() implies !crate::text::is_control_char(
        #[trigger] normal_tag(s)[i],
    ) by {
        assert(normal_tag(s)[i] == t.filter(p)[i]);
        assert(p(t.filter(p)[i]));
    }
    if s.len() <= 40 && (s.len() > 0 ==> !crate::text::is_space(s[0]) && !crate::text::is_space(
        s.last(),
    )) && (forall|i: int|
        0 <= i < s.len() ==> !crate::text::is_control_char(#[trigger] s[i])) {
        crate::text::law_trimmed_texts_stay(s);
        lemma_all_printable(s);
    }
}

proof fn lemma_all_printable(s: Seq<char>)
    requires
        forall|i: int| 0 <= i < s.len() ==> !crate::text::is_control_char(#[trigger] s[i]),
    ensures
        printable(s) == s,
    decreases s.len(),
{
    if s.len() > 0 {
        assert forall|i: int| 0 <= i < s.drop_last().len() implies !crate::text::is_control_char(
            #[trigger] s.drop_last()[i],
        ) by {
            assert(s.drop_last()[i] == s[i]);
        }
        lemma_all_printable(s.drop_last());
        assert(s.last() == s[s.len() - 1]);
        assert(s.drop_last().push(s.last()) =~= s);
    }
}

/// Which notes a filter shows: without one all of them, with the empty one exactly those
/// without a tag, and with any other exactly those that have it, whatever its case. So a note
/// is shown under its own tag, and a tagged one not among the untagged.
pub proof fn law_filters_show_their_notes(tag: Seq<char>, active: Seq<char>)
    ensures
        tag_shown(tag, None),
        tag_shown(tag, Some(Seq::empty())) <==> normal_tag(tag).len() == 0,
        tag_shown(tag, Some(normal_tag(tag))),
        active.len() > 0 ==> (tag_shown(tag, Some(active)) <==> crate::text::ascii_lowercase(
            normal_tag(tag),
        ) == crate::text::ascii_lowercase(active)),
{
}

/// How many of the first `n` notes have this tag, whatever its case.
pub open spec fn notes_with(notes: Seq<Note>, n: int, name: Seq<char>) -> nat
    decreases n,
{
    if n <= 0 {
        0
    } else {
        notes_with(notes, n - 1, name) + (if normal_tag(notes[n - 1].tag@).len() > 0
            && crate::text::ascii_lowercase(normal_tag(notes[n - 1].tag@))
            == crate::text::ascii_lowercase(name) {
            1nat
        } else {
            0
        })
    }
}

proof fn lemma_none_with(notes: Seq<Note>, n: int, name: Seq<char>)
    requires
        0 <= n <= notes.len(),
        forall|i: int|
            0 <= i < tag_counts(notes, n).len() ==> !crate::text::same_ignoring_case(
                (#[trigger] tag_counts(notes, n)[i]).0,
                name,
            ),
    ensures
        notes_with(notes, n, name) == 0,
    decreases n,
{
    if n > 0 {
        let before = tag_counts(notes, n - 1);
        let all = tag_counts(notes, n);
        let t = normal_tag(notes[n - 1].tag@);
        let p = tag_place(before, t, 0);
        lemma_tag_place(before, t, 0);
        assert forall|i: int| 0 <= i < before.len() implies !crate::text::same_ignoring_case(
            (#[trigger] before[i]).0,
            name,
        ) by {
            assert(all[i].0 == before[i].0);
        }
        lemma_none_with(notes, n - 1, name);
        if t.len() > 0 {
            if p < before.len() {
                assert(all[p].0 == before[p].0);
            } else {
                assert(all[p].0 == t);
            }
        }
    }
}

/// The count of a tag is the number of the notes that have it, whatever its case, and the
/// tag's spelling is that of a note.
pub proof fn law_counts_are_the_notes_with_the_tag(notes: Seq<Note>, n: int, i: int)
    requires
        0 <= n <= notes.len(),
        0 <= i < tag_counts(notes, n).len(),
    ensures
        tag_counts(notes, n)[i].1 == notes_with(notes, n, tag_counts(notes, n)[i].0),
        exists|k: int|
            0 <= k < n && normal_tag((#[trigger] notes[k]).tag@) == tag_counts(notes, n)[i].0,
    decreases n,
{
    if n > 0 {
        let before = tag_counts(notes, n - 1);
        let all = tag_counts(notes, n);
        let t = normal_tag(notes[n - 1].tag@);
        let p = tag_place(before, t, 0);
        lemma_tag_place(before, t, 0);
        law_tags_are_listed_once(notes, n);
        law_tags_are_listed_once(notes, n - 1);
        if i < before.len() {
            law_counts_are_the_notes_with_the_tag(notes, n - 1, i);
            assert(all[i].0 == before[i].0);
            let k = choose|k: int| 0 <= k < n - 1 && normal_tag((#[trigger] notes[k]).tag@)
                == before[i].0;
            assert(normal_tag(notes[k].tag@) == all[i].0);
            if t.len() > 0 && i != p {
                if p < before.len() {
                    assert(all[p].0 == before[p].0);
                } else {
                    assert(all[p].0 == t);
                }
                let (lo, hi) = if i < p {
                    (i, p)
                } else {
                    (p, i)
                };
                assert(!crate::text::same_ignoring_case(all[lo].0, all[hi].0));
            }
        } else {
            assert(all[i].0 == t);
            lemma_none_with(notes, n - 1, t);
            assert(normal_tag(notes[n - 1].tag@) == all[i].0);
        }
    }
}

/// The lists of tags are sorted as they say: by name in small letters, or by count, the most
/// used first, and then by name.
pub proof fn law_tags_are_sorted(tags: Seq<(Seq<char>, nat)>, i: int, j: int)
    requires
        0 <= i <= j < tags.len(),
    ensures
        ({
            let named = crate::sort::sorted(tags, by_name());
            let counted = crate::sort::sorted(tags, by_count());
            &&& named.len() == tags.len() && counted.len() == tags.len()
            &&& crate::text::text_le(
                crate::text::lowercase(named[i].0),
                crate::text::lowercase(named[j].0),
            )
            &&& counted[i].1 >= counted[j].1
            &&& counted[i].1 == counted[j].1 ==> crate::text::text_le(
                crate::text::lowercase(counted[i].0),
                crate::text::lowercase(counted[j].0),
            )
        }),
{
    law_tag_orders();
    crate::sort::law_sorted_is_in_order(tags, by_name());
    crate::sort::law_sorted_is_in_order(tags, by_count());
    let named = crate::sort::sorted(tags, by_name());
    let counted = crate::sort::sorted(tags, by_count());
    assert(by_name()(named[i], named[j]));
    assert(by_count()(counted[i], counted[j]));
}

/// Exactly one tab is active: the one for all notes where no filter is left, and otherwise the
/// one whose filter it is.
pub proof fn law_one_tab_is_active(
    names: Seq<Seq<char>>,
    untagged: bool,
    active: Option<Seq<char>>,
    i: int,
    j: int,
)
    requires
        forall|a: int, b: int|
            0 <= a < b < names.len() ==> !crate::text::same_ignoring_case(
                #[trigger] names[a],
                #[trigger] names[b],
            ),
        forall|a: int| 0 <= a < names.len() ==> (#[trigger] names[a]).len() > 0,
        kept_active(active, names, untagged) == active,
        0 <= i < tabs(names, untagged, active).len(),
        0 <= j < tabs(names, untagged, active).len(),
    ensures
        tabs(names, untagged, active)[i].active && tabs(names, untagged, active)[j].active ==> i
            == j,
        exists|k: int|
            0 <= k < tabs(names, untagged, active).len() && (#[trigger] tabs(
                names,
                untagged,
                active,
            )[k]).active,
        tabs(names, untagged, active)[0].filter is None,
        tabs(names, untagged, active)[0].active <==> active is None,
        tabs(names, untagged, active)[i].active ==> match (
            tabs(names, untagged, active)[i].filter,
            active,
        ) {
            (Some(f), Some(a)) => crate::text::same_ignoring_case(f, a),
            (None, None) => true,
            _ => false,
        },
{
    let all = tabs(names, untagged, active);
    let lead: int = if untagged {
        2
    } else {
        1
    };
    assert forall|k: int| lead <= k < all.len() implies #[trigger] all[k] == name_tab(
        names[k - lead],
        active,
    ) by {}
    assert(all.len() == lead + names.len());
    assert forall|a: Seq<char>, b: Seq<char>| #[trigger] crate::text::same_ignoring_case(a, b) implies a.len()
        == b.len() by {
        assert(crate::text::ascii_lowercase(a).len() == a.len());
        assert(crate::text::ascii_lowercase(b).len() == b.len());
    }
    if i >= lead && j >= lead && all[i].active && all[j].active && i != j {
        let (lo, hi) = if i < j {
            (i - lead, j - lead)
        } else {
            (j - lead, i - lead)
        };
        assert(crate::text::same_ignoring_case(names[lo], names[hi]));
    }
    match active {
        None => {
            assert(all[0].active);
        },
        Some(a) => {
            if a.len() == 0 {
                assert(a =~= Seq::empty());
                assert(all[1].active);
                assert forall|k: int| lead <= k < all.len() implies !(#[trigger] all[k]).active by {
                    assert(names[k - lead].len() > 0);
                }
            } else {
                let k = choose|k: int|
                    0 <= k < names.len() && crate::text::same_ignoring_case(#[trigger] names[k], a);
                assert(all[k + lead].active);
            }
        },
    }
}

/// Whether an action applies one of the first `n` tags that hold what was typed.
pub open spec fn holds_query(
    q: PickerQuery,
    tags: Seq<(Seq<char>, nat)>,
    lower: Seq<Seq<char>>,
    n: int,
    action: ActionView,
) -> bool {
    exists|i: int|
        0 <= i < n && action == ActionView::Apply((#[trigger] tags[i]).0) && (q.query_lower.len()
            == 0 || crate::text::occurs(lower[i], q.query_lower))
}

/// The rows of the picker: with nothing typed, a row that takes the tag away and one for every
/// tag, in their order. Otherwise the rows offer exactly the tags that hold what was typed,
/// whatever its case.
pub proof fn law_the_picker_offers_what_was_typed(
    q: PickerQuery,
    tags: Seq<(Seq<char>, nat)>,
    lower: Seq<Seq<char>>,
    n: int,
)
    requires
        0 <= n <= tags.len(),
        lower.len() == tags.len(),
    ensures
        q.query_lower.len() == 0 ==> tag_rows(q, tags, lower, n).len() == n && forall|i: int|
            0 <= i < n ==> (#[trigger] tag_rows(q, tags, lower, n)[i]).action == ActionView::Apply(
                tags[i].0,
            ) && tag_rows(q, tags, lower, n)[i].count == tags[i].1,
        forall|i: int|
            0 <= i < n && (q.query_lower.len() == 0 || crate::text::occurs(
                #[trigger] lower[i],
                q.query_lower,
            )) ==> tag_rows(q, tags, lower, n).contains(
                RowView {
                    action: ActionView::Apply(tags[i].0),
                    count: tags[i].1,
                    is_current: lower[i] == q.current_lower,
                },
            ),
        forall|k: int|
            0 <= k < tag_rows(q, tags, lower, n).len() ==> holds_query(
                q,
                tags,
                lower,
                n,
                (#[trigger] tag_rows(q, tags, lower, n)[k]).action,
            ),
    decreases n,
{
    if n > 0 {
        law_the_picker_offers_what_was_typed(q, tags, lower, n - 1);
        let before = tag_rows(q, tags, lower, n - 1);
        let all = tag_rows(q, tags, lower, n);
        let own = RowView {
            action: ActionView::Apply(tags[n - 1].0),
            count: tags[n - 1].1,
            is_current: lower[n - 1] == q.current_lower,
        };
        if picked(q, lower[n - 1]) {
            assert(all == before.push(own));
            assert(all[before.len() as int] == own);
        }
        assert forall|i: int|
            0 <= i < n && (q.query_lower.len() == 0 || crate::text::occurs(
                #[trigger] lower[i],
                q.query_lower,
            )) implies all.contains(
            RowView {
                action: ActionView::Apply(tags[i].0),
                count: tags[i].1,
                is_current: lower[i] == q.current_lower,
            },
        ) by {
            let row = RowView {
                action: ActionView::Apply(tags[i].0),
                count: tags[i].1,
                is_current: lower[i] == q.current_lower,
            };
            if i < n - 1 {
                assert(before.contains(row));
                let k = choose|k: int| 0 <= k < before.len() && before[k] == row;
                assert(all[k] == row);
            }
        }
        assert forall|k: int| 0 <= k < all.len() implies holds_query(
            q,
            tags,
            lower,
            n,
            (#[trigger] all[k]).action,
        ) by {
            if k < before.len() {
                assert(all[k] == before[k]);
                assert(holds_query(q, tags, lower, n - 1, before[k].action));
            } else {
                assert(tags[n - 1].0 == tags[n - 1].0);
            }
        }
    }
}

/// A new tag is offered exactly where something was typed that is a tag, and no note has it
/// yet; it is the last row then. Taking the tag away is offered first, where "no tag" holds
/// what was typed.
pub proof fn law_new_tags_are_offered_once(
    q: PickerQuery,
    tags: Seq<(Seq<char>, nat)>,
    lower: Seq<Seq<char>>,
)
    requires
        lower.len() == tags.len(),
    ensures
        ({
            let rows = picker_rows(q, tags, lower);
            &&& (rows.len() > 0 && rows.last().action == ActionView::Create(normal_tag(q.query)))
                <==> q.query.len() > 0 && normal_tag(q.query).len() > 0 && !lower.contains(
                q.query_lower,
            )
            &&& (q.query_lower.len() == 0 || crate::text::occurs("no tag"@, q.query_lower))
                ==> rows.len() > 0 && rows[0].action == ActionView::Apply(Seq::empty())
                && rows[0].is_current == (q.current.len() == 0)
        }),
{
    let rows = picker_rows(q, tags, lower);
    let n = tags.len() as int;
    law_the_picker_offers_what_was_typed(q, tags, lower, n);
    let middle = tag_rows(q, tags, lower, n);
    let lead = if picked(q, "no tag"@) {
        1int
    } else {
        0
    };
    if q.query.len() > 0 && !lower.contains(q.query_lower) && normal_tag(q.query).len() > 0 {
        assert(rows.last().action == ActionView::Create(normal_tag(q.query)));
    } else {
        assert(rows.len() == lead + middle.len());
        if rows.len() > 0 {
            if middle.len() > 0 {
                assert(rows.last() == middle.last());
                assert(rows.last().action is Apply);
            } else {
                assert(rows.last().action is Apply);
            }
        }
    }
}

/// The colours of notes: a colour counts where it is one of the seven, and everything else
/// counts as none. The style class is named after it.
pub proof fn law_colors_by_name(s: Seq<char>)
    ensures
        ({
            let t = crate::text::trim(s);
            let known = t == "red"@ || t == "orange"@ || t == "yellow"@ || t == "green"@ || t
                == "blue"@ || t == "purple"@ || t == "pink"@;
            &&& known ==> normal_color(s) == t && color_class(s) == "jot-color-"@ + t
            &&& !known ==> normal_color(s) == Seq::<char>::empty() && color_class(s)
                == "jot-color-default"@
        }),
{
    reveal_strlit("");
    reveal_strlit("red");
    reveal_strlit("orange");
    reveal_strlit("yellow");
    reveal_strlit("green");
    reveal_strlit("blue");
    reveal_strlit("purple");
    reveal_strlit("pink");
    let t = crate::text::trim(s);
    let ids = color_ids();
    assert(ids[0] == ""@ && ids[1] == "red"@ && ids[2] == "orange"@ && ids[3] == "yellow"@ && ids[4]
        == "green"@ && ids[5] == "blue"@ && ids[6] == "purple"@ && ids[7] == "pink"@);
    assert(""@ =~= Seq::<char>::empty());
}

/// A normal colour is its own.
pub proof fn law_normal_colors_stay(s: Seq<char>)
    ensures
        normal_color(normal_color(s)) == normal_color(s),
{
    let c = normal_color(s);
    law_colors_by_name(s);
    law_colors_by_name(c);
    let (a, b) = crate::text::law_trimming_takes_white_space_only(s);
    if c.len() > 0 {
        assert(c == s.subrange(a, b));
        assert(c[0] == s[a] && c.last() == s[b - 1]);
    }
    crate::text::law_trimmed_texts_stay(c);
}

/// Notes without a tag are there exactly when some note's tag holds nothing but white space at
/// its ends and control characters between them.
pub proof fn law_untagged_notes_are_noticed(notes: Seq<Note>, n: int)
    requires
        0 <= n <= notes.len(),
    ensures
        any_untagged(notes, n) <==> exists|k: int|
            0 <= k < n && holds_controls_only(crate::text::trim((#[trigger] notes[k]).tag@)),
{
    assert forall|k: int| 0 <= k < n implies (normal_tag((#[trigger] notes[k]).tag@).len() == 0
        <==> holds_controls_only(crate::text::trim(notes[k].tag@))) by {
        lemma_printable_empty(crate::text::trim(notes[k].tag@));
    }
    if any_untagged(notes, n) {
        let k = choose|k: int| 0 <= k < n && normal_tag((#[trigger] notes[k]).tag@).len() == 0;
        assert(holds_controls_only(crate::text::trim(notes[k].tag@)));
    }
}

/// Whether every character of a text is a control character.
pub open spec fn holds_controls_only(s: Seq<char>) -> bool {
    forall|i: int| 0 <= i < s.len() ==> crate::text::is_control_char(#[trigger] s[i])
}

proof fn lemma_printable_empty(s: Seq<char>)
    ensures
        printable(s).len() == 0 <==> forall|i: int|
            0 <= i < s.len() ==> crate::text::is_control_char(#[trigger] s[i]),
    decreases s.len(),
{
    if s.len() > 0 {
        let t = s.drop_last();
        lemma_printable_empty(t);
        assert forall|i: int| 0 <= i < t.len() implies t[i] == s[i] by {}
        if printable(s).len() == 0 {
            assert forall|i: int| 0 <= i < s.len() implies crate::text::is_control_char(
                #[trigger] s[i],
            ) by {
                if i < t.len() {
                    assert(crate::text::is_control_char(t[i]));
                }
            }
        }
        if forall|i: int| 0 <= i < s.len() ==> crate::text::is_control_char(#[trigger] s[i]) {
            assert(crate::text::is_control_char(s[s.len() - 1]));
            assert forall|i: int| 0 <= i < t.len() implies crate::text::is_control_char(
                #[trigger] t[i],
            ) by {
                assert(crate::text::is_control_char(s[i]));
            }
        }
    }
}

/// A step of the selection goes as far as it says, and stops at the first row.
pub proof fn law_the_selection_moves(selected: Option<i32>, delta: i32)
    ensures
        moved_row(selected, delta) >= 0,
        selected matches Some(s) ==> (0 <= s + delta <= i32::MAX ==> moved_row(selected, delta) == s
            + delta) && (s + delta < 0 ==> moved_row(selected, delta) == 0),
        selected is None && delta > 0 ==> moved_row(selected, delta) == delta - 1,
        selected is None && delta <= 0 ==> moved_row(selected, delta) == 0,
{
}

/// The first tab is for all notes, then comes one for those without a tag where there are any,
/// and then each tag's own, under its name and with its name as the filter.
pub proof fn law_tabs_are_called_by_their_tags(
    names: Seq<Seq<char>>,
    untagged: bool,
    active: Option<Seq<char>>,
    i: int,
)
    requires
        0 <= i < names.len(),
    ensures
        ({
            let all = tabs(names, untagged, active);
            let first: int = if untagged {
                2
            } else {
                1
            };
            &&& all.len() == first + names.len()
            &&& all[0].label == "All"@ && all[0].filter is None
            &&& untagged ==> all[1].label == "Untagged"@ && all[1].filter == Some(
                Seq::<char>::empty(),
            )
            &&& all[first + i].label == names[i] && all[first + i].filter == Some(names[i])
        }),
{
}

}
