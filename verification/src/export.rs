//! Notes as markdown files: their names, their front matter, and the images that go with
//! them.

use crate::body::{split_body, BodyPart};
use crate::clock::{day_stamp, Moment};
use crate::db::has_key;
use crate::note::Note;
use crate::paths::{name_extension, name_stem, path_file_name, System};
use crate::text::{
    chars_between, chars_of, push_dec, push_int, replaced, same_text, string_of,
};
use sha2::Digest;
use vstd::prelude::*;

verus! {

/// The parts of a body as an export sees them: text and images.
pub fn parse_markdown_body(body: &str) -> (r: Vec<BodyPart>)
    ensures
        crate::body::part_views(r@) == crate::body::body_parts(body@, false),
{
    split_body(body, false)
}

// ───────────────────────────── file names ─────────────────────────────
/// How long a slug may be. Paths have a limit on some systems, and the slug stands at the
/// end of one.
pub const MAX_SLUG_LEN: usize = 64;

/// Whether a slug holds `c`.
pub open spec fn in_slug(c: char) -> bool {
    ('a' <= c && c <= 'z') || ('0' <= c && c <= '9') || c == '-'
}

/// Whether `s` has the shape of a slug: small letters, digits and single dashes, with none
/// at either end.
pub open spec fn is_slug(s: Seq<char>) -> bool {
    &&& forall|i: int| 0 <= i < s.len() ==> in_slug(#[trigger] s[i])
    &&& forall|i: int| 0 <= i < s.len() - 1 ==> !(#[trigger] s[i] == '-' && s[i + 1] == '-')
    &&& s.len() > 0 ==> s[0] != '-' && s.last() != '-'
}

/// The slug of a text.
pub uninterp spec fn slug_of(s: Seq<char>) -> Seq<char>;

/// `slug::slugify` turns a text into a slug. Its result has the shape that its
/// documentation promises: `a` to `z`, `0` to `9` and `-`, no two dashes in a row and none
/// at either end. Which slug a text gets is not said here: the result is a name for it.
#[verifier::external_body]
fn slugify(s: &str) -> (r: String)
    ensures
        r@ == slug_of(s@),
        is_slug(r@),
{
    slug::slugify(s)
}

/// `s` without the dashes at its end.
pub open spec fn without_dashes(s: Seq<char>) -> Seq<char>
    decreases s.len(),
{
    if s.len() > 0 && s.last() == '-' {
        without_dashes(s.drop_last())
    } else {
        s
    }
}

/// A slug that is short enough for a file name.
pub open spec fn short_slug(slug: Seq<char>) -> Seq<char> {
    if slug.len() > MAX_SLUG_LEN {
        without_dashes(slug.take(MAX_SLUG_LEN as int))
    } else {
        slug
    }
}

/// Names that stand for devices on some systems, whatever their ending.
pub open spec fn device_names() -> Seq<Seq<char>> {
    seq![
        "con"@,
        "prn"@,
        "aux"@,
        "nul"@,
        "com1"@,
        "com2"@,
        "com3"@,
        "com4"@,
        "com5"@,
        "com6"@,
        "com7"@,
        "com8"@,
        "com9"@,
        "lpt1"@,
        "lpt2"@,
        "lpt3"@,
        "lpt4"@,
        "lpt5"@,
        "lpt6"@,
        "lpt7"@,
        "lpt8"@,
        "lpt9"@,
    ]
}

/// The name of a note's file: its slug, or its id where that is empty. With `devices`, a
/// name that stands for a device gets the id at its end.
pub open spec fn file_slug(slug: Seq<char>, id: i64, devices: bool) -> Seq<char> {
    let short = short_slug(slug);
    if short.len() == 0 {
        "note-"@ + crate::text::dec_int(id as int)
    } else if devices && device_names().contains(short) {
        short + "-"@ + crate::text::dec_int(id as int)
    } else {
        short
    }
}

/// Whether `s` can name a file: between one and 64 characters of a slug, with no dash at the
/// end, and with `devices` no name that stands for a device.
pub open spec fn is_sound_name(s: Seq<char>, devices: bool) -> bool {
    &&& 0 < s.len() <= MAX_SLUG_LEN
    &&& forall|i: int| 0 <= i < s.len() ==> in_slug(#[trigger] s[i])
    &&& s.last() != '-'
    &&& devices ==> !device_names().contains(s)
}

fn is_device(name: &str) -> (r: bool)
    ensures
        r == device_names().contains(name@),
{
    let known: Vec<&'static str> = vec![
        "con",
        "prn",
        "aux",
        "nul",
        "com1",
        "com2",
        "com3",
        "com4",
        "com5",
        "com6",
        "com7",
        "com8",
        "com9",
        "lpt1",
        "lpt2",
        "lpt3",
        "lpt4",
        "lpt5",
        "lpt6",
        "lpt7",
        "lpt8",
        "lpt9",
    ];
    let ghost all = known@.map_values(|x: &'static str| x@);
    assert(all =~= device_names());
    let mut i: usize = 0;
    while i < known.len()
        invariant
            i <= known@.len(),
            all == known@.map_values(|x: &'static str| x@),
            all == device_names(),
            forall|k: int| 0 <= k < i ==> all[k] != name@,
        decreases known@.len() - i,
    {
        assert(all[i as int] == known@[i as int]@);
        if same_text(known[i], name) {
            assert(all.contains(name@));
            return true;
        }
        i += 1;
    }
    assert(all.len() == known@.len());
    false
}

/// The name of a note's file, from the slug of its title.
pub fn file_slug_from(slug: &str, id: i64, devices: bool) -> (r: String)
    ensures
        r@ == file_slug(slug@, id, devices),
{
    let v = chars_of(slug);
    let short: Vec<char> = if v.len() > MAX_SLUG_LEN {
        let mut n: usize = MAX_SLUG_LEN;
        assert(v@.take(n as int) =~= v@.take(MAX_SLUG_LEN as int));
        while n > 0 && v[n - 1] == '-'
            invariant
                n <= MAX_SLUG_LEN < v@.len(),
                without_dashes(v@.take(MAX_SLUG_LEN as int)) == without_dashes(v@.take(n as int)),
            decreases n,
        {
            assert(v@.take(n as int).drop_last() =~= v@.take(n - 1));
            n -= 1;
        }
        assert(v@.subrange(0, n as int) =~= v@.take(n as int));
        chars_between(&v, 0, n)
    } else {
        v
    };
    if short.len() == 0 {
        let mut r = "note-".to_owned();
        push_int(&mut r, id);
        return r;
    }
    let mut r = string_of(&short);
    if devices && is_device(r.as_str()) {
        r.append("-");
        push_int(&mut r, id);
    }
    r
}

/// The name of a note's file on a system where some names stand for devices, or not.
pub fn slugify_title_on(title: &str, fallback_id: i64, devices: bool) -> (r: String)
    ensures
        r@ == file_slug(slug_of(title@), fallback_id, devices),
        is_slug(slug_of(title@)),
        is_sound_name(r@, devices),
{
    let slug = slugify(title);
    proof {
        law_file_names_are_sound(slug@, fallback_id, devices);
    }
    file_slug_from(slug.as_str(), fallback_id, devices)
}

/// The name of a note's file.
pub fn slugify_title(title: &str, fallback_id: i64) -> (r: String)
    ensures
        r@ == file_slug(slug_of(title@), fallback_id, false),
        is_slug(slug_of(title@)),
        is_sound_name(r@, false),
{
    slugify_title_on(title, fallback_id, false)
}

/// The directory into which all notes are exported on a day.
pub fn export_dir_name(m: Moment) -> (r: Option<String>)
    ensures
        r is Some <==> m.has_date(),
        r matches Some(s) ==> s@ == "jot-export-"@ + m.date(),
{
    match day_stamp(m) {
        Some(d) => {
            let mut r = "jot-export-".to_owned();
            r.append(d.as_str());
            Some(r)
        },
        None => None,
    }
}

/// The names that a note's file may get, in the order in which they are tried: its slug, the
/// slug with the note's id, and that with a count from 2 on.
pub open spec fn candidate(slug: Seq<char>, id: i64, k: int) -> Seq<char> {
    if k <= 0 {
        slug
    } else if k == 1 {
        slug + "-"@ + crate::text::dec_int(id as int)
    } else {
        slug + "-"@ + crate::text::dec_int(id as int) + "-"@ + crate::text::dec(k as nat)
    }
}

/// The first candidate from `k` on that is not taken. As many names as there are cannot take
/// one candidate more.
pub open spec fn free_name(names: Seq<Seq<char>>, slug: Seq<char>, id: i64, k: int) -> Seq<char>
    decreases names.len() - k,
{
    if k < names.len() && names.contains(candidate(slug, id, k)) {
        free_name(names, slug, id, k + 1)
    } else {
        candidate(slug, id, k)
    }
}

/// The names of the first `n` files. Each note gets the first name that is free.
pub open spec fn distinct_names(slugs: Seq<Seq<char>>, ids: Seq<i64>, n: int) -> Seq<Seq<char>>
    decreases n,
{
    if n <= 0 {
        Seq::empty()
    } else {
        let before = distinct_names(slugs, ids, n - 1);
        before.push(free_name(before, slugs[n - 1], ids[n - 1], 0))
    }
}

fn candidate_name(slug: &str, id: i64, k: usize) -> (r: String)
    ensures
        r@ == candidate(slug@, id, k as int),
{
    let mut r = slug.to_owned();
    if k > 0 {
        r.append("-");
        push_int(&mut r, id);
    }
    if k > 1 {
        r.append("-");
        push_dec(&mut r, k as u64);
    }
    r
}

/// The first name for a note's file that is not among `names`.
fn first_free(names: &Vec<String>, slug: &str, id: i64) -> (r: String)
    ensures
        r@ == free_name(crate::text::texts(names@), slug@, id, 0),
{
    let ghost all = crate::text::texts(names@);
    let mut k: usize = 0;
    let mut name = candidate_name(slug, id, 0);
    while k < names.len() && has_key(names, name.as_str())
        invariant
            k <= names@.len(),
            all == crate::text::texts(names@),
            name@ == candidate(slug@, id, k as int),
            free_name(all, slug@, id, 0) == free_name(all, slug@, id, k as int),
        decreases names@.len() - k,
    {
        assert(all.len() == names@.len());
        k += 1;
        name = candidate_name(slug, id, k);
    }
    assert(all.len() == names@.len());
    name
}

/// The names of the files of all notes, from their slugs and ids. No two are the same.
pub fn export_names_from(slugs: &Vec<String>, ids: &Vec<i64>) -> (r: Vec<String>)
    requires
        slugs@.len() == ids@.len(),
    ensures
        crate::text::texts(r@) == distinct_names(
            crate::text::texts(slugs@),
            ids@,
            slugs@.len() as int,
        ),
        crate::text::texts(r@).no_duplicates(),
        r@.len() == slugs@.len(),
{
    let ghost all = crate::text::texts(slugs@);
    let mut r: Vec<String> = Vec::new();
    let mut i: usize = 0;
    assert(crate::text::texts(r@) =~= distinct_names(all, ids@, 0));
    while i < slugs.len()
        invariant
            i <= slugs@.len(),
            slugs@.len() == ids@.len(),
            all == crate::text::texts(slugs@),
            r@.len() == i,
            crate::text::texts(r@) == distinct_names(all, ids@, i as int),
        decreases slugs@.len() - i,
    {
        let ghost before = crate::text::texts(r@);
        assert(all[i as int] == slugs@[i as int]@);
        let name = first_free(&r, slugs[i].as_str(), ids[i]);
        r.push(name);
        assert(crate::text::texts(r@) =~= before.push(name@));
        i += 1;
    }
    proof {
        law_every_note_has_its_file(all, ids@, i as int);
    }
    r
}

/// The slugs of notes.
pub open spec fn note_slugs(notes: Seq<Note>, devices: bool) -> Seq<Seq<char>> {
    notes.map_values(|n: Note| file_slug(slug_of(n.title@), n.id, devices))
}

pub open spec fn note_ids(notes: Seq<Note>) -> Seq<i64> {
    notes.map_values(|n: Note| n.id)
}

/// The names of the files of all notes, without their ending. No two are the same, so that
/// no note is written over another.
pub fn export_names(notes: &Vec<Note>, devices: bool) -> (r: Vec<String>)
    ensures
        crate::text::texts(r@) == distinct_names(
            note_slugs(notes@, devices),
            note_ids(notes@),
            notes@.len() as int,
        ),
        crate::text::texts(r@).no_duplicates(),
        r@.len() == notes@.len(),
{
    let mut slugs: Vec<String> = Vec::new();
    let mut ids: Vec<i64> = Vec::new();
    let mut i: usize = 0;
    while i < notes.len()
        invariant
            i <= notes@.len(),
            slugs@.len() == i,
            ids@.len() == i,
            forall|k: int|
                0 <= k < i ==> (#[trigger] slugs@[k])@ == file_slug(
                    slug_of(notes@[k].title@),
                    notes@[k].id,
                    devices,
                ),
            forall|k: int| 0 <= k < i ==> #[trigger] ids@[k] == notes@[k].id,
        decreases notes@.len() - i,
    {
        slugs.push(slugify_title_on(notes[i].title.as_str(), notes[i].id, devices));
        ids.push(notes[i].id);
        i += 1;
    }
    assert(crate::text::texts(slugs@) =~= note_slugs(notes@, devices));
    assert(ids@ =~= note_ids(notes@));
    export_names_from(&slugs, &ids)
}

/// A file's name with its ending.
pub fn md_file_name(name: &str) -> (r: String)
    ensures
        r@ == name@ + ".md"@,
{
    let mut r = name.to_owned();
    r.append(".md");
    r
}

// ───────────────────────────── front matter ─────────────────────────────
/// Whether YAML would read more than text in `s`.
pub open spec fn needs_quotes(s: Seq<char>) -> bool {
    exists|i: int|
        0 <= i < s.len() && (#[trigger] s[i] == ':' || s[i] == '#' || s[i] == '"' || s[i] == '\''
            || s[i] == '\n')
}

/// A text with its backslashes and quotes escaped.
pub open spec fn escaped(s: Seq<char>) -> Seq<char> {
    crate::text::replace_char(crate::text::replace_char(s, '\\', "\\\\"@), '"', "\\\""@)
}

/// A text as a YAML value: in quotes where it needs them.
pub open spec fn yaml(s: Seq<char>) -> Seq<char> {
    if needs_quotes(s) {
        "\""@ + escaped(s) + "\""@
    } else {
        s
    }
}

pub fn yaml_escape(s: &str) -> (r: String)
    ensures
        r@ == yaml(s@),
{
    let v = chars_of(s);
    let mut quotes: bool = false;
    let mut i: usize = 0;
    while i < v.len()
        invariant
            i <= v@.len(),
            v@ == s@,
            quotes == needs_quotes(v@.take(i as int)),
        decreases v@.len() - i,
    {
        let c: char = v[i];
        let special: bool = c == ':' || c == '#' || c == '"' || c == '\'' || c == '\n';
        proof {
            let a = v@.take(i as int);
            let b = v@.take(i + 1);
            assert(b[i as int] == c);
            assert forall|k: int| 0 <= k < i implies a[k] == b[k] by {}
            if quotes {
                let k = choose|k: int|
                    0 <= k < a.len() && (#[trigger] a[k] == ':' || a[k] == '#' || a[k] == '"'
                        || a[k] == '\'' || a[k] == '\n');
                assert(b[k] == a[k]);
            }
            if needs_quotes(b) && !special {
                let k = choose|k: int|
                    0 <= k < b.len() && (#[trigger] b[k] == ':' || b[k] == '#' || b[k] == '"'
                        || b[k] == '\'' || b[k] == '\n');
                assert(k < i);
                assert(a[k] == b[k]);
            }
        }
        quotes = quotes || special;
        i += 1;
    }
    assert(v@.take(i as int) =~= v@);
    if !quotes {
        return s.to_owned();
    }
    let slashes = replaced(&v, '\\', "\\\\");
    let inner = replaced(&chars_of(slashes.as_str()), '"', "\\\"");
    let mut r = "\"".to_owned();
    r.append(inner.as_str());
    r.append("\"");
    r
}

/// The text of a point in time, where the calendar reaches it.
pub uninterp spec fn utc_text(secs: i64, nanos: u32) -> Option<Seq<char>>;

/// `chrono::DateTime::from_timestamp` gives the point in time, and its `to_string` writes it
/// as a date and a time in UTC. There is one for every second of the years 1970 to 9999
/// with fewer than a thousand million nanoseconds. How it is written is not said here: the
/// result is a name for it.
#[verifier::external_body]
fn format_utc(secs: i64, nanos: u32) -> (r: Option<String>)
    ensures
        crate::canvas::optional_text(r) == utc_text(secs, nanos),
        0 <= secs <= 253_402_300_799 && nanos < 1_000_000_000 ==> r is Some,
{
    chrono::DateTime::from_timestamp(secs, nanos).map(|t| t.to_string())
}

/// Whether a point in time lies in the years 1970 to 9999.
pub open spec fn in_calendar(t: crate::note::Timestamp) -> bool {
    0 <= t.secs <= 253_402_300_799 && t.nanos < 1_000_000_000
}

pub open spec fn yes_no(b: bool) -> Seq<char> {
    if b {
        "true"@
    } else {
        "false"@
    }
}

/// The front matter of a note whose times are written like this.
pub open spec fn front(n: crate::note::NoteView, updated: Seq<char>, created: Seq<char>) -> Seq<
    char,
> {
    "---\ntitle: "@ + yaml(n.title) + "\ntag: "@ + yaml(n.tag) + "\ncolor: "@ + yaml(n.color)
        + "\nupdated: "@ + updated + "\ncreated: "@ + created + "\npinned: "@ + yes_no(n.pinned)
        + "\n---\n\n"@
}

pub fn frontmatter_with(note: &Note, updated: &str, created: &str) -> (r: String)
    ensures
        r@ == front(note@, updated@, created@),
{
    let mut r = "---\ntitle: ".to_owned();
    r.append(yaml_escape(note.title.as_str()).as_str());
    r.append("\ntag: ");
    r.append(yaml_escape(note.tag.as_str()).as_str());
    r.append("\ncolor: ");
    r.append(yaml_escape(note.color.as_str()).as_str());
    r.append("\nupdated: ");
    r.append(updated);
    r.append("\ncreated: ");
    r.append(created);
    r.append("\npinned: ");
    r.append(
        if note.pinned {
            "true"
        } else {
            "false"
        },
    );
    r.append("\n---\n\n");
    r
}

/// The front matter of a note: its title, tag, colour, times and pin. A note whose times
/// no calendar reaches has none.
pub fn frontmatter(note: &Note) -> (r: Option<String>)
    ensures
        match (
            utc_text(note.updated_at.secs, note.updated_at.nanos),
            utc_text(note.created_at.secs, note.created_at.nanos),
        ) {
            (Some(u), Some(c)) => r matches Some(s) && s@ == front(note@, u, c),
            _ => r is None,
        },
        in_calendar(note.updated_at) && in_calendar(note.created_at) ==> r is Some,
{
    let updated = format_utc(note.updated_at.secs, note.updated_at.nanos);
    let created = format_utc(note.created_at.secs, note.created_at.nanos);
    match updated {
        Some(u) => match created {
            Some(c) => Some(frontmatter_with(note, u.as_str(), c.as_str())),
            None => None,
        },
        None => None,
    }
}

// ───────────────────────────── images ─────────────────────────────
/// A path as a markdown link: with forward slashes, because a backslash escapes.
pub fn md_path(p: &str) -> (r: String)
    ensures
        r@ == crate::text::replace_char(p@, '\\', "/"@),
{
    replaced(&chars_of(p), '\\', "/")
}

/// The link of a part: to the copy of its image where there is one, and otherwise to the
/// image.
pub open spec fn part_link(p: crate::body::PartView, copy: Option<Seq<char>>) -> Seq<char> {
    match p {
        crate::body::PartView::Image(path) => crate::body::part_source(
            crate::body::PartView::Image(
                match copy {
                    Some(c) => c,
                    None => crate::text::replace_char(path, '\\', "/"@),
                },
            ),
        ),
        _ => crate::body::part_source(p),
    }
}

/// The first `n` parts with their links.
pub open spec fn linked(
    parts: Seq<crate::body::PartView>,
    copies: Seq<Option<Seq<char>>>,
    n: int,
) -> Seq<char>
    decreases n,
{
    if n <= 0 {
        Seq::empty()
    } else {
        linked(parts, copies, n - 1) + part_link(parts[n - 1], copies[n - 1])
    }
}

pub open spec fn copy_views(copies: Seq<Option<String>>) -> Seq<Option<Seq<char>>> {
    copies.map_values(|c: Option<String>| crate::canvas::optional_text(c))
}

/// A body for an export. `copies` holds, for each part, the link to the copy of its image,
/// where one was made.
pub fn render_body(parts: &Vec<BodyPart>, copies: &Vec<Option<String>>) -> (r: String)
    requires
        copies@.len() == parts@.len(),
    ensures
        r@ == linked(
            crate::body::part_views(parts@),
            copy_views(copies@),
            parts@.len() as int,
        ),
{
    let ghost views = crate::body::part_views(parts@);
    let ghost links = copy_views(copies@);
    let mut out = String::new();
    let mut i: usize = 0;
    assert(out@ =~= linked(views, links, 0));
    while i < parts.len()
        invariant
            i <= parts@.len(),
            copies@.len() == parts@.len(),
            views == crate::body::part_views(parts@),
            links == copy_views(copies@),
            out@ == linked(views, links, i as int),
        decreases parts@.len() - i,
    {
        assert(views[i as int] == parts@[i as int]@);
        assert(links[i as int] == crate::canvas::optional_text(copies@[i as int]));
        match &parts[i] {
            BodyPart::Image(path) => {
                let target: String = match &copies[i] {
                    Some(c) => c.clone(),
                    None => md_path(path.as_str()),
                };
                let link = crate::window::image_source(target.as_str());
                out.append(link.as_str());
            },
            other => {
                let part = crate::window::part_insert(other, false);
                out.append(part.source.as_str());
            },
        }
        i += 1;
    }
    out
}

/// The bytes' SHA-256 digest.
pub uninterp spec fn sha256_of(data: Seq<u8>) -> Seq<u8>;

/// `sha2::Sha256::digest` gives the 32 bytes of the SHA-256 digest. Which bytes they are is
/// not said here: the result is a name for them.
#[verifier::external_body]
fn sha256(data: &[u8]) -> (r: Vec<u8>)
    ensures
        r@ == sha256_of(data@),
        r@.len() == 32,
{
    sha2::Sha256::digest(data).to_vec()
}

pub open spec fn hex_digit(n: int) -> char {
    if n < 10 {
        (48 + n) as char
    } else {
        (87 + n) as char
    }
}

/// Bytes in hexadecimal: two small digits each.
pub open spec fn hex_of(data: Seq<u8>) -> Seq<char>
    decreases data.len(),
{
    if data.len() == 0 {
        Seq::empty()
    } else {
        hex_of(data.drop_last()).push(hex_digit(data.last() as int / 16)).push(
            hex_digit(data.last() as int % 16),
        )
    }
}

/// `hex::encode` writes each byte with two hexadecimal digits, in lower case.
#[verifier::external_body]
fn hex_text(data: &[u8]) -> (r: String)
    ensures
        r@ == hex_of(data@),
{
    hex::encode(data)
}

/// The name of an image's file, or a stand-in.
pub open spec fn base_name(path: Seq<char>, system: System) -> Seq<char> {
    match crate::paths::file_name(path, system) {
        Some(n) => n,
        None => "image.png"@,
    }
}

pub fn image_base_name(path: &str, system: System) -> (r: String)
    ensures
        r@ == base_name(path@, system),
{
    match path_file_name(path, system) {
        Some(n) => n,
        None => "image.png".to_owned(),
    }
}

/// A name for an image whose own is taken by another one: with the image's digest behind
/// its stem.
pub open spec fn hashed_name(base: Seq<char>, hash: Seq<char>, system: System) -> Seq<char> {
    let stem = match crate::paths::file_name(base, system) {
        Some(n) => crate::paths::stem(n),
        None => "img"@,
    };
    let ending = match crate::paths::file_name(base, system) {
        Some(n) => match crate::paths::extension(n) {
            Some(e) => e,
            None => "png"@,
        },
        None => "png"@,
    };
    stem + "-"@ + hash + "."@ + ending
}

pub fn collision_name_with(base: &str, hash: &str, system: System) -> (r: String)
    ensures
        r@ == hashed_name(base@, hash@, system),
{
    let (stem, ending): (String, String) = match path_file_name(base, system) {
        Some(n) => (
            name_stem(n.as_str()),
            match name_extension(n.as_str()) {
                Some(e) => e,
                None => "png".to_owned(),
            },
        ),
        None => ("img".to_owned(), "png".to_owned()),
    };
    let mut r = stem;
    r.append("-");
    r.append(hash);
    r.append(".");
    r.append(ending.as_str());
    r
}

/// A name for an image with these contents whose own name is taken.
pub fn collision_name(base: &str, contents: &[u8], system: System) -> (r: String)
    ensures
        r@ == hashed_name(base@, hex_of(sha256_of(contents@).take(8)), system),
        sha256_of(contents@).len() == 32,
        hex_of(sha256_of(contents@).take(8)).len() == 16,
{
    let digest = sha256(contents);
    proof {
        lemma_hex_digits(digest@.take(8));
    }
    let mut head: Vec<u8> = digest;
    head.truncate(8);
    assert(head@ =~= sha256_of(contents@).take(8));
    let hash = hex_text(head.as_slice());
    collision_name_with(base, hash.as_str(), system)
}

/// What is in an export's directory under an image's name.
#[derive(Debug, Clone, Copy, PartialEq, Eq, Structural)]
pub enum Target {
    Absent,
    /// The same image.
    Same,
    /// Another one.
    Different,
}

/// The name under which an image goes into an export.
pub open spec fn bundled_name(
    path: Seq<char>,
    contents: Seq<u8>,
    target: Target,
    system: System,
) -> Seq<char> {
    if target == Target::Different {
        hashed_name(base_name(path, system), hex_of(sha256_of(contents).take(8)), system)
    } else {
        base_name(path, system)
    }
}

/// The name under which an image goes into an export, and whether it has to be copied
/// there.
pub fn bundle_image(path: &str, contents: &[u8], target: Target, system: System) -> (r: (
    String,
    bool,
))
    ensures
        r.0@ == bundled_name(path@, contents@, target, system),
        r.1 == (target != Target::Same),
        target == Target::Different ==> sha256_of(contents@).len() == 32 && hex_of(
            sha256_of(contents@).take(8),
        ).len() == 16,
{
    let base = image_base_name(path, system);
    match target {
        Target::Absent => (base, true),
        Target::Same => (base, false),
        Target::Different => (collision_name(base.as_str(), contents, system), true),
    }
}

/// The link to an image in an export.
pub fn bundled_link(name: &str) -> (r: String)
    ensures
        r@ == "images/"@ + name@,
{
    let mut r = "images/".to_owned();
    r.append(name);
    r
}

// ───────────────────────────── laws ─────────────────────────────
proof fn lemma_replace_parts(a: Seq<char>, b: Seq<char>, c: char, with: Seq<char>)
    ensures
        crate::text::replace_char(a + b, c, with) == crate::text::replace_char(a, c, with)
            + crate::text::replace_char(b, c, with),
    decreases b.len(),
{
    if b.len() == 0 {
        assert(a + b =~= a);
    } else {
        lemma_replace_parts(a, b.drop_last(), c, with);
        assert((a + b).drop_last() =~= a + b.drop_last());
    }
}

/// A text with its escapes undone, from left to right: a backslash stands for the character
/// behind it.
pub open spec fn unescaped(s: Seq<char>) -> Seq<char>
    decreases s.len(),
{
    if s.len() == 0 {
        Seq::empty()
    } else if s[0] == '\\' && s.len() > 1 {
        seq![s[1]] + unescaped(s.skip(2))
    } else {
        seq![s[0]] + unescaped(s.skip(1))
    }
}

/// The first quote that is not escaped, read from left to right.
pub open spec fn closing_quote(s: Seq<char>) -> Option<int>
    decreases s.len(),
{
    if s.len() == 0 {
        None
    } else if s[0] == '"' {
        Some(0)
    } else {
        let step: int = if s[0] == '\\' && s.len() > 1 {
            2
        } else {
            1
        };
        match closing_quote(s.skip(step)) {
            Some(k) => Some(k + step),
            None => None,
        }
    }
}

/// A character, escaped where it has to be.
spec fn escape_of(c: char) -> Seq<char> {
    if c == '\\' || c == '"' {
        seq!['\\', c]
    } else {
        seq![c]
    }
}

proof fn lemma_escaped_char(c: char)
    ensures
        escaped(seq![c]) == escape_of(c),
{
    reveal_strlit("\\\\");
    reveal_strlit("\\\"");
    let one = seq![c];
    assert(one.drop_last() =~= Seq::empty());
    reveal_with_fuel(crate::text::replace_char, 3);
    let first = crate::text::replace_char(one, '\\', "\\\\"@);
    if c == '\\' {
        assert(first =~= seq!['\\', '\\']);
        assert(first.drop_last() =~= one);
        assert(escaped(one) =~= seq!['\\', '\\']);
    } else {
        assert(first =~= one);
        assert(escaped(one) =~= escape_of(c));
    }
}

proof fn lemma_escaped(s: Seq<char>)
    ensures
        unescaped(escaped(s)) == s,
        closing_quote(escaped(s).push('"')) == Some(escaped(s).len() as int),
        forall|i: int|
            0 <= i < escaped(s).len() && #[trigger] escaped(s)[i] == '"' ==> i > 0 && escaped(s)[i
                - 1] == '\\',
    decreases s.len(),
{
    if s.len() == 0 {
        reveal_with_fuel(crate::text::replace_char, 2);
        assert(escaped(s) =~= s);
        assert(unescaped(escaped(s)) =~= s);
    } else {
        let c = s[0];
        let rest = s.skip(1);
        lemma_escaped(rest);
        lemma_escaped_char(c);
        assert(s =~= seq![c] + rest);
        lemma_replace_parts(seq![c], rest, '\\', "\\\\"@);
        lemma_replace_parts(
            crate::text::replace_char(seq![c], '\\', "\\\\"@),
            crate::text::replace_char(rest, '\\', "\\\\"@),
            '"',
            "\\\""@,
        );
        let e = escaped(s);
        let n = escape_of(c).len() as int;
        assert(e == escape_of(c) + escaped(rest));
        assert(e.skip(n) =~= escaped(rest));
        assert(unescaped(e) =~= seq![c] + unescaped(escaped(rest)));
        assert(e.push('"').skip(n) =~= escaped(rest).push('"'));
        assert forall|i: int| 0 <= i < e.len() && #[trigger] e[i] == '"' implies i > 0 && e[i - 1]
            == '\\' by {
            if i >= n {
                assert(e[i] == escaped(rest)[i - n]);
                assert(e[i - 1] == escaped(rest)[i - n - 1]);
            }
        }
    }
}

proof fn lemma_hex_digits(data: Seq<u8>)
    ensures
        hex_of(data).len() == 2 * data.len(),
        forall|i: int|
            0 <= i < hex_of(data).len() ==> (#[trigger] hex_of(data)[i]) != '/' && hex_of(data)[i]
                != '\\',
    decreases data.len(),
{
    if data.len() > 0 {
        lemma_hex_digits(data.drop_last());
    }
}

proof fn lemma_hashed_name(base: Seq<char>, hash: Seq<char>, system: System)
    requires
        hash.len() > 1,
        forall|i: int| 0 <= i < hash.len() ==> (#[trigger] hash[i]) != '/' && hash[i] != '\\',
    ensures
        hashed_name(base, hash, system) != base,
{
    let seps = crate::paths::separators(base, system);
    let name = hashed_name(base, hash, system);
    crate::paths::lemma_file_name(base, system);
    reveal_strlit("img");
    reveal_strlit("png");
    reveal_strlit("-");
    reveal_strlit(".");
    match crate::paths::file_name(base, system) {
        Some(n) => {
            let stem = crate::paths::stem(n);
            let ending = match crate::paths::extension(n) {
                Some(e) => e,
                None => "png"@,
            };
            crate::paths::lemma_extension_dot(n);
            assert(stem.len() + ending.len() + 1 >= n.len());
            assert(name == stem + "-"@ + hash + "."@ + ending);
            if exists|i: int| 0 <= i < base.len() && seps.has(#[trigger] base[i]) {
                let i = choose|i: int| 0 <= i < base.len() && seps.has(#[trigger] base[i]);
                assert forall|k: int| 0 <= k < name.len() implies !seps.has(#[trigger] name[k]) by {
                    let a = stem.len() as int;
                    let b = a + 1 + hash.len();
                    if k < a {
                        assert(name[k] == n[k]);
                    } else if a < k < b {
                        assert(name[k] == hash[k - a - 1]);
                    } else if k > b {
                        assert(name[k] == ending[k - b - 1]);
                    }
                }
            } else {
                assert(name.len() >= n.len() + 1 + hash.len());
            }
        },
        None => {
            assert(name == "img"@ + "-"@ + hash + "."@ + "png"@);
            if name == base {
                assert forall|k: int| 0 <= k < base.len() implies base[k] != '/' && base[k] != '\\' by {
                    if 4 <= k < 4 + hash.len() {
                        assert(name[k] == hash[k - 4]);
                    }
                }
                assert(base[0] == 'i' && base[1] == 'm');
            }
        },
    }
}

/// An image whose name is taken by another one gets another name.
pub proof fn law_taken_names_are_left(base: Seq<char>, digest: Seq<u8>, system: System)
    requires
        digest.len() > 0,
    ensures
        hashed_name(base, hex_of(digest), system) != base,
{
    lemma_hex_digits(digest);
    lemma_hashed_name(base, hex_of(digest), system);
}

/// What an export's directory, with its files and their contents, has under an image's name.
pub open spec fn target_in(
    dir: Map<Seq<char>, Seq<u8>>,
    path: Seq<char>,
    contents: Seq<u8>,
    system: System,
) -> Target {
    let base = base_name(path, system);
    if !dir.contains_key(base) {
        Target::Absent
    } else if dir[base] == contents {
        Target::Same
    } else {
        Target::Different
    }
}

/// An export's directory after an image went into it.
pub open spec fn after_bundling(
    dir: Map<Seq<char>, Seq<u8>>,
    path: Seq<char>,
    contents: Seq<u8>,
    system: System,
) -> Map<Seq<char>, Seq<u8>> {
    let target = target_in(dir, path, contents, system);
    if target == Target::Same {
        dir
    } else {
        dir.insert(bundled_name(path, contents, target, system), contents)
    }
}

/// An image in an export has its own contents under its name, and bundling it once more
/// gives the same name and changes nothing.
pub proof fn law_bundling_twice_changes_nothing(
    dir: Map<Seq<char>, Seq<u8>>,
    path: Seq<char>,
    contents: Seq<u8>,
    system: System,
)
    requires
        sha256_of(contents).len() == 32,
    ensures
        ({
            let name = bundled_name(path, contents, target_in(dir, path, contents, system), system);
            let once = after_bundling(dir, path, contents, system);
            &&& once.contains_key(name) && once[name] == contents
            &&& bundled_name(path, contents, target_in(once, path, contents, system), system)
                == name
            &&& after_bundling(once, path, contents, system) == once
        }),
{
    law_taken_names_are_left(base_name(path, system), sha256_of(contents).take(8), system);
    let once = after_bundling(dir, path, contents, system);
    assert(after_bundling(once, path, contents, system) =~= once);
}

/// A value in quotes reads back as the text that was written: its last quote is the first
/// that is not escaped, each one in front of it stands behind a backslash, and undoing the
/// escapes between the quotes gives the text. A value without quotes is the text itself.
pub proof fn law_quoted_values_read_back(s: Seq<char>)
    ensures
        !needs_quotes(s) ==> yaml(s) == s,
        needs_quotes(s) ==> {
            let inner = yaml(s).subrange(1, yaml(s).len() - 1);
            &&& yaml(s) == seq!['"'] + inner + seq!['"']
            &&& closing_quote(yaml(s).skip(1)) == Some(inner.len() as int)
            &&& unescaped(inner) == s
            &&& forall|i: int|
                0 <= i < inner.len() && #[trigger] inner[i] == '"' ==> i > 0 && inner[i - 1] == '\\'
        },
{
    if needs_quotes(s) {
        reveal_strlit("\"");
        lemma_escaped(s);
        assert(yaml(s) =~= seq!['"'] + escaped(s) + seq!['"']);
        assert(yaml(s).subrange(1, yaml(s).len() - 1) =~= escaped(s));
        assert(yaml(s).skip(1) =~= escaped(s).push('"'));
    }
}

proof fn lemma_dec(n: nat)
    ensures
        crate::text::dec(n).len() > 0,
        forall|i: int|
            0 <= i < crate::text::dec(n).len() ==> crate::text::is_digit(
                #[trigger] crate::text::dec(n)[i],
            ),
    decreases n,
{
    if n >= 10 {
        lemma_dec(n / 10);
    }
}

proof fn lemma_dec_differs(a: nat, b: nat)
    requires
        crate::text::dec(a) == crate::text::dec(b),
    ensures
        a == b,
    decreases a,
{
    let x = crate::text::dec(a);
    let y = crate::text::dec(b);
    assert(x.last() == crate::text::digit(a % 10));
    assert(y.last() == crate::text::digit(b % 10));
    assert(a % 10 == b % 10);
    if a >= 10 && b >= 10 {
        assert(x.drop_last() =~= crate::text::dec(a / 10));
        assert(y.drop_last() =~= crate::text::dec(b / 10));
        lemma_dec_differs(a / 10, b / 10);
    } else if a >= 10 {
        lemma_dec(a / 10);
    } else if b >= 10 {
        lemma_dec(b / 10);
    }
}

proof fn lemma_dec_len(n: nat, w: nat)
    requires
        n < crate::maintenance::ten_to(w),
        w > 0,
    ensures
        crate::text::dec(n).len() <= w,
    decreases w,
{
    if n >= 10 {
        if w == 1 {
            reveal_with_fuel(crate::maintenance::ten_to, 2);
        }
        lemma_dec_len(n / 10, (w - 1) as nat);
    }
}

proof fn lemma_without_dashes(s: Seq<char>)
    ensures
        without_dashes(s).len() <= s.len(),
        without_dashes(s).len() > 0 ==> without_dashes(s).last() != '-',
        without_dashes(s) == s.take(without_dashes(s).len() as int),
    decreases s.len(),
{
    if s.len() > 0 && s.last() == '-' {
        lemma_without_dashes(s.drop_last());
        let n = without_dashes(s).len() as int;
        assert(s.drop_last().take(n) =~= s.take(n));
    } else {
        assert(s.take(s.len() as int) =~= s);
    }
}

/// The name of a note's file has between one and 64 characters, all of them small letters,
/// digits and dashes, and no dash at its end. Where names stand for devices, it is none of
/// those.
pub proof fn law_file_names_are_sound(slug: Seq<char>, id: i64, devices: bool)
    requires
        is_slug(slug),
    ensures
        is_sound_name(file_slug(slug, id, devices), devices),
{
    let n: nat = if id < 0 {
        (-id) as nat
    } else {
        id as nat
    };
    lemma_dec(n);
    reveal_with_fuel(crate::maintenance::ten_to, 20);
    assert(crate::maintenance::ten_to(19) == 10_000_000_000_000_000_000);
    lemma_dec_len(n, 19);
    reveal_strlit("note-");
    reveal_strlit("-");
    let number = crate::text::dec_int(id as int);
    assert(0 < number.len() <= 20);
    assert(crate::text::is_digit(number.last()));
    assert forall|i: int| 0 <= i < number.len() implies in_slug(#[trigger] number[i]) by {
        if id < 0 && i > 0 {
            assert(number[i] == crate::text::dec(n)[i - 1]);
        }
    }
    let short = short_slug(slug);
    if slug.len() > MAX_SLUG_LEN {
        lemma_without_dashes(slug.take(MAX_SLUG_LEN as int));
        assert(short =~= slug.take(short.len() as int));
        assert forall|i: int| 0 <= i < short.len() implies in_slug(#[trigger] short[i]) by {
            assert(short[i] == slug[i]);
        }
    }
    let name = file_slug(slug, id, devices);
    if short.len() == 0 {
        assert(name[4] == '-');
        if device_names().contains(name) {
            lemma_device_names(name);
        }
    } else if devices && device_names().contains(short) {
        lemma_device_names(short);
        assert(name[short.len() as int] == '-');
        if device_names().contains(name) {
            lemma_device_names(name);
        }
    }
}

proof fn lemma_device_names(s: Seq<char>)
    requires
        device_names().contains(s),
    ensures
        s.len() <= 4,
        forall|i: int| 0 <= i < s.len() ==> s[i] != '-',
{
    reveal_strlit("con");
    reveal_strlit("prn");
    reveal_strlit("aux");
    reveal_strlit("nul");
    reveal_strlit("com1");
    reveal_strlit("com2");
    reveal_strlit("com3");
    reveal_strlit("com4");
    reveal_strlit("com5");
    reveal_strlit("com6");
    reveal_strlit("com7");
    reveal_strlit("com8");
    reveal_strlit("com9");
    reveal_strlit("lpt1");
    reveal_strlit("lpt2");
    reveal_strlit("lpt3");
    reveal_strlit("lpt4");
    reveal_strlit("lpt5");
    reveal_strlit("lpt6");
    reveal_strlit("lpt7");
    reveal_strlit("lpt8");
    reveal_strlit("lpt9");
}

proof fn lemma_candidates_differ(slug: Seq<char>, id: i64, j: int, k: int)
    requires
        0 <= j < k,
    ensures
        candidate(slug, id, j) != candidate(slug, id, k),
{
    let stem = slug + "-"@ + crate::text::dec_int(id as int);
    let dashed = stem + "-"@;
    reveal_strlit("-");
    lemma_dec(k as nat);
    assert(slug.len() < stem.len() < dashed.len() < candidate(slug, id, 2).len()) by {
        lemma_dec(2);
    }
    if j >= 2 {
        let x = crate::text::dec(j as nat);
        let y = crate::text::dec(k as nat);
        if dashed + x == dashed + y {
            assert((dashed + x).skip(dashed.len() as int) =~= x);
            assert((dashed + y).skip(dashed.len() as int) =~= y);
            lemma_dec_differs(j as nat, k as nat);
        }
    } else if k >= 2 {
        assert(candidate(slug, id, k) == dashed + crate::text::dec(k as nat));
    }
}

/// The first `k` candidates, as a set.
spec fn tried(slug: Seq<char>, id: i64, k: int) -> Set<Seq<char>>
    decreases k,
{
    if k <= 0 {
        Set::empty()
    } else {
        tried(slug, id, k - 1).insert(candidate(slug, id, k - 1))
    }
}

proof fn lemma_tried(slug: Seq<char>, id: i64, k: int)
    requires
        0 <= k,
    ensures
        tried(slug, id, k).finite(),
        tried(slug, id, k).len() == k,
        forall|x: Seq<char>| #[trigger]
            tried(slug, id, k).contains(x) ==> exists|j: int|
                0 <= j < k && x == candidate(slug, id, j),
    decreases k,
{
    if k > 0 {
        lemma_tried(slug, id, k - 1);
        let last = candidate(slug, id, k - 1);
        if tried(slug, id, k - 1).contains(last) {
            let j = choose|j: int| 0 <= j < k - 1 && last == candidate(slug, id, j);
            lemma_candidates_differ(slug, id, j, k - 1);
        }
        assert forall|x: Seq<char>| #[trigger] tried(slug, id, k).contains(x) implies exists|j: int|
            0 <= j < k && x == candidate(slug, id, j) by {
            if x != last {
                let j = choose|j: int| 0 <= j < k - 1 && x == candidate(slug, id, j);
                assert(0 <= j < k && x == candidate(slug, id, j));
            } else {
                assert(x == candidate(slug, id, k - 1));
            }
        }
    }
}

proof fn lemma_name_is_free(names: Seq<Seq<char>>, slug: Seq<char>, id: i64, k: int)
    requires
        0 <= k <= names.len(),
        tried(slug, id, k).subset_of(names.to_set()),
    ensures
        !names.contains(free_name(names, slug, id, k)),
    decreases names.len() - k,
{
    let next = candidate(slug, id, k);
    if names.contains(next) {
        assert(tried(slug, id, k + 1) == tried(slug, id, k).insert(next));
        assert(tried(slug, id, k + 1).subset_of(names.to_set()));
        if k < names.len() {
            lemma_name_is_free(names, slug, id, k + 1);
        } else {
            lemma_tried(slug, id, k + 1);
            vstd::seq_lib::seq_to_set_is_finite(names);
            names.lemma_cardinality_of_set();
            vstd::set_lib::lemma_len_subset(tried(slug, id, k + 1), names.to_set());
        }
    }
}

/// Every note is exported to a file of its own: as many names as notes, and no two the same.
/// A slug that is free when its note's turn comes is kept as it is.
pub proof fn law_every_note_has_its_file(slugs: Seq<Seq<char>>, ids: Seq<i64>, n: int)
    requires
        0 <= n,
    ensures
        distinct_names(slugs, ids, n).len() == n,
        distinct_names(slugs, ids, n).no_duplicates(),
        n > 0 && !distinct_names(slugs, ids, n - 1).contains(slugs[n - 1]) ==> distinct_names(
            slugs,
            ids,
            n,
        )[n - 1] == slugs[n - 1],
    decreases n,
{
    if n > 0 {
        law_every_note_has_its_file(slugs, ids, n - 1);
        let before = distinct_names(slugs, ids, n - 1);
        lemma_name_is_free(before, slugs[n - 1], ids[n - 1], 0);
        let after = distinct_names(slugs, ids, n);
        assert forall|i: int, j: int|
            0 <= i < after.len() && 0 <= j < after.len() && i != j implies after[i] != after[j] by {
            if i < n - 1 && j < n - 1 {
                assert(before[i] != before[j]);
            } else if i < n - 1 {
                assert(before.contains(before[i]));
            } else {
                assert(before.contains(before[j]));
            }
        }
    }
}

proof fn lemma_linked_source(
    parts: Seq<crate::body::PartView>,
    copies: Seq<Option<Seq<char>>>,
    n: int,
)
    requires
        0 <= n <= parts.len(),
        forall|i: int|
            0 <= i < n ==> copies[i] is None && ((#[trigger] parts[i]) matches
                crate::body::PartView::Image(p) ==> crate::text::replace_char(p, '\\', "/"@) == p),
    ensures
        linked(parts, copies, n) == crate::body::parts_source(parts.take(n)),
    decreases n,
{
    if n > 0 {
        lemma_linked_source(parts, copies, n - 1);
        let one = seq![parts[n - 1]];
        assert(parts.take(n) =~= parts.take(n - 1) + one);
        crate::body::lemma_source_of_sum(parts.take(n - 1), one);
        reveal_with_fuel(crate::body::parts_source, 2);
        assert(one.skip(1) =~= Seq::empty());
        assert(crate::body::parts_source(one) =~= crate::body::part_source(parts[n - 1]));
        assert(parts[n - 1] == parts[n - 1]);
    } else {
        assert(parts.take(0) =~= Seq::empty());
    }
}

/// Without copied images, and where no path has a backslash, an export's body is the
/// note's.
pub proof fn law_plain_exports_keep_the_body(s: Seq<char>, copies: Seq<Option<Seq<char>>>)
    requires
        forall|i: int|
            0 <= i < crate::body::body_parts(s, false).len() ==> copies[i] is None && ((
            #[trigger] crate::body::body_parts(s, false)[i]) matches crate::body::PartView::Image(p)
                ==> crate::text::replace_char(p, '\\', "/"@) == p),
    ensures
        linked(
            crate::body::body_parts(s, false),
            copies,
            crate::body::body_parts(s, false).len() as int,
        ) == s,
{
    let parts = crate::body::body_parts(s, false);
    lemma_linked_source(parts, copies, parts.len() as int);
    assert(parts.take(parts.len() as int) =~= parts);
    crate::body::law_parts_give_the_body_back(s, false);
}

/// What a note's front matter says of its pin, and how every front matter ends.
proof fn lemma_front_ends(n: crate::note::NoteView, updated: Seq<char>, created: Seq<char>)
    ensures
        crate::text::has_suffix(
            front(n, updated, created),
            (if n.pinned {
                "pinned: true\n---\n\n"@
            } else {
                "pinned: false\n---\n\n"@
            }),
        ),
{
    reveal_strlit("\npinned: ");
    reveal_strlit("true");
    reveal_strlit("false");
    reveal_strlit("\n---\n\n");
    reveal_strlit("pinned: true\n---\n\n");
    reveal_strlit("pinned: false\n---\n\n");
    let all = front(n, updated, created);
    let pin = yes_no(n.pinned);
    let end = if n.pinned {
        "pinned: true\n---\n\n"@
    } else {
        "pinned: false\n---\n\n"@
    };
    assert("\npinned: "@ + pin + "\n---\n\n"@ =~= seq!['\n'] + end);
    assert(all.subrange(all.len() - end.len(), all.len() as int) =~= end);
}

/// The pin can be read back from a front matter: it ends with `pinned: true` and the closing
/// line exactly when the note is pinned, and with `pinned: false` exactly when it is not. So
/// notes that differ in their pin have different front matters.
pub proof fn law_the_pin_reads_back(
    n: crate::note::NoteView,
    m: crate::note::NoteView,
    updated: Seq<char>,
    created: Seq<char>,
)
    ensures
        crate::text::has_suffix(front(n, updated, created), "pinned: true\n---\n\n"@) <==> n.pinned,
        crate::text::has_suffix(front(n, updated, created), "pinned: false\n---\n\n"@)
            <==> !n.pinned,
        n.pinned != m.pinned ==> front(n, updated, created) != front(m, updated, created),
{
    lemma_front_ends(n, updated, created);
    lemma_front_ends(m, updated, created);
    lemma_pins_differ(front(n, updated, created));
    lemma_pins_differ(front(m, updated, created));
}

proof fn lemma_pins_differ(s: Seq<char>)
    ensures
        !(crate::text::has_suffix(s, "pinned: true\n---\n\n"@) && crate::text::has_suffix(
            s,
            "pinned: false\n---\n\n"@,
        )),
{
    reveal_strlit("pinned: true\n---\n\n");
    reveal_strlit("pinned: false\n---\n\n");
    let yes = "pinned: true\n---\n\n"@;
    let no = "pinned: false\n---\n\n"@;
    if crate::text::has_suffix(s, yes) && crate::text::has_suffix(s, no) {
        assert(yes[yes.len() - 8] == 'u');
        assert(no[no.len() - 8] == 's');
        assert(s[s.len() - 8] == yes[yes.len() - 8]);
        assert(s[s.len() - 8] == no[no.len() - 8]);
    }
}

/// The other fields can be read back as well: a front matter begins with its opening line and
/// the title; behind the title and a line break comes the tag, behind that the colour, and
/// behind that the two times.
pub proof fn law_front_matter_has_its_fields(
    n: crate::note::NoteView,
    updated: Seq<char>,
    created: Seq<char>,
) -> (ends: (int, int, int))
    ensures
        ({
            let s = front(n, updated, created);
            let (title, tag, color) = ends;
            &&& crate::text::has_prefix(s, "---\ntitle: "@ + yaml(n.title))
            &&& title == 11 + yaml(n.title).len()
            &&& crate::text::stands_at(s, title, "\ntag: "@ + yaml(n.tag))
            &&& tag == title + 6 + yaml(n.tag).len()
            &&& crate::text::stands_at(s, tag, "\ncolor: "@ + yaml(n.color))
            &&& color == tag + 8 + yaml(n.color).len()
            &&& crate::text::stands_at(
                s,
                color,
                "\nupdated: "@ + updated + "\ncreated: "@ + created + "\npinned: "@,
            )
        }),
{
    reveal_strlit("---\ntitle: ");
    reveal_strlit("\ntag: ");
    reveal_strlit("\ncolor: ");
    let s = front(n, updated, created);
    let title: int = 11 + yaml(n.title).len() as int;
    let tag: int = title + 6 + yaml(n.tag).len();
    let color: int = tag + 8 + yaml(n.color).len();
    let a = "---\ntitle: "@ + yaml(n.title);
    let b = "\ntag: "@ + yaml(n.tag);
    let c = "\ncolor: "@ + yaml(n.color);
    let d = "\nupdated: "@ + updated + "\ncreated: "@ + created + "\npinned: "@;
    assert(s =~= a + b + c + d + (yes_no(n.pinned) + "\n---\n\n"@));
    assert(s.subrange(0, a.len() as int) =~= a);
    assert(s.subrange(title, title + b.len()) =~= b);
    assert(s.subrange(tag, tag + c.len()) =~= c);
    assert(s.subrange(color, color + d.len()) =~= d);
    (title, tag, color)
}

/// Whether `s` stands for a device on Windows: `con`, `prn`, `aux` and `nul`, and `com` and
/// `lpt` with a digit from 1 to 9.
pub open spec fn stands_for_device(s: Seq<char>) -> bool {
    ||| s == seq!['c', 'o', 'n'] || s == seq!['p', 'r', 'n'] || s == seq!['a', 'u', 'x'] || s
        == seq!['n', 'u', 'l']
    ||| s.len() == 4 && (s.take(3) == seq!['c', 'o', 'm'] || s.take(3) == seq!['l', 'p', 't'])
        && '1' <= s[3] <= '9'
}

/// A title with a short slug gives its file that name, all of it. A longer slug is cut to 64
/// characters and loses only dashes beyond that; without a slug the note's id is the name. A
/// name that stands for a device gets the id at its end where that matters.
pub proof fn law_files_are_named_after_titles(slug: Seq<char>, id: i64, devices: bool)
    requires
        is_slug(slug),
    ensures
        slug.len() == 0 ==> file_slug(slug, id, devices) == "note-"@ + crate::text::dec_int(id as int),
        0 < slug.len() <= 64 && !devices ==> file_slug(slug, id, devices) == slug,
        0 < slug.len() <= 64 && devices && !device_names().contains(slug) ==> file_slug(
            slug,
            id,
            devices,
        ) == slug,
        0 < slug.len() <= 64 && devices && device_names().contains(slug) ==> file_slug(
            slug,
            id,
            devices,
        ) == slug + "-"@ + crate::text::dec_int(id as int),
        slug.len() > 64 && !devices && slug[63] != '-' ==> file_slug(slug, id, devices) == slug.take(
            64,
        ),
        slug.len() > 64 && !devices && slug[63] == '-' ==> file_slug(slug, id, devices) == slug.take(
            63,
        ),
{
    if slug.len() > 64 {
        let t = slug.take(64);
        assert(t.last() == slug[63]);
        reveal_with_fuel(without_dashes, 3);
        if slug[63] == '-' {
            let i: int = 62;
            assert(!(slug[i] == '-' && slug[i + 1] == '-'));
            assert(t.drop_last() =~= slug.take(63));
            assert(slug.take(63).last() == slug[62]);
        }
    }
}

proof fn lemma_device(name: Seq<char>, a: char, b: char, c: char, d: char)
    requires
        name == seq![a, b, c, d],
    ensures
        name.len() == 4,
        name.take(3) == seq![a, b, c],
        name[3] == d,
{
    assert(name.take(3) =~= seq![a, b, c]);
}

/// The names that stand for devices are those of Windows, and no other.
pub proof fn law_device_names(s: Seq<char>)
    ensures
        device_names().contains(s) <==> stands_for_device(s),
{
    let all = device_names();
    reveal_strlit("con");
    reveal_strlit("prn");
    reveal_strlit("aux");
    reveal_strlit("nul");
    reveal_strlit("com1");
    reveal_strlit("com2");
    reveal_strlit("com3");
    reveal_strlit("com4");
    reveal_strlit("com5");
    reveal_strlit("com6");
    reveal_strlit("com7");
    reveal_strlit("com8");
    reveal_strlit("com9");
    reveal_strlit("lpt1");
    reveal_strlit("lpt2");
    reveal_strlit("lpt3");
    reveal_strlit("lpt4");
    reveal_strlit("lpt5");
    reveal_strlit("lpt6");
    reveal_strlit("lpt7");
    reveal_strlit("lpt8");
    reveal_strlit("lpt9");
    assert(all[0] =~= seq!['c', 'o', 'n']);
    assert(all[1] =~= seq!['p', 'r', 'n']);
    assert(all[2] =~= seq!['a', 'u', 'x']);
    assert(all[3] =~= seq!['n', 'u', 'l']);
    assert forall|k: int| 1 <= k <= 9 implies #[trigger] all[3 + k] == seq![
        'c',
        'o',
        'm',
        (48 + k) as char,
    ] by {
        assert(all[3 + k] =~= seq!['c', 'o', 'm', (48 + k) as char]);
    }
    assert forall|k: int| 1 <= k <= 9 implies #[trigger] all[12 + k] == seq![
        'l',
        'p',
        't',
        (48 + k) as char,
    ] by {
        assert(all[12 + k] =~= seq!['l', 'p', 't', (48 + k) as char]);
    }
    assert(all.len() == 22);
    if all.contains(s) {
        let i = choose|i: int| 0 <= i < all.len() && all[i] == s;
        if 4 <= i <= 12 {
            let k = i - 3;
            assert(all[3 + k] == s);
            lemma_device(s, 'c', 'o', 'm', (48 + k) as char);
        } else if i > 12 {
            let k = i - 12;
            assert(all[12 + k] == s);
            lemma_device(s, 'l', 'p', 't', (48 + k) as char);
        }
    }
    if stands_for_device(s) {
        if s.len() == 4 {
            let k = s[3] as int - 48;
            assert(s =~= s.take(3).push(s[3]));
            assert((48 + k) as char == s[3]);
            if s.take(3) == seq!['c', 'o', 'm'] {
                assert(all[3 + k] =~= s);
            } else {
                assert(all[12 + k] =~= s);
            }
        } else {
            assert(all[0] == s || all[1] == s || all[2] == s || all[3] == s);
        }
    }
}

/// In an export an image links to its copy where there is one, and otherwise to the file
/// itself, with forward slashes alone; text and copy blocks stay as they are. The parts keep
/// their order.
pub proof fn law_exported_links(
    parts: Seq<crate::body::PartView>,
    copies: Seq<Option<Seq<char>>>,
    n: int,
    path: Seq<char>,
    t: Seq<char>,
    copy: Seq<char>,
)
    requires
        0 <= n < parts.len(),
    ensures
        part_link(crate::body::PartView::Image(path), Some(copy)) == "![image]("@ + copy + ")"@,
        !path.contains('\\') ==> part_link(crate::body::PartView::Image(path), None) == "![image]("@
            + path + ")"@,
        part_link(crate::body::PartView::Text(t), None) == t,
        part_link(crate::body::PartView::CopyBlock(t), None) == "{copy}"@ + t + "{/copy}"@,
        linked(parts, copies, n + 1) == linked(parts, copies, n) + part_link(parts[n], copies[n]),
        !crate::text::replace_char(path, '\\', "/"@).contains('\\'),
        crate::text::replace_char(path, '\\', "/"@).len() == path.len(),
{
    if !path.contains('\\') {
        crate::text::law_nothing_to_replace(path, '\\', "/"@);
    }
    lemma_slashes(path);
}

proof fn lemma_slashes(path: Seq<char>)
    ensures
        crate::text::replace_char(path, '\\', "/"@).len() == path.len(),
        forall|i: int|
            0 <= i < path.len() ==> #[trigger] crate::text::replace_char(path, '\\', "/"@)[i] == (
            if path[i] == '\\' {
                '/'
            } else {
                path[i]
            }),
        !crate::text::replace_char(path, '\\', "/"@).contains('\\'),
    decreases path.len(),
{
    reveal_strlit("/");
    if path.len() > 0 {
        lemma_slashes(path.drop_last());
        let before = crate::text::replace_char(path.drop_last(), '\\', "/"@);
        let all = crate::text::replace_char(path, '\\', "/"@);
        assert forall|i: int| 0 <= i < path.len() implies #[trigger] all[i] == (if path[i] == '\\' {
            '/'
        } else {
            path[i]
        }) by {
            if i < before.len() {
                assert(all[i] == before[i]);
                assert(path.drop_last()[i] == path[i]);
            }
        }
        if all.contains('\\') {
            let i = choose|i: int| 0 <= i < all.len() && all[i] == '\\';
            assert(all[i] != '\\');
        }
    }
}

/// A text is put in quotes exactly where it holds a colon, a `#`, a quote of either kind or a
/// line break.
pub proof fn law_quotes_where_they_are_needed(s: Seq<char>)
    ensures
        needs_quotes(s) <==> s.contains(':') || s.contains('#') || s.contains('"') || s.contains(
            '\'',
        ) || s.contains('\n'),
{
    if needs_quotes(s) {
        let i = choose|i: int|
            0 <= i < s.len() && (#[trigger] s[i] == ':' || s[i] == '#' || s[i] == '"' || s[i] == '\''
                || s[i] == '\n');
        assert(s.contains(s[i]));
    }
    if s.contains(':') {
        let i = choose|i: int| 0 <= i < s.len() && s[i] == ':';
        assert(s[i] == ':');
    }
    if s.contains('#') {
        let i = choose|i: int| 0 <= i < s.len() && s[i] == '#';
        assert(s[i] == '#');
    }
    if s.contains('"') {
        let i = choose|i: int| 0 <= i < s.len() && s[i] == '"';
        assert(s[i] == '"');
    }
    if s.contains('\'') {
        let i = choose|i: int| 0 <= i < s.len() && s[i] == '\'';
        assert(s[i] == '\'');
    }
    if s.contains('\n') {
        let i = choose|i: int| 0 <= i < s.len() && s[i] == '\n';
        assert(s[i] == '\n');
    }
}

/// An image whose name is taken keeps its stem and its ending: the digest stands between them.
pub proof fn law_taken_names_keep_stem_and_ending(stem: Seq<char>, ending: Seq<char>, hash: Seq<char>)
    requires
        stem.len() > 0,
        !ending.contains('.'),
        crate::paths::is_plain_name(stem.push('.') + ending),
        crate::paths::is_plain_name(stem),
        !stem.contains('.'),
    ensures
        hashed_name(stem.push('.') + ending, hash, System::Unix) == stem + "-"@ + hash + "."@
            + ending,
        hashed_name(stem, hash, System::Unix) == stem + "-"@ + hash + "."@ + "png"@,
{
    crate::paths::law_joined_names_come_back(Seq::empty(), stem.push('.') + ending);
    crate::paths::law_joined_names_come_back(Seq::empty(), stem);
    crate::paths::law_extensions_follow_the_last_point(stem, ending);
    crate::paths::law_extensions_follow_the_last_point(stem, stem);
}

/// A slug of up to 64 characters is kept whole; of a longer one nothing but dashes is cut from
/// the end of its first 64.
pub proof fn law_slugs_are_cut_at_their_limit(slug: Seq<char>)
    ensures
        slug.len() <= 64 ==> short_slug(slug) == slug,
        slug.len() > 64 ==> {
            &&& short_slug(slug).len() <= 64
            &&& short_slug(slug) == slug.take(short_slug(slug).len() as int)
            &&& forall|i: int| short_slug(slug).len() <= i < 64 ==> #[trigger] slug[i] == '-'
            &&& short_slug(slug).len() > 0 ==> short_slug(slug).last() != '-'
        },
{
    if slug.len() > 64 {
        lemma_dashes_cut(slug.take(64));
        let n = short_slug(slug).len() as int;
        assert(slug.take(64).take(n) =~= slug.take(n));
        assert forall|i: int| n <= i < 64 implies #[trigger] slug[i] == '-' by {
            assert(slug.take(64)[i] == slug[i]);
        }
    }
}

proof fn lemma_dashes_cut(s: Seq<char>)
    ensures
        without_dashes(s).len() <= s.len(),
        without_dashes(s) == s.take(without_dashes(s).len() as int),
        forall|i: int| without_dashes(s).len() <= i < s.len() ==> #[trigger] s[i] == '-',
        without_dashes(s).len() > 0 ==> without_dashes(s).last() != '-',
    decreases s.len(),
{
    if s.len() > 0 && s.last() == '-' {
        let t = s.drop_last();
        lemma_dashes_cut(t);
        let n = without_dashes(t).len() as int;
        assert(t.take(n) =~= s.take(n));
        assert forall|i: int| n <= i < s.len() implies #[trigger] s[i] == '-' by {
            if i < t.len() {
                assert(t[i] == s[i]);
            }
        }
    } else {
        assert(s.take(s.len() as int) =~= s);
    }
}

/// Slugs are made of the small letters, the ten digits and the dash.
pub proof fn law_slugs_hold_plain_characters(c: char)
    ensures
        in_slug(c) <==> "abcdefghijklmnopqrstuvwxyz0123456789-"@.contains(c),
{
    let all = "abcdefghijklmnopqrstuvwxyz0123456789-"@;
    reveal_strlit("abcdefghijklmnopqrstuvwxyz0123456789-");
    if 'a' <= c && c <= 'z' {
        let k: int = (c as int) - ('a' as int);
        assert(all[k] == c);
    }
    if '0' <= c && c <= '9' {
        let k: int = (c as int) - ('0' as int) + 26;
        assert(all[k] == c);
    }
    assert(all[36] == '-');
}

/// The calendar of exports runs from the first second of 1970 to the last one of 9999.
pub proof fn law_exports_date_from_1970_to_9999(t: crate::note::Timestamp)
    ensures
        ({
            let days = crate::clock::day_number(10000, 1, 1) - crate::clock::day_number(1970, 1, 1);
            in_calendar(t) <==> 0 <= t.secs && t.secs < 86400 * days && t.nanos < 1_000_000_000
        }),
{
    assert(crate::clock::day_number(10000, 1, 1) == 3652060);
    assert(crate::clock::day_number(1970, 1, 1) == 719163);
}

/// Each byte is written with two hexadecimal digits, the higher one first.
pub proof fn law_bytes_are_written_in_hexadecimal(data: Seq<u8>, i: int)
    requires
        0 <= i < data.len(),
    ensures
        hex_of(data).len() == 2 * data.len(),
        hex_of(data)[2 * i] == "0123456789abcdef"@[data[i] as int / 16],
        hex_of(data)[2 * i + 1] == "0123456789abcdef"@[data[i] as int % 16],
    decreases data.len(),
{
    reveal_strlit("0123456789abcdef");
    lemma_hex_digits(data);
    let t = data.drop_last();
    lemma_hex_digits(t);
    if i < t.len() {
        law_bytes_are_written_in_hexadecimal(t, i);
        assert(t[i] == data[i]);
    }
}

/// An image is called after its file, and `image.png` where its path names none.
pub proof fn law_images_are_called_after_their_files(dir: Seq<char>, name: Seq<char>)
    requires
        crate::paths::is_plain_name(name),
    ensures
        base_name(crate::paths::joined_path(dir, name, System::Unix), System::Unix) == name,
        base_name(Seq::empty(), System::Unix) == "image.png"@,
        base_name(seq!['/'], System::Unix) == "image.png"@,
        base_name(seq!['.', '.'], System::Unix) == "image.png"@,
{
    crate::paths::law_joined_names_come_back(dir, name);
    crate::paths::lemma_nameless_paths();
}

/// An image goes under its own name unless another one has it, and then with the first eight
/// bytes of its digest, which are sixteen characters, behind its stem.
pub proof fn law_bundled_images_keep_their_names(
    stem: Seq<char>,
    ending: Seq<char>,
    contents: Seq<u8>,
    target: Target,
)
    requires
        stem.len() > 0,
        !ending.contains('.'),
        crate::paths::is_plain_name(stem.push('.') + ending),
    ensures
        ({
            let name = stem.push('.') + ending;
            let bundled = bundled_name(name, contents, target, System::Unix);
            &&& target != Target::Different ==> bundled == name
            &&& target == Target::Different && sha256_of(contents).len() == 32 ==> {
                &&& bundled.len() == name.len() + 17
                &&& bundled.take(stem.len() as int) == stem
                &&& bundled[stem.len() as int] == '-'
                &&& bundled.skip(stem.len() as int + 17) == seq!['.'] + ending
            }
        }),
{
    let name = stem.push('.') + ending;
    reveal_strlit("-");
    reveal_strlit(".");
    crate::paths::law_joined_names_come_back(Seq::empty(), name);
    crate::paths::law_extensions_follow_the_last_point(stem, ending);
    if target == Target::Different && sha256_of(contents).len() == 32 {
        lemma_hex_digits(sha256_of(contents).take(8));
        let bundled = bundled_name(name, contents, target, System::Unix);
        assert(bundled.take(stem.len() as int) =~= stem);
        assert(bundled.skip(stem.len() as int + 17) =~= seq!['.'] + ending);
    }
}

}
