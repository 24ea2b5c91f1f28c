//! The database's schema and files, and which images its notes refer to.

use crate::paths::{path_join, System};
use crate::text::{
    chars_between, chars_of, contains, find_char_from, push_int, same_text, starts_at,
    string_between, string_of, to_ascii_lowercase,
};
use vstd::prelude::*;

verus! {

// ───────────────────────────── migrations ─────────────────────────────
/// A step of the schema. Steps are only ever added at the end.
#[derive(Debug, Clone, Copy)]
pub struct Migration {
    pub version: i32,
    pub name: &'static str,
    pub sql: &'static str,
}

pub struct MigrationView {
    pub version: int,
    pub name: Seq<char>,
    pub sql: Seq<char>,
}

impl View for Migration {
    type V = MigrationView;

    open spec fn view(&self) -> MigrationView {
        MigrationView { version: self.version as int, name: self.name@, sql: self.sql@ }
    }
}

pub open spec fn migration_views(m: Seq<Migration>) -> Seq<MigrationView> {
    m.map_values(|x: Migration| x@)
}

/// The steps, in the order in which they are taken: step `k` leads to version `k + 1`.
pub open spec fn schema() -> Seq<MigrationView> {
    seq![
        MigrationView {
            version: 1,
            name: "initial schema"@,
            sql: "CREATE TABLE IF NOT EXISTS notes (
    id INTEGER PRIMARY KEY AUTOINCREMENT,
    title TEXT NOT NULL DEFAULT '',
    body TEXT NOT NULL DEFAULT '',
    created_at DATETIME NOT NULL,
    updated_at DATETIME NOT NULL
);
CREATE INDEX IF NOT EXISTS idx_notes_updated ON notes(updated_at DESC);"@,
        },
        MigrationView {
            version: 2,
            name: "add pinned column"@,
            sql: "ALTER TABLE notes ADD COLUMN pinned INTEGER NOT NULL DEFAULT 0;
CREATE INDEX IF NOT EXISTS idx_notes_pinned ON notes(pinned DESC, updated_at DESC);"@,
        },
        MigrationView {
            version: 3,
            name: "add note tags and colors"@,
            sql: "ALTER TABLE notes ADD COLUMN tag TEXT NOT NULL DEFAULT '';
ALTER TABLE notes ADD COLUMN color TEXT NOT NULL DEFAULT '';
CREATE INDEX IF NOT EXISTS idx_notes_tag ON notes(tag);"@,
        },
    ]
}

/// The steps that a database at version `current` still has to take.
pub open spec fn pending(current: int) -> Seq<MigrationView> {
    if current <= 0 {
        schema()
    } else if current >= 3 {
        Seq::empty()
    } else {
        schema().skip(current)
    }
}

fn migrations() -> (r: Vec<Migration>)
    ensures
        migration_views(r@) == schema(),
{
    let r: Vec<Migration> = vec![
        Migration {
            version: 1,
            name: "initial schema",
            sql: "CREATE TABLE IF NOT EXISTS notes (
    id INTEGER PRIMARY KEY AUTOINCREMENT,
    title TEXT NOT NULL DEFAULT '',
    body TEXT NOT NULL DEFAULT '',
    created_at DATETIME NOT NULL,
    updated_at DATETIME NOT NULL
);
CREATE INDEX IF NOT EXISTS idx_notes_updated ON notes(updated_at DESC);",
        },
        Migration {
            version: 2,
            name: "add pinned column",
            sql: "ALTER TABLE notes ADD COLUMN pinned INTEGER NOT NULL DEFAULT 0;
CREATE INDEX IF NOT EXISTS idx_notes_pinned ON notes(pinned DESC, updated_at DESC);",
        },
        Migration {
            version: 3,
            name: "add note tags and colors",
            sql: "ALTER TABLE notes ADD COLUMN tag TEXT NOT NULL DEFAULT '';
ALTER TABLE notes ADD COLUMN color TEXT NOT NULL DEFAULT '';
CREATE INDEX IF NOT EXISTS idx_notes_tag ON notes(tag);",
        },
    ];
    assert(migration_views(r@) =~= schema());
    r
}

/// The steps that a database at version `current` still has to take.
pub fn pending_migrations(current: i32) -> (r: Vec<Migration>)
    ensures
        migration_views(r@) == pending(current as int),
{
    let all = migrations();
    let ghost views = migration_views(all@);
    let ghost first: int = if current <= 0 {
        0
    } else if current >= 3 {
        3
    } else {
        current as int
    };
    let mut r: Vec<Migration> = Vec::new();
    let mut i: usize = 0;
    while i < all.len()
        invariant
            i <= all@.len(),
            views == migration_views(all@),
            views == schema(),
            first == (if current <= 0 {
                0
            } else if current >= 3 {
                3
            } else {
                current as int
            }),
            r@.len() == (if i < first {
                0
            } else {
                i - first
            }),
            forall|k: int| 0 <= k < r@.len() ==> (#[trigger] r@[k])@ == views[first + k],
        decreases all@.len() - i,
    {
        assert(views[i as int] == all@[i as int]@);
        assert(views.len() == all@.len());
        assert(schema()[0].version == 1 && schema()[1].version == 2 && schema()[2].version == 3);
        assert(i == 0 || i == 1 || i == 2);
        assert(views[i as int].version == i + 1);
        if all[i].version > current {
            r.push(all[i]);
        }
        i += 1;
    }
    assert(views.len() == all@.len());
    assert(migration_views(r@) =~= pending(current as int));
    r
}

/// What is sent to the database for a step: the step and its version, all or nothing.
pub fn migration_batch(m: &Migration) -> (r: String)
    ensures
        r@ == "BEGIN; "@ + m.sql@ + "; PRAGMA user_version = "@ + crate::text::dec_int(
            m.version as int,
        ) + "; COMMIT;"@,
{
    let mut r = "BEGIN; ".to_owned();
    r.append(m.sql);
    r.append("; PRAGMA user_version = ");
    push_int(&mut r, m.version as i64);
    r.append("; COMMIT;");
    r
}

// ───────────────────────────── images ─────────────────────────────
/// The mark with which a body refers to an image.
pub fn image_marker() -> (r: &'static str)
    ensures
        r@ == crate::body::image_open(),
{
    "![image]("
}

/// The paths of the images that `s` from `i` on refers to.
pub open spec fn image_paths(s: Seq<char>, i: int) -> Seq<Seq<char>>
    decreases s.len() - i,
{
    if i < 0 || i >= s.len() {
        Seq::empty()
    } else {
        proof {
            crate::body::lemma_marks();
            crate::text::lemma_find_char(s, ')', i + crate::body::image_open().len());
        }
        match crate::body::image_end(s, i) {
            Some(e) => seq![s.subrange(i + crate::body::image_open().len(), e)] + image_paths(
                s,
                e + 1,
            ),
            None => image_paths(s, i + 1),
        }
    }
}

/// Every path in the `![image](path)` of a body.
pub fn extract_image_paths(body: &str) -> (r: Vec<String>)
    ensures
        crate::text::texts(r@) == image_paths(body@, 0),
{
    let v = chars_of(body);
    let n: usize = v.len();
    let mark = chars_of(image_marker());
    let mut out: Vec<String> = Vec::new();
    let mut i: usize = 0;
    proof {
        crate::body::lemma_marks();
        assert(image_paths(v@, 0) =~= crate::text::texts(out@) + image_paths(v@, 0));
    }
    while i < n
        invariant
            i <= n,
            n == v@.len(),
            v@ == body@,
            mark@ == crate::body::image_open(),
            mark@.len() == 9,
            image_paths(v@, 0) == crate::text::texts(out@) + image_paths(v@, i as int),
        decreases n - i,
    {
        let ghost before = crate::text::texts(out@);
        if starts_at(&v, i, &mark) {
            proof {
                crate::text::lemma_find_char(v@, ')', i + 9);
            }
            if let Some(e) = find_char_from(&v, ')', i + 9) {
                let path = string_between(&v, i + 9, e);
                out.push(path);
                assert(crate::text::texts(out@) =~= before.push(path@));
                assert(before + (seq![path@] + image_paths(v@, e + 1)) =~= crate::text::texts(out@)
                    + image_paths(v@, e + 1));
                i = e + 1;
                continue;
            }
        }
        i += 1;
    }
    assert(image_paths(v@, 0) =~= crate::text::texts(out@));
    out
}

/// The start of the name that ends at `end`: behind the last separator of either kind.
pub open spec fn name_start(s: Seq<char>, end: int) -> int
    decreases end,
{
    if end <= 0 || s[end - 1] == '/' || s[end - 1] == '\\' {
        end
    } else {
        name_start(s, end - 1)
    }
}

/// What an image is recognised by: the name of its file, whatever directory and system its
/// path is from. With `fold`, upper and lower case are the same.
pub open spec fn key_of(reference: Seq<char>, fold: bool) -> Option<Seq<char>> {
    let name = reference.skip(name_start(reference, reference.len() as int));
    if name.len() == 0 {
        None
    } else if fold {
        Some(crate::text::ascii_lowercase(name))
    } else {
        Some(name)
    }
}

/// What an image is recognised by, on a system whose file names may or may not fold case.
pub fn image_key_with(reference: &str, fold: bool) -> (r: Option<String>)
    ensures
        crate::canvas::optional_text(r) == key_of(reference@, fold),
{
    let v = chars_of(reference);
    let n: usize = v.len();
    let mut from: usize = n;
    while from > 0 && v[from - 1] != '/' && v[from - 1] != '\\'
        invariant
            from <= n,
            n == v@.len(),
            name_start(v@, n as int) == name_start(v@, from as int),
        decreases from,
    {
        from -= 1;
    }
    let name = chars_between(&v, from, n);
    assert(name@ =~= v@.skip(from as int));
    if name.len() == 0 {
        None
    } else if fold {
        Some(string_of(&to_ascii_lowercase(&name)))
    } else {
        Some(string_of(&name))
    }
}

/// What an image is recognised by, on a system whose file names tell case apart.
pub fn image_key(reference: &str) -> (r: Option<String>)
    ensures
        crate::canvas::optional_text(r) == key_of(reference@, false),
{
    image_key_with(reference, false)
}

/// Whether one of the first `n` paths has this key.
pub open spec fn keyed(paths: Seq<Seq<char>>, n: int, key: Seq<char>, fold: bool) -> bool {
    exists|j: int| 0 <= j < n && key_of(#[trigger] paths[j], fold) == Some(key)
}

/// Whether one of the first `n` bodies refers to an image with this key.
pub open spec fn referenced(bodies: Seq<String>, n: int, key: Seq<char>, fold: bool) -> bool {
    exists|i: int|
        0 <= i < n && keyed(
            image_paths((#[trigger] bodies[i])@, 0),
            image_paths(bodies[i]@, 0).len() as int,
            key,
            fold,
        )
}

/// Whether `key` is among `keys`.
pub fn has_key(keys: &Vec<String>, key: &str) -> (r: bool)
    ensures
        r == crate::text::texts(keys@).contains(key@),
{
    let ghost all = crate::text::texts(keys@);
    let mut i: usize = 0;
    while i < keys.len()
        invariant
            i <= keys@.len(),
            all == crate::text::texts(keys@),
            forall|k: int| 0 <= k < i ==> all[k] != key@,
        decreases keys@.len() - i,
    {
        assert(all[i as int] == keys@[i as int]@);
        if same_text(keys[i].as_str(), key) {
            assert(all.contains(key@));
            return true;
        }
        i += 1;
    }
    assert(all.len() == keys@.len());
    false
}

fn add_key(keys: &mut Vec<String>, key: String)
    requires
        crate::text::texts(old(keys)@).no_duplicates(),
    ensures
        crate::text::texts(final(keys)@).no_duplicates(),
        forall|k: Seq<char>| #[trigger]
            crate::text::texts(final(keys)@).contains(k) <==> crate::text::texts(
                old(keys)@,
            ).contains(k) || k == key@,
{
    let ghost before = crate::text::texts(keys@);
    if !has_key(keys, key.as_str()) {
        keys.push(key);
        let ghost after = crate::text::texts(keys@);
        assert(after =~= before.push(key@));
        assert(after[before.len() as int] == key@);
        assert forall|k: Seq<char>| #[trigger] after.contains(k) implies before.contains(k) || k
            == key@ by {
            let i = choose|i: int| 0 <= i < after.len() && after[i] == k;
            if i < before.len() {
                assert(before[i] == k);
            }
        }
        assert forall|k: Seq<char>| before.contains(k) implies #[trigger] after.contains(k) by {
            let i = choose|i: int| 0 <= i < before.len() && before[i] == k;
            assert(after[i] == k);
        }
    }
}

/// The keys of the images that the bodies refer to, each once.
pub fn referenced_image_names(bodies: &Vec<String>, fold: bool) -> (r: Vec<String>)
    ensures
        crate::text::texts(r@).no_duplicates(),
        forall|k: Seq<char>| #[trigger]
            crate::text::texts(r@).contains(k) <==> referenced(
                bodies@,
                bodies@.len() as int,
                k,
                fold,
            ),
{
    let mut keys: Vec<String> = Vec::new();
    let mut i: usize = 0;
    while i < bodies.len()
        invariant
            i <= bodies@.len(),
            crate::text::texts(keys@).no_duplicates(),
            forall|k: Seq<char>| #[trigger]
                crate::text::texts(keys@).contains(k) <==> referenced(bodies@, i as int, k, fold),
        decreases bodies@.len() - i,
    {
        let ghost before = crate::text::texts(keys@);
        let paths = extract_image_paths(bodies[i].as_str());
        let ghost views = crate::text::texts(paths@);
        let mut j: usize = 0;
        while j < paths.len()
            invariant
                j <= paths@.len(),
                views == crate::text::texts(paths@),
                crate::text::texts(keys@).no_duplicates(),
                forall|k: Seq<char>| #[trigger]
                    crate::text::texts(keys@).contains(k) <==> before.contains(k) || keyed(
                        views,
                        j as int,
                        k,
                        fold,
                    ),
            decreases paths@.len() - j,
        {
            let ghost had = crate::text::texts(keys@);
            assert(views[j as int] == paths@[j as int]@);
            if let Some(key) = image_key_with(paths[j].as_str(), fold) {
                add_key(&mut keys, key);
            }
            proof {
                assert forall|k: Seq<char>| #[trigger]
                    crate::text::texts(keys@).contains(k) <==> before.contains(k) || keyed(
                        views,
                        j + 1,
                        k,
                        fold,
                    ) by {
                    if keyed(views, j + 1, k, fold) && !keyed(views, j as int, k, fold) {
                        let q = choose|q: int|
                            0 <= q < j + 1 && key_of(#[trigger] views[q], fold) == Some(k);
                        assert(q == j);
                    }
                    if keyed(views, j as int, k, fold) {
                        let q = choose|q: int|
                            0 <= q < j && key_of(#[trigger] views[q], fold) == Some(k);
                        assert(key_of(views[q], fold) == Some(k));
                    }
                    if crate::text::texts(keys@).contains(k) && !had.contains(k) {
                        assert(key_of(views[j as int], fold) == Some(k));
                    }
                }
            }
            j += 1;
        }
        proof {
            assert(views.len() == paths@.len());
            assert forall|k: Seq<char>| #[trigger]
                crate::text::texts(keys@).contains(k) <==> referenced(
                    bodies@,
                    i + 1,
                    k,
                    fold,
                ) by {
                let here = keyed(views, views.len() as int, k, fold);
                if referenced(bodies@, i + 1, k, fold) && !referenced(bodies@, i as int, k, fold) {
                    let q = choose|q: int|
                        0 <= q < i + 1 && keyed(
                            image_paths((#[trigger] bodies@[q])@, 0),
                            image_paths(bodies@[q]@, 0).len() as int,
                            k,
                            fold,
                        );
                    assert(q == i);
                    assert(here);
                }
                if here {
                    assert(keyed(
                        image_paths(bodies@[i as int]@, 0),
                        image_paths(bodies@[i as int]@, 0).len() as int,
                        k,
                        fold,
                    ));
                }
                if referenced(bodies@, i as int, k, fold) {
                    let q = choose|q: int|
                        0 <= q < i && keyed(
                            image_paths((#[trigger] bodies@[q])@, 0),
                            image_paths(bodies@[q]@, 0).len() as int,
                            k,
                            fold,
                        );
                    assert(bodies@[q]@ == bodies@[q]@);
                }
            }
        }
        i += 1;
    }
    keys
}

/// Whether one of the bodies holds the mark of an image.
pub open spec fn any_marker(bodies: Seq<String>) -> bool {
    exists|i: int|
        0 <= i < bodies.len() && crate::text::occurs(
            (#[trigger] bodies[i])@,
            crate::body::image_open(),
        )
}

pub fn any_body_has_image_marker(bodies: &Vec<String>) -> (r: bool)
    ensures
        r == any_marker(bodies@),
{
    let mark = chars_of(image_marker());
    let mut i: usize = 0;
    while i < bodies.len()
        invariant
            i <= bodies@.len(),
            mark@ == crate::body::image_open(),
            forall|k: int|
                0 <= k < i ==> !crate::text::occurs(
                    (#[trigger] bodies@[k])@,
                    crate::body::image_open(),
                ),
        decreases bodies@.len() - i,
    {
        if contains(&chars_of(bodies[i].as_str()), &mark) {
            assert(crate::text::occurs(bodies@[i as int]@, crate::body::image_open()));
            return true;
        }
        i += 1;
    }
    false
}

// ───────────────────────────── files ─────────────────────────────
/// The application's directory in the system's directory for data.
pub fn data_dir(base: &str, system: System) -> (r: String)
    ensures
        r@ == crate::paths::joined_path(base@, "jot"@, system),
{
    path_join(base, "jot", system)
}

/// The database.
pub fn db_path(base: &str, system: System) -> (r: String)
    ensures
        r@ == crate::paths::joined_path(
            crate::paths::joined_path(base@, "jot"@, system),
            "notes.db"@,
            system,
        ),
{
    path_join(data_dir(base, system).as_str(), "notes.db", system)
}

/// The directory of the images.
pub fn images_path(base: &str, system: System) -> (r: String)
    ensures
        r@ == crate::paths::joined_path(
            crate::paths::joined_path(base@, "jot"@, system),
            "images"@,
            system,
        ),
{
    path_join(data_dir(base, system).as_str(), "images", system)
}

/// The directory of the backups.
pub fn backups_path(base: &str, system: System) -> (r: String)
    ensures
        r@ == crate::paths::joined_path(
            crate::paths::joined_path(base@, "jot"@, system),
            "backups"@,
            system,
        ),
{
    path_join(data_dir(base, system).as_str(), "backups", system)
}

// ───────────────────────────── laws ─────────────────────────────
/// Whatever version a database is at, its pending steps lead from there to the last one
/// without a gap, and a database at the last version has none.
pub proof fn law_migrations_run_once(current: int, k: int)
    requires
        0 <= current,
        0 <= k < pending(current).len(),
    ensures
        pending(current)[k].version == current + k + 1,
        pending(current).last().version == 3,
        pending(3).len() == 0,
{
}

proof fn lemma_name_start(s: Seq<char>, t: Seq<char>, end: int)
    requires
        0 <= end <= s.len(),
        t.len() > 0,
        t.last() == '/' || t.last() == '\\',
    ensures
        name_start(t + s, t.len() + end) == t.len() + name_start(s, end),
        0 <= name_start(s, end) <= end,
    decreases end,
{
    let all = t + s;
    if end <= 0 {
        assert(all[t.len() - 1] == t.last());
    } else {
        assert(all[t.len() + end - 1] == s[end - 1]);
        if s[end - 1] != '/' && s[end - 1] != '\\' {
            lemma_name_start(s, t, end - 1);
        }
    }
}

/// An image is recognised whatever directory its path is in, and whichever separator the
/// path is written with.
pub proof fn law_keys_ignore_the_directory(dir: Seq<char>, name: Seq<char>, fold: bool)
    ensures
        key_of(dir.push('/') + name, fold) == key_of(name, fold),
        key_of(dir.push('\\') + name, fold) == key_of(name, fold),
{
    let a = dir.push('/');
    let b = dir.push('\\');
    let n = name.len() as int;
    lemma_name_start(name, a, n);
    lemma_name_start(name, b, n);
    assert((a + name).skip(name_start(a + name, a.len() + n)) =~= name.skip(name_start(name, n)));
    assert((b + name).skip(name_start(b + name, b.len() + n)) =~= name.skip(name_start(name, n)));
}

/// The images among the parts of a body, by their paths.
pub open spec fn part_images(parts: Seq<crate::body::PartView>) -> Seq<Seq<char>>
    decreases parts.len(),
{
    if parts.len() == 0 {
        Seq::empty()
    } else {
        (match parts[0] {
            crate::body::PartView::Image(p) => seq![p],
            _ => Seq::empty(),
        }) + part_images(parts.skip(1))
    }
}

proof fn lemma_part_images_sum(a: Seq<crate::body::PartView>, b: Seq<crate::body::PartView>)
    ensures
        part_images(a + b) == part_images(a) + part_images(b),
    decreases a.len(),
{
    if a.len() == 0 {
        assert(a + b =~= b);
        assert(part_images(a + b) =~= part_images(a) + part_images(b));
    } else {
        lemma_part_images_sum(a.skip(1), b);
        assert((a + b).skip(1) =~= a.skip(1) + b);
        assert(part_images(a + b) =~= part_images(a) + part_images(b));
    }
}

proof fn lemma_images_from(s: Seq<char>, from: int, i: int)
    requires
        0 <= from <= i <= s.len(),
    ensures
        part_images(crate::body::parts_from(s, from, i, false)) == image_paths(s, i),
    decreases s.len() - i,
{
    crate::body::lemma_marks();
    reveal_with_fuel(part_images, 2);
    let text = crate::body::text_part(s, from, i);
    assert(part_images(text) =~= Seq::empty()) by {
        if text.len() > 0 {
            assert(text.skip(1) =~= Seq::empty());
        }
    }
    if i >= s.len() {
        let last = crate::body::text_part(s, from, s.len() as int);
        if last.len() > 0 {
            assert(last.skip(1) =~= Seq::empty());
        }
        assert(part_images(last) =~= Seq::empty());
    } else {
        crate::text::lemma_find_char(s, ')', i + 9);
        match crate::body::image_end(s, i) {
            Some(e) => {
                let image = seq![crate::body::PartView::Image(s.subrange(i + 9, e))];
                let rest = crate::body::parts_from(s, e + 1, e + 1, false);
                lemma_images_from(s, e + 1, e + 1);
                lemma_part_images_sum(text, image);
                lemma_part_images_sum(text + image, rest);
                assert(image.skip(1) =~= Seq::empty());
                assert(part_images(image) =~= seq![s.subrange(i + 9, e)]) by {
                    assert(part_images(image.skip(1)) =~= Seq::empty());
                }
                assert(part_images(text + image + rest) =~= image_paths(s, i));
            },
            None => {
                lemma_images_from(s, from, i + 1);
            },
        }
    }
}

/// The images that a sweep sees are the images that an export sees.
pub proof fn law_sweeps_and_exports_see_the_same_images(s: Seq<char>)
    ensures
        part_images(crate::body::body_parts(s, false)) == image_paths(s, 0),
{
    lemma_images_from(s, 0, 0);
}

proof fn lemma_no_separators(s: Seq<char>, end: int)
    requires
        0 <= end <= s.len(),
        !s.contains('/') && !s.contains('\\'),
    ensures
        name_start(s, end) == 0,
    decreases end,
{
    if end > 0 {
        assert(s.contains(s[end - 1]));
        lemma_no_separators(s, end - 1);
    }
}

/// An image is recognised by the name of its file: all of it, as it is written or, where case
/// does not count, in small letters. A path that ends with a separator names none.
pub proof fn law_keys_are_file_names(name: Seq<char>, dir: Seq<char>)
    requires
        !name.contains('/') && !name.contains('\\'),
        name.len() > 0,
    ensures
        key_of(name, false) == Some(name),
        key_of(name, true) == Some(crate::text::ascii_lowercase(name)),
        key_of(dir.push('/'), false) is None && key_of(dir.push('\\'), false) is None,
        key_of(dir.push('/'), true) is None && key_of(dir.push('\\'), true) is None,
{
    lemma_no_separators(name, name.len() as int);
    assert(name.skip(0) =~= name);
    assert(dir.push('/').skip(dir.len() as int + 1) =~= Seq::empty());
    assert(dir.push('\\').skip(dir.len() as int + 1) =~= Seq::empty());
}

/// Every image of a body is seen, in its order: behind some text, `![image](` and a path up to
/// the next `)` give that path, and what follows gives the others.
pub proof fn law_every_image_is_seen(t: Seq<char>, path: Seq<char>, rest: Seq<char>)
    requires
        crate::body::has_no_marks(t),
        !path.contains(')'),
    ensures
        image_paths(t + "![image]("@ + path + ")"@ + rest, 0) == seq![path] + image_paths(rest, 0),
        image_paths(t, 0) == Seq::<Seq<char>>::empty(),
{
    let s = t + "![image]("@ + path + ")"@ + rest;
    law_sweeps_and_exports_see_the_same_images(s);
    law_sweeps_and_exports_see_the_same_images(rest);
    law_sweeps_and_exports_see_the_same_images(t);
    crate::body::law_images_are_parts(t, path, rest, false);
    crate::body::law_plain_bodies_are_one_text(t, false);
    let a = crate::body::as_text(t);
    let b = seq![crate::body::PartView::Image(path)];
    let c = crate::body::body_parts(rest, false);
    lemma_part_images_sum(a + b, c);
    lemma_part_images_sum(a, b);
    reveal_with_fuel(part_images, 2);
    assert(b.skip(1) =~= Seq::empty());
    if t.len() > 0 {
        assert(a.skip(1) =~= Seq::empty());
    }
    assert(part_images(a) =~= Seq::empty());
    assert(part_images(b) =~= seq![path]);
    assert(image_paths(s, 0) =~= seq![path] + image_paths(rest, 0));
}

/// The steps make what the notes need: first the table with its columns, then the pin, which
/// no note has at first, and then the tag and the colour, which are empty at first.
pub proof fn law_steps_make_their_columns()
    ensures
        schema().len() == 3,
        schema()[0].version == 1 && schema()[1].version == 2 && schema()[2].version == 3,
        crate::canvas::holds_text(
            schema()[1].sql,
            "ALTER TABLE notes ADD COLUMN pinned INTEGER NOT NULL DEFAULT 0;"@,
        ),
        crate::canvas::holds_text(
            schema()[2].sql,
            "ALTER TABLE notes ADD COLUMN tag TEXT NOT NULL DEFAULT '';"@,
        ),
        crate::canvas::holds_text(
            schema()[2].sql,
            "ALTER TABLE notes ADD COLUMN color TEXT NOT NULL DEFAULT '';"@,
        ),
{
    let a = "ALTER TABLE notes ADD COLUMN pinned INTEGER NOT NULL DEFAULT 0;"@;
    let b = "ALTER TABLE notes ADD COLUMN tag TEXT NOT NULL DEFAULT '';"@;
    let c = "ALTER TABLE notes ADD COLUMN color TEXT NOT NULL DEFAULT '';"@;
    reveal_strlit("ALTER TABLE notes ADD COLUMN pinned INTEGER NOT NULL DEFAULT 0;");
    reveal_strlit("ALTER TABLE notes ADD COLUMN tag TEXT NOT NULL DEFAULT '';");
    reveal_strlit("ALTER TABLE notes ADD COLUMN color TEXT NOT NULL DEFAULT '';");
    reveal_strlit("ALTER TABLE notes ADD COLUMN pinned INTEGER NOT NULL DEFAULT 0;
CREATE INDEX IF NOT EXISTS idx_notes_pinned ON notes(pinned DESC, updated_at DESC);");
    reveal_strlit("ALTER TABLE notes ADD COLUMN tag TEXT NOT NULL DEFAULT '';
ALTER TABLE notes ADD COLUMN color TEXT NOT NULL DEFAULT '';
CREATE INDEX IF NOT EXISTS idx_notes_tag ON notes(tag);");
    let x = schema()[1].sql;
    let y = schema()[2].sql;
    assert(x.subrange(0, a.len() as int) =~= a);
    assert(crate::text::stands_at(x, 0, a));
    assert(y.subrange(0, b.len() as int) =~= b);
    assert(crate::text::stands_at(y, 0, b));
    let n = b.len() as int + 1;
    assert(y.subrange(n, n + c.len()) =~= c);
    assert(crate::text::stands_at(y, n, c));
}

/// A new database takes all steps, one at version 1 or 2 those that it lacks, and a database
/// that is up to date or newer none.
pub proof fn law_missing_steps_are_taken(current: int)
    ensures
        current <= 0 ==> pending(current) == schema(),
        0 <= current <= 3 ==> pending(current).len() == 3 - current,
        current > 3 ==> pending(current).len() == 0,
        0 <= current <= 3 ==> schema() == schema().take(current) + pending(current),
{
    if 0 <= current <= 3 {
        assert(schema() =~= schema().take(current) + pending(current));
    }
}

}
