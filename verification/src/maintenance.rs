//! Housekeeping: which images no note refers to, and which backups are too old.

use crate::clock::{day_stamp, Moment};
use crate::db::{any_body_has_image_marker, has_key, image_key_with, referenced_image_names};
use crate::paths::{path_join, System};
use crate::text::{chars_of, ends_with, precedes, push_text, starts_at};
use vstd::prelude::*;

verus! {

/// How many backups are kept.
pub const BACKUP_RETENTION: usize = 7;

// ───────────────────────────── images ─────────────────────────────
/// What a sweep of the images does.
#[derive(Debug, Clone)]
pub enum Sweep {
    /// Nothing: the bodies hold marks of images, and yet no image was recognised in them. To
    /// remove every image on the strength of that would be a mistake.
    Refused,
    /// It removes these files.
    Remove(Vec<String>),
}

/// Whether a sweep is refused.
pub open spec fn is_refused(bodies: Seq<String>, fold: bool) -> bool {
    crate::db::any_marker(bodies) && forall|k: Seq<char>|
        !#[trigger] crate::db::referenced(bodies, bodies.len() as int, k, fold)
}

/// Whether a body refers to this file.
pub open spec fn is_referenced(bodies: Seq<String>, file: Seq<char>, fold: bool) -> bool {
    match crate::db::key_of(file, fold) {
        Some(k) => crate::db::referenced(bodies, bodies.len() as int, k, fold),
        None => false,
    }
}

/// Those of the first `n` files that no body refers to.
pub open spec fn orphans(bodies: Seq<String>, files: Seq<String>, fold: bool, n: int) -> Seq<
    Seq<char>,
>
    decreases n,
{
    if n <= 0 {
        Seq::empty()
    } else if is_referenced(bodies, files[n - 1]@, fold) {
        orphans(bodies, files, fold, n - 1)
    } else {
        orphans(bodies, files, fold, n - 1).push(files[n - 1]@)
    }
}

/// The sweep of the images `files` for notes with these bodies. With `fold`, file names do
/// not tell upper and lower case apart.
pub fn vacuum_orphan_images(bodies: &Vec<String>, files: &Vec<String>, fold: bool) -> (r: Sweep)
    ensures
        r is Refused <==> is_refused(bodies@, fold),
        r matches Sweep::Remove(v) ==> crate::text::texts(v@) == orphans(
            bodies@,
            files@,
            fold,
            files@.len() as int,
        ),
{
    let keys = referenced_image_names(bodies, fold);
    let ghost known = crate::text::texts(keys@);
    assert(known.len() == keys@.len());
    if keys.len() == 0 && any_body_has_image_marker(bodies) {
        assert forall|k: Seq<char>|
            !#[trigger] crate::db::referenced(bodies@, bodies@.len() as int, k, fold) by {
            assert(!known.contains(k));
        }
        return Sweep::Refused;
    }
    proof {
        if keys@.len() > 0 {
            assert(known.contains(known[0]));
            assert(crate::db::referenced(bodies@, bodies@.len() as int, known[0], fold));
        }
    }
    let mut out: Vec<String> = Vec::new();
    let mut i: usize = 0;
    assert(crate::text::texts(out@) =~= orphans(bodies@, files@, fold, 0));
    while i < files.len()
        invariant
            i <= files@.len(),
            forall|k: Seq<char>| #[trigger]
                crate::text::texts(keys@).contains(k) <==> crate::db::referenced(
                    bodies@,
                    bodies@.len() as int,
                    k,
                    fold,
                ),
            crate::text::texts(out@) == orphans(bodies@, files@, fold, i as int),
        decreases files@.len() - i,
    {
        let kept: bool = match image_key_with(files[i].as_str(), fold) {
            Some(key) => has_key(&keys, key.as_str()),
            None => false,
        };
        assert(kept == is_referenced(bodies@, files@[i as int]@, fold));
        if !kept {
            push_text(&mut out, files[i].as_str());
        }
        i += 1;
    }
    Sweep::Remove(out)
}

// ───────────────────────────── backups ─────────────────────────────
/// The name of a day's backup.
pub open spec fn backup_of(m: Moment) -> Seq<char> {
    "notes-"@ + m.date() + ".db"@
}

/// The name of a day's backup. A moment without a date has none.
pub fn backup_name(m: Moment) -> (r: Option<String>)
    ensures
        r is Some <==> m.has_date(),
        r matches Some(s) ==> s@ == backup_of(m),
{
    match day_stamp(m) {
        Some(d) => {
            let mut r = "notes-".to_owned();
            r.append(d.as_str());
            r.append(".db");
            Some(r)
        },
        None => None,
    }
}

/// Where today's backup is to be written, if there is a database and no backup of today.
pub fn backup_target(
    dir: &str,
    m: Moment,
    database_there: bool,
    names: &Vec<String>,
    system: System,
) -> (r: Option<String>)
    ensures
        r is Some <==> database_there && m.has_date() && !crate::text::texts(names@).contains(
            backup_of(m),
        ),
        r matches Some(p) ==> p@ == crate::paths::joined_path(dir@, backup_of(m), system),
{
    if !database_there {
        return None;
    }
    match backup_name(m) {
        Some(name) => {
            if has_key(names, name.as_str()) {
                None
            } else {
                Some(path_join(dir, name.as_str(), system))
            }
        },
        None => None,
    }
}

/// Whether a file is a backup.
pub open spec fn is_backup(name: Seq<char>) -> bool {
    crate::text::has_prefix(name, "notes-"@) && crate::text::has_suffix(name, "db"@)
}

pub open spec fn by_text() -> spec_fn(Seq<char>, Seq<char>) -> bool {
    |a: Seq<char>, b: Seq<char>| crate::text::text_le(a, b)
}

/// The backups among the first `n` files.
pub open spec fn backups(names: Seq<String>, n: int) -> Seq<Seq<char>>
    decreases n,
{
    if n <= 0 {
        Seq::empty()
    } else if is_backup(names[n - 1]@) {
        backups(names, n - 1).push(names[n - 1]@)
    } else {
        backups(names, n - 1)
    }
}

/// All but the last backups in the order of their names.
pub open spec fn outdated(names: Seq<String>) -> Seq<Seq<char>> {
    let all = crate::sort::sorted(backups(names, names.len() as int), by_text());
    if all.len() <= BACKUP_RETENTION {
        Seq::empty()
    } else {
        all.take(all.len() - BACKUP_RETENTION)
    }
}

/// Puts a name into a list of names in order, behind those that are the same.
pub(crate) fn insert_name(list: &mut Vec<String>, name: &str)
    ensures
        crate::text::texts(final(list)@) == crate::sort::inserted(
            crate::text::texts(old(list)@),
            name@,
            by_text(),
        ),
{
    let ghost before = crate::text::texts(list@);
    let v = chars_of(name);
    let mut i: usize = 0;
    while i < list.len()
        invariant_except_break
            i <= list@.len(),
            before == crate::text::texts(list@),
            v@ == name@,
            crate::sort::place(before, name@, by_text(), 0) == crate::sort::place(
                before,
                name@,
                by_text(),
                i as int,
            ),
        ensures
            i <= list@.len(),
            before == crate::text::texts(list@),
            crate::sort::place(before, name@, by_text(), 0) == i,
        decreases list@.len() - i,
    {
        assert(before[i as int] == list@[i as int]@);
        if !precedes(&chars_of(list[i].as_str()), &v) {
            break;
        }
        i += 1;
    }
    list.insert(i, name.to_owned());
    assert(crate::text::texts(list@) =~= before.insert(i as int, name@));
}

/// The backups that are removed from a directory with these files: all but the last
/// seven. Their names end in the date, so the first in order are the oldest.
pub fn rotate_backups(names: &Vec<String>) -> (r: Vec<String>)
    ensures
        crate::text::texts(r@) == outdated(names@),
{
    let prefix = chars_of("notes-");
    let suffix = chars_of("db");
    let mut list: Vec<String> = Vec::new();
    let mut i: usize = 0;
    assert(crate::text::texts(list@) =~= crate::sort::sorted(backups(names@, 0), by_text()));
    while i < names.len()
        invariant
            i <= names@.len(),
            prefix@ == "notes-"@,
            suffix@ == "db"@,
            crate::text::texts(list@) == crate::sort::sorted(backups(names@, i as int), by_text()),
        decreases names@.len() - i,
    {
        let ghost before = backups(names@, i as int);
        let v = chars_of(names[i].as_str());
        if starts_at(&v, 0, &prefix) && ends_with(&v, &suffix) {
            insert_name(&mut list, names[i].as_str());
            assert(before.push(names@[i as int]@).drop_last() =~= before);
        }
        i += 1;
    }
    let ghost all = crate::text::texts(list@);
    assert(all.len() == list@.len());
    if list.len() <= BACKUP_RETENTION {
        let none: Vec<String> = Vec::new();
        assert(crate::text::texts(none@) =~= Seq::empty());
        return none;
    }
    let keep: usize = list.len() - BACKUP_RETENTION;
    list.truncate(keep);
    assert(crate::text::texts(list@) =~= all.take(keep as int));
    list
}

// ───────────────────────────── laws ─────────────────────────────
/// A sweep removes no image that a note refers to, and every one that none does.
pub proof fn law_sweeps_remove_orphans_only(
    bodies: Seq<String>,
    files: Seq<String>,
    fold: bool,
    n: int,
)
    requires
        0 <= n <= files.len(),
    ensures
        forall|f: Seq<char>| #[trigger]
            orphans(bodies, files, fold, n).contains(f) ==> !is_referenced(bodies, f, fold),
        forall|i: int|
            0 <= i < n && !is_referenced(bodies, (#[trigger] files[i])@, fold) ==> orphans(
                bodies,
                files,
                fold,
                n,
            ).contains(files[i]@),
    decreases n,
{
    if n > 0 {
        law_sweeps_remove_orphans_only(bodies, files, fold, n - 1);
        let before = orphans(bodies, files, fold, n - 1);
        let after = orphans(bodies, files, fold, n);
        assert forall|f: Seq<char>| #[trigger] after.contains(f) implies !is_referenced(
            bodies,
            f,
            fold,
        ) by {
            let i = choose|i: int| 0 <= i < after.len() && after[i] == f;
            if i < before.len() {
                assert(before[i] == f);
                assert(before.contains(f));
            }
        }
        assert forall|i: int|
            0 <= i < n && !is_referenced(bodies, (#[trigger] files[i])@, fold) implies after.contains(
            files[i]@,
        ) by {
            if i < n - 1 {
                assert(before.contains(files[i]@));
                let k = choose|k: int| 0 <= k < before.len() && before[k] == files[i]@;
                assert(after[k] == files[i]@);
            } else {
                assert(after[before.len() as int] == files[i]@);
            }
        }
    }
}

/// A file is safe from the sweep if a body shows it, in whatever directory the body says
/// it is.
pub proof fn law_shown_images_are_safe(
    bodies: Seq<String>,
    i: int,
    j: int,
    dir: Seq<char>,
    name: Seq<char>,
    fold: bool,
)
    requires
        0 <= i < bodies.len(),
        0 <= j < crate::db::image_paths(bodies[i]@, 0).len(),
        crate::db::image_paths(bodies[i]@, 0)[j] == dir.push('/') + name
            || crate::db::image_paths(bodies[i]@, 0)[j] == dir.push('\\') + name,
        crate::db::key_of(name, fold) is Some,
    ensures
        is_referenced(bodies, name, fold),
        !is_refused(bodies, fold),
{
    let key = crate::db::key_of(name, fold)->0;
    let paths = crate::db::image_paths(bodies[i]@, 0);
    crate::db::law_keys_ignore_the_directory(dir, name, fold);
    assert(crate::db::key_of(paths[j], fold) == Some(key));
    assert(crate::db::keyed(paths, paths.len() as int, key, fold));
    assert(crate::db::referenced(bodies, bodies.len() as int, key, fold));
}

proof fn lemma_compare_parts(a: Seq<char>, b: Seq<char>, x: Seq<char>, y: Seq<char>)
    requires
        a.len() == x.len(),
    ensures
        crate::text::text_le(a + b, x + y) == (if a == x {
            crate::text::text_le(b, y)
        } else {
            crate::text::text_le(a, x)
        }),
    decreases a.len(),
{
    if a.len() == 0 {
        assert(a =~= x);
        assert(a + b =~= b);
        assert(x + y =~= y);
    } else {
        assert((a + b).drop_first() =~= a.drop_first() + b);
        assert((x + y).drop_first() =~= x.drop_first() + y);
        if a[0] == x[0] {
            lemma_compare_parts(a.drop_first(), b, x.drop_first(), y);
            if a.drop_first() == x.drop_first() {
                assert(a =~= seq![a[0]] + a.drop_first());
                assert(x =~= seq![x[0]] + x.drop_first());
            }
        }
    }
}

/// Ten to the power of `w`.
pub open spec fn ten_to(w: nat) -> nat
    decreases w,
{
    if w == 0 {
        1
    } else {
        10 * ten_to((w - 1) as nat)
    }
}

/// Numbers with leading zeros are in the order of their values.
proof fn lemma_padded_order(n: nat, m: nat, w: nat)
    requires
        n < ten_to(w),
        m < ten_to(w),
    ensures
        crate::text::padded(n, w).len() == w,
        crate::text::padded(m, w).len() == w,
        crate::text::text_le(crate::text::padded(n, w), crate::text::padded(m, w)) <==> n <= m,
        crate::text::padded(n, w) == crate::text::padded(m, w) <==> n == m,
    decreases w,
{
    if w > 0 {
        let v = (w - 1) as nat;
        lemma_padded_order(n / 10, m / 10, v);
        let a = crate::text::padded(n / 10, v);
        let x = crate::text::padded(m / 10, v);
        let b = seq![crate::text::digit(n % 10)];
        let y = seq![crate::text::digit(m % 10)];
        assert(crate::text::padded(n, w) =~= a + b);
        assert(crate::text::padded(m, w) =~= x + y);
        lemma_compare_parts(a, b, x, y);
        assert(crate::text::text_le(b, y) <==> n % 10 <= m % 10) by {
            assert(b.drop_first() =~= Seq::empty());
            assert(y.drop_first() =~= Seq::empty());
            reveal_with_fuel(crate::text::text_le, 2);
        }
        if a + b == x + y {
            assert(a =~= (a + b).take(v as int));
            assert(x =~= (x + y).take(v as int));
            assert((a + b)[v as int] == b[0]);
            assert((x + y)[v as int] == y[0]);
        }
    }
}

/// Whether a day is before another or the same.
pub open spec fn day_le(a: Moment, b: Moment) -> bool {
    a.year < b.year || (a.year == b.year && (a.month < b.month || (a.month == b.month && a.day
        <= b.day)))
}

/// The order of the backups' names is the order of their days, in years of four digits.
pub proof fn law_backups_sort_by_day(a: Moment, b: Moment)
    requires
        a.has_date() && 0 <= a.year <= 9999,
        b.has_date() && 0 <= b.year <= 9999,
    ensures
        crate::text::text_le(backup_of(a), backup_of(b)) <==> day_le(a, b),
{
    reveal_with_fuel(ten_to, 5);
    assert(ten_to(2) == 100 && ten_to(4) == 10_000);
    let ya = crate::text::padded(a.year as nat, 4);
    let yb = crate::text::padded(b.year as nat, 4);
    let ma = crate::text::padded(a.month as nat, 2);
    let mb = crate::text::padded(b.month as nat, 2);
    let da = crate::text::padded(a.day as nat, 2);
    let db = crate::text::padded(b.day as nat, 2);
    lemma_padded_order(a.year as nat, b.year as nat, 4);
    lemma_padded_order(a.month as nat, b.month as nat, 2);
    lemma_padded_order(a.day as nat, b.day as nat, 2);
    let end = ".db"@;
    let dash = "-"@;
    let day_a = da + end;
    let day_b = db + end;
    let month_a = ma + (dash + day_a);
    let month_b = mb + (dash + day_b);
    let year_a = ya + (dash + month_a);
    let year_b = yb + (dash + month_b);
    assert(backup_of(a) =~= "notes-"@ + year_a);
    assert(backup_of(b) =~= "notes-"@ + year_b);
    lemma_compare_parts("notes-"@, year_a, "notes-"@, year_b);
    lemma_compare_parts(ya, dash + month_a, yb, dash + month_b);
    lemma_compare_parts(dash, month_a, dash, month_b);
    lemma_compare_parts(ma, dash + day_a, mb, dash + day_b);
    lemma_compare_parts(dash, day_a, dash, day_b);
    lemma_compare_parts(da, end, db, end);
    crate::text::lemma_text_le_reflexive(end);
}

/// At most seven backups stay, and each that goes comes before each that stays.
pub proof fn law_the_last_backups_stay(names: Seq<String>, i: int, j: int)
    requires
        ({
            let all = crate::sort::sorted(backups(names, names.len() as int), by_text());
            0 <= i < outdated(names).len() && outdated(names).len() <= j < all.len()
        }),
    ensures
        ({
            let all = crate::sort::sorted(backups(names, names.len() as int), by_text());
            &&& all.len() - outdated(names).len() == BACKUP_RETENTION
            &&& crate::text::text_le(outdated(names)[i], all[j])
        }),
{
    let files = backups(names, names.len() as int);
    let all = crate::sort::sorted(files, by_text());
    assert(crate::sort::is_order(by_text())) by {
        assert forall|a: Seq<char>, b: Seq<char>| #[trigger] by_text()(a, b) || by_text()(b, a) by {
            crate::text::lemma_text_le_total(a, b);
        }
        assert forall|a: Seq<char>, b: Seq<char>, c: Seq<char>| #[trigger]
            by_text()(a, b) && #[trigger] by_text()(b, c) implies by_text()(a, c) by {
            crate::text::lemma_text_le_transitive(a, b, c);
        }
    }
    crate::sort::law_sorted_is_in_order(files, by_text());
    assert(by_text()(all[i], all[j]));
}

proof fn lemma_backups_are_backups(names: Seq<String>, n: int)
    requires
        0 <= n <= names.len(),
    ensures
        forall|i: int|
            0 <= i < backups(names, n).len() ==> crate::text::has_prefix(
                #[trigger] backups(names, n)[i],
                "notes-"@,
            ) && crate::text::has_suffix(backups(names, n)[i], "db"@),
        forall|k: int|
            0 <= k < n && crate::text::has_prefix((#[trigger] names[k])@, "notes-"@)
                && crate::text::has_suffix(names[k]@, "db"@) ==> backups(names, n).contains(
                names[k]@,
            ),
    decreases n,
{
    if n > 0 {
        lemma_backups_are_backups(names, n - 1);
        let before = backups(names, n - 1);
        let all = backups(names, n);
        assert forall|k: int|
            0 <= k < n && crate::text::has_prefix((#[trigger] names[k])@, "notes-"@)
                && crate::text::has_suffix(names[k]@, "db"@) implies all.contains(names[k]@) by {
            if k < n - 1 {
                assert(before.contains(names[k]@));
                let i = choose|i: int| 0 <= i < before.len() && before[i] == names[k]@;
                assert(all[i] == names[k]@);
            } else {
                assert(all[all.len() - 1] == names[k]@);
            }
        }
    }
}

/// Only backups are ever removed: files whose names begin with `notes-` and end with `db`. All
/// but seven of them are.
pub proof fn law_only_backups_go(names: Seq<String>, i: int)
    requires
        0 <= i < outdated(names).len(),
    ensures
        crate::text::has_prefix(outdated(names)[i], "notes-"@),
        crate::text::has_suffix(outdated(names)[i], "db"@),
        backups(names, names.len() as int).len() == outdated(names).len() + 7,
        backups(names, names.len() as int).contains(outdated(names)[i]),
{
    broadcast use vstd::seq_lib::group_to_multiset_ensures;

    let files = backups(names, names.len() as int);
    let all = crate::sort::sorted(files, by_text());
    lemma_backups_are_backups(names, names.len() as int);
    crate::sort::law_sorted_keeps_items(files, by_text());
    assert(all[i] == outdated(names)[i]);
    assert(all.contains(all[i]));
    vstd::seq_lib::to_multiset_contains(all, all[i]);
    vstd::seq_lib::to_multiset_contains(files, all[i]);
    let k = choose|k: int| 0 <= k < files.len() && files[k] == all[i];
    assert(crate::text::has_prefix(files[k], "notes-"@));
}

/// The last seven backups stay, and as many as there are more go.
pub proof fn law_seven_backups_stay(names: Seq<String>)
    ensures
        ({
            let all = backups(names, names.len() as int);
            outdated(names).len() == (if all.len() <= 7 {
                0
            } else {
                all.len() - 7
            })
        }),
{
    crate::sort::law_sorted_keeps_items(backups(names, names.len() as int), by_text());
}

/// Only a file with a name can be referred to, and it is where its name is among those that
/// some body refers to.
pub proof fn law_only_named_files_are_referred_to(bodies: Seq<String>, file: Seq<char>, fold: bool)
    ensures
        is_referenced(bodies, file, fold) ==> crate::db::key_of(file, fold) is Some,
        crate::db::key_of(file, fold) matches Some(k) ==> (is_referenced(bodies, file, fold)
            <==> crate::db::referenced(bodies, bodies.len() as int, k, fold)),
        bodies.len() == 0 ==> !is_referenced(bodies, file, fold),
{
}

}
