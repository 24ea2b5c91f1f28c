//! File paths as text. A path is a row of segments with separators between them.
//!
//! On Windows a path may begin with a prefix: a drive (`C:`), a share (`\\server\share`), a
//! device (`\\.\COM1`), or the mark `\\?\` of a verbatim path, in which `\` alone parts the
//! segments.

use crate::text::{char_texts, chars_between, chars_of, same_chars, string_between, string_of};
use vstd::prelude::*;

verus! {

/// The kind of system that reads a path.
#[derive(Debug, Clone, Copy, PartialEq, Eq, Structural)]
pub enum System {
    Unix,
    Windows,
}

/// The characters between the segments of a path.
#[derive(Debug, Clone, Copy, PartialEq, Eq, Structural)]
pub enum Separators {
    /// `/` alone.
    Slash,
    /// `\` alone: in a verbatim path.
    Backslash,
    /// `/` and `\`.
    Both,
}

impl Separators {
    pub open spec fn has(self, c: char) -> bool {
        match self {
            Separators::Slash => c == '/',
            Separators::Backslash => c == '\\',
            Separators::Both => c == '/' || c == '\\',
        }
    }

    fn contains(self, c: char) -> (r: bool)
        ensures
            r == self.has(c),
    {
        match self {
            Separators::Slash => c == '/',
            Separators::Backslash => c == '\\',
            Separators::Both => c == '/' || c == '\\',
        }
    }
}

// ───────────────────────────── prefixes ─────────────────────────────
/// How a path begins.
#[derive(Debug, Clone, Copy, PartialEq, Eq, Structural)]
pub enum Prefix {
    Absent,
    /// A drive. The path behind it may be seen from the drive's own current directory.
    Drive,
    /// A share or a device.
    Share,
    Verbatim,
}

/// The end of the segment that `i` is in.
pub open spec fn segment_end(p: Seq<char>, seps: Separators, i: int) -> int
    decreases p.len() - i,
{
    if i < 0 || i >= p.len() || seps.has(p[i]) {
        i
    } else {
        segment_end(p, seps, i + 1)
    }
}

pub proof fn lemma_segment_end(p: Seq<char>, seps: Separators, i: int)
    requires
        0 <= i <= p.len(),
    ensures
        i <= segment_end(p, seps, i) <= p.len(),
    decreases p.len() - i,
{
    if i < p.len() && !seps.has(p[i]) {
        lemma_segment_end(p, seps, i + 1);
    }
}

/// Whether a drive stands at `i`: a letter and a colon.
pub open spec fn drive_at(p: Seq<char>, i: int) -> bool {
    0 <= i && i + 2 <= p.len() && ('a' <= p[i] <= 'z' || 'A' <= p[i] <= 'Z') && p[i + 1] == ':'
}

/// The end of a server and its share, where the server ends at `i`. A share without a name
/// is none.
pub open spec fn share_end(p: Seq<char>, seps: Separators, i: int) -> int {
    if i < p.len() && segment_end(p, seps, i + 1) > i + 1 {
        segment_end(p, seps, i + 1)
    } else {
        i
    }
}

/// Whether a path begins with `\\?\`.
pub open spec fn is_verbatim(p: Seq<char>) -> bool {
    p.len() >= 4 && p[0] == '\\' && p[1] == '\\' && p[2] == '?' && p[3] == '\\'
}

/// The end of the prefix of a verbatim path: a share behind `UNC`, a drive that stands
/// alone, or the first segment.
pub open spec fn verbatim_end(p: Seq<char>) -> int {
    if p.len() >= 8 && p[4] == 'U' && p[5] == 'N' && p[6] == 'C' && Separators::Both.has(p[7]) {
        share_end(p, Separators::Backslash, segment_end(p, Separators::Backslash, 8))
    } else if drive_at(p, 4) && (p.len() == 6 || Separators::Both.has(p[6])) {
        6
    } else {
        segment_end(p, Separators::Backslash, 4)
    }
}

/// The prefix of a Windows path and its end.
pub open spec fn windows_prefix(p: Seq<char>) -> (Prefix, int) {
    if p.len() >= 2 && Separators::Both.has(p[0]) && Separators::Both.has(p[1]) {
        if is_verbatim(p) {
            (Prefix::Verbatim, verbatim_end(p))
        } else if p.len() >= 4 && p[2] == '.' && Separators::Both.has(p[3]) {
            (Prefix::Share, segment_end(p, Separators::Both, 4))
        } else {
            let server = segment_end(p, Separators::Both, 2);
            let share = share_end(p, Separators::Both, server);
            if server > 2 && share > server {
                (Prefix::Share, share)
            } else {
                (Prefix::Absent, 0)
            }
        }
    } else if drive_at(p, 0) {
        (Prefix::Drive, 2)
    } else {
        (Prefix::Absent, 0)
    }
}

/// The prefix of a path and its end.
pub open spec fn prefix(p: Seq<char>, system: System) -> (Prefix, int) {
    match system {
        System::Unix => (Prefix::Absent, 0),
        System::Windows => windows_prefix(p),
    }
}

proof fn lemma_prefix(p: Seq<char>, system: System)
    ensures
        0 <= prefix(p, system).1 <= p.len(),
{
    if p.len() >= 2 {
        lemma_segment_end(p, Separators::Both, 2);
        let server = segment_end(p, Separators::Both, 2);
        if server < p.len() {
            lemma_segment_end(p, Separators::Both, server + 1);
        }
    }
    if p.len() >= 4 {
        lemma_segment_end(p, Separators::Both, 4);
        lemma_segment_end(p, Separators::Backslash, 4);
    }
    if p.len() >= 8 {
        lemma_segment_end(p, Separators::Backslash, 8);
        let server = segment_end(p, Separators::Backslash, 8);
        if server < p.len() {
            lemma_segment_end(p, Separators::Backslash, server + 1);
        }
    }
}

/// The separators that a system knows.
pub open spec fn system_separators(system: System) -> Separators {
    match system {
        System::Unix => Separators::Slash,
        System::Windows => Separators::Both,
    }
}

/// The separators between the segments of a path.
pub open spec fn separators(p: Seq<char>, system: System) -> Separators {
    if prefix(p, system).0 == Prefix::Verbatim {
        Separators::Backslash
    } else {
        system_separators(system)
    }
}

/// Whether a separator stands behind the prefix: the root.
pub open spec fn is_rooted(p: Seq<char>, system: System) -> bool {
    prefix(p, system).1 < p.len() && system_separators(system).has(p[prefix(p, system).1])
}

/// Where the segments of a path begin: behind its prefix and its root.
pub open spec fn body_start(p: Seq<char>, system: System) -> int {
    prefix(p, system).1 + (if is_rooted(p, system) {
        1int
    } else {
        0
    })
}

fn find_segment_end(p: &Vec<char>, seps: Separators, i: usize) -> (r: usize)
    requires
        i <= p@.len(),
    ensures
        r == segment_end(p@, seps, i as int),
        i <= r <= p@.len(),
{
    let mut k: usize = i;
    while k < p.len() && !seps.contains(p[k])
        invariant
            i <= k <= p@.len(),
            segment_end(p@, seps, i as int) == segment_end(p@, seps, k as int),
        decreases p@.len() - k,
    {
        k += 1;
    }
    k
}

fn find_share_end(p: &Vec<char>, seps: Separators, i: usize) -> (r: usize)
    requires
        i <= p@.len(),
    ensures
        r == share_end(p@, seps, i as int),
        i <= r <= p@.len(),
{
    if i < p.len() {
        let end = find_segment_end(p, seps, i + 1);
        if end > i + 1 {
            return end;
        }
    }
    i
}

fn is_drive_at(p: &Vec<char>, i: usize) -> (r: bool)
    requires
        i <= 4,
    ensures
        r == drive_at(p@, i as int),
{
    if p.len() < i + 2 {
        return false;
    }
    let c = p[i];
    (('a' <= c && c <= 'z') || ('A' <= c && c <= 'Z')) && p[i + 1] == ':'
}

fn find_verbatim_end(p: &Vec<char>) -> (r: usize)
    requires
        p@.len() >= 4,
    ensures
        r == verbatim_end(p@),
        r <= p@.len(),
{
    let n: usize = p.len();
    if n >= 8 && p[4] == 'U' && p[5] == 'N' && p[6] == 'C' && Separators::Both.contains(p[7]) {
        let server = find_segment_end(p, Separators::Backslash, 8);
        find_share_end(p, Separators::Backslash, server)
    } else if is_drive_at(p, 4) && (n == 6 || Separators::Both.contains(p[6])) {
        6
    } else {
        find_segment_end(p, Separators::Backslash, 4)
    }
}

fn find_prefix(p: &Vec<char>, system: System) -> (r: (Prefix, usize))
    ensures
        (r.0, r.1 as int) == prefix(p@, system),
        r.1 <= p@.len(),
{
    let both = Separators::Both;
    let n: usize = p.len();
    if system == System::Unix {
        (Prefix::Absent, 0)
    } else if n >= 2 && both.contains(p[0]) && both.contains(p[1]) {
        if n >= 4 && p[0] == '\\' && p[1] == '\\' && p[2] == '?' && p[3] == '\\' {
            (Prefix::Verbatim, find_verbatim_end(p))
        } else if n >= 4 && p[2] == '.' && both.contains(p[3]) {
            (Prefix::Share, find_segment_end(p, both, 4))
        } else {
            let server = find_segment_end(p, both, 2);
            let share = find_share_end(p, both, server);
            if server > 2 && share > server {
                (Prefix::Share, share)
            } else {
                (Prefix::Absent, 0)
            }
        }
    } else if is_drive_at(p, 0) {
        (Prefix::Drive, 2)
    } else {
        (Prefix::Absent, 0)
    }
}

/// What a path begins with.
struct Start {
    prefix: Prefix,
    /// The end of the prefix.
    end: usize,
    rooted: bool,
    separators: Separators,
    /// Where the segments begin.
    body: usize,
}

impl Start {
    spec fn is_of(self, p: Seq<char>, system: System) -> bool {
        &&& (self.prefix, self.end as int) == prefix(p, system)
        &&& self.rooted == is_rooted(p, system)
        &&& self.separators == separators(p, system)
        &&& self.body == body_start(p, system)
        &&& self.end <= self.body <= p.len()
    }
}

fn find_start(p: &Vec<char>, system: System) -> (r: Start)
    ensures
        r.is_of(p@, system),
{
    let (prefix, end) = find_prefix(p, system);
    let all = match system {
        System::Unix => Separators::Slash,
        System::Windows => Separators::Both,
    };
    let rooted: bool = end < p.len() && all.contains(p[end]);
    let separators = if prefix == Prefix::Verbatim {
        Separators::Backslash
    } else {
        all
    };
    let body: usize = if rooted {
        end + 1
    } else {
        end
    };
    Start { prefix, end, rooted, separators, body }
}

// ───────────────────────────── names ─────────────────────────────
/// The start of the segment that ends at `end`, at `low` or later.
pub open spec fn segment_start(p: Seq<char>, seps: Separators, low: int, end: int) -> int
    decreases end,
{
    if end <= 0 || end <= low || seps.has(p[end - 1]) {
        end
    } else {
        segment_start(p, seps, low, end - 1)
    }
}

pub proof fn lemma_segment_start(p: Seq<char>, seps: Separators, low: int, end: int)
    requires
        0 <= low <= end <= p.len(),
    ensures
        low <= segment_start(p, seps, low, end) <= end,
        forall|k: int|
            segment_start(p, seps, low, end) <= k < end ==> !seps.has(#[trigger] p[k]),
    decreases end,
{
    if end > low && !seps.has(p[end - 1]) {
        lemma_segment_start(p, seps, low, end - 1);
    }
}

/// The range of the last segment between `low` and `end` that says something. An empty one
/// says nothing, and neither does `.` but in a verbatim path. A `..` leads to no file.
pub open spec fn name_range(p: Seq<char>, seps: Separators, low: int, end: int) -> Option<
    (int, int),
>
    decreases end,
{
    if low < 0 || end <= low || end > p.len() {
        None
    } else {
        proof {
            lemma_segment_start(p, seps, low, end);
        }
        let from = segment_start(p, seps, low, end);
        let segment = p.subrange(from, end);
        if segment.len() == 0 || (segment == seq!['.'] && seps != Separators::Backslash) {
            if from <= low {
                None
            } else {
                name_range(p, seps, low, from - 1)
            }
        } else if segment == seq!['.'] || segment == seq!['.', '.'] {
            None
        } else {
            Some((from, end))
        }
    }
}

/// The name of the file that a path leads to: its last segment. A path that ends in `..`
/// or has no segment has none.
pub open spec fn file_name(p: Seq<char>, system: System) -> Option<Seq<char>> {
    match name_range(p, separators(p, system), body_start(p, system), p.len() as int) {
        Some(r) => Some(p.subrange(r.0, r.1)),
        None => None,
    }
}

proof fn lemma_name_range(p: Seq<char>, seps: Separators, low: int, end: int)
    requires
        0 <= low,
        end <= p.len(),
    ensures
        name_range(p, seps, low, end) matches Some(r) ==> {
            &&& low <= r.0 < r.1 <= end
            &&& forall|k: int| r.0 <= k < r.1 ==> !seps.has(#[trigger] p[k])
        },
    decreases end,
{
    if low < end {
        lemma_segment_start(p, seps, low, end);
        let from = segment_start(p, seps, low, end);
        if from > low {
            lemma_name_range(p, seps, low, from - 1);
        }
    }
}

/// A file name holds no separator of its path. A path without a separator has at most a
/// drive in front of its name, and one without a colon is its own name.
pub proof fn lemma_file_name(p: Seq<char>, system: System)
    ensures
        file_name(p, system) matches Some(n) ==> {
            &&& 0 < n.len() <= p.len()
            &&& forall|k: int| 0 <= k < n.len() ==> !separators(p, system).has(#[trigger] n[k])
            &&& (forall|k: int| 0 <= k < p.len() ==> !separators(p, system).has(#[trigger] p[k]))
                ==> n.len() + 2 >= p.len()
        },
        p.len() > 2 && p[1] != ':' && (forall|k: int|
            0 <= k < p.len() ==> (#[trigger] p[k]) != '/' && p[k] != '\\') ==> file_name(p, system)
            == Some(p),
{
    let seps = separators(p, system);
    let low = body_start(p, system);
    let end = p.len() as int;
    lemma_prefix(p, system);
    lemma_name_range(p, seps, low, end);
    if forall|k: int| 0 <= k < p.len() ==> !seps.has(#[trigger] p[k]) {
        if p.len() > 0 {
            assert(!seps.has(p[0]));
        }
        assert(low <= 2);
        assert(low <= end);
        lemma_segment_start(p, seps, low, end);
        lemma_no_separators(p, seps, low, end);
        if p.len() > 2 && p[1] != ':' {
            assert(low == 0);
            assert(p.subrange(0, end) =~= p);
            assert(p != seq!['.'] && p != seq!['.', '.']);
        }
    } else {
        let k = choose|k: int| 0 <= k < p.len() && seps.has(#[trigger] p[k]);
        assert(p[k] == '/' || p[k] == '\\');
    }
}

proof fn lemma_no_separators(p: Seq<char>, seps: Separators, low: int, end: int)
    requires
        0 <= low <= end <= p.len(),
        forall|k: int| 0 <= k < p.len() ==> !seps.has(#[trigger] p[k]),
    ensures
        segment_start(p, seps, low, end) == low,
    decreases end,
{
    if low < end {
        assert(!seps.has(p[end - 1]));
        lemma_no_separators(p, seps, low, end - 1);
    }
}

/// The name of the file that `path` leads to.
pub fn path_file_name(path: &str, system: System) -> (r: Option<String>)
    ensures
        match r {
            Some(n) => file_name(path@, system) == Some(n@),
            None => file_name(path@, system) is None,
        },
{
    let p = chars_of(path);
    let start = find_start(&p, system);
    let seps = start.separators;
    let low: usize = start.body;
    let dot = chars_of(".");
    let dots = chars_of("..");
    proof {
        reveal_strlit(".");
        reveal_strlit("..");
        assert(dot@ =~= seq!['.']);
        assert(dots@ =~= seq!['.', '.']);
    }
    let mut end: usize = p.len();
    while end > low
        invariant
            low <= end <= p@.len(),
            p@ == path@,
            seps == separators(p@, system),
            low == body_start(p@, system),
            dot@ == seq!['.'],
            dots@ == seq!['.', '.'],
            name_range(p@, seps, low as int, p@.len() as int) == name_range(
                p@,
                seps,
                low as int,
                end as int,
            ),
        decreases end,
    {
        let mut from: usize = end;
        while from > low && !seps.contains(p[from - 1])
            invariant
                low <= from <= end <= p@.len(),
                segment_start(p@, seps, low as int, end as int) == segment_start(
                    p@,
                    seps,
                    low as int,
                    from as int,
                ),
            decreases from,
        {
            from -= 1;
        }
        let segment = chars_between(&p, from, end);
        let is_dot = same_chars(&segment, &dot);
        if segment.len() == 0 || (is_dot && seps != Separators::Backslash) {
            if from <= low {
                return None;
            }
            end = from - 1;
        } else if is_dot || same_chars(&segment, &dots) {
            return None;
        } else {
            return Some(string_of(&segment));
        }
    }
    None
}

/// The position of the last `.` before `end`.
pub open spec fn last_dot(name: Seq<char>, end: int) -> Option<int>
    decreases end,
{
    if end <= 0 {
        None
    } else if name[end - 1] == '.' {
        Some(end - 1)
    } else {
        last_dot(name, end - 1)
    }
}

/// The position of the `.` that parts a file name from its extension: the last one,
/// unless the name begins with it.
pub open spec fn extension_dot(name: Seq<char>) -> Option<int> {
    match last_dot(name, name.len() as int) {
        Some(d) => if d > 0 {
            Some(d)
        } else {
            None
        },
        None => None,
    }
}

proof fn lemma_last_dot(name: Seq<char>, end: int)
    requires
        0 <= end <= name.len(),
    ensures
        last_dot(name, end) matches Some(d) ==> 0 <= d < end,
    decreases end,
{
    if end > 0 {
        lemma_last_dot(name, end - 1);
    }
}

/// The `.` in front of an extension stands in the name.
pub proof fn lemma_extension_dot(name: Seq<char>)
    ensures
        extension_dot(name) matches Some(d) ==> 0 < d < name.len(),
{
    lemma_last_dot(name, name.len() as int);
}

/// The extension of a file name.
pub open spec fn extension(name: Seq<char>) -> Option<Seq<char>> {
    match extension_dot(name) {
        Some(d) => Some(name.skip(d + 1)),
        None => None,
    }
}

/// A file name without its extension.
pub open spec fn stem(name: Seq<char>) -> Seq<char> {
    match extension_dot(name) {
        Some(d) => name.take(d),
        None => name,
    }
}

fn find_extension_dot(name: &Vec<char>) -> (r: Option<usize>)
    ensures
        match r {
            Some(d) => extension_dot(name@) == Some(d as int) && d < name@.len(),
            None => extension_dot(name@) is None,
        },
{
    let mut end: usize = name.len();
    while end > 0
        invariant
            end <= name@.len(),
            last_dot(name@, name@.len() as int) == last_dot(name@, end as int),
        decreases end,
    {
        if name[end - 1] == '.' {
            return if end > 1 {
                Some(end - 1)
            } else {
                None
            };
        }
        end -= 1;
    }
    None
}

/// The extension of the file name `name`.
pub fn name_extension(name: &str) -> (r: Option<String>)
    ensures
        match r {
            Some(e) => extension(name@) == Some(e@),
            None => extension(name@) is None,
        },
{
    let v = chars_of(name);
    match find_extension_dot(&v) {
        Some(d) => {
            let n: usize = v.len();
            assert(d < n);
            Some(string_between(&v, d + 1, n))
        },
        None => None,
    }
}

/// The file name `name` without its extension.
pub fn name_stem(name: &str) -> (r: String)
    ensures
        r@ == stem(name@),
{
    let v = chars_of(name);
    match find_extension_dot(&v) {
        Some(d) => string_between(&v, 0, d),
        None => string_of(&v),
    }
}

// ───────────────────────────── joins ─────────────────────────────
/// The segments from `i` on that are not empty.
pub open spec fn segments(p: Seq<char>, seps: Separators, i: int) -> Seq<Seq<char>>
    decreases p.len() - i,
{
    if i < 0 || i >= p.len() {
        Seq::empty()
    } else {
        proof {
            lemma_segment_end(p, seps, i + 1);
        }
        let end = segment_end(p, seps, i);
        if seps.has(p[i]) {
            segments(p, seps, i + 1)
        } else {
            seq![p.subrange(i, end)] + segments(p, seps, end)
        }
    }
}

/// Whether a segment is a name, and not `.` or `..`.
pub open spec fn is_name(segment: Seq<char>) -> bool {
    segment != seq!['.'] && segment != seq!['.', '.']
}

/// Where the way `steps` leads from the place `at`. A `..` leaves the last name.
pub open spec fn walked(at: Seq<Seq<char>>, steps: Seq<Seq<char>>) -> Seq<Seq<char>>
    decreases steps.len(),
{
    if steps.len() == 0 {
        at
    } else {
        let place = walked(at, steps.drop_last());
        if is_name(steps.last()) {
            place.push(steps.last())
        } else if steps.last() == seq!['.', '.'] && place.len() > 0 && is_name(place.last()) {
            place.drop_last()
        } else {
            place
        }
    }
}

/// Segments, each behind a separator.
pub open spec fn written(segments: Seq<Seq<char>>) -> Seq<char>
    decreases segments.len(),
{
    if segments.len() == 0 {
        Seq::empty()
    } else {
        written(segments.drop_last()).push('\\') + segments.last()
    }
}

/// `name` in the verbatim directory `dir`. Nothing of a verbatim path is left to be read, so
/// the way that `name` describes is walked at once.
pub open spec fn verbatim_join(dir: Seq<char>, name: Seq<char>) -> Seq<char> {
    let system = System::Windows;
    let steps = segments(name, Separators::Both, body_start(name, system));
    let rooted = is_rooted(name, system) || is_rooted(dir, system);
    let at = if is_rooted(name, system) {
        Seq::empty()
    } else {
        segments(dir, Separators::Backslash, body_start(dir, system))
    };
    let place = walked(at, steps);
    dir.take(prefix(dir, system).1) + (if place.len() == 0 && rooted {
        seq!['\\']
    } else {
        written(place)
    })
}

/// `name` in the directory `dir`. A `name` that is itself a path from the root stands alone,
/// and so does one with a prefix; a root without a prefix is that of the prefix of `dir`. A
/// drive needs no separator behind it.
pub open spec fn joined_path(dir: Seq<char>, name: Seq<char>, system: System) -> Seq<char> {
    match system {
        System::Unix => {
            if (name.len() > 0 && name[0] == '/') || dir.len() == 0 {
                name
            } else if dir.last() == '/' {
                dir + name
            } else {
                dir.push('/') + name
            }
        },
        System::Windows => {
            if prefix(name, system).0 != Prefix::Absent {
                name
            } else if prefix(dir, system).0 == Prefix::Verbatim && name.len() > 0 {
                verbatim_join(dir, name)
            } else if is_rooted(name, system) {
                dir.take(prefix(dir, system).1) + name
            } else if dir.len() == 0 || Separators::Both.has(dir.last()) || prefix(dir, system) == (
                Prefix::Drive,
                dir.len() as int,
            ) {
                dir + name
            } else {
                dir.push('\\') + name
            }
        },
    }
}

fn segments_of(p: &Vec<char>, seps: Separators, from: usize) -> (r: Vec<Vec<char>>)
    requires
        from <= p@.len(),
    ensures
        char_texts(r@) == segments(p@, seps, from as int),
{
    let mut r: Vec<Vec<char>> = Vec::new();
    let mut i: usize = from;
    assert(char_texts(r@) =~= Seq::empty());
    while i < p.len()
        invariant
            from <= i <= p@.len(),
            segments(p@, seps, from as int) == char_texts(r@) + segments(p@, seps, i as int),
        decreases p@.len() - i,
    {
        let end = find_segment_end(p, seps, i);
        if i < end {
            let ghost before = char_texts(r@);
            let segment = chars_between(p, i, end);
            r.push(segment);
            assert(char_texts(r@) =~= before.push(p@.subrange(i as int, end as int)));
            assert(before + (seq![p@.subrange(i as int, end as int)] + segments(
                p@,
                seps,
                end as int,
            )) =~= char_texts(r@) + segments(p@, seps, end as int));
            i = end;
        } else {
            i += 1;
        }
    }
    assert(char_texts(r@) + segments(p@, seps, i as int) =~= char_texts(r@));
    r
}

fn find_verbatim_join(dir: &Vec<char>, name: &Vec<char>) -> (r: String)
    requires
        prefix(dir@, System::Windows).0 == Prefix::Verbatim,
    ensures
        r@ == verbatim_join(dir@, name@),
{
    let system = System::Windows;
    let start = find_start(dir, system);
    let step_start = find_start(name, system);
    let steps = segments_of(name, Separators::Both, step_start.body);
    let dot = chars_of(".");
    let dots = chars_of("..");
    proof {
        reveal_strlit(".");
        reveal_strlit("..");
        assert(dot@ =~= seq!['.']);
        assert(dots@ =~= seq!['.', '.']);
    }
    let mut place: Vec<Vec<char>> = if step_start.rooted {
        Vec::new()
    } else {
        segments_of(dir, Separators::Backslash, start.body)
    };
    let ghost at = if is_rooted(name@, system) {
        Seq::empty()
    } else {
        segments(dir@, Separators::Backslash, body_start(dir@, system))
    };
    let ghost way = char_texts(steps@);
    assert(char_texts(place@) =~= at);
    assert(way.take(0) =~= Seq::empty());
    let mut i: usize = 0;
    while i < steps.len()
        invariant
            i <= steps@.len(),
            way == char_texts(steps@),
            dot@ == seq!['.'],
            dots@ == seq!['.', '.'],
            char_texts(place@) == walked(at, way.take(i as int)),
        decreases steps@.len() - i,
    {
        let ghost before = char_texts(place@);
        proof {
            assert(way.take(i + 1).drop_last() =~= way.take(i as int));
            assert(way.take(i + 1).last() == steps@[i as int]@);
        }
        let up = same_chars(&steps[i], &dots);
        let here = same_chars(&steps[i], &dot);
        if !up && !here {
            let all: usize = steps[i].len();
            let segment = chars_between(&steps[i], 0, all);
            assert(segment@ =~= steps@[i as int]@);
            place.push(segment);
            assert(char_texts(place@) =~= before.push(steps@[i as int]@));
        } else if up && place.len() > 0 {
            let last: usize = place.len() - 1;
            assert(before.last() == place@[last as int]@);
            if !same_chars(&place[last], &dots) && !same_chars(&place[last], &dot) {
                place.truncate(last);
                assert(char_texts(place@) =~= before.drop_last());
            }
        }
        i += 1;
    }
    assert(way.take(i as int) =~= way);
    let ghost all = char_texts(place@);
    let mut r = string_between(dir, 0, start.end);
    let ghost head = r@;
    assert(head =~= dir@.take(prefix(dir@, system).1));
    if place.len() == 0 && (start.rooted || step_start.rooted) {
        r.push('\\');
        assert(r@ =~= head + seq!['\\']);
        return r;
    }
    let mut k: usize = 0;
    assert(all.take(0) =~= Seq::empty());
    assert(r@ =~= head + written(all.take(0)));
    while k < place.len()
        invariant
            k <= place@.len(),
            all == char_texts(place@),
            r@ == head + written(all.take(k as int)),
        decreases place@.len() - k,
    {
        proof {
            assert(all.take(k + 1).drop_last() =~= all.take(k as int));
            assert(all.take(k + 1).last() == place@[k as int]@);
        }
        r.push('\\');
        r.append(string_of(&place[k]).as_str());
        assert(r@ =~= head + written(all.take(k + 1)));
        k += 1;
    }
    assert(all.take(k as int) =~= all);
    r
}

/// `name` in the directory `dir`.
pub fn path_join(dir: &str, name: &str, system: System) -> (r: String)
    ensures
        r@ == joined_path(dir@, name@, system),
{
    let d = chars_of(dir);
    let n = chars_of(name);
    match system {
        System::Unix => {
            if (n.len() > 0 && n[0] == '/') || d.len() == 0 {
                return string_of(&n);
            }
            let mut r = string_of(&d);
            if d[d.len() - 1] != '/' {
                r.push('/');
            }
            r.append(name);
            r
        },
        System::Windows => {
            let from = find_start(&d, system);
            let to = find_start(&n, system);
            if to.prefix != Prefix::Absent {
                return string_of(&n);
            }
            if from.prefix == Prefix::Verbatim && n.len() > 0 {
                return find_verbatim_join(&d, &n);
            }
            let mut r: String = if to.rooted {
                string_between(&d, 0, from.end)
            } else {
                string_of(&d)
            };
            assert(to.rooted ==> r@ =~= d@.take(prefix(d@, system).1));
            if !to.rooted && d.len() > 0 && !Separators::Both.contains(d[d.len() - 1]) && !(
            from.prefix == Prefix::Drive && from.end == d.len()) {
                r.push('\\');
            }
            r.append(name);
            r
        },
    }
}

// ───────────────────────────── laws ─────────────────────────────
/// A file name is its stem, a point and its extension, where it has one, and its stem alone
/// where it has none. An extension holds no point.
pub proof fn law_names_are_stem_and_extension(name: Seq<char>)
    ensures
        match extension(name) {
            Some(e) => name == stem(name).push('.') + e && !e.contains('.') && stem(name).len() > 0,
            None => name == stem(name),
        },
{
    lemma_last_point(name, name.len() as int);
    if let Some(d) = extension_dot(name) {
        assert(name =~= name.take(d).push('.') + name.skip(d + 1));
        let e = name.skip(d + 1);
        if e.contains('.') {
            let i = choose|i: int| 0 <= i < e.len() && e[i] == '.';
            assert(name[d + 1 + i] == '.');
        }
    }
}

proof fn lemma_last_point(name: Seq<char>, end: int)
    requires
        0 <= end <= name.len(),
    ensures
        match last_dot(name, end) {
            Some(d) => 0 <= d < end && name[d] == '.' && forall|k: int|
                d < k < end ==> #[trigger] name[k] != '.',
            None => forall|k: int| 0 <= k < end ==> #[trigger] name[k] != '.',
        },
    decreases end,
{
    if end > 0 {
        lemma_last_point(name, end - 1);
    }
}

/// A name that ends in a point and an ending has that extension; one without a point, or with
/// only one at its start, has none.
pub proof fn law_extensions_follow_the_last_point(s: Seq<char>, e: Seq<char>)
    requires
        !e.contains('.'),
    ensures
        s.len() > 0 ==> extension(s.push('.') + e) == Some(e) && stem(s.push('.') + e) == s,
        extension(e) is None && stem(e) == e,
        extension(seq!['.'] + e) is None,
{
    let n = s.len() as int;
    let t = s.push('.') + e;
    lemma_last_point(t, t.len() as int);
    lemma_last_point(e, e.len() as int);
    let u = seq!['.'] + e;
    lemma_last_point(u, u.len() as int);
    assert forall|k: int| 0 <= k < e.len() implies #[trigger] e[k] != '.' by {
        assert(e.contains(e[k]));
    }
    assert(t[n] == '.');
    assert forall|k: int| n < k < t.len() implies #[trigger] t[k] != '.' by {
        assert(t[k] == e[k - n - 1]);
    }
    assert(last_dot(t, t.len() as int) == Some(n)) by {
        match last_dot(t, t.len() as int) {
            Some(d) => {
                assert(t[d] == '.');
            },
            None => {
                assert(t[n] != '.');
            },
        }
    }
    assert(t.take(n) =~= s);
    assert(t.skip(n + 1) =~= e);
    assert(u[0] == '.');
    assert forall|k: int| 0 < k < u.len() implies #[trigger] u[k] != '.' by {
        assert(u[k] == e[k - 1]);
    }
    if let Some(d) = last_dot(u, u.len() as int) {
        assert(u[d] == '.');
    }
}

/// Whether `name` is a plain file name: neither empty, `.` nor `..`, and without a separator.
pub open spec fn is_plain_name(name: Seq<char>) -> bool {
    name.len() > 0 && !name.contains('/') && !name.contains('\\') && name != seq!['.'] && name
        != seq!['.', '.']
}

proof fn lemma_segment_start_at(p: Seq<char>, seps: Separators, low: int, from: int, end: int)
    requires
        0 <= low <= from <= end <= p.len(),
        from == low || seps.has(p[from - 1]),
        forall|k: int| from <= k < end ==> !seps.has(#[trigger] p[k]),
    ensures
        segment_start(p, seps, low, end) == from,
    decreases end,
{
    if end > from {
        assert(!seps.has(p[end - 1]));
        lemma_segment_start_at(p, seps, low, from, end - 1);
    }
}

/// A plain name in a directory on Unix is the directory, one `/` and the name, and the name of
/// the file there is that name. A path from the root stays as it is, and so does a name
/// without a directory.
pub proof fn law_joined_names_come_back(dir: Seq<char>, name: Seq<char>)
    requires
        is_plain_name(name),
    ensures
        file_name(name, System::Unix) == Some(name),
        file_name(joined_path(dir, name, System::Unix), System::Unix) == Some(name),
        dir.len() > 0 && dir.last() != '/' ==> joined_path(dir, name, System::Unix) == dir.push('/')
            + name,
        dir.len() > 0 && dir.last() == '/' ==> joined_path(dir, name, System::Unix) == dir + name,
        joined_path(Seq::empty(), name, System::Unix) == name,
        joined_path(dir, seq!['/'] + name, System::Unix) == seq!['/'] + name,
{
    assert(name.contains(name[0]));
    assert(name.skip(0) =~= name);
    lemma_last_name(name, name);
    let p = joined_path(dir, name, System::Unix);
    assert(p.skip(p.len() - name.len()) =~= name);
    lemma_last_name(p, name);
}

proof fn lemma_last_name(p: Seq<char>, name: Seq<char>)
    requires
        is_plain_name(name),
        name.len() <= p.len(),
        p.skip(p.len() - name.len()) == name,
        p.len() > name.len() ==> p[p.len() - name.len() - 1] == '/',
    ensures
        file_name(p, System::Unix) == Some(name),
{
    let from = p.len() - name.len();
    let end = p.len() as int;
    let low = body_start(p, System::Unix);
    assert forall|k: int| from <= k < end implies !Separators::Slash.has(#[trigger] p[k]) by {
        assert(p.skip(from)[k - from] == p[k]);
        assert(name.contains(name[k - from]));
    }
    assert(low <= from) by {
        if from == 0 && p.len() > 0 {
            assert(!Separators::Slash.has(p[0]));
        }
    }
    assert(from == low || Separators::Slash.has(p[from - 1]));
    lemma_segment_start_at(p, Separators::Slash, low, from, end);
    assert(p.subrange(from, end) =~= name);
}

/// A plain name in a directory on Windows stands behind a `\`, unless the directory ends with a
/// separator or is a drive alone. A path with a drive of its own stays as it is, and one from
/// the root keeps the directory's drive.
pub proof fn law_windows_names_are_joined(dir: Seq<char>, drive: char, name: Seq<char>)
    requires
        is_plain_name(name),
        !name.contains(':'),
        'a' <= drive <= 'z' || 'A' <= drive <= 'Z',
        is_plain_name(dir),
    ensures
        joined_path(seq![drive, ':', '\\'] + dir, name, System::Windows) == seq![drive, ':', '\\']
            + dir + seq!['\\'] + name,
        joined_path(seq![drive, ':', '\\'], name, System::Windows) == seq![drive, ':', '\\'] + name,
        joined_path(seq![drive, ':'], name, System::Windows) == seq![drive, ':'] + name,
        joined_path(dir, seq![drive, ':', '\\'] + name, System::Windows) == seq![drive, ':', '\\']
            + name,
        joined_path(seq![drive, ':', '\\'] + dir, seq!['\\'] + name, System::Windows) == seq![
            drive,
            ':',
            '\\',
        ] + name,
{
    let system = System::Windows;
    assert(name.contains(name[0]));
    assert(dir.contains(dir.last()));
    assert(prefix(name, system).0 == Prefix::Absent) by {
        if name.len() > 1 {
            assert(name.contains(name[1]));
        }
    }
    assert(!is_rooted(name, system));
    let a = seq![drive, ':', '\\'] + dir;
    assert(prefix(a, system) == (Prefix::Drive, 2int));
    assert(a.last() == dir.last());
    assert(a.push('\\') + name =~= seq![drive, ':', '\\'] + dir + seq!['\\'] + name);
    let b = seq![drive, ':', '\\'];
    assert(prefix(b, system) == (Prefix::Drive, 2int));
    let c = seq![drive, ':'];
    assert(prefix(c, system) == (Prefix::Drive, 2int));
    let d = seq![drive, ':', '\\'] + name;
    assert(prefix(d, system) == (Prefix::Drive, 2int));
    let e = seq!['\\'] + name;
    assert(e[1] == name[0]);
    assert(prefix(e, system).0 == Prefix::Absent);
    assert(is_rooted(e, system));
    assert(a.take(2) + e =~= seq![drive, ':', '\\'] + name);
}

/// Paths that name no file.
pub proof fn lemma_nameless_paths()
    ensures
        file_name(Seq::empty(), System::Unix) is None,
        file_name(seq!['/'], System::Unix) is None,
        file_name(seq!['.', '.'], System::Unix) is None,
{
    let up = seq!['.', '.'];
    lemma_segment_start_at(up, Separators::Slash, 0, 0, 2);
    assert(up.subrange(0, 2) =~= up);
}

proof fn lemma_segment_end_at(p: Seq<char>, seps: Separators, i: int, e: int)
    requires
        0 <= i <= e <= p.len(),
        forall|k: int| i <= k < e ==> !seps.has(#[trigger] p[k]),
        e == p.len() || seps.has(p[e]),
    ensures
        segment_end(p, seps, i) == e,
    decreases e - i,
{
    if i < e {
        lemma_segment_end_at(p, seps, i + 1, e);
    }
}

proof fn lemma_plain(name: Seq<char>, seps: Separators)
    requires
        is_plain_name(name),
    ensures
        forall|k: int| 0 <= k < name.len() ==> !seps.has(#[trigger] name[k]),
{
    assert forall|k: int| 0 <= k < name.len() implies !seps.has(#[trigger] name[k]) by {
        assert(name.contains(name[k]));
    }
}

/// On Windows a share is `\\`, a server, a separator and a name; `\\.\` is in front of a
/// device, and `\\?\` makes a path verbatim, which may name a share behind `UNC`, a drive,
/// or anything else. A server without a share is no prefix.
pub proof fn law_windows_prefixes(server: Seq<char>, share: Seq<char>, drive: char)
    requires
        is_plain_name(server),
        is_plain_name(share),
        server != seq!['?'],
        'a' <= drive <= 'z' || 'A' <= drive <= 'Z',
    ensures
        ({
            let p = seq!['\\', '\\'] + server + seq!['\\'] + share;
            windows_prefix(p) == (Prefix::Share, p.len() as int)
        }),
        ({
            let p = seq!['\\', '\\', '.', '\\'] + share;
            windows_prefix(p) == (Prefix::Share, p.len() as int)
        }),
        ({
            let p = seq!['\\', '\\', '?', '\\', 'U', 'N', 'C', '\\'] + server + seq!['\\'] + share;
            windows_prefix(p) == (Prefix::Verbatim, p.len() as int)
        }),
        ({
            let p = seq!['\\', '\\', '?', '\\', drive, ':'];
            windows_prefix(p) == (Prefix::Verbatim, 6int) && windows_prefix(p + seq!['\\'] + share)
                == (Prefix::Verbatim, 6int)
        }),
        ({
            let p = seq!['\\', '\\', '?', '\\'] + share;
            windows_prefix(p) == (Prefix::Verbatim, p.len() as int)
        }),
        windows_prefix(seq!['\\', '\\'] + server) == (Prefix::Absent, 0int),
        windows_prefix(seq![drive, ':']) == (Prefix::Drive, 2int),
{
    lemma_plain(server, Separators::Both);
    lemma_plain(share, Separators::Both);
    lemma_plain(server, Separators::Backslash);
    lemma_plain(share, Separators::Backslash);
    let n = server.len() as int;
    let m = share.len() as int;
    let a = seq!['\\', '\\'] + server + seq!['\\'] + share;
    assert(forall|k: int| 2 <= k < 2 + n ==> #[trigger] a[k] == server[k - 2]);
    assert(forall|k: int| 3 + n <= k < 3 + n + m ==> #[trigger] a[k] == share[k - 3 - n]);
    lemma_segment_end_at(a, Separators::Both, 2, 2 + n);
    lemma_segment_end_at(a, Separators::Both, 3 + n, a.len() as int);
    assert(a[2] == server[0]);
    if n == 1 {
        assert(server[0] != '?' && server[0] != '.') by {
            if server[0] == '?' {
                assert(server =~= seq!['?']);
            }
            if server[0] == '.' {
                assert(server =~= seq!['.']);
            }
        }
    } else {
        assert(a[3] == server[1]);
    }
    let b = seq!['\\', '\\', '.', '\\'] + share;
    assert(forall|k: int| 4 <= k < 4 + m ==> #[trigger] b[k] == share[k - 4]);
    lemma_segment_end_at(b, Separators::Both, 4, b.len() as int);
    let c = seq!['\\', '\\', '?', '\\', 'U', 'N', 'C', '\\'] + server + seq!['\\'] + share;
    assert(forall|k: int| 8 <= k < 8 + n ==> #[trigger] c[k] == server[k - 8]);
    assert(forall|k: int| 9 + n <= k < 9 + n + m ==> #[trigger] c[k] == share[k - 9 - n]);
    lemma_segment_end_at(c, Separators::Backslash, 8, 8 + n);
    lemma_segment_end_at(c, Separators::Backslash, 9 + n, c.len() as int);
    let e = seq!['\\', '\\', '?', '\\'] + share;
    assert(forall|k: int| 4 <= k < 4 + m ==> #[trigger] e[k] == share[k - 4]);
    lemma_segment_end_at(e, Separators::Backslash, 4, e.len() as int);
    if e.len() >= 8 {
        assert(e[7] == share[3]);
    }
    if e.len() > 6 {
        assert(e[6] == share[2]);
    }
    let f = seq!['\\', '\\'] + server;
    assert(forall|k: int| 2 <= k < 2 + n ==> #[trigger] f[k] == server[k - 2]);
    lemma_segment_end_at(f, Separators::Both, 2, 2 + n);
    if n > 1 {
        assert(f[3] == server[1]);
    }
}

proof fn lemma_last_segment(p: Seq<char>, seps: Separators, i: int)
    requires
        0 <= i < p.len(),
        forall|k: int| i <= k < p.len() ==> !seps.has(#[trigger] p[k]),
    ensures
        segments(p, seps, i) == seq![p.skip(i)],
{
    lemma_segment_end_at(p, seps, i, p.len() as int);
    assert(p.subrange(i, p.len() as int) =~= p.skip(i));
    assert(segments(p, seps, p.len() as int) == Seq::<Seq<char>>::empty());
    assert(segments(p, seps, i) =~= seq![p.skip(i)]);
}

/// In a verbatim directory a name stands behind a `\`; a `..` in front of it leaves the
/// directory, a `.` leads nowhere, a root is that of the drive, and the drive's root is not
/// left.
pub proof fn law_verbatim_names_are_joined(drive: char, dir: Seq<char>, name: Seq<char>)
    requires
        'a' <= drive <= 'z' || 'A' <= drive <= 'Z',
        is_plain_name(dir),
        is_plain_name(name),
        !name.contains(':'),
    ensures
        ({
            let root = seq!['\\', '\\', '?', '\\', drive, ':'];
            let at = root + seq!['\\'] + dir;
            &&& joined_path(at, name, System::Windows) == at + seq!['\\'] + name
            &&& joined_path(at, seq!['.', '.', '\\'] + name, System::Windows) == root + seq!['\\']
                + name
            &&& joined_path(at, seq!['.', '\\'] + name, System::Windows) == at + seq!['\\'] + name
            &&& joined_path(at, seq!['\\'] + name, System::Windows) == root + seq!['\\'] + name
            &&& joined_path(at, seq!['.', '.'], System::Windows) == root + seq!['\\']
        }),
{
    let w = System::Windows;
    let root = seq!['\\', '\\', '?', '\\', drive, ':'];
    let at = root + seq!['\\'] + dir;
    lemma_plain(dir, Separators::Backslash);
    lemma_plain(name, Separators::Both);
    lemma_plain(name, Separators::Backslash);
    assert forall|k: int| 0 <= k < name.len() implies #[trigger] name[k] != ':' by {
        assert(name.contains(name[k]));
    }
    assert(prefix(at, w) == (Prefix::Verbatim, 6int)) by {
        assert(at[6] == '\\');
    }
    assert(at.take(6) =~= root);
    assert(is_rooted(at, w));
    assert(body_start(at, w) == 7);
    assert(forall|k: int| 7 <= k < at.len() ==> #[trigger] at[k] == dir[k - 7]);
    lemma_last_segment(at, Separators::Backslash, 7);
    assert(at.skip(7) =~= dir);
    reveal_with_fuel(walked, 4);
    reveal_with_fuel(written, 4);
    // A plain name.
    assert(prefix(name, w) == (Prefix::Absent, 0int));
    assert(!is_rooted(name, w));
    lemma_last_segment(name, Separators::Both, 0);
    assert(name.skip(0) =~= name);
    assert(seq![name].drop_last() =~= Seq::empty());
    let both = seq![dir].push(name);
    assert(walked(seq![dir], seq![name]) == both);
    assert(both.drop_last() =~= seq![dir]);
    assert(seq![dir].drop_last() =~= Seq::empty());
    assert(written(both) =~= seq!['\\'] + dir + seq!['\\'] + name);
    assert(root + written(both) =~= at + seq!['\\'] + name);
    // A name behind `..`.
    let up = seq!['.', '.', '\\'] + name;
    assert(forall|k: int| 3 <= k < up.len() ==> #[trigger] up[k] == name[k - 3]);
    assert(prefix(up, w) == (Prefix::Absent, 0int));
    assert(!is_rooted(up, w));
    lemma_last_segment(up, Separators::Both, 3);
    assert(up.skip(3) =~= name);
    lemma_segment_end_at(up, Separators::Both, 0, 2);
    assert(up.subrange(0, 2) =~= seq!['.', '.']);
    assert(segments(up, Separators::Both, 2) == seq![name]);
    let steps = seq![seq!['.', '.'], name];
    assert(segments(up, Separators::Both, 0) =~= steps);
    assert(steps.drop_last() =~= seq![seq!['.', '.']]);
    assert(seq![seq!['.', '.']].drop_last() =~= Seq::empty());
    assert(walked(seq![dir], seq![seq!['.', '.']]) =~= Seq::empty());
    assert(walked(seq![dir], steps) =~= seq![name]);
    assert(seq![name].drop_last() =~= Seq::empty());
    assert(root + written(seq![name]) =~= root + seq!['\\'] + name);
    // A name behind `.`.
    let here = seq!['.', '\\'] + name;
    assert(forall|k: int| 2 <= k < here.len() ==> #[trigger] here[k] == name[k - 2]);
    assert(prefix(here, w) == (Prefix::Absent, 0int));
    assert(!is_rooted(here, w));
    lemma_last_segment(here, Separators::Both, 2);
    assert(here.skip(2) =~= name);
    lemma_segment_end_at(here, Separators::Both, 0, 1);
    assert(here.subrange(0, 1) =~= seq!['.']);
    assert(segments(here, Separators::Both, 1) == seq![name]);
    let stay = seq![seq!['.'], name];
    assert(segments(here, Separators::Both, 0) =~= stay);
    assert(stay.drop_last() =~= seq![seq!['.']]);
    assert(seq![seq!['.']].drop_last() =~= Seq::empty());
    assert(seq!['.'].len() == 1 && seq!['.', '.'].len() == 2);
    assert(walked(seq![dir], seq![seq!['.']]) == seq![dir]);
    assert(walked(seq![dir], stay) == both);
    // A name from the root.
    let top = seq!['\\'] + name;
    assert(forall|k: int| 1 <= k < top.len() ==> #[trigger] top[k] == name[k - 1]);
    assert(prefix(top, w) == (Prefix::Absent, 0int));
    assert(is_rooted(top, w));
    lemma_last_segment(top, Separators::Both, 1);
    assert(top.skip(1) =~= name);
    assert(walked(Seq::empty(), seq![name]) =~= seq![name]);
    // Up alone.
    let dots = seq!['.', '.'];
    assert(prefix(dots, w) == (Prefix::Absent, 0int));
    assert(!is_rooted(dots, w));
    lemma_last_segment(dots, Separators::Both, 0);
    assert(dots.skip(0) =~= dots);
}

}
