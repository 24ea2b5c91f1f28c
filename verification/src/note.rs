//! Notes: what they hold, what they are called, and how they are found.

use crate::text::{
    chars_between, chars_of, contains, lines_of, removed, replaced, starts_at,
    string_of, to_lowercase, trimmed,
};
use vstd::prelude::*;

verus! {

/// A point in time: seconds since 1970-01-01 00:00:00 UTC and nanoseconds within the
/// second.
#[derive(Debug, Clone, Copy, PartialEq, Eq, Structural)]
pub struct Timestamp {
    pub secs: i64,
    pub nanos: u32,
}

impl Timestamp {
    /// Whether `self` is before `other`.
    pub open spec fn before(self, other: Timestamp) -> bool {
        self.secs < other.secs || (self.secs == other.secs && self.nanos < other.nanos)
    }

    pub fn is_before(self, other: Timestamp) -> (r: bool)
        ensures
            r == self.before(other),
    {
        self.secs < other.secs || (self.secs == other.secs && self.nanos < other.nanos)
    }
}

#[derive(Debug, Clone)]
pub struct Note {
    pub id: i64,
    pub title: String,
    pub body: String,
    pub tag: String,
    pub color: String,
    pub created_at: Timestamp,
    pub updated_at: Timestamp,
    pub pinned: bool,
}

pub struct NoteView {
    pub id: i64,
    pub title: Seq<char>,
    pub body: Seq<char>,
    pub tag: Seq<char>,
    pub color: Seq<char>,
    pub created_at: Timestamp,
    pub updated_at: Timestamp,
    pub pinned: bool,
}

impl View for Note {
    type V = NoteView;

    open spec fn view(&self) -> NoteView {
        NoteView {
            id: self.id,
            title: self.title@,
            body: self.body@,
            tag: self.tag@,
            color: self.color@,
            created_at: self.created_at,
            updated_at: self.updated_at,
            pinned: self.pinned,
        }
    }
}

/// What the notes of a list hold.
pub open spec fn note_views(notes: Seq<Note>) -> Seq<NoteView> {
    notes.map_values(|n: Note| n@)
}

// ───────────────────────────── titles ─────────────────────────────
/// Whether a line is nothing but an image.
pub open spec fn image_line(s: Seq<char>) -> bool {
    crate::text::has_prefix(s, crate::body::image_open()) && s.len() > 0 && s.last() == ')'
}

/// `s` without the `#`s at its start.
pub open spec fn without_hashes(s: Seq<char>) -> Seq<char>
    decreases s.len(),
{
    if s.len() > 0 && s[0] == '#' {
        without_hashes(s.skip(1))
    } else {
        s
    }
}

pub open spec fn without_space(s: Seq<char>) -> Seq<char> {
    if s.len() > 0 && s[0] == ' ' {
        s.skip(1)
    } else {
        s
    }
}

/// `s` without a bullet at its start.
pub open spec fn without_bullet(s: Seq<char>) -> Seq<char> {
    if s.len() >= 2 && (s[0] == '-' || s[0] == '*') && s[1] == ' ' {
        s.skip(2)
    } else {
        s
    }
}

/// `s` without the pairs of `*` or `_` around it.
pub open spec fn without_emphasis(s: Seq<char>) -> Seq<char>
    decreases s.len(),
{
    if s.len() >= 2 && (s[0] == '*' || s[0] == '_') && s.last() == s[0] {
        without_emphasis(s.subrange(1, s.len() - 1))
    } else {
        s
    }
}

/// A line without its heading marks, its bullet, and its bold, code and italic marks.
pub open spec fn stripped(s: Seq<char>) -> Seq<char> {
    let line = without_bullet(without_space(without_hashes(crate::text::trim(s))));
    let plain = crate::text::replace_char(
        crate::text::remove_from(line, "**"@, 0),
        '`',
        ""@,
    );
    crate::text::trim(without_emphasis(plain))
}

/// At most the first `n` characters.
pub open spec fn first_chars(s: Seq<char>, n: int) -> Seq<char> {
    if s.len() <= n {
        s
    } else {
        s.take(n)
    }
}

/// Whether a line says something: it is neither blank nor an image.
pub open spec fn says_something(line: Seq<char>) -> bool {
    crate::text::trim(line).len() > 0 && !image_line(crate::text::trim(line))
}

/// The first line from `i` on that still says something without its markdown, at most
/// `n` characters of it.
pub open spec fn headline(lines: Seq<Seq<char>>, i: int, n: int) -> Seq<char>
    decreases lines.len() - i,
{
    if i < 0 || i >= lines.len() {
        Seq::empty()
    } else if says_something(lines[i]) && stripped(crate::text::trim(lines[i])).len() > 0 {
        first_chars(stripped(crate::text::trim(lines[i])), n)
    } else {
        headline(lines, i + 1, n)
    }
}

/// The first line from `i` on that says something.
pub open spec fn first_line(lines: Seq<Seq<char>>, i: int) -> int
    decreases lines.len() - i,
{
    if i < 0 || i >= lines.len() || says_something(lines[i]) {
        i
    } else {
        first_line(lines, i + 1)
    }
}

/// The title of a note with this body.
pub open spec fn title_of(body: Seq<char>) -> Seq<char> {
    headline(crate::text::lines(body), 0, 80)
}

/// The line that is shown under the title: the headline of what follows the first line
/// that says something.
pub open spec fn snippet_of(body: Seq<char>) -> Seq<char> {
    headline(crate::text::lines(body), first_line(crate::text::lines(body), 0) + 1, 120)
}

pub fn is_image_line(line: &str) -> (r: bool)
    ensures
        r == image_line(line@),
{
    let v = chars_of(line);
    let n: usize = v.len();
    starts_at(&v, 0, &chars_of("![image](")) && n > 0 && v[n - 1] == ')'
}

/// Takes the most common markdown decorations off a line.
pub fn strip_markdown_markers(s: &str) -> (r: String)
    ensures
        r@ == stripped(s@),
{
    let line = trimmed(&chars_of(s));
    let n: usize = line.len();
    let mut i: usize = 0;
    assert(line@.skip(0) =~= line@);
    while i < n && line[i] == '#'
        invariant
            i <= n,
            n == line@.len(),
            without_hashes(line@) == without_hashes(line@.skip(i as int)),
        decreases n - i,
    {
        assert(line@.skip(i as int).skip(1) =~= line@.skip(i + 1));
        i += 1;
    }
    if i < n && line[i] == ' ' {
        assert(line@.skip(i as int).skip(1) =~= line@.skip(i + 1));
        i += 1;
    }
    let ghost spaced = line@.skip(i as int);
    if n - i >= 2 && (line[i] == '-' || line[i] == '*') && line[i + 1] == ' ' {
        assert(spaced.skip(2) =~= line@.skip(i + 2));
        i += 2;
    }
    let rest = chars_between(&line, i, n);
    assert(rest@ =~= line@.skip(i as int));
    let bold = chars_of("**");
    proof {
        reveal_strlit("**");
    }
    let plain = chars_of(replaced(&removed(&rest, &bold), '`', "").as_str());
    let mut a: usize = 0;
    let mut b: usize = plain.len();
    assert(plain@.subrange(0, b as int) =~= plain@);
    while b - a >= 2 && (plain[a] == '*' || plain[a] == '_') && plain[b - 1] == plain[a]
        invariant
            a <= b <= plain@.len(),
            without_emphasis(plain@) == without_emphasis(plain@.subrange(a as int, b as int)),
        decreases b - a,
    {
        assert(plain@.subrange(a as int, b as int).subrange(1, b - a - 1) =~= plain@.subrange(
            a + 1,
            b - 1,
        ));
        a += 1;
        b -= 1;
    }
    let inner = chars_between(&plain, a, b);
    string_of(&trimmed(&inner))
}

fn take_text(s: &String, n: usize) -> (r: String)
    ensures
        r@ == first_chars(s@, n as int),
{
    let v = chars_of(s.as_str());
    if v.len() <= n {
        return string_of(&v);
    }
    let r = string_of(&chars_between(&v, 0, n));
    assert(v@.subrange(0, n as int) =~= v@.take(n as int));
    r
}

fn headline_from(lines: &Vec<Vec<char>>, start: usize, n: usize) -> (r: String)
    ensures
        r@ == headline(crate::text::char_texts(lines@), start as int, n as int),
{
    let ghost all = crate::text::char_texts(lines@);
    let mut i: usize = start;
    while i < lines.len()
        invariant
            all == crate::text::char_texts(lines@),
            start <= i,
            headline(all, start as int, n as int) == headline(all, i as int, n as int),
        decreases lines@.len() - i,
    {
        assert(all[i as int] == lines@[i as int]@);
        let line = string_of(&trimmed(&lines[i]));
        if chars_of(line.as_str()).len() > 0 && !is_image_line(line.as_str()) {
            let cleaned = strip_markdown_markers(line.as_str());
            if chars_of(cleaned.as_str()).len() > 0 {
                return take_text(&cleaned, n);
            }
        }
        i += 1;
    }
    String::new()
}

impl Note {
    /// The title of a note with this body: its first line that says something, without
    /// markdown, at most 80 characters of it.
    pub fn derive_title(body: &str) -> (r: String)
        ensures
            r@ == title_of(body@),
    {
        headline_from(&lines_of(&chars_of(body)), 0, 80)
    }

    /// The title, or a stand-in where it is blank.
    pub fn display_title(&self) -> (r: String)
        ensures
            r@ == (if crate::text::trim(self.title@).len() == 0 {
                "Untitled note"@
            } else {
                self.title@
            }),
    {
        if trimmed(&chars_of(self.title.as_str())).len() == 0 {
            "Untitled note".to_owned()
        } else {
            self.title.clone()
        }
    }

    /// The line that is shown under the title, at most 120 characters of it.
    pub fn snippet(&self) -> (r: String)
        ensures
            r@ == snippet_of(self.body@),
    {
        let lines = lines_of(&chars_of(self.body.as_str()));
        let ghost all = crate::text::char_texts(lines@);
        let mut i: usize = 0;
        while i < lines.len()
            invariant
                all == crate::text::char_texts(lines@),
                all == crate::text::lines(self.body@),
                i <= lines@.len(),
                first_line(all, 0) == first_line(all, i as int),
            decreases lines@.len() - i,
        {
            assert(all[i as int] == lines@[i as int]@);
            let n: usize = lines.len();
            assert(i < n);
            let line = string_of(&trimmed(&lines[i]));
            if chars_of(line.as_str()).len() > 0 && !is_image_line(line.as_str()) {
                return headline_from(&lines, i + 1, 120);
            }
            i += 1;
        }
        String::new()
    }

    /// Whether the title or the body holds `needle`, whatever the case.
    pub fn matches(&self, needle: &str) -> (r: bool)
        ensures
            r == note_matches(self@, needle@),
    {
        let n = chars_of(to_lowercase(needle).as_str());
        let title = chars_of(to_lowercase(self.title.as_str()).as_str());
        let body = chars_of(to_lowercase(self.body.as_str()).as_str());
        holds(&title, &body, &n)
    }

    /// Another note with the same contents.
    pub fn duplicate(&self) -> (r: Note)
        ensures
            r@ == self@,
    {
        Note {
            id: self.id,
            title: self.title.clone(),
            body: self.body.clone(),
            tag: self.tag.clone(),
            color: self.color.clone(),
            created_at: self.created_at,
            updated_at: self.updated_at,
            pinned: self.pinned,
        }
    }
}

/// Whether `needle` stands in the title or in the body.
pub fn holds(title: &Vec<char>, body: &Vec<char>, needle: &Vec<char>) -> (r: bool)
    ensures
        r == (crate::text::occurs(title@, needle@) || crate::text::occurs(body@, needle@)),
{
    contains(title, needle) || contains(body, needle)
}

/// Whether the title or the body of a note holds `needle`, all in lower case.
pub open spec fn note_matches(n: NoteView, needle: Seq<char>) -> bool {
    crate::text::occurs(crate::text::lowercase(n.title), crate::text::lowercase(needle))
        || crate::text::occurs(crate::text::lowercase(n.body), crate::text::lowercase(needle))
}

// ───────────────────────────── laws ─────────────────────────────
proof fn lemma_headline_length(lines: Seq<Seq<char>>, i: int, n: int)
    requires
        n >= 0,
    ensures
        headline(lines, i, n).len() <= n,
    decreases lines.len() - i,
{
    if 0 <= i < lines.len() {
        lemma_headline_length(lines, i + 1, n);
    }
}

/// A title has at most 80 characters and a snippet at most 120.
pub proof fn law_titles_and_snippets_are_short(body: Seq<char>)
    ensures
        title_of(body).len() <= 80,
        snippet_of(body).len() <= 120,
{
    lemma_headline_length(crate::text::lines(body), 0, 80);
    lemma_headline_length(
        crate::text::lines(body),
        first_line(crate::text::lines(body), 0) + 1,
        120,
    );
}

/// A text without its stars and backticks.
pub open spec fn without_stars_and_ticks(s: Seq<char>) -> Seq<char> {
    s.filter(|c: char| c != '*' && c != '`')
}

/// Whether every character of `s` may be taken off the start of a line: white space, `#`,
/// `-` and `_`.
pub open spec fn only_leading_marks(s: Seq<char>) -> bool {
    forall|i: int|
        0 <= i < s.len() ==> crate::text::is_space(#[trigger] s[i]) || s[i] == '#' || s[i] == '-'
            || s[i] == '_'
}

/// Whether every character of `s` may be taken off the end of a line: white space and `_`.
pub open spec fn only_trailing_marks(s: Seq<char>) -> bool {
    forall|i: int| 0 <= i < s.len() ==> crate::text::is_space(#[trigger] s[i]) || s[i] == '_'
}

proof fn lemma_kept_sum(a: Seq<char>, b: Seq<char>)
    ensures
        without_stars_and_ticks(a + b) == without_stars_and_ticks(a) + without_stars_and_ticks(b),
{
    Seq::filter_distributes_over_add(a, b, |c: char| c != '*' && c != '`');
}

proof fn lemma_kept_one(c: char)
    ensures
        without_stars_and_ticks(seq![c]) == (if c != '*' && c != '`' {
            seq![c]
        } else {
            Seq::empty()
        }),
        without_stars_and_ticks(Seq::empty()) == Seq::<char>::empty(),
{
    reveal(Seq::filter);
    reveal_with_fuel(Seq::filter, 2);
    assert(seq![c].drop_last() =~= Seq::empty());
    assert(without_stars_and_ticks(seq![c]) =~= (if c != '*' && c != '`' {
        seq![c]
    } else {
        Seq::empty()
    }));
}

proof fn lemma_kept_all(s: Seq<char>, p: spec_fn(char) -> bool)
    requires
        forall|i: int| 0 <= i < s.len() ==> p(#[trigger] s[i]) || s[i] == '*' || s[i] == '`',
    ensures
        forall|i: int|
            0 <= i < without_stars_and_ticks(s).len() ==> p(#[trigger] without_stars_and_ticks(s)[i]),
    decreases s.len(),
{
    reveal(Seq::filter);
    if s.len() > 0 {
        assert forall|i: int| 0 <= i < s.drop_last().len() implies p(#[trigger] s.drop_last()[i])
            || s.drop_last()[i] == '*' || s.drop_last()[i] == '`' by {
            assert(s.drop_last()[i] == s[i]);
        }
        lemma_kept_all(s.drop_last(), p);
        let c = s.last();
        assert(c == s[s.len() - 1]);
        let before = without_stars_and_ticks(s.drop_last());
        let all = without_stars_and_ticks(s);
        assert(all == (if c != '*' && c != '`' {
            before.push(c)
        } else {
            before
        }));
        assert forall|i: int| 0 <= i < all.len() implies p(#[trigger] all[i]) by {
            if i < before.len() {
                assert(all[i] == before[i]);
            }
        }
    }
}

proof fn lemma_kept_without_bold(s: Seq<char>, i: int)
    requires
        0 <= i <= s.len(),
    ensures
        without_stars_and_ticks(crate::text::remove_from(s, "**"@, i)) == without_stars_and_ticks(
            s.skip(i),
        ),
    decreases s.len() - i,
{
    reveal_strlit("**");
    let rest = crate::text::remove_from(s, "**"@, i);
    if i < s.len() {
        if crate::text::stands_at(s, i, "**"@) {
            lemma_kept_without_bold(s, i + 2);
            let t = s.subrange(i, i + 2);
            assert(t[0] == '*' && t[1] == '*');
            assert(s.skip(i) =~= seq![s[i]] + (seq![s[i + 1]] + s.skip(i + 2)));
            assert(s[i] == t[0] && s[i + 1] == t[1]);
            lemma_kept_sum(seq![s[i]], seq![s[i + 1]] + s.skip(i + 2));
            lemma_kept_sum(seq![s[i + 1]], s.skip(i + 2));
            lemma_kept_one('*');
            assert(without_stars_and_ticks(s.skip(i)) =~= without_stars_and_ticks(s.skip(i + 2)));
        } else {
            lemma_kept_without_bold(s, i + 1);
            assert(s.skip(i) =~= seq![s[i]] + s.skip(i + 1));
            lemma_kept_sum(seq![s[i]], s.skip(i + 1));
            lemma_kept_sum(seq![s[i]], crate::text::remove_from(s, "**"@, i + 1));
        }
    } else {
        assert(s.skip(i) =~= Seq::empty());
    }
}

proof fn lemma_kept_without_ticks(s: Seq<char>)
    ensures
        without_stars_and_ticks(crate::text::replace_char(s, '`', ""@)) == without_stars_and_ticks(s),
    decreases s.len(),
{
    reveal_strlit("");
    reveal(Seq::filter);
    if s.len() > 0 {
        lemma_kept_without_ticks(s.drop_last());
        let before = crate::text::replace_char(s.drop_last(), '`', ""@);
        let c = s.last();
        assert(s =~= s.drop_last() + seq![c]);
        lemma_kept_sum(s.drop_last(), seq![c]);
        lemma_kept_one(c);
        if c == '`' {
            assert(before + ""@ =~= before);
        } else {
            lemma_kept_sum(before, seq![c]);
        }
    }
}

proof fn lemma_emphasis(s: Seq<char>) -> (r: (Seq<char>, Seq<char>))
    ensures
        s == r.0 + without_emphasis(s) + r.1,
        forall|i: int| 0 <= i < r.0.len() ==> #[trigger] r.0[i] == '*' || r.0[i] == '_',
        forall|i: int| 0 <= i < r.1.len() ==> #[trigger] r.1[i] == '*' || r.1[i] == '_',
    decreases s.len(),
{
    if s.len() >= 2 && (s[0] == '*' || s[0] == '_') && s.last() == s[0] {
        let inner = s.subrange(1, s.len() - 1);
        let (a, b) = lemma_emphasis(inner);
        let (x, y) = (seq![s[0]] + a, b.push(s[0]));
        assert(s =~= seq![s[0]] + inner + seq![s[0]]);
        assert(s =~= x + without_emphasis(s) + y);
        (x, y)
    } else {
        assert(s =~= Seq::<char>::empty() + s + Seq::<char>::empty());
        (Seq::empty(), Seq::empty())
    }
}

proof fn lemma_hashes(s: Seq<char>) -> (r: Seq<char>)
    ensures
        s == r + without_hashes(s),
        forall|i: int| 0 <= i < r.len() ==> #[trigger] r[i] == '#',
    decreases s.len(),
{
    if s.len() > 0 && s[0] == '#' {
        let a = lemma_hashes(s.skip(1));
        let x = seq!['#'] + a;
        assert(s =~= seq!['#'] + s.skip(1));
        assert(s =~= x + without_hashes(s));
        x
    } else {
        assert(s =~= Seq::<char>::empty() + s);
        Seq::empty()
    }
}

/// The line behind the heading marks and the bullet.
spec fn marked_line(s: Seq<char>) -> Seq<char> {
    without_bullet(without_space(without_hashes(crate::text::trim(s))))
}

#[verifier::opaque]
spec fn is_outer_mark(c: char) -> bool {
    crate::text::is_space(c) || c == '#' || c == '-' || c == '*'
}

spec fn only_outer_marks(s: Seq<char>) -> bool {
    forall|i: int| 0 <= i < s.len() ==> is_outer_mark(#[trigger] s[i])
}

proof fn lemma_outer_sum(a: Seq<char>, b: Seq<char>)
    requires
        only_outer_marks(a),
        only_outer_marks(b),
    ensures
        only_outer_marks(a + b),
{
    assert forall|i: int| 0 <= i < (a + b).len() implies is_outer_mark(#[trigger] (a + b)[i]) by {
        if i < a.len() {
            assert((a + b)[i] == a[i]);
        } else {
            assert((a + b)[i] == b[i - a.len()]);
        }
    }
}

proof fn lemma_bullet(v: Seq<char>) -> (d: Seq<char>)
    ensures
        v == d + without_bullet(v),
        only_outer_marks(d),
{
    reveal(is_outer_mark);
    assert(crate::text::is_space(' '));
    let line = without_bullet(v);
    let d = v.take(v.len() - line.len());
    assert(v =~= d + line);
    assert forall|k: int| 0 <= k < d.len() implies is_outer_mark(#[trigger] d[k]) by {
        assert(d[k] == v[k]);
    }
    d
}

proof fn lemma_heading_marks(t: Seq<char>) -> (h: Seq<char>)
    ensures
        t == h + without_space(without_hashes(t)),
        only_outer_marks(h),
{
    reveal(is_outer_mark);
    assert(crate::text::is_space(' '));
    let h = lemma_hashes(t);
    let u = without_hashes(t);
    let v = without_space(u);
    let p = u.take(u.len() - v.len());
    assert(u =~= p + v);
    assert forall|k: int| 0 <= k < p.len() implies is_outer_mark(#[trigger] p[k]) by {
        assert(p[k] == u[k]);
    }
    assert(only_outer_marks(h));
    lemma_outer_sum(h, p);
    assert(t =~= (h + p) + v);
    h + p
}

proof fn lemma_marked_line(s: Seq<char>) -> (r: (Seq<char>, Seq<char>))
    ensures
        s == r.0 + marked_line(s) + r.1,
        only_outer_marks(r.0),
        forall|i: int| 0 <= i < r.1.len() ==> crate::text::is_space(#[trigger] r.1[i]),
{
    let (i, j) = crate::text::law_trimming_takes_white_space_only(s);
    let t = crate::text::trim(s);
    let (a, z) = (s.take(i), s.skip(j));
    assert(s =~= a + t + z);
    assert forall|k: int| 0 <= k < z.len() implies crate::text::is_space(#[trigger] z[k]) by {
        assert(z[k] == s[j + k]);
    }
    assert(only_outer_marks(a)) by {
        reveal(is_outer_mark);
        assert forall|k: int| 0 <= k < a.len() implies is_outer_mark(#[trigger] a[k]) by {
            assert(a[k] == s[k]);
        }
    }
    let h = lemma_heading_marks(t);
    let v = without_space(without_hashes(t));
    let d = lemma_bullet(v);
    lemma_outer_sum(a, h);
    lemma_outer_sum(a + h, d);
    assert(s =~= (a + h + d) + marked_line(s) + z);
    (a + h + d, z)
}

proof fn lemma_line_inside(line: Seq<char>) -> (r: (Seq<char>, Seq<char>))
    ensures
        ({
            let plain = crate::text::replace_char(
                crate::text::remove_from(line, "**"@, 0),
                '`',
                ""@,
            );
            let out = crate::text::trim(without_emphasis(plain));
            without_stars_and_ticks(line) == r.0 + without_stars_and_ticks(out) + r.1
        }),
        only_trailing_marks(r.0),
        only_trailing_marks(r.1),
{
    let bare = crate::text::remove_from(line, "**"@, 0);
    let plain = crate::text::replace_char(bare, '`', ""@);
    lemma_kept_without_bold(line, 0);
    assert(line.skip(0) =~= line);
    lemma_kept_without_ticks(bare);
    let (e, f) = lemma_emphasis(plain);
    let inner = without_emphasis(plain);
    let (k, l) = crate::text::law_trimming_takes_white_space_only(inner);
    let out = crate::text::trim(inner);
    let (b, y) = (inner.take(k), inner.skip(l));
    assert(inner =~= b + out + y);
    let (front, back) = (e + b, y + f);
    assert(plain =~= front + out + back);
    lemma_kept_sum(front + out, back);
    lemma_kept_sum(front, out);
    let p = |c: char| crate::text::is_space(c) || c == '_';
    assert forall|m: int| 0 <= m < front.len() implies p(#[trigger] front[m]) || front[m] == '*'
        || front[m] == '`' by {
        if m < e.len() {
            assert(front[m] == e[m]);
        } else {
            assert(front[m] == inner[m - e.len()]);
        }
    }
    assert forall|m: int| 0 <= m < back.len() implies p(#[trigger] back[m]) || back[m] == '*'
        || back[m] == '`' by {
        if m < y.len() {
            assert(back[m] == inner[l + m]);
        } else {
            assert(back[m] == f[m - y.len()]);
        }
    }
    lemma_kept_all(front, p);
    lemma_kept_all(back, p);
    let (x, z) = (without_stars_and_ticks(front), without_stars_and_ticks(back));
    assert forall|i: int| 0 <= i < x.len() implies crate::text::is_space(#[trigger] x[i]) || x[i]
        == '_' by {
        assert(p(x[i]));
    }
    assert forall|i: int| 0 <= i < z.len() implies crate::text::is_space(#[trigger] z[i]) || z[i]
        == '_' by {
        assert(p(z[i]));
    }
    (x, z)
}

/// Taking the markdown off a line takes off stars and backticks, white space, `#`, `-` and
/// `_` at its start, and white space and `_` at its end. Everything else stays, in its order:
/// but for stars and backticks, the line is what is left between two such ends.
pub proof fn law_stripping_keeps_the_words(s: Seq<char>) -> (ends: (Seq<char>, Seq<char>))
    ensures
        without_stars_and_ticks(s) == ends.0 + without_stars_and_ticks(stripped(s)) + ends.1,
        only_leading_marks(ends.0),
        only_trailing_marks(ends.1),
{
    let (lead, tail) = lemma_marked_line(s);
    let line = marked_line(s);
    let (a, b) = lemma_line_inside(line);
    lemma_kept_sum(lead + line, tail);
    lemma_kept_sum(lead, line);
    let p = |c: char| crate::text::is_space(c) || c == '#' || c == '-' || c == '_';
    let q = |c: char| crate::text::is_space(c) || c == '_';
    assert forall|i: int| 0 <= i < lead.len() implies p(#[trigger] lead[i]) || lead[i] == '*'
        || lead[i] == '`' by {
        reveal(is_outer_mark);
        assert(is_outer_mark(lead[i]));
    }
    lemma_kept_all(lead, p);
    lemma_kept_all(tail, q);
    let (x, z) = (without_stars_and_ticks(lead), without_stars_and_ticks(tail));
    let ends = (x + a, b + z);
    assert(without_stars_and_ticks(s) =~= ends.0 + without_stars_and_ticks(stripped(s)) + ends.1);
    assert forall|i: int| 0 <= i < ends.0.len() implies crate::text::is_space(#[trigger] ends.0[i])
        || ends.0[i] == '#' || ends.0[i] == '-' || ends.0[i] == '_' by {
        if i < x.len() {
            assert(p(x[i]));
        } else {
            assert(ends.0[i] == a[i - x.len()]);
        }
    }
    assert forall|i: int| 0 <= i < ends.1.len() implies crate::text::is_space(#[trigger] ends.1[i])
        || ends.1[i] == '_' by {
        if i < b.len() {
            assert(ends.1[i] == b[i]);
        } else {
            assert(q(z[i - b.len()]));
        }
    }
    ends
}

/// Whether every character of `s` is white space.
pub open spec fn is_blank(s: Seq<char>) -> bool {
    forall|i: int| 0 <= i < s.len() ==> crate::text::is_space(#[trigger] s[i])
}

/// Whether a line is an image and nothing else.
pub open spec fn shows_image_only(s: Seq<char>) -> bool {
    crate::text::stands_at(s, 0, "![image]("@) && s.last() == ')'
}

/// Whether a line holds no markdown.
pub open spec fn is_plain_line(s: Seq<char>) -> bool {
    &&& s.len() > 0
    &&& !s.contains('\n')
    &&& !crate::text::is_space(s[0]) && !crate::text::is_space(s.last())
    &&& s[0] != '#' && s[0] != '*' && s[0] != '_'
    &&& !(s.len() > 1 && s[0] == '-' && s[1] == ' ')
    &&& !s.contains('`')
    &&& forall|i: int| #![trigger s[i]] 0 <= i < s.len() - 1 ==> !(s[i] == '*' && s[i + 1] == '*')
    &&& !shows_image_only(s)
}

proof fn lemma_plain_line(s: Seq<char>)
    requires
        is_plain_line(s),
    ensures
        crate::text::trim(s) == s,
        stripped(s) == s,
        says_something(s),
{
    reveal_strlit("**");
    reveal_strlit("![image](");
    crate::text::law_trimmed_texts_stay(s);
    assert(crate::text::is_space(' '));
    assert forall|k: int| 0 <= k implies !#[trigger] crate::text::stands_at(s, k, "**"@) by {
        if crate::text::stands_at(s, k, "**"@) {
            let t = s.subrange(k, k + 2);
            assert(t[0] == s[k] && t[1] == s[k + 1]);
        }
    }
    crate::text::law_nothing_to_remove(s, "**"@, 0);
    assert(s.skip(0) =~= s);
    crate::text::law_nothing_to_replace(s, '`', ""@);
}

/// A line that holds no markdown is its own title, as far as 80 characters reach, whatever
/// comes behind it.
pub proof fn law_plain_lines_are_their_own_titles(line: Seq<char>, rest: Seq<char>)
    requires
        is_plain_line(line),
    ensures
        stripped(line) == line,
        line.len() <= 80 ==> title_of(line) == line && title_of(line.push('\n') + rest) == line,
        line.len() > 80 ==> title_of(line) == line.take(80) && title_of(line.push('\n') + rest)
            == line.take(80),
{
    lemma_plain_line(line);
    crate::text::law_lines_end_with_newlines(line, rest);
    let all = crate::text::lines(line.push('\n') + rest);
    assert(all[0] == line);
    assert(crate::text::lines(line)[0] == line);
}

/// Whether a line is passed over: it is blank, or an image and nothing else.
pub open spec fn is_passed_over(s: Seq<char>) -> bool {
    !s.contains('\n') && (is_blank(s) || (shows_image_only(s)
        && !crate::text::is_space(s[0])))
}

proof fn lemma_headline_shift(first: Seq<char>, rest: Seq<Seq<char>>, i: int, n: int)
    requires
        0 <= i,
    ensures
        headline(seq![first] + rest, i + 1, n) == headline(rest, i, n),
    decreases rest.len() - i,
{
    let all = seq![first] + rest;
    if i < rest.len() {
        assert(all[i + 1] == rest[i]);
        lemma_headline_shift(first, rest, i + 1, n);
    }
}

proof fn lemma_first_line_shift(first: Seq<char>, rest: Seq<Seq<char>>, i: int)
    requires
        0 <= i,
    ensures
        first_line(seq![first] + rest, i + 1) == first_line(rest, i) + 1,
    decreases rest.len() - i,
{
    let all = seq![first] + rest;
    if i < rest.len() {
        assert(all[i + 1] == rest[i]);
        lemma_first_line_shift(first, rest, i + 1);
    }
}

proof fn lemma_passed_over(line: Seq<char>)
    requires
        is_passed_over(line),
    ensures
        !says_something(line),
        line.len() > 0 && line.last() == '\r' ==> !says_something(line.drop_last()),
{
    reveal_strlit("![image](");
    if is_blank(line) {
        let (a, b) = crate::text::law_trimming_takes_white_space_only(line);
        assert(a == b) by {
            if a < b {
                assert(crate::text::is_space(line[a]));
            }
        }
        if line.len() > 0 {
            let t = line.drop_last();
            let (c, d) = crate::text::law_trimming_takes_white_space_only(t);
            assert(c == d) by {
                if c < d {
                    assert(t[c] == line[c]);
                    assert(crate::text::is_space(line[c]));
                }
            }
        }
    } else {
        crate::text::law_trimmed_texts_stay(line);
        assert(crate::text::has_prefix(line, crate::body::image_open()));
    }
}

/// Blank lines and images in front of a body change neither its title nor its snippet.
pub proof fn law_blank_lines_and_images_are_passed_over(line: Seq<char>, body: Seq<char>)
    requires
        is_passed_over(line),
    ensures
        title_of(line.push('\n') + body) == title_of(body),
        snippet_of(line.push('\n') + body) == snippet_of(body),
{
    lemma_passed_over(line);
    crate::text::law_lines_end_with_newlines(line, body);
    let rest = crate::text::lines(body);
    let all = crate::text::lines(line.push('\n') + body);
    let first = all[0];
    assert(all =~= seq![first] + rest);
    lemma_headline_shift(first, rest, 0, 80);
    lemma_first_line_shift(first, rest, 0);
    lemma_first_line(rest, 0);
    lemma_headline_shift(first, rest, first_line(rest, 0) + 1, 120);
}

proof fn lemma_first_line(lines: Seq<Seq<char>>, i: int)
    requires
        0 <= i <= lines.len(),
    ensures
        i <= first_line(lines, i) <= lines.len(),
    decreases lines.len() - i,
{
    if i < lines.len() && !says_something(lines[i]) {
        lemma_first_line(lines, i + 1);
    }
}

/// The snippet comes from behind the line that says something first: it is the title that
/// the rest of the body would have, but for its length.
pub proof fn law_snippets_come_from_the_rest(line: Seq<char>, body: Seq<char>)
    requires
        is_plain_line(line),
    ensures
        snippet_of(line) == Seq::<char>::empty(),
        title_of(body).len() < 80 ==> snippet_of(line.push('\n') + body) == title_of(body),
        title_of(body) == first_chars(snippet_of(line.push('\n') + body), 80),
{
    lemma_plain_line(line);
    crate::text::law_lines_end_with_newlines(line, body);
    let rest = crate::text::lines(body);
    let all = crate::text::lines(line.push('\n') + body);
    assert(all[0] == line);
    assert(all =~= seq![line] + rest);
    assert(first_line(all, 0) == 0);
    lemma_headline_shift(line, rest, 0, 120);
    lemma_headline_cut(rest, 0);
    let only = crate::text::lines(line);
    assert(only[0] == line);
    assert(first_line(only, 0) == 0);
}

proof fn lemma_headline_cut(lines: Seq<Seq<char>>, i: int)
    ensures
        headline(lines, i, 80) == first_chars(headline(lines, i, 120), 80),
    decreases lines.len() - i,
{
    if 0 <= i < lines.len() {
        lemma_headline_cut(lines, i + 1);
        let t = stripped(crate::text::trim(lines[i]));
        if t.len() > 120 {
            assert(t.take(120).take(80) =~= t.take(80));
        }
    }
}

proof fn lemma_stripped_steps(s: Seq<char>, line: Seq<char>, plain: Seq<char>, inner: Seq<char>)
    requires
        crate::text::trim(s) == s,
        without_bullet(without_space(without_hashes(s))) == line,
        crate::text::replace_char(crate::text::remove_from(line, "**"@, 0), '`', ""@) == plain,
        without_emphasis(plain) == inner,
        crate::text::trim(inner) == inner,
    ensures
        stripped(s) == inner,
{
}

proof fn lemma_no_bold(s: Seq<char>)
    requires
        forall|i: int| #![trigger s[i]] 0 <= i < s.len() - 1 ==> !(s[i] == '*' && s[i + 1] == '*'),
    ensures
        crate::text::remove_from(s, "**"@, 0) == s,
{
    reveal_strlit("**");
    assert forall|k: int| 0 <= k implies !#[trigger] crate::text::stands_at(s, k, "**"@) by {
        if crate::text::stands_at(s, k, "**"@) {
            let t = s.subrange(k, k + 2);
            assert(t[0] == s[k] && t[1] == s[k + 1]);
        }
    }
    crate::text::law_nothing_to_remove(s, "**"@, 0);
    assert(s.skip(0) =~= s);
}

proof fn lemma_hashes_off(n: nat, t: Seq<char>)
    requires
        t.len() > 0 ==> t[0] != '#',
    ensures
        without_hashes(Seq::new(n, |i: int| '#') + t) == t,
    decreases n,
{
    let s = Seq::new(n, |i: int| '#') + t;
    if n > 0 {
        lemma_hashes_off((n - 1) as nat, t);
        assert(s.skip(1) =~= Seq::new((n - 1) as nat, |i: int| '#') + t);
    } else {
        assert(s =~= t);
    }
}

/// Headings and list items get the title that their text has.
pub proof fn law_headings_and_bullets_come_off(t: Seq<char>, level: nat)
    requires
        is_plain_line(t),
    ensures
        stripped(Seq::new(level, |i: int| '#') + seq![' '] + t) == t,
        stripped(seq!['-', ' '] + t) == t,
        stripped(seq!['*', ' '] + t) == t,
{
    lemma_plain_line(t);
    lemma_no_bold(t);
    crate::text::law_nothing_to_replace(t, '`', ""@);
    assert(crate::text::is_space(' ') && !crate::text::is_space('#') && !crate::text::is_space('-')
        && !crate::text::is_space('*'));
    let hashes = Seq::new(level, |i: int| '#');
    let s = hashes + seq![' '] + t;
    assert(s.last() == t.last());
    if level > 0 {
        assert(s[0] == '#');
        crate::text::law_trimmed_texts_stay(s);
        assert(s =~= hashes + (seq![' '] + t));
        lemma_hashes_off(level, seq![' '] + t);
        assert((seq![' '] + t).skip(1) =~= t);
        lemma_stripped_steps(s, t, t, t);
    } else {
        assert(s =~= seq![' '] + t);
        let (a, b) = crate::text::law_trimming_takes_white_space_only(s);
        assert(a == 1 && b == s.len()) by {
            assert(s[0] == ' ' && s[1] == t[0]);
            assert(!crate::text::is_space(s[1]));
            assert(!crate::text::is_space(s[s.len() - 1]));
        }
        assert(s.subrange(1, s.len() as int) =~= t);
    }
    let dash = seq!['-', ' '] + t;
    assert(dash.last() == t.last());
    crate::text::law_trimmed_texts_stay(dash);
    assert(dash.skip(2) =~= t);
    lemma_stripped_steps(dash, t, t, t);
    let star = seq!['*', ' '] + t;
    assert(star.last() == t.last());
    crate::text::law_trimmed_texts_stay(star);
    assert(star.skip(2) =~= t);
    lemma_stripped_steps(star, t, t, t);
}

/// Bold, italic and code marks around a line come off its title.
pub proof fn law_emphasis_comes_off(t: Seq<char>)
    requires
        is_plain_line(t),
        !t.contains('*'),
    ensures
        stripped(seq!['_'] + t + seq!['_']) == t,
        stripped(seq!['*'] + t + seq!['*']) == t,
        stripped(seq!['*', '*'] + t + seq!['*', '*']) == t,
        stripped(seq!['`'] + t + seq!['`']) == t,
{
    lemma_plain_line(t);
    lemma_no_bold(t);
    crate::text::law_nothing_to_replace(t, '`', ""@);
    assert(!crate::text::is_space('_') && !crate::text::is_space('*') && !crate::text::is_space('`'));
    assert(crate::text::is_space(' '));
    let n = t.len() as int;
    assert forall|i: int| 0 <= i < n implies #[trigger] t[i] != '*' && t[i] != '`' by {
        assert(t.contains(t[i]));
    }
    lemma_around(t, '_');
    lemma_around(t, '*');
    // Bold.
    reveal_strlit("**");
    let bold = seq!['*', '*'] + t + seq!['*', '*'];
    crate::text::law_trimmed_texts_stay(bold);
    assert(bold[1] == '*');
    assert(bold.subrange(0, 2) =~= "**"@);
    assert(crate::text::stands_at(bold, 0, "**"@));
    assert(bold.subrange(n + 2, n + 4) =~= "**"@);
    assert(crate::text::stands_at(bold, n + 2, "**"@));
    assert forall|j: int| 2 <= j < n + 2 implies !#[trigger] crate::text::stands_at(bold, j, "**"@) by {
        if crate::text::stands_at(bold, j, "**"@) {
            assert(bold.subrange(j, j + 2)[0] == bold[j]);
            assert(bold[j] == t[j - 2]);
        }
    }
    crate::text::law_removing_keeps_what_is_between(bold, "**"@, 0, 0);
    crate::text::law_removing_keeps_what_is_between(bold, "**"@, 2, n + 2);
    assert(bold.subrange(2, n + 2) =~= t);
    assert(crate::text::remove_from(bold, "**"@, n + 4) =~= Seq::empty());
    assert(crate::text::remove_from(bold, "**"@, 0) =~= t);
    lemma_stripped_steps(bold, bold, t, t);
    // Code.
    reveal_strlit("");
    let code = seq!['`'] + t + seq!['`'];
    crate::text::law_trimmed_texts_stay(code);
    assert forall|i: int| #![trigger code[i]] 0 <= i < code.len() - 1 implies !(code[i] == '*'
        && code[i + 1] == '*') by {
        if 0 < i <= n {
            assert(code[i] == t[i - 1]);
        }
    }
    lemma_no_bold(code);
    crate::text::law_replacing_goes_piece_by_piece(seq!['`'] + t, seq!['`'], '`', ""@);
    crate::text::law_replacing_goes_piece_by_piece(seq!['`'], t, '`', ""@);
    assert(crate::text::replace_char(code, '`', ""@) =~= t);
    lemma_stripped_steps(code, code, t, t);
}

proof fn lemma_around(t: Seq<char>, m: char)
    requires
        is_plain_line(t),
        m == '_' || m == '*',
        !t.contains('*'),
    ensures
        stripped(seq![m] + t + seq![m]) == t,
{
    let s = seq![m] + t + seq![m];
    let n = t.len() as int;
    lemma_plain_line(t);
    assert(!crate::text::is_space('_') && !crate::text::is_space('*'));
    assert(crate::text::is_space(' '));
    crate::text::law_trimmed_texts_stay(s);
    assert(s[1] == t[0]);
    assert forall|i: int| 0 <= i < n implies #[trigger] t[i] != '*' && t[i] != '`' by {
        assert(t.contains(t[i]));
    }
    assert forall|i: int| #![trigger s[i]] 0 <= i < s.len() - 1 implies !(s[i] == '*' && s[i + 1]
        == '*') by {
        if 0 < i <= n {
            assert(s[i] == t[i - 1]);
        }
    }
    lemma_no_bold(s);
    assert(!s.contains('`')) by {
        if s.contains('`') {
            let i = choose|i: int| 0 <= i < s.len() && s[i] == '`';
            if 0 < i <= n {
                assert(s[i] == t[i - 1]);
            }
        }
    }
    crate::text::law_nothing_to_replace(s, '`', ""@);
    assert(s.subrange(1, s.len() - 1) =~= t);
    assert(without_emphasis(t) == t);
    lemma_stripped_steps(s, s, s, t);
}

/// No backtick is left in a title or in a snippet, and no white space around it.
pub proof fn law_stripped_lines_hold_no_backticks(s: Seq<char>)
    ensures
        !stripped(s).contains('`'),
        stripped(s).len() > 0 ==> !crate::text::is_space(stripped(s)[0]) && !crate::text::is_space(
            stripped(s).last(),
        ),
{
    let bare = crate::text::remove_from(marked_line(s), "**"@, 0);
    let plain = crate::text::replace_char(bare, '`', ""@);
    lemma_no_ticks(bare);
    let (e, f) = lemma_emphasis(plain);
    let inner = without_emphasis(plain);
    let (k, l) = crate::text::law_trimming_takes_white_space_only(inner);
    if stripped(s).contains('`') {
        let i = choose|i: int| 0 <= i < stripped(s).len() && stripped(s)[i] == '`';
        assert(inner[k + i] == '`');
        assert(plain[e.len() + k + i] == '`');
    }
}

proof fn lemma_no_ticks(s: Seq<char>)
    ensures
        !crate::text::replace_char(s, '`', ""@).contains('`'),
    decreases s.len(),
{
    reveal_strlit("");
    if s.len() > 0 {
        lemma_no_ticks(s.drop_last());
        let before = crate::text::replace_char(s.drop_last(), '`', ""@);
        let all = crate::text::replace_char(s, '`', ""@);
        if all.contains('`') {
            let i = choose|i: int| 0 <= i < all.len() && all[i] == '`';
            if i < before.len() {
                assert(before[i] == '`');
            }
        }
    }
}

}
