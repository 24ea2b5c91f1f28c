//! Text as sequences of characters: searching, trimming, splitting, numbers.

use vstd::prelude::*;

verus! {

// ───────────────────────────── the standard library ─────────────────────────────
/// `String::push`: appends one character.
pub assume_specification[ String::push ](s: &mut String, c: char)
    ensures
        final(s)@ == old(s)@.push(c),
;

/// The characters with Unicode's `White_Space` property.
pub open spec fn is_space(c: char) -> bool {
    let n = c as int;
    ||| 0x09 <= n <= 0x0d
    ||| n == 0x20
    ||| n == 0x85
    ||| n == 0xa0
    ||| n == 0x1680
    ||| 0x2000 <= n <= 0x200a
    ||| 0x2028 <= n <= 0x2029
    ||| n == 0x202f
    ||| n == 0x205f
    ||| n == 0x3000
}

/// `char::is_whitespace`: true of the characters with Unicode's `White_Space`
/// property, which `is_space` lists.
pub assume_specification[ char::is_whitespace ](c: char) -> (b: bool)
    ensures
        b == is_space(c),
;

/// The characters of Unicode's general category `Cc`.
pub open spec fn is_control_char(c: char) -> bool {
    c as int <= 0x1f || 0x7f <= c as int <= 0x9f
}

/// `char::is_control`: true of the characters of general category `Cc`, which
/// `is_control_char` lists.
pub assume_specification[ char::is_control ](c: char) -> (b: bool)
    ensures
        b == is_control_char(c),
;

/// Letters and digits of ASCII.
pub open spec fn is_ascii_alnum(c: char) -> bool {
    ('a' <= c && c <= 'z') || ('A' <= c && c <= 'Z') || ('0' <= c && c <= '9')
}

/// What `char::is_alphanumeric` answers for `c`.
pub uninterp spec fn is_alnum(c: char) -> bool;

/// `char::is_alphanumeric`: a function of the character alone. On ASCII it is true of
/// the letters and the digits; which characters beyond ASCII are letters or numbers is
/// left to Unicode's tables.
pub assume_specification[ char::is_alphanumeric ](c: char) -> (b: bool)
    ensures
        b == is_alnum(c),
        (c as int) < 0x80 ==> b == is_ascii_alnum(c),
;

/// What `str::to_lowercase` makes of `s`.
pub uninterp spec fn lowercase(s: Seq<char>) -> Seq<char>;

/// `str::to_lowercase`: the lower-case text is a function of the text alone. Unicode's
/// case tables, which say what it is, are not restated.
#[verifier::external_body]
pub(crate) fn to_lowercase(s: &str) -> (r: String)
    ensures
        r@ == lowercase(s@),
{
    s.to_lowercase()
}

// ───────────────────────────── conversions ─────────────────────────────
/// The characters of `s`, in order.
pub fn chars_of(s: &str) -> (v: Vec<char>)
    ensures
        v@ == s@,
{
    let mut v: Vec<char> = Vec::new();
    for c in it: s.chars()
        invariant
            it.seq() == s@,
            v@ == s@.take(it.index()),
    {
        v.push(c);
    }
    assert(s@.take(s@.len() as int) == s@);
    v
}

/// The string made of the characters of `v`.
pub fn string_of(v: &Vec<char>) -> (s: String)
    ensures
        s@ == v@,
{
    string_between(v, 0, v.len())
}

/// The string made of the characters of `v` from `from` up to `to`.
pub fn string_between(v: &Vec<char>, from: usize, to: usize) -> (s: String)
    requires
        from <= to <= v@.len(),
    ensures
        s@ == v@.subrange(from as int, to as int),
{
    let mut s: String = String::new();
    let mut i: usize = from;
    while i < to
        invariant
            from <= i <= to <= v@.len(),
            s@ == v@.subrange(from as int, i as int),
        decreases to - i,
    {
        s.push(v[i]);
        i += 1;
    }
    s
}

/// The characters of `v` from `from` up to `to`.
pub fn chars_between(v: &Vec<char>, from: usize, to: usize) -> (r: Vec<char>)
    requires
        from <= to <= v@.len(),
    ensures
        r@ == v@.subrange(from as int, to as int),
{
    let mut r: Vec<char> = Vec::new();
    let mut i: usize = from;
    while i < to
        invariant
            from <= i <= to <= v@.len(),
            r@ == v@.subrange(from as int, i as int),
        decreases to - i,
    {
        r.push(v[i]);
        i += 1;
    }
    r
}

/// The texts that a sequence of strings holds.
pub open spec fn texts(v: Seq<String>) -> Seq<Seq<char>> {
    v.map_values(|s: String| s@)
}

/// The texts that a sequence of character vectors holds.
pub open spec fn char_texts(v: Seq<Vec<char>>) -> Seq<Seq<char>> {
    v.map_values(|s: Vec<char>| s@)
}

/// Whether two character vectors hold the same text.
pub fn same_chars(a: &Vec<char>, b: &Vec<char>) -> (r: bool)
    ensures
        r == (a@ == b@),
{
    if a.len() != b.len() {
        return false;
    }
    let mut i: usize = 0;
    while i < a.len()
        invariant
            i <= a@.len(),
            a@.len() == b@.len(),
            forall|k: int| 0 <= k < i ==> a@[k] == b@[k],
        decreases a@.len() - i,
    {
        if a[i] != b[i] {
            return false;
        }
        i += 1;
    }
    assert(a@ =~= b@);
    true
}

/// Whether two strings hold the same text.
pub fn same_text(a: &str, b: &str) -> (r: bool)
    ensures
        r == (a@ == b@),
{
    same_chars(&chars_of(a), &chars_of(b))
}

// ───────────────────────────── searching ─────────────────────────────
/// Whether `p` stands in `s` at position `i`.
pub open spec fn stands_at(s: Seq<char>, i: int, p: Seq<char>) -> bool {
    0 <= i && i + p.len() <= s.len() && s.subrange(i, i + p.len()) == p
}

/// The first position at or after `i` at which `p` stands in `s`.
pub open spec fn find_at(s: Seq<char>, p: Seq<char>, i: int) -> Option<int>
    decreases s.len() - i + 1,
{
    if i < 0 || i + p.len() > s.len() {
        None
    } else if stands_at(s, i, p) {
        Some(i)
    } else {
        find_at(s, p, i + 1)
    }
}

/// `find_at` gives a position at which `p` stands, and the first one.
pub proof fn lemma_find_at(s: Seq<char>, p: Seq<char>, i: int)
    requires
        0 <= i,
    ensures
        find_at(s, p, i) matches Some(k) ==> {
            &&& i <= k
            &&& stands_at(s, k, p)
            &&& forall|j: int| i <= j < k ==> !stands_at(s, j, p)
        },
        find_at(s, p, i) is None ==> forall|j: int| i <= j ==> !stands_at(s, j, p),
    decreases s.len() - i + 1,
{
    if i + p.len() <= s.len() && !stands_at(s, i, p) {
        lemma_find_at(s, p, i + 1);
    }
}

/// The first position at or after `i` that holds the character `c`.
pub open spec fn find_char(s: Seq<char>, c: char, i: int) -> Option<int>
    decreases s.len() - i,
{
    if i < 0 || i >= s.len() {
        None
    } else if s[i] == c {
        Some(i)
    } else {
        find_char(s, c, i + 1)
    }
}

/// `find_char` gives a position that holds `c`, and the first one.
pub proof fn lemma_find_char(s: Seq<char>, c: char, i: int)
    requires
        0 <= i,
    ensures
        find_char(s, c, i) matches Some(k) ==> {
            &&& i <= k < s.len()
            &&& s[k] == c
            &&& forall|j: int| i <= j < k ==> s[j] != c
        },
        find_char(s, c, i) is None ==> forall|j: int| i <= j < s.len() ==> s[j] != c,
    decreases s.len() - i,
{
    if i < s.len() && s[i] != c {
        lemma_find_char(s, c, i + 1);
    }
}

/// Whether `p` stands in `v` at position `i`.
pub fn starts_at(v: &Vec<char>, i: usize, p: &Vec<char>) -> (b: bool)
    ensures
        b == stands_at(v@, i as int, p@),
{
    if i > v.len() || p.len() > v.len() - i {
        return false;
    }
    let mut k: usize = 0;
    while k < p.len()
        invariant
            k <= p@.len(),
            i + p.len() <= v.len(),
            forall|j: int| 0 <= j < k ==> v@[i + j] == p@[j],
        decreases p@.len() - k,
    {
        if v[i + k] != p[k] {
            assert(v@.subrange(i as int, i + p@.len())[k as int] != p@[k as int]);
            return false;
        }
        k += 1;
    }
    assert(v@.subrange(i as int, i + p@.len()) =~= p@);
    true
}

/// The first position at or after `i` at which `p` stands in `v`.
pub fn find_from(v: &Vec<char>, p: &Vec<char>, i: usize) -> (r: Option<usize>)
    ensures
        match r {
            Some(k) => find_at(v@, p@, i as int) == Some(k as int),
            None => find_at(v@, p@, i as int) is None,
        },
{
    let mut k: usize = i;
    while k <= v.len() && p.len() <= v.len() - k
        invariant
            i <= k,
            find_at(v@, p@, i as int) == find_at(v@, p@, k as int),
        decreases v@.len() - k + 1,
    {
        if starts_at(v, k, p) {
            return Some(k);
        }
        if k == v.len() {
            assert(v@.subrange(k as int, k + p@.len()) =~= p@);
        }
        k += 1;
    }
    None
}

/// The first position at or after `i` that holds `c`.
pub fn find_char_from(v: &Vec<char>, c: char, i: usize) -> (r: Option<usize>)
    ensures
        match r {
            Some(k) => find_char(v@, c, i as int) == Some(k as int),
            None => find_char(v@, c, i as int) is None,
        },
{
    let mut k: usize = i;
    while k < v.len()
        invariant
            i <= k,
            find_char(v@, c, i as int) == find_char(v@, c, k as int),
        decreases v@.len() - k,
    {
        if v[k] == c {
            return Some(k);
        }
        k += 1;
    }
    None
}

/// Whether `p` occurs in `s`.
pub open spec fn occurs(s: Seq<char>, p: Seq<char>) -> bool {
    find_at(s, p, 0) is Some
}

/// Whether `p` occurs in `v`.
pub fn contains(v: &Vec<char>, p: &Vec<char>) -> (b: bool)
    ensures
        b == occurs(v@, p@),
{
    find_from(v, p, 0).is_some()
}

/// Whether `s` begins with `p`.
pub open spec fn has_prefix(s: Seq<char>, p: Seq<char>) -> bool {
    stands_at(s, 0, p)
}

/// Whether `s` ends with `p`.
pub open spec fn has_suffix(s: Seq<char>, p: Seq<char>) -> bool {
    stands_at(s, s.len() - p.len(), p)
}

/// Whether `v` ends with `p`.
pub fn ends_with(v: &Vec<char>, p: &Vec<char>) -> (b: bool)
    ensures
        b == has_suffix(v@, p@),
{
    p.len() <= v.len() && starts_at(v, v.len() - p.len(), p)
}

// ───────────────────────────── trimming and lines ─────────────────────────────
/// `s` without its leading white space.
pub open spec fn trim_start(s: Seq<char>) -> Seq<char>
    decreases s.len(),
{
    if s.len() > 0 && is_space(s.first()) {
        trim_start(s.drop_first())
    } else {
        s
    }
}

/// `s` without its trailing white space.
pub open spec fn trim_end(s: Seq<char>) -> Seq<char>
    decreases s.len(),
{
    if s.len() > 0 && is_space(s.last()) {
        trim_end(s.drop_last())
    } else {
        s
    }
}

/// `s` without its leading and trailing white space.
pub open spec fn trim(s: Seq<char>) -> Seq<char> {
    trim_end(trim_start(s))
}

/// `v` without its leading and trailing white space.
pub fn trimmed(v: &Vec<char>) -> (r: Vec<char>)
    ensures
        r@ == trim(v@),
{
    let mut from: usize = 0;
    assert(v@.subrange(0, v@.len() as int) =~= v@);
    while from < v.len() && v[from].is_whitespace()
        invariant
            from <= v@.len(),
            trim_start(v@) == trim_start(v@.subrange(from as int, v@.len() as int)),
        decreases v@.len() - from,
    {
        assert(v@.subrange(from as int, v@.len() as int).drop_first() =~= v@.subrange(
            from + 1,
            v@.len() as int,
        ));
        from += 1;
    }
    let mut to: usize = v.len();
    while to > from && v[to - 1].is_whitespace()
        invariant
            from <= to <= v@.len(),
            trim_end(v@.subrange(from as int, v@.len() as int)) == trim_end(
                v@.subrange(from as int, to as int),
            ),
        decreases to,
    {
        assert(v@.subrange(from as int, to as int).drop_last() =~= v@.subrange(
            from as int,
            to - 1,
        ));
        to -= 1;
    }
    chars_between(v, from, to)
}

/// `s` trimmed, as a string.
pub fn trimmed_text(s: &str) -> (r: String)
    ensures
        r@ == trim(s@),
{
    string_of(&trimmed(&chars_of(s)))
}

/// A line without the carriage return that ends it.
pub open spec fn strip_cr(s: Seq<char>) -> Seq<char> {
    if s.len() > 0 && s.last() == '\r' {
        s.drop_last()
    } else {
        s
    }
}

/// The lines of `s` from position `i` on. A line ends with `\n` or `\r\n`; the last
/// one may end with the text.
pub open spec fn lines_from(s: Seq<char>, i: int) -> Seq<Seq<char>>
    decreases s.len() - i,
{
    if i < 0 || i >= s.len() {
        Seq::empty()
    } else {
        match find_char(s, '\n', i) {
            None => seq![s.subrange(i, s.len() as int)],
            Some(k) => if i <= k < s.len() {
                seq![strip_cr(s.subrange(i, k))] + lines_from(s, k + 1)
            } else {
                Seq::empty()
            },
        }
    }
}

/// The lines of `s`.
pub open spec fn lines(s: Seq<char>) -> Seq<Seq<char>> {
    lines_from(s, 0)
}

/// The lines of `v`.
pub fn lines_of(v: &Vec<char>) -> (r: Vec<Vec<char>>)
    ensures
        char_texts(r@) == lines(v@),
{
    let mut r: Vec<Vec<char>> = Vec::new();
    let mut i: usize = 0;
    while i < v.len()
        invariant
            i <= v@.len(),
            lines(v@) == char_texts(r@) + lines_from(v@, i as int),
        decreases v@.len() - i,
    {
        proof {
            lemma_find_char(v@, '\n', i as int);
        }
        match find_char_from(v, '\n', i) {
            None => {
                r.push(chars_between(v, i, v.len()));
                assert(lines(v@) =~= char_texts(r@));
                i = v.len();
            },
            Some(k) => {
                let line = if k > i && v[k - 1] == '\r' {
                    assert(v@.subrange(i as int, k as int).drop_last() =~= v@.subrange(
                        i as int,
                        k - 1,
                    ));
                    chars_between(v, i, k - 1)
                } else {
                    chars_between(v, i, k)
                };
                assert(line@ == strip_cr(v@.subrange(i as int, k as int)));
                r.push(line);
                i = k + 1;
                assert(lines(v@) =~= char_texts(r@) + lines_from(v@, i as int));
            },
        }
    }
    assert(lines(v@) =~= char_texts(r@));
    r
}

// ───────────────────────────── numbers ─────────────────────────────
/// The digit `n`, for `n` under ten.
pub open spec fn digit(n: nat) -> char {
    (48 + n) as char
}

/// `n` in decimal.
pub open spec fn dec(n: nat) -> Seq<char>
    decreases n,
{
    if n < 10 {
        seq![digit(n)]
    } else {
        dec(n / 10).push(digit(n % 10))
    }
}

/// `i` in decimal, with a minus sign where it is negative.
pub open spec fn dec_int(i: int) -> Seq<char> {
    if i < 0 {
        seq!['-'] + dec((-i) as nat)
    } else {
        dec(i as nat)
    }
}

/// The last `w` decimal digits of `n`, with leading zeros.
pub open spec fn padded(n: nat, w: nat) -> Seq<char>
    decreases w,
{
    if w == 0 {
        Seq::empty()
    } else {
        padded(n / 10, (w - 1) as nat).push(digit(n % 10))
    }
}

fn digit_char(d: u64) -> (c: char)
    requires
        d < 10,
    ensures
        c == digit(d as nat),
{
    (48 + d as u8) as char
}

/// Appends `n` in decimal.
pub fn push_dec(out: &mut String, n: u64)
    ensures
        final(out)@ == old(out)@ + dec(n as nat),
    decreases n,
{
    if n >= 10 {
        push_dec(out, n / 10);
    }
    out.push(digit_char(n % 10));
    assert(out@ =~= old(out)@ + dec(n as nat));
}

/// Appends `i` in decimal.
pub fn push_int(out: &mut String, i: i64)
    ensures
        final(out)@ == old(out)@ + dec_int(i as int),
{
    if i < 0 {
        out.push('-');
        let n: u64 = (-(i + 1)) as u64 + 1;
        push_dec(out, n);
        assert(out@ =~= old(out)@ + dec_int(i as int));
    } else {
        push_dec(out, i as u64);
    }
}

/// Appends the last `w` digits of `n`.
pub fn push_padded(out: &mut String, n: u64, w: u64)
    ensures
        final(out)@ == old(out)@ + padded(n as nat, w as nat),
    decreases w,
{
    if w > 0 {
        push_padded(out, n / 10, w - 1);
        out.push(digit_char(n % 10));
    }
    assert(out@ =~= old(out)@ + padded(n as nat, w as nat));
}

/// `n` in decimal, as a string.
pub fn dec_text(n: u64) -> (s: String)
    ensures
        s@ == dec(n as nat),
{
    let mut s: String = String::new();
    push_dec(&mut s, n);
    assert(s@ =~= dec(n as nat));
    s
}

/// A number of millionths, to the nearest thousandth, with three decimals.
pub open spec fn thousandths(millionths: nat) -> Seq<char> {
    let n = (millionths + 500) / 1000;
    dec(n / 1000).push('.') + padded(n % 1000, 3)
}

/// Appends a number of millionths with three decimals.
pub fn push_thousandths(out: &mut String, millionths: u64)
    ensures
        final(out)@ == old(out)@ + thousandths(millionths as nat),
{
    let n: u64 = millionths / 1000 + (if millionths % 1000 >= 500 { 1 } else { 0 });
    assert(n as nat == (millionths as nat + 500) / 1000);
    push_dec(out, n / 1000);
    out.push('.');
    push_padded(out, n % 1000, 3);
    assert(out@ =~= old(out)@ + thousandths(millionths as nat));
}

/// Whether `c` is a decimal digit.
pub open spec fn is_digit(c: char) -> bool {
    '0' <= c && c <= '9'
}

/// Whether every character of `s` is a decimal digit, and there is one.
pub open spec fn all_digits(s: Seq<char>) -> bool {
    s.len() > 0 && forall|i: int| 0 <= i < s.len() ==> is_digit(#[trigger] s[i])
}

/// The number that a sequence of digits writes.
pub open spec fn digits_value(s: Seq<char>) -> int
    decreases s.len(),
{
    if s.len() == 0 {
        0
    } else {
        10 * digits_value(s.drop_last()) + (s.last() as int - 48)
    }
}

/// The integer that `s` writes: an optional sign, then at least one digit.
pub open spec fn integer_value(s: Seq<char>) -> Option<int> {
    if s.len() > 0 && s[0] == '-' && all_digits(s.drop_first()) {
        Some(-digits_value(s.drop_first()))
    } else if s.len() > 0 && s[0] == '+' && all_digits(s.drop_first()) {
        Some(digits_value(s.drop_first()))
    } else if all_digits(s) {
        Some(digits_value(s))
    } else {
        None
    }
}

proof fn lemma_digits_value_nonneg(s: Seq<char>)
    requires
        forall|i: int| 0 <= i < s.len() ==> is_digit(#[trigger] s[i]),
    ensures
        digits_value(s) >= 0,
    decreases s.len(),
{
    if s.len() > 0 {
        lemma_digits_value_nonneg(s.drop_last());
    }
}

proof fn lemma_digits_value_grows(s: Seq<char>, k: int)
    requires
        0 <= k <= s.len(),
        forall|i: int| 0 <= i < s.len() ==> is_digit(#[trigger] s[i]),
    ensures
        digits_value(s.take(k)) <= digits_value(s),
    decreases s.len(),
{
    if k < s.len() {
        lemma_digits_value_grows(s.drop_last(), k);
        assert(s.drop_last().take(k) =~= s.take(k));
        lemma_digits_value_nonneg(s.drop_last());
    } else {
        assert(s.take(k) =~= s);
    }
}

/// The number that the digits of `v` from `from` on write, if they are digits and the
/// number is at most `max`.
fn parse_digits(v: &Vec<char>, from: usize, max: u64) -> (r: Option<u64>)
    requires
        from <= v@.len(),
    ensures
        r is Some <==> all_digits(v@.skip(from as int)) && digits_value(v@.skip(from as int))
            <= max,
        r matches Some(n) ==> n == digits_value(v@.skip(from as int)),
{
    let ghost s = v@.skip(from as int);
    if from == v.len() {
        return None;
    }
    let mut value: u64 = 0;
    let mut i: usize = from;
    assert(s.take(0) =~= Seq::<char>::empty());
    while i < v.len()
        invariant
            from <= i <= v@.len(),
            s == v@.skip(from as int),
            value == digits_value(s.take(i - from)),
            value <= max,
            forall|k: int| 0 <= k < i - from ==> is_digit(#[trigger] s[k]),
        decreases v@.len() - i,
    {
        let c = v[i];
        assert(c == s[i - from]);
        if c < '0' || c > '9' {
            return None;
        }
        let d: u64 = (c as u32 - 48) as u64;
        let ghost upto = s.take(i + 1 - from);
        assert(upto.drop_last() =~= s.take(i - from));
        assert(digits_value(upto) == 10 * value + d);
        if value > max / 10 || (value == max / 10 && d > max % 10) {
            proof {
                if all_digits(s) {
                    lemma_digits_value_grows(s, i + 1 - from);
                }
            }
            return None;
        }
        value = value * 10 + d;
        i += 1;
    }
    assert(s.take(i - from) =~= s);
    Some(value)
}

/// The integer that `v` writes, if it is one between `-limit - 1` and `limit`.
fn parse_signed(v: &Vec<char>, limit: u64) -> (r: Option<i64>)
    requires
        limit <= i64::MAX,
    ensures
        match r {
            Some(n) => integer_value(v@) == Some(n as int) && -limit - 1 <= n <= limit,
            None => integer_value(v@) matches Some(n) ==> n < -limit - 1 || n > limit,
        },
{
    if v.len() == 0 {
        return None;
    }
    assert(v@.skip(1) =~= v@.drop_first());
    assert(v@.skip(0) =~= v@);
    if v[0] == '-' {
        assert(!is_digit(v@[0]));
        match parse_digits(v, 1, limit + 1) {
            Some(n) => {
                if n > limit {
                    Some(-(limit as i64) - 1)
                } else {
                    Some(-(n as i64))
                }
            },
            None => None,
        }
    } else if v[0] == '+' {
        assert(!is_digit(v@[0]));
        match parse_digits(v, 1, limit) {
            Some(n) => {
                proof {
                    lemma_digits_value_nonneg(v@.skip(1));
                }
                Some(n as i64)
            },
            None => {
                proof {
                    if all_digits(v@.skip(1)) {
                        lemma_digits_value_nonneg(v@.skip(1));
                    }
                }
                None
            },
        }
    } else {
        match parse_digits(v, 0, limit) {
            Some(n) => Some(n as i64),
            None => None,
        }
    }
}

/// The `i32` that `v` writes.
pub fn parse_i32(v: &Vec<char>) -> (r: Option<i32>)
    ensures
        match r {
            Some(n) => integer_value(v@) == Some(n as int),
            None => integer_value(v@) matches Some(n) ==> n < i32::MIN || n > i32::MAX,
        },
{
    match parse_signed(v, 0x7fff_ffff) {
        Some(n) => Some(n as i32),
        None => None,
    }
}

/// The `i64` that `v` writes.
pub fn parse_i64(v: &Vec<char>) -> (r: Option<i64>)
    ensures
        match r {
            Some(n) => integer_value(v@) == Some(n as int),
            None => integer_value(v@) matches Some(n) ==> n < i64::MIN || n > i64::MAX,
        },
{
    parse_signed(v, 0x7fff_ffff_ffff_ffff)
}

/// The natural number that `s` writes: an optional plus sign, then at least one digit.
pub open spec fn natural_value(s: Seq<char>) -> Option<int> {
    if s.len() > 0 && s[0] == '+' && all_digits(s.drop_first()) {
        Some(digits_value(s.drop_first()))
    } else if all_digits(s) {
        Some(digits_value(s))
    } else {
        None
    }
}

/// The number up to `max` that `v` writes.
pub fn parse_natural(v: &Vec<char>, max: u64) -> (r: Option<u64>)
    ensures
        match r {
            Some(n) => natural_value(v@) == Some(n as int) && n <= max,
            None => natural_value(v@) matches Some(n) ==> n > max,
        },
{
    if v.len() == 0 {
        return None;
    }
    assert(v@.skip(1) =~= v@.drop_first());
    assert(v@.skip(0) =~= v@);
    if v[0] == '+' {
        assert(!is_digit(v@[0]));
        parse_digits(v, 1, max)
    } else {
        parse_digits(v, 0, max)
    }
}

// ───────────────────────────── case ─────────────────────────────
/// `c` with an ASCII capital letter made small.
pub open spec fn ascii_lower(c: char) -> char {
    if 'A' <= c && c <= 'Z' {
        (c as int + 32) as char
    } else {
        c
    }
}

/// `s` with its ASCII capital letters made small.
pub open spec fn ascii_lowercase(s: Seq<char>) -> Seq<char> {
    s.map_values(|c: char| ascii_lower(c))
}

/// Whether `a` and `b` are the same text but for the case of ASCII letters.
pub open spec fn same_ignoring_case(a: Seq<char>, b: Seq<char>) -> bool {
    ascii_lowercase(a) == ascii_lowercase(b)
}

fn lower_char(c: char) -> (r: char)
    ensures
        r == ascii_lower(c),
{
    if 'A' <= c && c <= 'Z' {
        ((c as u32 as u8) + 32) as char
    } else {
        c
    }
}

/// `v` with its ASCII capital letters made small.
pub fn to_ascii_lowercase(v: &Vec<char>) -> (r: Vec<char>)
    ensures
        r@ == ascii_lowercase(v@),
{
    let mut r: Vec<char> = Vec::new();
    let mut i: usize = 0;
    while i < v.len()
        invariant
            i <= v@.len(),
            r@ == ascii_lowercase(v@.take(i as int)),
        decreases v@.len() - i,
    {
        r.push(lower_char(v[i]));
        i += 1;
        assert(r@ =~= ascii_lowercase(v@.take(i as int)));
    }
    assert(v@.take(i as int) =~= v@);
    r
}

/// Whether `a` and `b` are the same text but for the case of ASCII letters.
pub fn eq_ignore_ascii_case(a: &str, b: &str) -> (r: bool)
    ensures
        r == same_ignoring_case(a@, b@),
{
    same_chars(&to_ascii_lowercase(&chars_of(a)), &to_ascii_lowercase(&chars_of(b)))
}

// ───────────────────────────── order ─────────────────────────────
/// Whether `a` comes before `b`, or is `b`, in the order of their characters.
pub open spec fn text_le(a: Seq<char>, b: Seq<char>) -> bool
    decreases a.len(),
{
    if a.len() == 0 {
        true
    } else if b.len() == 0 {
        false
    } else if a[0] == b[0] {
        text_le(a.drop_first(), b.drop_first())
    } else {
        a[0] < b[0]
    }
}

/// The order of texts is total, and two texts that precede each other are the same.
pub proof fn lemma_text_le_total(a: Seq<char>, b: Seq<char>)
    ensures
        text_le(a, b) || text_le(b, a),
        text_le(a, b) && text_le(b, a) ==> a == b,
    decreases a.len(),
{
    if a.len() > 0 && b.len() > 0 && a[0] == b[0] {
        lemma_text_le_total(a.drop_first(), b.drop_first());
        if a.drop_first() == b.drop_first() {
            assert(a =~= seq![a[0]] + a.drop_first());
            assert(b =~= seq![b[0]] + b.drop_first());
        }
    } else if a.len() == 0 && b.len() == 0 {
        assert(a =~= b);
    }
}

/// The order of texts is transitive.
pub proof fn lemma_text_le_transitive(a: Seq<char>, b: Seq<char>, c: Seq<char>)
    requires
        text_le(a, b),
        text_le(b, c),
    ensures
        text_le(a, c),
    decreases a.len(),
{
    if a.len() > 0 && b.len() > 0 && c.len() > 0 && a[0] == b[0] && b[0] == c[0] {
        lemma_text_le_transitive(a.drop_first(), b.drop_first(), c.drop_first());
    }
}

/// A text precedes itself.
pub proof fn lemma_text_le_reflexive(a: Seq<char>)
    ensures
        text_le(a, a),
{
    lemma_text_le_total(a, a);
}

/// Whether `a` comes before `b`, or is `b`.
pub fn precedes(a: &Vec<char>, b: &Vec<char>) -> (r: bool)
    ensures
        r == text_le(a@, b@),
{
    let mut i: usize = 0;
    assert(a@.skip(0) =~= a@);
    assert(b@.skip(0) =~= b@);
    while i < a.len() && i < b.len()
        invariant
            i <= a@.len(),
            i <= b@.len(),
            text_le(a@, b@) == text_le(a@.skip(i as int), b@.skip(i as int)),
        decreases a@.len() - i,
    {
        assert(a@.skip(i as int).drop_first() =~= a@.skip(i + 1));
        assert(b@.skip(i as int).drop_first() =~= b@.skip(i + 1));
        if a[i] != b[i] {
            return a[i] < b[i];
        }
        i += 1;
    }
    i == a.len()
}

// ───────────────────────────── replacing and joining ─────────────────────────────
/// `s` with every `c` replaced by `with`.
pub open spec fn replace_char(s: Seq<char>, c: char, with: Seq<char>) -> Seq<char>
    decreases s.len(),
{
    if s.len() == 0 {
        Seq::empty()
    } else {
        replace_char(s.drop_last(), c, with) + (if s.last() == c {
            with
        } else {
            seq![s.last()]
        })
    }
}

/// `v` with every `c` replaced by `with`.
pub fn replaced(v: &Vec<char>, c: char, with: &str) -> (r: String)
    ensures
        r@ == replace_char(v@, c, with@),
{
    let mut r: String = String::new();
    let mut i: usize = 0;
    while i < v.len()
        invariant
            i <= v@.len(),
            r@ == replace_char(v@.take(i as int), c, with@),
        decreases v@.len() - i,
    {
        assert(v@.take(i + 1).drop_last() =~= v@.take(i as int));
        if v[i] == c {
            r.append(with);
        } else {
            r.push(v[i]);
            assert(r@ =~= replace_char(v@.take(i as int), c, with@) + seq![v@[i as int]]);
        }
        i += 1;
    }
    assert(v@.take(i as int) =~= v@);
    r
}

/// `s` from position `i` on without the occurrences of `p`, taken from the left and
/// not overlapping.
pub open spec fn remove_from(s: Seq<char>, p: Seq<char>, i: int) -> Seq<char>
    decreases s.len() - i,
{
    if i < 0 || i >= s.len() || p.len() == 0 {
        Seq::empty()
    } else if stands_at(s, i, p) {
        remove_from(s, p, i + p.len())
    } else {
        seq![s[i]] + remove_from(s, p, i + 1)
    }
}

/// `v` without the occurrences of `p`.
pub fn removed(v: &Vec<char>, p: &Vec<char>) -> (r: Vec<char>)
    requires
        p@.len() > 0,
    ensures
        r@ == remove_from(v@, p@, 0),
{
    let mut r: Vec<char> = Vec::new();
    let mut i: usize = 0;
    while i < v.len()
        invariant
            i <= v@.len(),
            p@.len() > 0,
            remove_from(v@, p@, 0) == r@ + remove_from(v@, p@, i as int),
        decreases v@.len() - i,
    {
        if starts_at(v, i, p) {
            i += p.len();
        } else {
            r.push(v[i]);
            i += 1;
        }
        assert(remove_from(v@, p@, 0) =~= r@ + remove_from(v@, p@, i as int));
    }
    assert(remove_from(v@, p@, 0) =~= r@);
    r
}

/// The texts of `parts` in a row, with `sep` between each two.
pub open spec fn join(parts: Seq<Seq<char>>, sep: Seq<char>) -> Seq<char>
    decreases parts.len(),
{
    if parts.len() == 0 {
        Seq::empty()
    } else if parts.len() == 1 {
        parts[0]
    } else {
        join(parts.drop_last(), sep) + sep + parts.last()
    }
}

/// The strings of `parts` in a row, with `sep` between each two.
pub fn joined(parts: &Vec<String>, sep: &str) -> (r: String)
    ensures
        r@ == join(texts(parts@), sep@),
{
    let mut r: String = String::new();
    let mut i: usize = 0;
    while i < parts.len()
        invariant
            i <= parts@.len(),
            r@ == join(texts(parts@.take(i as int)), sep@),
        decreases parts@.len() - i,
    {
        if i > 0 {
            r.append(sep);
        }
        r.append(parts[i].as_str());
        i += 1;
        assert(texts(parts@.take(i as int)).drop_last() =~= texts(parts@.take(i - 1)));
        assert(texts(parts@.take(i as int)).last() == parts@[i - 1]@);
        assert(i == 1 ==> r@ =~= parts@[0]@);
    }
    assert(parts@.take(i as int) =~= parts@);
    r
}

/// Appends `s` to a list of strings.
pub fn push_text(list: &mut Vec<String>, s: &str)
    ensures
        texts(final(list)@) == texts(old(list)@).push(s@),
{
    let ghost before = texts(list@);
    list.push(s.to_owned());
    assert(texts(list@) =~= before.push(s@));
}

/// The pieces of `s` from position `i` on, between the `c`s.
pub open spec fn split_from(s: Seq<char>, c: char, i: int) -> Seq<Seq<char>>
    decreases s.len() - i,
{
    match find_char(s, c, i) {
        Some(k) => if i <= k < s.len() {
            seq![s.subrange(i, k)] + split_from(s, c, k + 1)
        } else {
            Seq::empty()
        },
        None => seq![s.skip(i)],
    }
}

/// The pieces of `v` between the `c`s; one more than there are `c`s.
pub fn split_on(v: &Vec<char>, c: char) -> (r: Vec<Vec<char>>)
    ensures
        char_texts(r@) == split_from(v@, c, 0),
{
    let mut r: Vec<Vec<char>> = Vec::new();
    let mut i: usize = 0;
    let n: usize = v.len();
    loop
        invariant
            i <= n,
            n == v@.len(),
            split_from(v@, c, 0) == char_texts(r@) + split_from(v@, c, i as int),
        decreases n - i,
    {
        let ghost before = char_texts(r@);
        proof {
            lemma_find_char(v@, c, i as int);
        }
        match find_char_from(v, c, i) {
            Some(k) => {
                let piece = chars_between(v, i, k);
                r.push(piece);
                assert(char_texts(r@) =~= before.push(piece@));
                i = k + 1;
                assert(split_from(v@, c, 0) =~= char_texts(r@) + split_from(v@, c, i as int));
            },
            None => {
                let piece = chars_between(v, i, n);
                r.push(piece);
                assert(piece@ =~= v@.skip(i as int));
                assert(char_texts(r@) =~= before.push(piece@));
                assert(split_from(v@, c, 0) =~= char_texts(r@));
                return r;
            },
        }
    }
}

// ───────────────────────────── laws ─────────────────────────────
proof fn lemma_trim_start(s: Seq<char>) -> (a: int)
    ensures
        0 <= a <= s.len(),
        trim_start(s) == s.skip(a),
        forall|i: int| 0 <= i < a ==> is_space(#[trigger] s[i]),
        a < s.len() ==> !is_space(s[a]),
    decreases s.len(),
{
    if s.len() > 0 && is_space(s.first()) {
        let a = lemma_trim_start(s.drop_first());
        assert(s.drop_first().skip(a) =~= s.skip(a + 1));
        assert forall|i: int| 0 <= i < a + 1 implies is_space(#[trigger] s[i]) by {
            if i > 0 {
                assert(s.drop_first()[i - 1] == s[i]);
            }
        }
        a + 1
    } else {
        assert(s.skip(0) =~= s);
        0
    }
}

proof fn lemma_trim_end(s: Seq<char>) -> (b: int)
    ensures
        0 <= b <= s.len(),
        trim_end(s) == s.take(b),
        forall|i: int| b <= i < s.len() ==> is_space(#[trigger] s[i]),
        b > 0 ==> !is_space(s[b - 1]),
    decreases s.len(),
{
    if s.len() > 0 && is_space(s.last()) {
        let b = lemma_trim_end(s.drop_last());
        assert(s.drop_last().take(b) =~= s.take(b));
        assert forall|i: int| b <= i < s.len() implies is_space(#[trigger] s[i]) by {
            if i < s.len() - 1 {
                assert(s.drop_last()[i] == s[i]);
            }
        }
        b
    } else {
        assert(s.take(s.len() as int) =~= s);
        s.len() as int
    }
}

/// Trimming takes white space off both ends, all of it, and nothing else: what is left is
/// the text from `r.0` to `r.1`.
pub proof fn law_trimming_takes_white_space_only(s: Seq<char>) -> (r: (int, int))
    ensures
        0 <= r.0 <= r.1 <= s.len(),
        trim(s) == s.subrange(r.0, r.1),
        forall|i: int| 0 <= i < r.0 || r.1 <= i < s.len() ==> is_space(#[trigger] s[i]),
        r.0 < r.1 ==> !is_space(s[r.0]) && !is_space(s[r.1 - 1]),
{
    let a = lemma_trim_start(s);
    let b = lemma_trim_end(s.skip(a));
    assert(s.skip(a).take(b) =~= s.subrange(a, a + b));
    assert forall|i: int| a + b <= i < s.len() implies is_space(#[trigger] s[i]) by {
        assert(s.skip(a)[i - a] == s[i]);
    }
    if b > 0 {
        assert(s.skip(a)[b - 1] == s[a + b - 1]);
    }
    (a, a + b)
}

/// A text without white space at its ends is not changed by trimming.
pub proof fn law_trimmed_texts_stay(s: Seq<char>)
    requires
        s.len() > 0 ==> !is_space(s[0]) && !is_space(s.last()),
    ensures
        trim(s) == s,
{
}

proof fn lemma_find_char_in_rest(s: Seq<char>, c: char, n: int, i: int)
    requires
        0 <= n <= i,
        n <= s.len(),
    ensures
        match find_char(s.skip(n), c, i - n) {
            Some(k) => find_char(s, c, i) == Some(k + n),
            None => find_char(s, c, i) is None,
        },
    decreases s.len() - i,
{
    if i < s.len() {
        assert(s.skip(n)[i - n] == s[i]);
        lemma_find_char_in_rest(s, c, n, i + 1);
    }
}

proof fn lemma_lines_of_rest(s: Seq<char>, n: int, i: int)
    requires
        0 <= n <= i <= s.len(),
    ensures
        lines_from(s.skip(n), i - n) == lines_from(s, i),
    decreases s.len() - i,
{
    if i < s.len() {
        let t = s.skip(n);
        lemma_find_char_in_rest(s, '\n', n, i);
        lemma_find_char(s, '\n', i);
        match find_char(s, '\n', i) {
            None => {
                assert(t.subrange(i - n, t.len() as int) =~= s.subrange(i, s.len() as int));
            },
            Some(k) => {
                lemma_lines_of_rest(s, n, k + 1);
                assert(t.subrange(i - n, k - n) =~= s.subrange(i, k));
            },
        }
    }
}

proof fn lemma_find_char_none(s: Seq<char>, c: char, i: int)
    requires
        0 <= i,
        forall|k: int| i <= k < s.len() ==> #[trigger] s[k] != c,
    ensures
        find_char(s, c, i) is None,
    decreases s.len() - i,
{
    if i < s.len() {
        lemma_find_char_none(s, c, i + 1);
    }
}

proof fn lemma_find_char_first(s: Seq<char>, c: char, i: int, k: int)
    requires
        0 <= i <= k < s.len(),
        s[k] == c,
        forall|j: int| i <= j < k ==> #[trigger] s[j] != c,
    ensures
        find_char(s, c, i) == Some(k),
    decreases k - i,
{
    if i < k {
        lemma_find_char_first(s, c, i + 1, k);
    }
}

/// The lines of a text are what stands between its newlines. A text that begins with a line
/// and a newline has that line first, without a carriage return at its end, and then the
/// lines of the rest. A text without a newline is one line, and an empty one has none.
pub proof fn law_lines_end_with_newlines(line: Seq<char>, rest: Seq<char>)
    requires
        !line.contains('\n'),
    ensures
        lines(line.push('\n') + rest) == seq![
            if line.len() > 0 && line.last() == '\r' {
                line.drop_last()
            } else {
                line
            },
        ] + lines(rest),
        line.len() > 0 ==> lines(line) == seq![line],
        lines(Seq::empty()) == Seq::<Seq<char>>::empty(),
{
    let n = line.len() as int;
    let s = line.push('\n') + rest;
    assert forall|k: int| 0 <= k < n implies #[trigger] line[k] != '\n' by {
        assert(line.contains(line[k]));
    }
    assert forall|k: int| 0 <= k < n implies #[trigger] s[k] != '\n' by {
        assert(s[k] == line[k]);
    }
    lemma_find_char_first(s, '\n', 0, n);
    assert(s.subrange(0, n) =~= line);
    assert(s.skip(n + 1) =~= rest);
    lemma_lines_of_rest(s, n + 1, n + 1);
    lemma_find_char_none(line, '\n', 0);
    assert(line.subrange(0, n) =~= line);
}

/// Decimal numbers read back: they are digits alone, without a leading zero, and their value
/// is the number.
pub proof fn law_numbers_read_back(n: nat)
    ensures
        all_digits(dec(n)),
        digits_value(dec(n)) == n,
        n > 0 ==> dec(n)[0] != '0',
        n == 0 ==> dec(n) == seq!['0'],
    decreases n,
{
    if n >= 10 {
        law_numbers_read_back(n / 10);
        assert(dec(n).drop_last() =~= dec(n / 10));
        assert forall|i: int| 0 <= i < dec(n).len() implies is_digit(#[trigger] dec(n)[i]) by {
            if i < dec(n).len() - 1 {
                assert(dec(n)[i] == dec(n / 10)[i]);
            }
        }
    } else {
        assert(dec(n).drop_last() =~= Seq::empty());
        reveal_with_fuel(digits_value, 2);
        assert(digit(0) == '0');
    }
}

/// Whole numbers read back, with their sign.
pub proof fn law_integers_read_back(i: int)
    ensures
        integer_value(dec_int(i)) == Some(i),
{
    if i < 0 {
        law_numbers_read_back((-i) as nat);
        assert(dec_int(i).drop_first() =~= dec((-i) as nat));
    } else {
        law_numbers_read_back(i as nat);
        assert(is_digit(dec_int(i)[0]));
    }
}

/// A number with leading zeros has as many digits as asked for, and its value is the number
/// where they suffice.
pub proof fn law_padded_numbers_read_back(n: nat, w: nat)
    ensures
        padded(n, w).len() == w,
        w > 0 ==> all_digits(padded(n, w)),
        dec(n).len() <= w ==> digits_value(padded(n, w)) == n,
    decreases w,
{
    if w > 0 {
        let v = (w - 1) as nat;
        law_padded_numbers_read_back(n / 10, v);
        assert(padded(n, w).drop_last() =~= padded(n / 10, v));
        assert forall|i: int| 0 <= i < w implies is_digit(#[trigger] padded(n, w)[i]) by {
            if i < v {
                assert(padded(n, w)[i] == padded(n / 10, v)[i]);
            }
        }
        if dec(n).len() <= w {
            if n < 10 {
                if v > 0 {
                    assert(dec(0).len() == 1);
                } else {
                    assert(padded(n / 10, v) =~= Seq::empty());
                }
            }
        }
    } else {
        law_numbers_read_back(n);
    }
}

/// Pieces that are joined with the character at which they were split give the text back,
/// and none of them holds it.
pub proof fn law_split_texts_join_again(s: Seq<char>, c: char, i: int)
    requires
        0 <= i <= s.len(),
    ensures
        split_from(s, c, i).len() > 0,
        join(split_from(s, c, i), seq![c]) == s.skip(i),
        forall|k: int| 0 <= k < split_from(s, c, i).len() ==> !(#[trigger] split_from(s, c, i)[k]).contains(c),
    decreases s.len() - i,
{
    lemma_find_char(s, c, i);
    let all = split_from(s, c, i);
    match find_char(s, c, i) {
        Some(k) => {
            law_split_texts_join_again(s, c, k + 1);
            let piece = s.subrange(i, k);
            let rest = split_from(s, c, k + 1);
            lemma_join_front(piece, rest, seq![c]);
            assert(s.skip(i) =~= piece + seq![c] + s.skip(k + 1));
            assert forall|j: int| 0 <= j < all.len() implies !(#[trigger] all[j]).contains(c) by {
                if j > 0 {
                    assert(all[j] == rest[j - 1]);
                }
            }
        },
        None => {
            assert(all[0] == s.skip(i));
        },
    }
}

proof fn lemma_join_front(first: Seq<char>, rest: Seq<Seq<char>>, sep: Seq<char>)
    requires
        rest.len() > 0,
    ensures
        join(seq![first] + rest, sep) == first + sep + join(rest, sep),
    decreases rest.len(),
{
    let all = seq![first] + rest;
    assert(all.last() == rest.last());
    if rest.len() == 1 {
        assert(all.drop_last() =~= seq![first]);
        reveal_with_fuel(join, 2);
    } else {
        lemma_join_front(first, rest.drop_last(), sep);
        assert(all.drop_last() =~= seq![first] + rest.drop_last());
        assert(join(all, sep) =~= first + sep + join(rest, sep));
    }
}

/// Replacing a character goes over a text piece by piece: the character becomes the other
/// text, and every other one stays.
pub proof fn law_replacing_goes_piece_by_piece(a: Seq<char>, b: Seq<char>, c: char, with: Seq<char>)
    ensures
        replace_char(a + b, c, with) == replace_char(a, c, with) + replace_char(b, c, with),
        replace_char(seq![c], c, with) == with,
        forall|d: char| d != c ==> #[trigger] replace_char(seq![d], c, with) == seq![d],
        replace_char(Seq::empty(), c, with) == Seq::<char>::empty(),
    decreases b.len(),
{
    if b.len() == 0 {
        assert(a + b =~= a);
        assert(replace_char(a, c, with) + Seq::<char>::empty() =~= replace_char(a, c, with));
    } else {
        law_replacing_goes_piece_by_piece(a, b.drop_last(), c, with);
        assert((a + b).drop_last() =~= a + b.drop_last());
        assert(replace_char(a + b, c, with) =~= replace_char(a, c, with) + replace_char(b, c, with));
    }
    assert forall|d: char| #![trigger replace_char(seq![d], c, with)]
        replace_char(seq![d], c, with) == (if d == c {
        with
    } else {
        seq![d]
    }) by {
        reveal_with_fuel(replace_char, 2);
        assert(seq![d].drop_last() =~= Seq::empty());
        assert(replace_char(seq![d], c, with) =~= (if d == c {
            with
        } else {
            seq![d]
        }));
    }
}

/// A text without the character is not changed by replacing it.
pub proof fn law_nothing_to_replace(s: Seq<char>, c: char, with: Seq<char>)
    requires
        !s.contains(c),
    ensures
        replace_char(s, c, with) == s,
    decreases s.len(),
{
    if s.len() > 0 {
        assert(s.contains(s.last()));
        assert(!s.drop_last().contains(c)) by {
            if s.drop_last().contains(c) {
                let i = choose|i: int| 0 <= i < s.drop_last().len() && s.drop_last()[i] == c;
                assert(s[i] == c);
            }
        }
        law_nothing_to_replace(s.drop_last(), c, with);
        assert(s.drop_last() + seq![s.last()] =~= s);
    }
}

/// A text in which a pattern does not occur is not changed by removing it.
pub proof fn law_nothing_to_remove(s: Seq<char>, p: Seq<char>, i: int)
    requires
        0 <= i <= s.len(),
        p.len() > 0,
        forall|k: int| i <= k ==> !#[trigger] stands_at(s, k, p),
    ensures
        remove_from(s, p, i) == s.skip(i),
    decreases s.len() - i,
{
    if i < s.len() {
        law_nothing_to_remove(s, p, i + 1);
        assert(!stands_at(s, i, p));
        assert(seq![s[i]] + s.skip(i + 1) =~= s.skip(i));
    } else {
        assert(s.skip(i) =~= Seq::empty());
    }
}

/// Small ASCII letters: the capital letters become the small ones, and every other character
/// stays where it is.
pub proof fn law_small_letters(s: Seq<char>, i: int)
    requires
        0 <= i < s.len(),
    ensures
        ascii_lowercase(s).len() == s.len(),
        ascii_lowercase(s)[i] as u32 == s[i] as u32 + (if 'A' <= s[i] <= 'Z' {
            32u32
        } else {
            0
        }),
{
}

/// Texts are ordered by the first character in which they differ, and a text comes before
/// those that go on from it.
pub proof fn law_texts_are_ordered_by_their_first_difference(
    a: Seq<char>,
    b: Seq<char>,
    common: Seq<char>,
)
    ensures
        text_le(common + a, common + b) == text_le(a, b),
        a.len() == 0 ==> text_le(a, b),
        a.len() > 0 && b.len() == 0 ==> !text_le(a, b),
        a.len() > 0 && b.len() > 0 && a[0] != b[0] ==> (text_le(a, b) <==> a[0] < b[0]),
    decreases common.len(),
{
    if common.len() > 0 {
        let rest = common.drop_first();
        law_texts_are_ordered_by_their_first_difference(a, b, rest);
        assert((common + a).drop_first() =~= rest + a);
        assert((common + b).drop_first() =~= rest + b);
    } else {
        assert(common + a =~= a);
        assert(common + b =~= b);
    }
}

/// A number of millionths is written to the nearest thousandth: a whole number `r.0`, a point
/// and three digits that write `r.1`.
pub proof fn law_thousandths_are_near(millionths: nat) -> (r: (nat, nat))
    ensures
        thousandths(millionths) == dec(r.0).push('.') + padded(r.1, 3),
        r.1 < 1000,
        -500 < (r.0 * 1000 + r.1) * 1000 - millionths <= 500,
{
    let n = (millionths + 500) / 1000;
    (n / 1000, n % 1000)
}

/// A text occurs in every text that holds it, and in no shorter one.
pub proof fn law_texts_occur_in_what_holds_them(a: Seq<char>, p: Seq<char>, b: Seq<char>)
    ensures
        occurs(a + p + b, p),
        a.len() < p.len() ==> !occurs(a, p),
{
    let s = a + p + b;
    let n = a.len() as int;
    assert(s.subrange(n, n + p.len()) =~= p);
    assert(stands_at(s, n, p));
    lemma_find_at(s, p, 0);
    lemma_find_at(a, p, 0);
}

/// Removing a pattern keeps what stands in front of its next occurrence.
pub proof fn law_removing_keeps_what_is_between(s: Seq<char>, p: Seq<char>, i: int, k: int)
    requires
        0 <= i <= k <= s.len(),
        p.len() > 0,
        forall|j: int| i <= j < k ==> !#[trigger] stands_at(s, j, p),
    ensures
        remove_from(s, p, i) == s.subrange(i, k) + remove_from(s, p, k),
        k < s.len() && stands_at(s, k, p) ==> remove_from(s, p, k) == remove_from(s, p, k + p.len()),
    decreases k - i,
{
    if i < k {
        law_removing_keeps_what_is_between(s, p, i + 1, k);
        assert(!stands_at(s, i, p));
        assert(seq![s[i]] + (s.subrange(i + 1, k) + remove_from(s, p, k)) =~= s.subrange(i, k)
            + remove_from(s, p, k));
    } else {
        assert(s.subrange(i, k) + remove_from(s, p, k) =~= remove_from(s, p, k));
    }
}

/// A plus sign in front of a number changes nothing; a minus sign is one of an integer only.
pub proof fn law_signs_are_read(n: nat)
    ensures
        natural_value(dec(n)) == Some(n as int),
        natural_value(seq!['+'] + dec(n)) == Some(n as int),
        natural_value(seq!['-'] + dec(n)) is None,
        integer_value(dec(n)) == Some(n as int),
        integer_value(seq!['+'] + dec(n)) == Some(n as int),
        integer_value(seq!['-'] + dec(n)) == Some(-n),
        natural_value(Seq::empty()) is None && integer_value(Seq::empty()) is None,
        natural_value(seq!['+']) is None && integer_value(seq!['+']) is None,
        integer_value(seq!['-']) is None,
{
    law_numbers_read_back(n);
    let p = seq!['+'] + dec(n);
    let m = seq!['-'] + dec(n);
    assert(p.drop_first() =~= dec(n));
    assert(m.drop_first() =~= dec(n));
    assert(p[0] == '+' && m[0] == '-');
    assert(!is_digit(m[0]));
    assert(is_digit(dec(n)[0]));
    assert(seq!['+'].drop_first().len() == 0);
    assert(seq!['-'].drop_first().len() == 0);
    assert(!is_digit(seq!['+'][0]) && !is_digit(seq!['-'][0]));
}

}
