//! Calendar dates and times of day as text.

use vstd::prelude::*;

verus! {

pub open spec fn is_leap(year: int) -> bool {
    year % 4 == 0 && (year % 100 != 0 || year % 400 == 0)
}

pub open spec fn days_in_month(year: int, month: int) -> int {
    if month == 2 {
        if is_leap(year) {
            29
        } else {
            28
        }
    } else if month == 4 || month == 6 || month == 9 || month == 11 {
        30
    } else {
        31
    }
}

/// Whether the Gregorian calendar has this day.
pub open spec fn is_date(year: int, month: int, day: int) -> bool {
    1 <= month <= 12 && 1 <= day <= days_in_month(year, month)
}

/// The first year of the calendar in use.
pub const FIRST_YEAR: i32 = -262_143;

/// The last year of the calendar in use.
pub const LAST_YEAR: i32 = 262_142;

/// Whether the calendar in use has this day.
pub open spec fn in_calendar(year: int, month: int, day: int) -> bool {
    FIRST_YEAR <= year <= LAST_YEAR && is_date(year, month, day)
}

/// Whether a clock shows this time.
pub open spec fn is_time(hour: int, minute: int, second: int) -> bool {
    0 <= hour < 24 && 0 <= minute < 60 && 0 <= second < 60
}

/// A year with at least four digits. One that is not within 0 to 9999 has a sign.
pub open spec fn year_text(year: int) -> Seq<char> {
    if 0 <= year <= 9999 {
        crate::text::padded(year as nat, 4)
    } else if year > 9999 {
        "+"@ + crate::text::dec(year as nat)
    } else if year >= -999 {
        "-"@ + crate::text::padded((-year) as nat, 4)
    } else {
        "-"@ + crate::text::dec((-year) as nat)
    }
}

/// A day as `YYYY-MM-DD`.
pub open spec fn date_text(year: int, month: nat, day: nat) -> Seq<char> {
    year_text(year) + "-"@ + crate::text::padded(month, 2) + "-"@ + crate::text::padded(day, 2)
}

/// A time of day as `HHMMSS`.
pub open spec fn time_text(hour: nat, minute: nat, second: nat) -> Seq<char> {
    crate::text::padded(hour, 2) + crate::text::padded(minute, 2) + crate::text::padded(second, 2)
}

/// The days of a year before a month.
pub open spec fn days_before_month(year: int, month: int) -> int
    decreases month,
{
    if month <= 1 {
        0
    } else {
        days_before_month(year, month - 1) + days_in_month(year, month - 1)
    }
}

/// The number of a day. The first day of the year 1, a Monday, has the number 1.
pub open spec fn day_number(year: int, month: int, day: int) -> int {
    let before = year - 1;
    365 * before + before / 4 - before / 100 + before / 400 + days_before_month(year, month) + day
}

/// The weekday of a day, in three letters.
pub open spec fn weekday_name(year: int, month: int, day: int) -> Seq<char> {
    seq!["Sun"@, "Mon"@, "Tue"@, "Wed"@, "Thu"@, "Fri"@, "Sat"@][day_number(year, month, day) % 7]
}

/// A month in three letters.
pub open spec fn month_name(month: int) -> Seq<char> {
    seq![
        "Jan"@,
        "Feb"@,
        "Mar"@,
        "Apr"@,
        "May"@,
        "Jun"@,
        "Jul"@,
        "Aug"@,
        "Sep"@,
        "Oct"@,
        "Nov"@,
        "Dec"@,
    ][month - 1]
}

/// A day in one of the three forms in which it is written: `%Y-%m-%d`, `%d %b` and
/// `%a %d %b`.
pub open spec fn date_in(pattern: Seq<char>, year: int, month: int, day: int) -> Seq<char> {
    if pattern == "%Y-%m-%d"@ {
        date_text(year, month as nat, day as nat)
    } else if pattern == "%d %b"@ {
        crate::text::padded(day as nat, 2) + " "@ + month_name(month)
    } else {
        weekday_name(year, month, day) + " "@ + crate::text::padded(day as nat, 2) + " "@
            + month_name(month)
    }
}

/// A time of day in one of the two forms in which it is written: `%H%M%S` and `%H:%M`.
pub open spec fn time_in(pattern: Seq<char>, hour: int, minute: int, second: int) -> Seq<char> {
    if pattern == "%H%M%S"@ {
        time_text(hour as nat, minute as nat, second as nat)
    } else {
        crate::text::padded(hour as nat, 2) + ":"@ + crate::text::padded(minute as nat, 2)
    }
}

/// `chrono::NaiveDate::from_ymd_opt` gives the day where the calendar has it and its year is
/// one of chrono's, and nothing elsewhere. Its `format` writes the year with leading zeros to
/// four digits and with a sign where it is negative or has more of them (`%Y`), the month
/// and the day with leading zeros to two (`%m`, `%d`), and the English names of the month
/// and the weekday in three letters (`%b`, `%a`).
#[verifier::external_body]
fn format_date(year: i32, month: u32, day: u32, pattern: &str) -> (r: Option<String>)
    requires
        pattern@ == "%Y-%m-%d"@ || pattern@ == "%d %b"@ || pattern@ == "%a %d %b"@,
    ensures
        r is Some <==> in_calendar(year as int, month as int, day as int),
        r matches Some(s) ==> s@ == date_in(pattern@, year as int, month as int, day as int),
{
    chrono::NaiveDate::from_ymd_opt(year, month, day).map(|d| d.format(pattern).to_string())
}

/// `chrono::NaiveTime::from_hms_opt` gives the time where the clock shows it and nothing
/// elsewhere. Its `format` writes hour, minute and second with two digits each (`%H`, `%M`,
/// `%S`).
#[verifier::external_body]
fn format_time(hour: u32, minute: u32, second: u32, pattern: &str) -> (r: Option<String>)
    requires
        pattern@ == "%H%M%S"@ || pattern@ == "%H:%M"@,
    ensures
        r is Some <==> is_time(hour as int, minute as int, second as int),
        r matches Some(s) ==> s@ == time_in(pattern@, hour as int, minute as int, second as int),
{
    chrono::NaiveTime::from_hms_opt(hour, minute, second).map(|t| t.format(pattern).to_string())
}

/// A local time, as a calendar and a clock show it.
#[derive(Debug, Clone, Copy)]
pub struct Moment {
    pub year: i32,
    pub month: u32,
    pub day: u32,
    pub hour: u32,
    pub minute: u32,
    pub second: u32,
}

impl Moment {
    pub open spec fn has_date(self) -> bool {
        in_calendar(self.year as int, self.month as int, self.day as int)
    }

    pub open spec fn has_time(self) -> bool {
        is_time(self.hour as int, self.minute as int, self.second as int)
    }

    pub open spec fn date(self) -> Seq<char> {
        date_text(self.year as int, self.month as nat, self.day as nat)
    }

    pub open spec fn stamp(self) -> Seq<char> {
        self.date() + "-"@ + time_text(self.hour as nat, self.minute as nat, self.second as nat)
    }
}

/// The day as `YYYY-MM-DD`. A moment that the calendar does not show has none.
pub fn day_stamp(m: Moment) -> (r: Option<String>)
    ensures
        r is Some <==> m.has_date(),
        r matches Some(s) ==> s@ == m.date(),
{
    format_date(m.year, m.month, m.day, "%Y-%m-%d")
}

/// The moment as `YYYY-MM-DD-HHMMSS`, for file names.
pub fn file_timestamp(m: Moment) -> (r: Option<String>)
    ensures
        r is Some <==> m.has_date() && m.has_time(),
        r matches Some(s) ==> s@ == m.stamp(),
{
    match day_stamp(m) {
        Some(d) => match format_time(m.hour, m.minute, m.second, "%H%M%S") {
            Some(t) => {
                let mut s = d;
                s.append("-");
                s.append(t.as_str());
                Some(s)
            },
            None => None,
        },
        None => None,
    }
}

/// A moment in short: the day in one of its forms, and the hour and the minute.
pub open spec fn short_text(m: Moment, pattern: Seq<char>) -> Seq<char> {
    date_in(pattern, m.year as int, m.month as int, m.day as int) + " · "@ + crate::text::padded(
        m.hour as nat,
        2,
    ) + ":"@ + crate::text::padded(m.minute as nat, 2)
}

fn short_form(m: Moment, pattern: &str) -> (r: Option<String>)
    requires
        pattern@ == "%d %b"@ || pattern@ == "%a %d %b"@,
    ensures
        r is Some <==> m.has_date() && m.has_time(),
        r matches Some(s) ==> s@ == short_text(m, pattern@),
{
    match format_date(m.year, m.month, m.day, pattern) {
        Some(d) => match format_time(m.hour, m.minute, m.second, "%H:%M") {
            Some(t) => {
                let mut s = d;
                s.append(" · ");
                s.append(t.as_str());
                proof {
                    reveal_strlit("%H:%M");
                    reveal_strlit("%H%M%S");
                    assert("%H:%M"@.len() == 5 && "%H%M%S"@.len() == 6);
                }
                assert(s@ =~= short_text(m, pattern@));
                Some(s)
            },
            None => None,
        },
        None => None,
    }
}

/// When a note was changed, as its row in the list says it: `27 Jul · 09:05`.
pub fn row_time(m: Moment) -> (r: Option<String>)
    ensures
        r is Some <==> m.has_date() && m.has_time(),
        r matches Some(s) ==> s@ == short_text(m, "%d %b"@),
{
    short_form(m, "%d %b")
}

/// When the open note was saved, with the weekday.
pub open spec fn saved_text(m: Moment) -> Seq<char> {
    "Saved "@ + short_text(m, "%a %d %b"@)
}

/// When the open note was saved: `Saved Mon 27 Jul · 09:05`.
pub fn saved_label(m: Moment) -> (r: Option<String>)
    ensures
        r is Some <==> m.has_date() && m.has_time(),
        r matches Some(s) ==> s@ == saved_text(m),
{
    match short_form(m, "%a %d %b") {
        Some(t) => {
            let mut s = "Saved ".to_owned();
            s.append(t.as_str());
            Some(s)
        },
        None => None,
    }
}

// ───────────────────────────── laws ─────────────────────────────
proof fn lemma_two_digits(n: nat)
    requires
        n < 100,
    ensures
        crate::text::padded(n, 2).len() == 2,
        crate::text::all_digits(crate::text::padded(n, 2)),
        crate::text::digits_value(crate::text::padded(n, 2)) == n,
{
    reveal_with_fuel(crate::text::dec, 3);
    crate::text::law_padded_numbers_read_back(n, 2);
}

proof fn lemma_four_digits(n: nat)
    requires
        n < 10000,
    ensures
        crate::text::padded(n, 4).len() == 4,
        crate::text::all_digits(crate::text::padded(n, 4)),
        crate::text::digits_value(crate::text::padded(n, 4)) == n,
{
    reveal_with_fuel(crate::text::dec, 5);
    crate::text::law_padded_numbers_read_back(n, 4);
}

/// A day of the years 0 to 9999 reads back from its ten characters: four digits of the year,
/// two of the month and two of the day, with a dash between them. A time of day reads back
/// from the two digits each of its hour, minute and second, and a stamp is both, with a dash
/// between them.
pub proof fn law_stamps_read_back(m: Moment)
    requires
        m.has_date(),
        m.has_time(),
        0 <= m.year <= 9999,
    ensures
        ({
            let s = m.stamp();
            &&& s.len() == 17
            &&& s[4] == '-' && s[7] == '-' && s[10] == '-'
            &&& crate::text::all_digits(s.subrange(0, 4))
            &&& crate::text::digits_value(s.subrange(0, 4)) == m.year
            &&& crate::text::all_digits(s.subrange(5, 7))
            &&& crate::text::digits_value(s.subrange(5, 7)) == m.month
            &&& crate::text::all_digits(s.subrange(8, 10))
            &&& crate::text::digits_value(s.subrange(8, 10)) == m.day
            &&& crate::text::all_digits(s.subrange(11, 13))
            &&& crate::text::digits_value(s.subrange(11, 13)) == m.hour
            &&& crate::text::all_digits(s.subrange(13, 15))
            &&& crate::text::digits_value(s.subrange(13, 15)) == m.minute
            &&& crate::text::all_digits(s.subrange(15, 17))
            &&& crate::text::digits_value(s.subrange(15, 17)) == m.second
            &&& m.date() == s.take(10)
        }),
{
    reveal_strlit("-");
    lemma_four_digits(m.year as nat);
    lemma_two_digits(m.month as nat);
    lemma_two_digits(m.day as nat);
    lemma_two_digits(m.hour as nat);
    lemma_two_digits(m.minute as nat);
    lemma_two_digits(m.second as nat);
    let s = m.stamp();
    assert(s.subrange(0, 4) =~= crate::text::padded(m.year as nat, 4));
    assert(s.subrange(5, 7) =~= crate::text::padded(m.month as nat, 2));
    assert(s.subrange(8, 10) =~= crate::text::padded(m.day as nat, 2));
    assert(s.subrange(11, 13) =~= crate::text::padded(m.hour as nat, 2));
    assert(s.subrange(13, 15) =~= crate::text::padded(m.minute as nat, 2));
    assert(s.subrange(15, 17) =~= crate::text::padded(m.second as nat, 2));
    assert(m.date() =~= s.take(10));
}

/// A year that has no four digits of its own has a sign: `+` beyond 9999 and `-` below 0.
pub proof fn law_other_years_have_a_sign(year: int)
    ensures
        year > 9999 ==> year_text(year) == "+"@ + crate::text::dec(year as nat),
        -999 <= year < 0 ==> year_text(year) == "-"@ + crate::text::padded((-year) as nat, 4),
        year < -999 ==> year_text(year) == "-"@ + crate::text::dec((-year) as nat),
{
}

/// The calendar has twelve months, which make 365 days, and 366 in a leap year. A leap year is
/// one of four, but of the centuries only one of four.
pub proof fn law_years_have_their_days(year: int)
    ensures
        days_before_month(year, 13) == 365 || days_before_month(year, 13) == 366,
        days_before_month(year, 13) == 366 <==> is_leap(year),
        year % 4 != 0 ==> !is_leap(year),
        year % 400 == 0 ==> is_leap(year),
        year % 4 == 0 && year % 100 != 0 ==> is_leap(year),
        year % 100 == 0 && year % 400 != 0 ==> !is_leap(year),
        forall|month: int| #[trigger]
            days_in_month(year, month) == 28 || days_in_month(year, month) == 29 ==> month == 2,
        forall|month: int|
            1 <= month <= 12 && #[trigger] days_in_month(year, month) == 30 ==> month == 4 || month == 6
                || month == 9 || month == 11,
        is_date(year, 2, 29) <==> is_leap(year),
        forall|day: int| 1 <= day <= 28 ==> #[trigger] is_date(year, 2, day),
{
    reveal_with_fuel(days_before_month, 14);
}

/// Days are numbered one after the other: within a month, from the end of one month to the
/// next, and from New Year's Eve to New Year's Day.
pub proof fn law_days_follow_each_other(year: int, month: int, day: int)
    requires
        is_date(year, month, day),
    ensures
        is_date(year, month, day + 1) ==> day_number(year, month, day + 1) == day_number(
            year,
            month,
            day,
        ) + 1,
        day == days_in_month(year, month) && month < 12 ==> day_number(year, month + 1, 1)
            == day_number(year, month, day) + 1,
        month == 12 && day == 31 ==> day_number(year + 1, 1, 1) == day_number(year, 12, 31) + 1,
{
    reveal_with_fuel(days_before_month, 14);
    law_years_have_their_days(year);
    if month == 12 && day == 31 {
        let y = year;
        let before = year - 1;
        assert(y / 4 - before / 4 == (if y % 4 == 0 {
            1int
        } else {
            0
        }));
        assert(y / 100 - before / 100 == (if y % 100 == 0 {
            1int
        } else {
            0
        }));
        assert(y / 400 - before / 400 == (if y % 400 == 0 {
            1int
        } else {
            0
        }));
        assert(days_before_month(year, 13) == days_before_month(year, 12) + 31);
        assert(day_number(year + 1, 1, 1) == 365 * y + y / 4 - y / 100 + y / 400 + 1);
    }
}

/// The weekdays follow each other with the days, and 1 January 1970 was a Thursday.
pub proof fn law_weekdays_follow_each_other(y1: int, m1: int, d1: int, y2: int, m2: int, d2: int)
    requires
        day_number(y2, m2, d2) == day_number(y1, m1, d1) + 1,
    ensures
        ({
            let a = weekday_name(y1, m1, d1);
            let b = weekday_name(y2, m2, d2);
            ||| a == "Mon"@ && b == "Tue"@
            ||| a == "Tue"@ && b == "Wed"@
            ||| a == "Wed"@ && b == "Thu"@
            ||| a == "Thu"@ && b == "Fri"@
            ||| a == "Fri"@ && b == "Sat"@
            ||| a == "Sat"@ && b == "Sun"@
            ||| a == "Sun"@ && b == "Mon"@
        }),
        weekday_name(1970, 1, 1) == "Thu"@,
{
    let n = day_number(y1, m1, d1);
    assert((n + 1) % 7 == (if n % 7 == 6 {
        0
    } else {
        n % 7 + 1
    }));
    assert(day_number(1970, 1, 1) == 719163);
}

/// A month is called by its own name.
pub proof fn law_months_have_their_names()
    ensures
        month_name(1) == "Jan"@ && month_name(2) == "Feb"@ && month_name(3) == "Mar"@,
        month_name(4) == "Apr"@ && month_name(5) == "May"@ && month_name(6) == "Jun"@,
        month_name(7) == "Jul"@ && month_name(8) == "Aug"@ && month_name(9) == "Sep"@,
        month_name(10) == "Oct"@ && month_name(11) == "Nov"@ && month_name(12) == "Dec"@,
{
}

/// In short a moment is the day in two digits, the month's name, hour and minute; where it
/// says when a note was saved, the weekday stands in front.
pub proof fn law_moments_in_short(m: Moment)
    requires
        m.has_date(),
        m.has_time(),
    ensures
        ({
            let day = crate::text::padded(m.day as nat, 2) + " "@ + month_name(m.month as int);
            let time = crate::text::padded(m.hour as nat, 2) + ":"@ + crate::text::padded(
                m.minute as nat,
                2,
            );
            let weekday = weekday_name(m.year as int, m.month as int, m.day as int);
            &&& short_text(m, "%d %b"@) == day + " · "@ + time
            &&& saved_text(m) == "Saved "@ + (weekday + " "@ + day + " · "@ + time)
            &&& crate::text::digits_value(crate::text::padded(m.day as nat, 2)) == m.day
            &&& crate::text::digits_value(crate::text::padded(m.hour as nat, 2)) == m.hour
            &&& crate::text::digits_value(crate::text::padded(m.minute as nat, 2)) == m.minute
        }),
{
    lemma_two_digits(m.day as nat);
    lemma_two_digits(m.hour as nat);
    lemma_two_digits(m.minute as nat);
    reveal_strlit("%d %b");
    reveal_strlit("%a %d %b");
    reveal_strlit("%Y-%m-%d");
    assert("%d %b"@[1] == 'd' && "%a %d %b"@[1] == 'a' && "%Y-%m-%d"@[1] == 'Y');
    let day = crate::text::padded(m.day as nat, 2) + " "@ + month_name(m.month as int);
    let time = crate::text::padded(m.hour as nat, 2) + ":"@ + crate::text::padded(m.minute as nat, 2);
    let weekday = weekday_name(m.year as int, m.month as int, m.day as int);
    assert(short_text(m, "%d %b"@) =~= day + " · "@ + time);
    assert(short_text(m, "%a %d %b"@) =~= weekday + " "@ + day + " · "@ + time);
}

/// A clock shows every second of a day, and no other.
pub proof fn law_clocks_show_a_day(hour: int, minute: int, second: int, n: int)
    ensures
        is_time(hour, minute, second) ==> 0 <= 3600 * hour + 60 * minute + second < 86400,
        is_time(hour, minute, second) ==> {
            let of_day = 3600 * hour + 60 * minute + second;
            of_day / 3600 == hour && of_day / 60 % 60 == minute && of_day % 60 == second
        },
        0 <= n < 86400 ==> is_time(n / 3600, n / 60 % 60, n % 60),
{
}

/// The calendar reaches from the year -262143 to the year 262142, with every day of them.
pub proof fn law_the_calendar_has_its_years(year: int)
    ensures
        in_calendar(year, 1, 1) <==> -262_143 <= year <= 262_142,
        in_calendar(year, 12, 31) <==> -262_143 <= year <= 262_142,
        !in_calendar(year, 0, 1) && !in_calendar(year, 13, 1) && !in_calendar(year, 1, 0)
            && !in_calendar(year, 1, 32),
{
}

}
