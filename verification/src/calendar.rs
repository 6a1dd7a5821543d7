//! The Gregorian calendar, and times as they are written in it.
use crate::shortest;
use crate::text;
use vstd::arithmetic::div_mod::*;
use vstd::prelude::*;

verus! {

/// A day of the proleptic Gregorian calendar.
pub struct Date {
    pub year: int,
    pub month: int,
    pub day: int,
}

pub open spec fn is_leap(year: int) -> bool {
    year % 4 == 0 && (year % 100 != 0 || year % 400 == 0)
}

pub open spec fn days_in_month(year: int, month: int) -> int {
    if month == 2 {
        if is_leap(year) {
            29
        } else {
            28
        }
    } else if month == 4 || month == 6 || month == 9 || month == 11 {
        30
    } else {
        31
    }
}

/// The days from the start of the year 0 to the start of a year.
pub open spec fn days_before_year(year: int) -> int {
    let k = year - 1;
    365 * year + k / 4 - k / 100 + k / 400 + 1
}

/// The days from the start of a year to the start of a month.
pub open spec fn days_before_month(year: int, month: int) -> int
    decreases month,
{
    if month <= 1 {
        0
    } else {
        days_before_month(year, month - 1) + days_in_month(year, month - 1)
    }
}

/// The days from 1970-01-01 to a day.
pub open spec fn day_number(date: Date) -> int {
    days_before_year(date.year) + days_before_month(date.year, date.month) + date.day - 1 - 719528
}

/// The date is a day of the calendar, `day` days behind 1970-01-01.
pub open spec fn is_date_of(date: Date, day: int) -> bool {
    &&& 1 <= date.month <= 12
    &&& 1 <= date.day <= days_in_month(date.year, date.month)
    &&& day_number(date) == day
}

/// The date `day` days behind 1970-01-01.
pub open spec fn date_of(day: int) -> Date {
    choose|date: Date| is_date_of(date, day)
}

/// A second of the years 0 to 9999.
pub open spec fn has_plain_year(secs: int) -> bool {
    -62167219200 <= secs <= 253402300799
}

/// `n` in `width` digits.
pub open spec fn padded(n: int, width: nat) -> Seq<char> {
    shortest::dec_padded(n as nat, width)
}

/// Year, month and day with `sep` between them.
pub open spec fn date_text(secs: int, sep: Seq<char>) -> Seq<char> {
    let d = date_of(secs / 86400);
    padded(d.year, 4) + sep + padded(d.month, 2) + sep + padded(d.day, 2)
}

pub open spec fn hour_of(secs: int) -> int {
    secs % 86400 / 3600
}

pub open spec fn minute_of(secs: int) -> int {
    secs % 3600 / 60
}

pub open spec fn second_of(secs: int) -> int {
    secs % 60
}

/// `2026-09-15T00`
pub open spec fn hour_text(secs: int) -> Seq<char> {
    date_text(secs, "-"@) + "T"@ + padded(hour_of(secs), 2)
}

/// `2026-09-15T0000`
pub open spec fn minute_text(secs: int) -> Seq<char> {
    hour_text(secs) + padded(minute_of(secs), 2)
}

/// `2026-09-15T00:00`
pub open spec fn colon_minute_text(secs: int) -> Seq<char> {
    hour_text(secs) + ":"@ + padded(minute_of(secs), 2)
}

/// `2026-09-15T00:00:00`
pub open spec fn second_text(secs: int) -> Seq<char> {
    colon_minute_text(secs) + ":"@ + padded(second_of(secs), 2)
}

/// `2026-09-15 00:00:00`
pub open spec fn spaced_text(secs: int) -> Seq<char> {
    date_text(secs, "-"@) + " "@ + padded(hour_of(secs), 2) + ":"@ + padded(minute_of(secs), 2)
        + ":"@ + padded(second_of(secs), 2)
}

/// `2026/09/15/0000Z`
pub open spec fn run_text(secs: int) -> Seq<char> {
    date_text(secs, "/"@) + "/"@ + padded(hour_of(secs), 2) + padded(minute_of(secs), 2) + "Z"@
}

/// A year is 365 days long, or 366.
proof fn lemma_year_length(year: int)
    ensures
        days_before_year(year + 1) == days_before_year(year) + days_before_month(year, 13),
        365 <= days_before_month(year, 13) <= 366,
{
    reveal_with_fuel(days_before_month, 14);
}

/// In a year that starts `rest` days before, some month and day come `rest` days behind its start.
proof fn lemma_month_of(year: int, month: int, rest: int) -> (date: Date)
    requires
        1 <= month <= 12,
        0 <= rest,
        days_before_month(year, month) <= rest < days_before_month(year, 13),
    ensures
        date.year == year,
        1 <= date.month <= 12,
        1 <= date.day <= days_in_month(year, date.month),
        days_before_month(year, date.month) + date.day - 1 == rest,
    decreases 13 - month,
{
    if rest < days_before_month(year, month + 1) {
        Date { year, month, day: rest - days_before_month(year, month) + 1 }
    } else {
        lemma_month_of(year, month + 1, rest)
    }
}

/// From a year on that starts at or before it, a day has a date.
proof fn lemma_date_from(year: int, day: int) -> (date: Date)
    requires
        days_before_year(year) <= day + 719528,
    ensures
        is_date_of(date, day),
        date.year >= year,
    decreases day + 719528 - days_before_year(year),
{
    lemma_year_length(year);
    if day + 719528 < days_before_year(year + 1) {
        assert(days_before_month(year, 1) == 0);
        lemma_month_of(year, 1, day + 719528 - days_before_year(year))
    } else {
        lemma_date_from(year + 1, day)
    }
}

proof fn lemma_years_in_order(a: int, b: int)
    requires
        a <= b,
    ensures
        days_before_year(a) <= days_before_year(b),
    decreases b - a,
{
    if a < b {
        lemma_year_length(a);
        lemma_years_in_order(a + 1, b);
    }
}

/// Within its year a day does not come before the year or behind it.
proof fn lemma_day_in_year(date: Date, day: int)
    requires
        is_date_of(date, day),
    ensures
        days_before_year(date.year) <= day + 719528 < days_before_year(date.year + 1),
{
    lemma_year_length(date.year);
    reveal_with_fuel(days_before_month, 14);
}

/// Every day of the years 0 to 9999 has a date in them.
pub proof fn lemma_date(secs: int)
    requires
        has_plain_year(secs),
    ensures
        is_date_of(date_of(secs / 86400), secs / 86400),
        0 <= date_of(secs / 86400).year <= 9999,
        1 <= date_of(secs / 86400).month <= 12,
        1 <= date_of(secs / 86400).day <= 31,
{
    let day = secs / 86400;
    assert(days_before_year(0) == 0);
    assert(days_before_year(10000) == 3652425);
    assert(-719528 <= day < 3652425 - 719528);
    let found = lemma_date_from(0, day);
    let date = date_of(day);
    assert(is_date_of(date, day));
    lemma_day_in_year(date, day);
    if date.year > 9999 {
        lemma_years_in_order(10000, date.year);
    }
    if date.year < 0 {
        lemma_years_in_order(date.year + 1, 0);
    }
}

/// A text of digits and of the signs between them.
pub open spec fn is_plain(s: Seq<char>) -> bool {
    forall|i: int|
        0 <= i < s.len() ==> text::is_digit(#[trigger] s[i]) || s[i] == '-' || s[i] == 'T' || s[i]
            == ':'
}

proof fn lemma_padded_is_plain(n: int, width: nat)
    ensures
        padded(n, width).len() == width,
        is_plain(padded(n, width)),
        width > 0 ==> text::is_digit(padded(n, width)[0]) && text::is_digit(
            padded(n, width).last(),
        ),
{
    let s = padded(n, width);
    shortest::lemma_padded(n as nat, width);
    assert forall|i: int| 0 <= i < s.len() implies text::is_digit(#[trigger] s[i]) by {}
    if width > 0 {
        assert(text::is_digit(s[0]));
        assert(text::is_digit(s[width - 1]));
    }
}

proof fn lemma_plain_concat(a: Seq<char>, b: Seq<char>)
    requires
        is_plain(a),
        is_plain(b),
    ensures
        is_plain(a + b),
{
    assert forall|i: int| 0 <= i < (a + b).len() implies text::is_digit(#[trigger] (a + b)[i]) || (a
        + b)[i] == '-' || (a + b)[i] == 'T' || (a + b)[i] == ':' by {
        if i < a.len() {
            assert((a + b)[i] == a[i]);
        } else {
            assert((a + b)[i] == b[i - a.len()]);
        }
    }
}

/// The text of a time to the hour starts and ends with a digit.
proof fn lemma_hour_text(secs: int)
    ensures
        hour_text(secs).len() == 13,
        is_plain(hour_text(secs)),
        text::is_digit(hour_text(secs)[0]),
        text::is_digit(hour_text(secs).last()),
{
    reveal_strlit("-");
    reveal_strlit("T");
    let d = date_of(secs / 86400);
    let (y, m, x, h) = (
        padded(d.year, 4),
        padded(d.month, 2),
        padded(d.day, 2),
        padded(hour_of(secs), 2),
    );
    lemma_padded_is_plain(d.year, 4);
    lemma_padded_is_plain(d.month, 2);
    lemma_padded_is_plain(d.day, 2);
    lemma_padded_is_plain(hour_of(secs), 2);
    assert(is_plain("-"@) && is_plain("T"@));
    lemma_plain_concat(y, "-"@);
    lemma_plain_concat(y + "-"@, m);
    lemma_plain_concat(y + "-"@ + m, "-"@);
    lemma_plain_concat(y + "-"@ + m + "-"@, x);
    lemma_plain_concat(date_text(secs, "-"@), "T"@);
    lemma_plain_concat(date_text(secs, "-"@) + "T"@, h);
    assert(hour_text(secs)[0] == y[0]);
    assert(hour_text(secs).last() == h.last());
}

/// What a text of a time must be so that nothing is trimmed off it.
pub open spec fn is_time_text(s: Seq<char>, len: nat) -> bool {
    &&& s.len() == len
    &&& is_plain(s)
    &&& text::is_digit(s[0])
    &&& text::is_digit(s.last())
}

/// The texts of a time start and end with a digit.
pub proof fn lemma_time_texts(secs: int)
    ensures
        is_time_text(hour_text(secs), 13),
        is_time_text(minute_text(secs), 15),
        is_time_text(colon_minute_text(secs), 16),
        is_time_text(second_text(secs), 19),
{
    reveal_strlit(":");
    lemma_hour_text(secs);
    let h = hour_text(secs);
    let m = padded(minute_of(secs), 2);
    let s = padded(second_of(secs), 2);
    lemma_padded_is_plain(minute_of(secs), 2);
    lemma_padded_is_plain(second_of(secs), 2);
    assert(is_plain(":"@));
    lemma_plain_concat(h, m);
    assert(minute_text(secs)[0] == h[0]);
    assert(minute_text(secs).last() == m.last());
    lemma_plain_concat(h, ":"@);
    lemma_plain_concat(h + ":"@, m);
    assert(colon_minute_text(secs)[0] == h[0]);
    assert(colon_minute_text(secs).last() == m.last());
    let c = colon_minute_text(secs);
    lemma_plain_concat(c, ":"@);
    lemma_plain_concat(c + ":"@, s);
    assert(second_text(secs)[0] == c[0]);
    assert(second_text(secs).last() == s.last());
}

/// Two numbers of a given width are told apart by their digits.
proof fn lemma_padded_injective(a: int, b: int, width: nat)
    requires
        0 <= a < shortest::pow10(width),
        0 <= b < shortest::pow10(width),
        padded(a, width) == padded(b, width),
    ensures
        a == b,
{
    shortest::lemma_padded(a as nat, width);
    shortest::lemma_padded(b as nat, width);
    lemma_small_mod(a as nat, shortest::pow10(width));
    lemma_small_mod(b as nat, shortest::pow10(width));
}

/// Where the fields of a time stand in its text.
proof fn lemma_minute_fields(a: int)
    ensures
        ({
            let d = date_of(a / 86400);
            let s = minute_text(a);
            &&& s.subrange(0, 4) == padded(d.year, 4)
            &&& s.subrange(5, 7) == padded(d.month, 2)
            &&& s.subrange(8, 10) == padded(d.day, 2)
            &&& s.subrange(11, 13) == padded(hour_of(a), 2)
            &&& s.subrange(13, 15) == padded(minute_of(a), 2)
        }),
{
    reveal_strlit("-");
    reveal_strlit("T");
    let d = date_of(a / 86400);
    let s = minute_text(a);
    let (y, m, x, h, i) = (
        padded(d.year, 4),
        padded(d.month, 2),
        padded(d.day, 2),
        padded(hour_of(a), 2),
        padded(minute_of(a), 2),
    );
    lemma_padded_is_plain(d.year, 4);
    lemma_padded_is_plain(d.month, 2);
    lemma_padded_is_plain(d.day, 2);
    lemma_padded_is_plain(hour_of(a), 2);
    lemma_padded_is_plain(minute_of(a), 2);
    assert(s == y + "-"@ + m + "-"@ + x + "T"@ + h + i);
    assert(s.subrange(0, 4) == y);
    assert(s.subrange(5, 7) == m);
    assert(s.subrange(8, 10) == x);
    assert(s.subrange(11, 13) == h);
    assert(s.subrange(13, 15) == i);
}

proof fn lemma_same_day(d: Date, e: Date, x: int, y: int)
    requires
        is_date_of(d, x),
        is_date_of(e, y),
        d.year == e.year,
        d.month == e.month,
        d.day == e.day,
    ensures
        x == y,
{
    assert(d == e);
}

/// The minutes of a time, from its day, hour and minute.
proof fn lemma_minutes(a: int)
    ensures
        a / 60 == 1440 * (a / 86400) + 60 * hour_of(a) + minute_of(a),
{
    let q = a / 86400;
    let r = a % 86400;
    let h = r / 3600;
    let s = r % 3600;
    lemma_fundamental_div_mod(a, 86400);
    lemma_fundamental_div_mod(r, 3600);
    lemma_fundamental_div_mod(s, 60);
    lemma_fundamental_div_mod_converse(a, 3600, 24 * q + h, s);
    lemma_fundamental_div_mod_converse(a, 60, 1440 * q + 60 * h + s / 60, s % 60);
}

/// A time to the minute is told by its text.
pub proof fn lemma_minute_text_injective(a: int, b: int)
    requires
        has_plain_year(a),
        has_plain_year(b),
        minute_text(a) == minute_text(b),
    ensures
        a / 60 == b / 60,
{
    lemma_minute_fields(a);
    lemma_minute_fields(b);
    let (d, e) = (date_of(a / 86400), date_of(b / 86400));
    assert(shortest::pow10(2) == 100 && shortest::pow10(4) == 10000) by {
        reveal_with_fuel(shortest::pow10, 5);
    }
    assert(a / 86400 == b / 86400) by {
        lemma_date(a);
        lemma_date(b);
        lemma_padded_injective(d.year, e.year, 4);
        lemma_padded_injective(d.month, e.month, 2);
        lemma_padded_injective(d.day, e.day, 2);
        lemma_same_day(d, e, a / 86400, b / 86400);
    }
    lemma_padded_injective(hour_of(a), hour_of(b), 2);
    lemma_padded_injective(minute_of(a), minute_of(b), 2);
    lemma_minutes(a);
    lemma_minutes(b);
}

/// A run is named by the same digits as its time: `2026/09/15/0000Z` by those of
/// `2026-09-15T0000`; and a time with a space has those of the time with a `T`.
pub proof fn law_times_are_shown_alike(secs: int)
    ensures
        run_text(secs).len() == 16,
        run_text(secs)[15] == 'Z',
        forall|i: int|
            0 <= i < 15 ==> #[trigger] run_text(secs)[i] == (if i == 4 || i == 7 || i == 10 {
                '/'
            } else {
                minute_text(secs)[i]
            }),
        spaced_text(secs).len() == 19,
        forall|i: int|
            0 <= i < 19 ==> #[trigger] spaced_text(secs)[i] == (if i == 10 {
                ' '
            } else {
                second_text(secs)[i]
            }),
{
    reveal_strlit("/");
    reveal_strlit("-");
    reveal_strlit("T");
    reveal_strlit("Z");
    reveal_strlit(" ");
    reveal_strlit(":");
    let date = date_of(secs / 86400);
    lemma_padded_is_plain(date.year, 4);
    lemma_padded_is_plain(date.month, 2);
    lemma_padded_is_plain(date.day, 2);
    lemma_padded_is_plain(hour_of(secs), 2);
    lemma_padded_is_plain(minute_of(secs), 2);
    lemma_padded_is_plain(second_of(secs), 2);
}

} // verus!
