//! The Gregorian calendar, and dates and times of day in writing.

use crate::text::digit;
use vstd::prelude::*;

verus! {

/// A day by its year, its month and its place in the month, both counted from one.
pub struct Date {
    pub year: int,
    pub month: int,
    pub day: int,
}

/// Whether a year has a 29 February.
pub open spec fn is_leap(year: int) -> bool {
    year % 4 == 0 && (year % 100 != 0 || year % 400 == 0)
}

/// How many days a month of a year has.
pub open spec fn days_in_month(year: int, month: int) -> int {
    if month == 2 {
        if is_leap(year) {
            29
        } else {
            28
        }
    } else if month == 4 || month == 6 || month == 9 || month == 11 {
        30
    } else {
        31
    }
}

/// How many days of a year come before a month.
pub open spec fn days_before_month(year: int, month: int) -> int
    decreases month,
{
    if month <= 1 {
        0
    } else {
        days_before_month(year, month - 1) + days_in_month(year, month - 1)
    }
}

/// How many days lie between the beginning of 1970 and that of a year; less than
/// none before it.
pub open spec fn days_before_year(year: int) -> int {
    365 * (year - 1970) + (year - 1) / 4 - (year - 1) / 100 + (year - 1) / 400 - 477
}

/// Whether there is such a day.
pub open spec fn is_date(date: Date) -> bool {
    1 <= date.month <= 12 && 1 <= date.day <= days_in_month(date.year, date.month)
}

/// How many days lie between the beginning of 1970 and a day.
pub open spec fn day_number(date: Date) -> int {
    days_before_year(date.year) + days_before_month(date.year, date.month) + date.day - 1
}

/// The day that so many days lie before.
pub open spec fn date_at(n: int) -> Date {
    choose|date: Date| is_date(date) && #[trigger] day_number(date) == n
}

/// A natural number in decimal notation, with zeros before it up to a width.
pub open spec fn padded(n: nat, width: nat) -> Seq<char>
    decreases width, n,
{
    if n < 10 && width <= 1 {
        seq![digit(n)]
    } else {
        padded(n / 10, (if width > 0 {
            width - 1
        } else {
            0
        }) as nat).push(digit(n % 10))
    }
}

/// A year in four digits; outside of those with a sign before them.
pub open spec fn year_text(year: int) -> Seq<char> {
    if 0 <= year <= 9999 {
        padded(year as nat, 4)
    } else if year < 0 {
        seq!['-'] + padded((-year) as nat, 4)
    } else {
        seq!['+'] + padded(year as nat, 4)
    }
}

/// Year, month and day with a text between them.
pub open spec fn date_with(n: int, between: Seq<char>) -> Seq<char> {
    let date = date_at(n);
    year_text(date.year) + between + padded(date.month as nat, 2) + between + padded(date.day as nat, 2)
}

/// The date of the day that so many days lie before.
#[verifier::opaque]
pub open spec fn date_text(n: int) -> Seq<char> {
    date_with(n, seq!['-'])
}

/// Hour, minute and second of the second that so many lie before since 1970, with a
/// text between them.
pub open spec fn time_with(secs: int, between: Seq<char>) -> Seq<char> {
    let of_day = secs % 86_400;
    padded((of_day / 3600) as nat, 2) + between + padded((of_day / 60 % 60) as nat, 2) + between + padded(
        (of_day % 60) as nat,
        2,
    )
}

/// A point in time, by its whole seconds since the beginning of 1970, as the time of
/// day.
pub open spec fn clock_text(secs: int) -> Seq<char> {
    time_with(secs, seq![':'])
}

/// A point in time, by its whole seconds, as a date and a time without anything
/// between their parts.
pub open spec fn stamp_text(secs: int) -> Seq<char> {
    date_with(secs / 86_400, Seq::empty()) + seq!['T'] + time_with(secs, Seq::empty())
}

/// A point in time, by its whole seconds, as a date and a time in UTC.
pub open spec fn moment_text(secs: int) -> Seq<char> {
    date_text(secs / 86_400) + " "@ + clock_text(secs) + " UTC"@
}

/// Nanoseconds behind a second as a decimal fraction in groups of three digits, as
/// many as are needed.
pub open spec fn subsecond_text(nanos: nat) -> Seq<char> {
    if nanos == 0 {
        Seq::empty()
    } else if nanos % 1_000_000 == 0 {
        seq!['.'] + padded(nanos / 1_000_000, 3)
    } else if nanos % 1000 == 0 {
        seq!['.'] + padded(nanos / 1000, 6)
    } else {
        seq!['.'] + padded(nanos, 9)
    }
}

/// A point in time in UTC, by its nanoseconds since the beginning of 1970, in the
/// notation of RFC 3339.
pub open spec fn rfc3339_text(nanos: int) -> Seq<char> {
    let secs = nanos / 1_000_000_000;
    date_text(secs / 86_400) + seq!['T'] + clock_text(secs) + subsecond_text(
        (nanos % 1_000_000_000) as nat,
    ) + "+00:00"@
}

/// How many days lie between two years.
proof fn lemma_year_length(year: int)
    ensures
        days_before_year(year + 1) == days_before_year(year) + (if is_leap(year) {
            366int
        } else {
            365int
        }),
{
}

/// Where the months of a year begin.
proof fn lemma_months(year: int)
    ensures
        forall|m: int|
            1 <= m <= 12 ==> #[trigger] days_before_month(year, m + 1) == days_before_month(year, m)
                + days_in_month(year, m),
        days_before_month(year, 1) == 0,
        days_before_month(year, 13) == (if is_leap(year) {
            366int
        } else {
            365int
        }),
{
    reveal_with_fuel(days_before_month, 14);
}

/// The year of a day on or after the beginning of a year.
proof fn lemma_year_after(n: int, year: int) -> (r: int)
    requires
        days_before_year(year) <= n,
    ensures
        days_before_year(r) <= n < days_before_year(r + 1),
    decreases n - days_before_year(year),
{
    lemma_year_length(year);
    if n < days_before_year(year + 1) {
        year
    } else {
        lemma_year_after(n, year + 1)
    }
}

/// The year of a day before the beginning of a year.
proof fn lemma_year_before(n: int, year: int) -> (r: int)
    requires
        n < days_before_year(year),
    ensures
        days_before_year(r) <= n < days_before_year(r + 1),
    decreases days_before_year(year) - n,
{
    lemma_year_length(year - 1);
    if days_before_year(year - 1) <= n {
        year - 1
    } else {
        lemma_year_before(n, year - 1)
    }
}

/// The month of a day of a year, looked for from a month on.
proof fn lemma_month(year: int, n: int, month: int) -> (r: int)
    requires
        1 <= month <= 12,
        days_before_month(year, month) <= n < days_before_month(year, 13),
    ensures
        1 <= r <= 12,
        days_before_month(year, r) <= n < days_before_month(year, r) + days_in_month(year, r),
    decreases 12 - month,
{
    lemma_months(year);
    assert(days_before_month(year, month + 1) == days_before_month(year, month) + days_in_month(year, month));
    if n < days_before_month(year, month + 1) || month == 12 {
        month
    } else {
        lemma_month(year, n, month + 1)
    }
}

/// Every day has a date.
pub proof fn every_day_has_a_date(n: int)
    ensures
        is_date(date_at(n)),
        day_number(date_at(n)) == n,
{
    assert(days_before_year(1970) == 0);
    let year = if n >= 0 {
        lemma_year_after(n, 1970)
    } else {
        lemma_year_before(n, 1970)
    };
    lemma_months(year);
    lemma_year_length(year);
    let rest = n - days_before_year(year);
    let month = lemma_month(year, rest, 1);
    let date = Date { year, month, day: rest - days_before_month(year, month) + 1 };
    assert(is_date(date) && day_number(date) == n);
}

/// Later years begin later.
proof fn lemma_years_follow(a: int, b: int)
    requires
        a <= b,
    ensures
        days_before_year(a) <= days_before_year(b),
    decreases b - a,
{
    if a < b {
        lemma_years_follow(a, b - 1);
        lemma_year_length(b - 1);
    }
}

/// Later months begin later.
proof fn lemma_months_follow(year: int, a: int, b: int)
    requires
        1 <= a <= b <= 13,
    ensures
        days_before_month(year, a) <= days_before_month(year, b),
    decreases b - a,
{
    if a < b {
        lemma_months_follow(year, a, b - 1);
        assert(days_before_month(year, b) == days_before_month(year, b - 1) + days_in_month(year, b - 1));
    }
}

/// A day lies in its year and in its month.
proof fn lemma_within(date: Date)
    requires
        is_date(date),
    ensures
        days_before_year(date.year) <= day_number(date) < days_before_year(date.year + 1),
        days_before_month(date.year, date.month) <= day_number(date) - days_before_year(date.year)
            < days_before_month(date.year, date.month + 1),
{
    lemma_months(date.year);
    lemma_year_length(date.year);
    assert(days_before_month(date.year, date.month + 1) == days_before_month(date.year, date.month)
        + days_in_month(date.year, date.month));
    lemma_months_follow(date.year, 1, date.month);
    lemma_months_follow(date.year, date.month + 1, 13);
}

/// No day has two dates.
pub proof fn every_day_has_one_date(date: Date)
    requires
        is_date(date),
    ensures
        date_at(day_number(date)) == date,
{
    let n = day_number(date);
    let other = date_at(n);
    every_day_has_a_date(n);
    lemma_within(date);
    lemma_within(other);
    if date.year < other.year {
        lemma_years_follow(date.year + 1, other.year);
    } else if other.year < date.year {
        lemma_years_follow(other.year + 1, date.year);
    }
    if date.month < other.month {
        lemma_months_follow(date.year, date.month + 1, other.month);
    } else if other.month < date.month {
        lemma_months_follow(date.year, other.month + 1, date.month);
    }
}

/// Different digits are different characters.
proof fn lemma_digit(a: nat, b: nat)
    requires
        a < 10,
        b < 10,
    ensures
        digit(a) == digit(b) ==> a == b,
        digit(a) != '-',
        digit(a) != '+',
{
}

/// How long a padded number is, and that it begins with a digit.
proof fn lemma_padded(n: nat, width: nat)
    ensures
        padded(n, width).len() >= 1,
        padded(n, width).len() >= width,
        padded(n, width)[0] != '-',
        padded(n, width)[0] != '+',
    decreases width, n,
{
    lemma_digit(n % 10, 0);
    if !(n < 10 && width <= 1) {
        let less = (if width > 0 {
            width - 1
        } else {
            0
        }) as nat;
        lemma_padded(n / 10, less);
        assert(padded(n, width)[0] == padded(n / 10, less)[0]);
    }
}

/// A number below a hundred takes two digits.
proof fn lemma_two(n: nat)
    requires
        n < 100,
    ensures
        padded(n, 2).len() == 2,
{
    reveal_with_fuel(padded, 3);
}

/// Different numbers are written differently.
proof fn lemma_padded_differ(a: nat, b: nat, width: nat)
    requires
        padded(a, width) == padded(b, width),
    ensures
        a == b,
    decreases width, a,
{
    let less = (if width > 0 {
        width - 1
    } else {
        0
    }) as nat;
    lemma_digit(a % 10, b % 10);
    lemma_padded(a / 10, less);
    lemma_padded(b / 10, less);
    let (x, y) = (padded(a, width), padded(b, width));
    assert(x.last() == digit(a % 10));
    assert(y.last() == digit(b % 10));
    if !(a < 10 && width <= 1) && !(b < 10 && width <= 1) {
        assert(x.drop_last() =~= padded(a / 10, less));
        assert(y.drop_last() =~= padded(b / 10, less));
        lemma_padded_differ(a / 10, b / 10, less);
    }
}

/// Different years are written differently.
proof fn lemma_years_differ(a: int, b: int)
    requires
        year_text(a) == year_text(b),
    ensures
        a == b,
{
    let (x, y) = (year_text(a), year_text(b));
    let m = (if a < 0 {
        -a
    } else {
        a
    }) as nat;
    let n = (if b < 0 {
        -b
    } else {
        b
    }) as nat;
    lemma_padded(m, 4);
    lemma_padded(n, 4);
    assert(x[0] == y[0]);
    if !(0 <= a <= 9999) {
        assert(x.skip(1) =~= padded(m, 4));
        assert(y.skip(1) =~= padded(n, 4));
    }
    lemma_padded_differ(m, n, 4);
}

/// No two days have the same date.
pub proof fn dates_differ(a: int, b: int)
    requires
        date_text(a) == date_text(b),
    ensures
        a == b,
{
    reveal(date_text);
    every_day_has_a_date(a);
    every_day_has_a_date(b);
    let (d, e) = (date_at(a), date_at(b));
    lemma_two(d.month as nat);
    lemma_two(d.day as nat);
    lemma_two(e.month as nat);
    lemma_two(e.day as nat);
    let (x, y) = (date_text(a), date_text(b));
    let n = x.len();
    assert(x.skip(n - 2) =~= padded(d.day as nat, 2));
    assert(y.skip(n - 2) =~= padded(e.day as nat, 2));
    assert(x.subrange(n - 5, n - 3) =~= padded(d.month as nat, 2));
    assert(y.subrange(n - 5, n - 3) =~= padded(e.month as nat, 2));
    assert(x.take(n - 6) =~= year_text(d.year));
    assert(y.take(n - 6) =~= year_text(e.year));
    lemma_years_differ(d.year, e.year);
    lemma_padded_differ(d.month as nat, e.month as nat, 2);
    lemma_padded_differ(d.day as nat, e.day as nat, 2);
}

} // verus!
