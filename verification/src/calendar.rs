//! Calendar periods: the day, the week and the month that a date lies in, and
//! the labels by which they are told apart.

use chrono::Datelike;
use chrono::NaiveDate;
use vstd::prelude::*;

use crate::number::{
    all_digits, decimal, digit_value, digits_value, lemma_leading_zeros, lemma_numeral_value,
    right_aligned,
};

verus! {

/// The first year that a date can lie in.
pub const MIN_YEAR: i32 = -262143;

/// The last year that a date can lie in.
pub const MAX_YEAR: i32 = 262142;

/// A date of the proleptic Gregorian calendar.
#[derive(Debug, Clone, Copy, PartialEq, Eq, Structural)]
pub struct Date {
    pub year: i32,
    pub month: u32,
    pub day: u32,
}

/// Whether a year has a leap day.
pub open spec fn is_leap(year: int) -> bool {
    year % 4 == 0 && (year % 100 != 0 || year % 400 == 0)
}

/// Number of days of a month.
pub open spec fn month_len(year: int, month: int) -> int {
    if month == 2 {
        if is_leap(year) {
            29
        } else {
            28
        }
    } else if month == 4 || month == 6 || month == 9 || month == 11 {
        30
    } else {
        31
    }
}

/// Number of days of a year before the first of a month.
pub open spec fn days_before_month(year: int, month: int) -> int
    decreases month,
{
    if month <= 1 {
        0
    } else {
        days_before_month(year, month - 1) + month_len(year, month - 1)
    }
}

/// Number of days from the first of January of the year 1 to that of `year`.
pub open spec fn days_before_year(year: int) -> int {
    let y = year - 1;
    365 * y + y / 4 - y / 100 + y / 400
}

impl Date {
    /// Whether the calendar has this date.
    pub open spec fn valid(self) -> bool {
        &&& MIN_YEAR <= self.year <= MAX_YEAR
        &&& 1 <= self.month <= 12
        &&& 1 <= self.day <= month_len(self.year as int, self.month as int)
    }

    /// The number of the date, counted from the first of January of the year 1,
    /// which is day 1 and a Monday.
    pub open spec fn number(self) -> int {
        days_before_year(self.year as int) + days_before_month(self.year as int, self.month as int)
            + self.day
    }

    /// Days since the last Monday, or zero on a Monday.
    pub open spec fn days_from_monday(self) -> int {
        (self.number() - 1) % 7
    }

    /// The number of the Monday on or before the date.
    pub open spec fn monday(self) -> int {
        self.number() - self.days_from_monday()
    }

    /// The first date that there is.
    pub open spec fn earliest() -> Date {
        Date { year: MIN_YEAR, month: 1, day: 1 }
    }

    /// The first day of the month.
    pub open spec fn first_of_month(self) -> Date {
        Date { day: 1, ..self }
    }
}

/// The date of a number.
pub open spec fn date_numbered(n: int) -> Date {
    choose|d: Date| d.valid() && #[trigger] d.number() == n
}

/// A number in base ten with at least `width` digits.
pub open spec fn zero_padded(n: nat, width: int) -> Seq<char> {
    right_aligned(decimal(n), width, '0')
}

/// A year with at least four digits; one that needs more, or lies before the year
/// 0, has a sign.
pub open spec fn year_text(year: int) -> Seq<char> {
    if 0 <= year <= 9999 {
        zero_padded(year as nat, 4)
    } else if year > 9999 {
        seq!['+'] + zero_padded(year as nat, 4)
    } else {
        seq!['-'] + zero_padded((-year) as nat, 4)
    }
}

/// A date as year, month and day.
pub open spec fn iso_text(d: Date) -> Seq<char> {
    year_text(d.year as int) + seq!['-'] + zero_padded(d.month as nat, 2) + seq!['-']
        + zero_padded(d.day as nat, 2)
}

/// `weekday` of a `NaiveDate` with `num_days_from_monday` gives the days since the
/// last Monday. `NaiveDate::from_ymd_opt` accepts every valid date.
#[verifier::external_body]
fn weekday_of(d: Date) -> (r: u32)
    requires
        d.valid(),
    ensures
        r == d.days_from_monday(),
{
    let date = NaiveDate::from_ymd_opt(d.year, d.month, d.day).unwrap();
    date.weekday().num_days_from_monday()
}

/// Subtracting `chrono::Duration::days` from a `NaiveDate` gives the date that
/// many days before. The operator panics where there is no such date.
#[verifier::external_body]
fn days_earlier(d: Date, days: u32) -> (r: Date)
    requires
        d.valid(),
        d.number() - days >= Date::earliest().number(),
    ensures
        r.valid(),
        r.number() == d.number() - days,
{
    let date = NaiveDate::from_ymd_opt(d.year, d.month, d.day).unwrap();
    let earlier = date - chrono::Duration::days(days as i64);
    Date { year: earlier.year(), month: earlier.month(), day: earlier.day() }
}

/// `NaiveDate::format` with `%Y-%m-%d` writes the year with at least four digits,
/// signed where it is out of the range 0 to 9999, and the month and the day with
/// two.
#[verifier::external_body]
fn formatted(d: Date) -> (r: String)
    requires
        d.valid(),
    ensures
        r@ == iso_text(d),
{
    let date = NaiveDate::from_ymd_opt(d.year, d.month, d.day).unwrap();
    date.format("%Y-%m-%d").to_string()
}

/// The labels of the day, the week and the month that a date lies in.
pub struct Labels {
    pub today: String,
    /// The Monday on which the week started.
    pub week_start: String,
    /// The first of the month.
    pub month_start: String,
}

impl Labels {
    /// Whether these are the labels of a date.
    pub open spec fn of(&self, d: Date) -> bool {
        &&& self.today@ == iso_text(d)
        &&& self.week_start@ == iso_text(date_numbered(d.monday()))
        &&& self.month_start@ == iso_text(d.first_of_month())
    }
}

/// Label a date.
pub fn labels(d: Date) -> (r: Labels)
    requires
        d.valid(),
        d.monday() >= Date::earliest().number(),
    ensures
        r.of(d),
{
    Labels {
        today: today_str(d),
        week_start: week_start_str(d),
        month_start: month_start_str(d),
    }
}

/// The label of a day: the date itself.
pub fn today_str(d: Date) -> (r: String)
    requires
        d.valid(),
    ensures
        r@ == iso_text(d),
{
    formatted(d)
}

/// The label of a week: the Monday on which it started.
pub fn week_start_str(d: Date) -> (r: String)
    requires
        d.valid(),
        d.monday() >= Date::earliest().number(),
    ensures
        r@ == iso_text(date_numbered(d.monday())),
{
    let monday: Date = days_earlier(d, weekday_of(d));
    proof {
        let c = date_numbered(d.monday());
        assert(monday.valid() && monday.number() == d.monday());
        assert(c.valid() && c.number() == d.monday());
        law_number_tells_dates_apart(monday, c);
    }
    formatted(monday)
}

/// The label of a month: its first day.
pub fn month_start_str(d: Date) -> (r: String)
    requires
        d.valid(),
    ensures
        r@ == iso_text(d.first_of_month()),
{
    formatted(Date { year: d.year, month: d.month, day: 1 })
}

// ---- Laws --------------------------------------------------------------------

proof fn lemma_year_step(y: int)
    ensures
        days_before_year(y + 1) == days_before_year(y) + 365 + if is_leap(y) {
            1int
        } else {
            0int
        },
{
    let z = y - 1;
    assert(y / 4 == z / 4 + if y % 4 == 0 {
        1int
    } else {
        0int
    });
    assert(y / 100 == z / 100 + if y % 100 == 0 {
        1int
    } else {
        0int
    });
    assert(y / 400 == z / 400 + if y % 400 == 0 {
        1int
    } else {
        0int
    });
    assert(y % 400 == 0 ==> y % 100 == 0);
    assert(y % 100 == 0 ==> y % 4 == 0);
}

proof fn lemma_years_grow(a: int, b: int)
    requires
        a <= b,
    ensures
        days_before_year(a) <= days_before_year(b),
    decreases b - a,
{
    if a < b {
        lemma_years_grow(a, b - 1);
        lemma_year_step(b - 1);
    }
}

proof fn lemma_months_grow(y: int, a: int, b: int)
    requires
        1 <= a <= b,
    ensures
        days_before_month(y, a) <= days_before_month(y, b),
    decreases b - a,
{
    if a < b {
        lemma_months_grow(y, a, b - 1);
    }
}

proof fn lemma_year_len(y: int)
    ensures
        days_before_month(y, 13) == 365 + if is_leap(y) {
            1int
        } else {
            0int
        },
{
    reveal_with_fuel(days_before_month, 14);
}

proof fn lemma_number_in_year(d: Date)
    requires
        d.valid(),
    ensures
        days_before_year(d.year as int) < d.number() <= days_before_year(d.year + 1),
{
    let y = d.year as int;
    lemma_months_grow(y, 1, d.month as int);
    lemma_months_grow(y, d.month + 1, 13);
    lemma_year_len(y);
    lemma_year_step(y);
}

proof fn lemma_number_orders(a: Date, b: Date)
    requires
        a.valid(),
        b.valid(),
        a.year < b.year || (a.year == b.year && a.month < b.month),
    ensures
        a.number() < b.number(),
{
    if a.year < b.year {
        lemma_number_in_year(a);
        lemma_number_in_year(b);
        lemma_years_grow(a.year + 1, b.year as int);
    } else {
        lemma_months_grow(a.year as int, a.month + 1, b.month as int);
    }
}

/// Two dates of one number are the same date.
pub proof fn law_number_tells_dates_apart(a: Date, b: Date)
    requires
        a.valid(),
        b.valid(),
        a.number() == b.number(),
    ensures
        a == b,
{
    if a.year < b.year || (a.year == b.year && a.month < b.month) {
        lemma_number_orders(a, b);
    }
    if b.year < a.year || (b.year == a.year && b.month < a.month) {
        lemma_number_orders(b, a);
    }
}

/// A week starts on the Monday on or before each of its days.
pub proof fn law_week_starts_on_monday(d: Date)
    requires
        d.valid(),
    ensures
        d.monday() <= d.number() < d.monday() + 7,
        (d.monday() - 1) % 7 == 0,
{
}

/// Only dates of the very first year can lie in a week that starts before all
/// dates.
pub proof fn law_weeks_are_in_range(d: Date)
    requires
        d.valid(),
        d.year > MIN_YEAR,
    ensures
        d.monday() >= Date::earliest().number(),
{
    lemma_number_in_year(d);
    lemma_years_grow(MIN_YEAR + 1, d.year as int);
    lemma_year_step(MIN_YEAR as int);
    lemma_months_grow(MIN_YEAR as int, 1, 1);
}

proof fn lemma_padded_value(n: nat, width: int)
    ensures
        all_digits(zero_padded(n, width), 10),
        digits_value(zero_padded(n, width), 10) == n,
        zero_padded(n, width).len() >= width,
        n < 100 && width == 2 ==> zero_padded(n, width).len() == 2,
        n < 10000 && width == 4 ==> zero_padded(n, width).len() == 4,
{
    lemma_numeral_value(n, 10);
    let zeros = crate::number::copies('0', width - decimal(n).len());
    lemma_leading_zeros(zeros, decimal(n), 10);
    assert(zero_padded(n, width) == zeros + decimal(n));
    reveal_with_fuel(crate::number::numeral, 5);
    if n < 100 && width == 2 {
        assert(decimal(n).len() <= 2);
    }
    if n < 10000 && width == 4 {
        assert(decimal(n).len() <= 4);
    }
}

proof fn lemma_year_text(a: int, b: int)
    requires
        year_text(a) == year_text(b),
    ensures
        a == b,
{
    let (m, n) = (if a < 0 { -a } else { a }, if b < 0 { -b } else { b });
    let x = zero_padded(m as nat, 4);
    let y = zero_padded(n as nat, 4);
    lemma_padded_value(m as nat, 4);
    lemma_padded_value(n as nat, 4);
    assert(digit_value(x[0]) is Some && digit_value(y[0]) is Some);
    let s = year_text(a);
    assert(digit_value('+') is None && digit_value('-') is None);
    if 0 <= a <= 9999 {
        assert(s[0] == x[0]);
        if 0 <= b <= 9999 {
        } else {
            assert(year_text(b)[0] == '+' || year_text(b)[0] == '-');
        }
    } else {
        assert(s[0] == '+' || s[0] == '-');
        assert(s.skip(1) =~= x);
        if 0 <= b <= 9999 {
            assert(year_text(b)[0] == y[0]);
        } else {
            assert(year_text(b).skip(1) =~= y);
            assert(year_text(b)[0] == if b > 9999 { '+' } else { '-' });
        }
    }
}

/// Two dates have one text only if they are the same date.
pub proof fn law_text_tells_dates_apart(a: Date, b: Date)
    requires
        a.valid(),
        b.valid(),
        iso_text(a) == iso_text(b),
    ensures
        a == b,
{
    let (ma, mb) = (zero_padded(a.month as nat, 2), zero_padded(b.month as nat, 2));
    let (da, db) = (zero_padded(a.day as nat, 2), zero_padded(b.day as nat, 2));
    lemma_padded_value(a.month as nat, 2);
    lemma_padded_value(b.month as nat, 2);
    lemma_padded_value(a.day as nat, 2);
    lemma_padded_value(b.day as nat, 2);
    let s = iso_text(a);
    let t = iso_text(b);
    let n = s.len() as int;
    assert(s.subrange(n - 2, n) =~= da);
    assert(t.subrange(n - 2, n) =~= db);
    assert(s.subrange(n - 5, n - 3) =~= ma);
    assert(t.subrange(n - 5, n - 3) =~= mb);
    assert(s.take(n - 6) =~= year_text(a.year as int));
    assert(t.take(n - 6) =~= year_text(b.year as int));
    lemma_year_text(a.year as int, b.year as int);
}

/// The labels of two dates agree exactly where their periods do: the label of the
/// day where they are the same date, the label of the week where no Monday lies
/// after the one and not after the other, the label of the month where year and
/// month agree.
pub proof fn law_labels_tell_periods_apart(a: Date, b: Date, la: Labels, lb: Labels)
    requires
        a.valid(),
        b.valid(),
        a.monday() >= Date::earliest().number(),
        b.monday() >= Date::earliest().number(),
        la.of(a),
        lb.of(b),
    ensures
        la.today@ == lb.today@ <==> a == b,
        la.week_start@ == lb.week_start@ <==> a.monday() == b.monday(),
        la.month_start@ == lb.month_start@ <==> a.year == b.year && a.month == b.month,
{
    if la.today@ == lb.today@ {
        law_text_tells_dates_apart(a, b);
    }
    if la.month_start@ == lb.month_start@ {
        law_text_tells_dates_apart(a.first_of_month(), b.first_of_month());
    }
    lemma_has_date(a, a.monday());
    lemma_has_date(b, b.monday());
    if la.week_start@ == lb.week_start@ {
        law_text_tells_dates_apart(date_numbered(a.monday()), date_numbered(b.monday()));
    }
}

/// Every number from that of the first date up to that of a date is one of a date.
proof fn lemma_has_date(d: Date, n: int)
    requires
        d.valid(),
        Date::earliest().number() <= n <= d.number(),
    ensures
        date_numbered(n).valid(),
        date_numbered(n).number() == n,
    decreases d.number() - n,
{
    if d.number() == n {
    } else {
        let before = if d.day > 1 {
            Date { day: (d.day - 1) as u32, ..d }
        } else if d.month > 1 {
            Date {
                month: (d.month - 1) as u32,
                day: month_len(d.year as int, d.month - 1) as u32,
                ..d
            }
        } else {
            Date { year: (d.year - 1) as i32, month: 12, day: 31 }
        };
        lemma_year_step(d.year - 1);
        lemma_year_len(d.year - 1);
        reveal_with_fuel(days_before_month, 2);
        if d.day == 1 && d.month == 1 && d.year == MIN_YEAR {
            assert(d == Date::earliest());
        }
        assert(before.valid());
        assert(before.number() == d.number() - 1);
        lemma_has_date(before, n);
    }
}

/// Days are numbered one after the other, through the ends of months and years, from the
/// first of January of the year 1 on.
pub proof fn law_days_follow_one_another(d: Date)
    requires
        d.valid(),
    ensures
        (Date { year: 1, month: 1, day: 1 }).number() == 1,
        d.day < month_len(d.year as int, d.month as int) ==> (Date {
            day: (d.day + 1) as u32,
            ..d
        }).number() == d.number() + 1,
        d.day == month_len(d.year as int, d.month as int) && d.month < 12 ==> (Date {
            month: (d.month + 1) as u32,
            day: 1,
            ..d
        }).number() == d.number() + 1,
        d.month == 12 && d.day == 31 && d.year < MAX_YEAR ==> (Date {
            year: (d.year + 1) as i32,
            month: 1,
            day: 1,
        }).number() == d.number() + 1,
{
    reveal_with_fuel(days_before_month, 2);
    lemma_year_step(d.year as int);
    lemma_year_len(d.year as int);
}

/// The lengths of the months. February has a leap day every four years, but not in the
/// first year of a century unless the century is divisible by four.
pub proof fn law_lengths_of_months(year: int, month: int)
    ensures
        month == 1 || month == 3 || month == 5 || month == 7 || month == 8 || month == 10 || month
            == 12 ==> month_len(year, month) == 31,
        month == 4 || month == 6 || month == 9 || month == 11 ==> month_len(year, month) == 30,
        month_len(year, 2) == 29 <==> (year % 400 == 0 || (year % 4 == 0 && year % 100 != 0)),
        month_len(year, 2) == 28 || month_len(year, 2) == 29,
{
}

/// A date of the years 0 to 9999 is written with four digits for the year, two for the
/// month and two for the day, and dashes between.
pub proof fn law_dates_are_written_in_full(d: Date)
    requires
        d.valid(),
        0 <= d.year <= 9999,
    ensures
        ({
            let t = iso_text(d);
            &&& t.len() == 10
            &&& t[4] == '-'
            &&& t[7] == '-'
            &&& all_digits(t.subrange(0, 4), 10)
            &&& digits_value(t.subrange(0, 4), 10) == d.year
            &&& all_digits(t.subrange(5, 7), 10)
            &&& digits_value(t.subrange(5, 7), 10) == d.month
            &&& all_digits(t.subrange(8, 10), 10)
            &&& digits_value(t.subrange(8, 10), 10) == d.day
        }),
{
    lemma_padded_value(d.year as nat, 4);
    lemma_padded_value(d.month as nat, 2);
    lemma_padded_value(d.day as nat, 2);
    let t = iso_text(d);
    assert(t.subrange(0, 4) =~= zero_padded(d.year as nat, 4));
    assert(t.subrange(5, 7) =~= zero_padded(d.month as nat, 2));
    assert(t.subrange(8, 10) =~= zero_padded(d.day as nat, 2));
}

/// The labels of a date are the date itself, the last Monday on or before it, and the
/// first of its month. A Monday is seven days after a Monday, and the first day of the
/// year 1 is one.
pub proof fn law_labels_name_their_periods(d: Date, l: Labels, monday: Date)
    requires
        d.valid(),
        l.of(d),
        monday.valid(),
        (monday.number() - 1) % 7 == 0,
        monday.number() <= d.number() < monday.number() + 7,
    ensures
        l.today@ == iso_text(d),
        l.week_start@ == iso_text(monday),
        l.month_start@ == iso_text(Date { year: d.year, month: d.month, day: 1 }),
{
    assert(d.monday() == monday.number());
    let c = date_numbered(d.monday());
    assert(c.valid() && c.number() == d.monday());
    law_number_tells_dates_apart(c, monday);
}

} // verus!
