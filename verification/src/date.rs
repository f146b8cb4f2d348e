//! Calendar dates of the proleptic Gregorian calendar, held as day numbers.
//!
//! A `Date` is the number of days since January 1 of year 1 (that day being
//! day 1), within the range that `chrono::NaiveDate` can represent. The
//! conversions between day numbers and (year, month, day) triples, the weekday
//! and the parsing of `YYYY-MM-DD` text are done by chrono.
use vstd::prelude::*;

use chrono::Datelike;

verus! {

/// The first year that chrono can represent.
pub const MIN_YEAR: i32 = -262143;

/// The last year that chrono can represent.
pub const MAX_YEAR: i32 = 262142;

/// Day number of January 1 of `MIN_YEAR`.
pub const MIN_DAY_NUMBER: i32 = -95746129;

/// Day number of December 31 of `MAX_YEAR`.
pub const MAX_DAY_NUMBER: i32 = 95745399;

pub open spec fn is_leap_year(y: int) -> bool {
    y % 4 == 0 && (y % 100 != 0 || y % 400 == 0)
}

pub open spec fn days_in_month(y: int, m: int) -> int {
    if m == 2 {
        if is_leap_year(y) { 29 } else { 28 }
    } else if m == 4 || m == 6 || m == 9 || m == 11 {
        30
    } else {
        31
    }
}

/// A (year, month, day) triple that names a day of the calendar.
pub open spec fn is_valid_ymd(y: int, m: int, d: int) -> bool {
    1 <= m <= 12 && 1 <= d <= days_in_month(y, m)
}

/// Days of year `y` that come before the first day of month `m`.
pub open spec fn days_before_month(y: int, m: int) -> int {
    let common: int = if m <= 1 {
        0
    } else if m == 2 {
        31
    } else if m == 3 {
        59
    } else if m == 4 {
        90
    } else if m == 5 {
        120
    } else if m == 6 {
        151
    } else if m == 7 {
        181
    } else if m == 8 {
        212
    } else if m == 9 {
        243
    } else if m == 10 {
        273
    } else if m == 11 {
        304
    } else {
        334
    };
    if is_leap_year(y) && m > 2 { common + 1 } else { common }
}

/// Days from January 1 of year 1 up to (not including) January 1 of year `y`.
pub open spec fn days_before_year(y: int) -> int {
    let p = y - 1;
    365 * p + p / 4 - p / 100 + p / 400
}

/// The day number of a calendar date: January 1 of year 1 is day 1.
pub open spec fn day_number(y: int, m: int, d: int) -> int {
    days_before_year(y) + days_before_month(y, m) + d
}

pub open spec fn is_representable(y: int, m: int, d: int) -> bool {
    is_valid_ymd(y, m, d) && MIN_YEAR <= y <= MAX_YEAR
}

pub open spec fn in_day_range(n: int) -> bool {
    MIN_DAY_NUMBER <= n <= MAX_DAY_NUMBER
}

/// The calendar date of day number `n`.
pub open spec fn civil_of(n: int) -> (int, int, int) {
    choose|t: (int, int, int)| is_representable(t.0, t.1, t.2) && day_number(t.0, t.1, t.2) == n
}

pub open spec fn year_of(n: int) -> int {
    civil_of(n).0
}

pub open spec fn month_of(n: int) -> int {
    civil_of(n).1
}

pub open spec fn day_of(n: int) -> int {
    civil_of(n).2
}

/// Day of the week of day number `n`, counted from Monday (0) to Sunday (6).
/// Day 1 (January 1 of year 1) is a Monday.
pub open spec fn weekday_of(n: int) -> int {
    (n - 1) % 7
}

proof fn lemma_floor_step(y: int, k: int)
    requires
        k > 0,
    ensures
        y / k - (y - 1) / k == (if y % k == 0 { 1int } else { 0int }),
{
    let q = (y - 1) / k;
    let r = (y - 1) % k;
    vstd::arithmetic::div_mod::lemma_fundamental_div_mod(y - 1, k);
    vstd::arithmetic::div_mod::lemma_mod_bound(y - 1, k);
    if r == k - 1 {
        assert(y == (q + 1) * k + 0) by (nonlinear_arith)
            requires
                y - 1 == k * q + r,
                r == k - 1,
        ;
        vstd::arithmetic::div_mod::lemma_fundamental_div_mod_converse_div(y, k, q + 1, 0);
        vstd::arithmetic::div_mod::lemma_fundamental_div_mod_converse_mod(y, k, q + 1, 0);
    } else {
        assert(y == q * k + (r + 1)) by (nonlinear_arith)
            requires
                y - 1 == k * q + r,
        ;
        vstd::arithmetic::div_mod::lemma_fundamental_div_mod_converse_div(y, k, q, r + 1);
        vstd::arithmetic::div_mod::lemma_fundamental_div_mod_converse_mod(y, k, q, r + 1);
    }
}

proof fn lemma_divides_coarser(y: int, a: int, b: int)
    requires
        a > 0,
        b > 0,
        y % (a * b) == 0,
    ensures
        y % a == 0,
{
    assert(a * b > 0) by (nonlinear_arith)
        requires
            a > 0,
            b > 0,
    ;
    vstd::arithmetic::div_mod::lemma_fundamental_div_mod(y, a * b);
    let q = y / (a * b);
    assert(y == (q * b) * a + 0) by (nonlinear_arith)
        requires
            y == (a * b) * q + 0,
    ;
    vstd::arithmetic::div_mod::lemma_fundamental_div_mod_converse_mod(y, a, q * b, 0);
}

/// The length of year `y` in days.
pub open spec fn year_length(y: int) -> int {
    if is_leap_year(y) { 366 } else { 365 }
}

pub proof fn lemma_year_length(y: int)
    ensures
        days_before_year(y + 1) == days_before_year(y) + year_length(y),
{
    lemma_floor_step(y, 4);
    lemma_floor_step(y, 100);
    lemma_floor_step(y, 400);
    if y % 400 == 0 {
        lemma_divides_coarser(y, 100, 4);
    }
    if y % 100 == 0 {
        lemma_divides_coarser(y, 4, 25);
    }
    assert(365 * y == 365 * (y - 1) + 365) by (nonlinear_arith);
}

proof fn lemma_years_ordered(y1: int, y2: int)
    requires
        y1 < y2,
    ensures
        days_before_year(y1) + year_length(y1) <= days_before_year(y2),
    decreases y2 - y1,
{
    lemma_year_length(y1);
    if y1 + 1 < y2 {
        lemma_years_ordered(y1 + 1, y2);
    }
}

proof fn lemma_within_year(y: int, m: int, d: int)
    requires
        is_valid_ymd(y, m, d),
    ensures
        1 <= days_before_month(y, m) + d <= year_length(y),
{
}

proof fn lemma_months_ordered(y: int, m1: int, d1: int, m2: int, d2: int)
    requires
        is_valid_ymd(y, m1, d1),
        is_valid_ymd(y, m2, d2),
        m1 < m2,
    ensures
        days_before_month(y, m1) + d1 < days_before_month(y, m2) + d2,
{
}

/// Distinct calendar dates have distinct day numbers.
pub proof fn lemma_day_number_injective(y1: int, m1: int, d1: int, y2: int, m2: int, d2: int)
    requires
        is_valid_ymd(y1, m1, d1),
        is_valid_ymd(y2, m2, d2),
        day_number(y1, m1, d1) == day_number(y2, m2, d2),
    ensures
        y1 == y2 && m1 == m2 && d1 == d2,
{
    lemma_within_year(y1, m1, d1);
    lemma_within_year(y2, m2, d2);
    if y1 < y2 {
        lemma_years_ordered(y1, y2);
    } else if y2 < y1 {
        lemma_years_ordered(y2, y1);
    } else if m1 < m2 {
        lemma_months_ordered(y1, m1, d1, m2, d2);
    } else if m2 < m1 {
        lemma_months_ordered(y1, m2, d2, m1, d1);
    }
}

/// A representable date is the calendar date of its own day number.
pub proof fn lemma_civil_of_day_number(y: int, m: int, d: int)
    requires
        is_representable(y, m, d),
    ensures
        civil_of(day_number(y, m, d)) == (y, m, d),
{
    let n = day_number(y, m, d);
    assert(is_representable((y, m, d).0, (y, m, d).1, (y, m, d).2) && day_number(
        (y, m, d).0,
        (y, m, d).1,
        (y, m, d).2,
    ) == n);
    let t = civil_of(n);
    lemma_day_number_injective(t.0, t.1, t.2, y, m, d);
}

/// Day numbers grow with the year: a date of an earlier year comes first.
pub proof fn lemma_day_number_monotone_year(y1: int, m1: int, d1: int, y2: int, m2: int, d2: int)
    requires
        is_valid_ymd(y1, m1, d1),
        is_valid_ymd(y2, m2, d2),
        y1 < y2,
    ensures
        day_number(y1, m1, d1) < day_number(y2, m2, d2),
{
    lemma_within_year(y1, m1, d1);
    lemma_within_year(y2, m2, d2);
    lemma_years_ordered(y1, y2);
}

/// `chrono::NaiveDate::from_ymd_opt` followed by `Datelike::num_days_from_ce`.
/// chrono returns a date exactly when the triple names a day of the calendar and
/// the year lies in `MIN_YEAR..=MAX_YEAR`; `num_days_from_ce` counts days with
/// January 1 of year 1 as day 1, which `day_number` states.
#[verifier::external_body]
fn chrono_day_number(year: i32, month: u32, day: u32) -> (r: Option<i32>)
    ensures
        r is Some <==> is_representable(year as int, month as int, day as int),
        r matches Some(n) ==> n == day_number(year as int, month as int, day as int),
{
    match chrono::NaiveDate::from_ymd_opt(year, month, day) {
        Some(date) => Some(date.num_days_from_ce()),
        None => None,
    }
}

/// `chrono::NaiveDate::from_num_days_from_ce_opt` followed by `Datelike::year`,
/// `Datelike::month` and `Datelike::day`. chrono returns a date exactly when the
/// day number is in range, and that date is the calendar date with this day number.
#[verifier::external_body]
fn chrono_civil(n: i32) -> (r: Option<(i32, u32, u32)>)
    ensures
        r is Some <==> in_day_range(n as int),
        r matches Some(t) ==> is_representable(t.0 as int, t.1 as int, t.2 as int) && day_number(
            t.0 as int,
            t.1 as int,
            t.2 as int,
        ) == n,
{
    match chrono::NaiveDate::from_num_days_from_ce_opt(n) {
        Some(date) => Some((date.year(), date.month(), date.day())),
        None => None,
    }
}

/// `chrono::NaiveDate::from_num_days_from_ce_opt` followed by `Datelike::weekday`
/// and `Weekday::num_days_from_monday`: the day of the week, Monday being 0.
/// Day 1 of the proleptic Gregorian calendar (January 1 of year 1) is a Monday.
#[verifier::external_body]
fn chrono_weekday(n: i32) -> (r: Option<u32>)
    ensures
        r is Some <==> in_day_range(n as int),
        r matches Some(w) ==> w == weekday_of(n as int),
{
    match chrono::NaiveDate::from_num_days_from_ce_opt(n) {
        Some(date) => Some(date.weekday().num_days_from_monday()),
        None => None,
    }
}

/// What `chrono::NaiveDate::parse_from_str(text, "%Y-%m-%d")` gives, as a day number.
pub uninterp spec fn parsed_ymd_day_number(text: Seq<char>) -> Option<int>;

/// `chrono::NaiveDate::parse_from_str` with the format `%Y-%m-%d`, followed by
/// `Datelike::num_days_from_ce`. The result is named by `parsed_ymd_day_number`;
/// a parsed date is a `NaiveDate`, so its day number is in range.
#[verifier::external_body]
fn chrono_parse_ymd(text: &str) -> (r: Option<i32>)
    ensures
        (match r {
            Some(n) => Some(n as int),
            None => None,
        }) == parsed_ymd_day_number(text@),
        r matches Some(n) ==> in_day_range(n as int),
{
    match chrono::NaiveDate::parse_from_str(text, "%Y-%m-%d") {
        Ok(date) => Some(date.num_days_from_ce()),
        Err(_) => None,
    }
}

/// A day of the proleptic Gregorian calendar, within chrono's range.
#[derive(Clone, Copy, Debug, PartialEq, Eq, Structural)]
pub struct Date {
    days: i32,
}

impl View for Date {
    type V = int;

    open spec fn view(&self) -> int {
        self.day_number()
    }
}

impl Date {
    #[verifier::type_invariant]
    spec fn in_range(self) -> bool {
        in_day_range(self.days as int)
    }

    /// The day number of this date (January 1 of year 1 is day 1).
    pub closed spec fn day_number(self) -> int {
        self.days as int
    }

    /// The date with the given year, month and day; `None` where that triple names
    /// no day of the calendar or lies outside chrono's range.
    pub fn from_ymd_opt(year: i32, month: u32, day: u32) -> (r: Option<Date>)
        ensures
            r is Some <==> is_representable(year as int, month as int, day as int),
            r matches Some(date) ==> date@ == day_number(year as int, month as int, day as int),
    {
        match chrono_day_number(year, month, day) {
            Some(n) => {
                proof {
                    lemma_day_number_bounds(year as int, month as int, day as int);
                }
                Some(Date { days: n })
            },
            None => None,
        }
    }

    /// The date with the given day number; `None` outside chrono's range.
    pub fn from_num_days_from_ce_opt(days: i32) -> (r: Option<Date>)
        ensures
            r is Some <==> in_day_range(days as int),
            r matches Some(date) ==> date@ == days,
    {
        if MIN_DAY_NUMBER <= days && days <= MAX_DAY_NUMBER {
            Some(Date { days })
        } else {
            None
        }
    }

    /// The day number of this date.
    pub fn num_days_from_ce(&self) -> (r: i32)
        ensures
            r == self@,
            in_day_range(r as int),
    {
        proof {
            use_type_invariant(self);
        }
        self.days
    }

    /// The year, month and day of this date.
    pub fn ymd(&self) -> (r: (i32, u32, u32))
        ensures
            (r.0 as int, r.1 as int, r.2 as int) == civil_of(self@),
            is_representable(r.0 as int, r.1 as int, r.2 as int),
    {
        proof {
            use_type_invariant(self);
        }
        let t = chrono_civil(self.days).unwrap();
        proof {
            lemma_civil_of_day_number(t.0 as int, t.1 as int, t.2 as int);
        }
        t
    }

    pub fn year(&self) -> (r: i32)
        ensures
            r == year_of(self@),
            MIN_YEAR <= r <= MAX_YEAR,
    {
        self.ymd().0
    }

    pub fn month(&self) -> (r: u32)
        ensures
            r == month_of(self@),
            1 <= r <= 12,
    {
        self.ymd().1
    }

    pub fn day(&self) -> (r: u32)
        ensures
            r == day_of(self@),
            1 <= r <= 31,
    {
        self.ymd().2
    }

    /// The day of the week, Monday being 0 and Sunday 6.
    pub fn weekday_from_monday(&self) -> (r: u32)
        ensures
            r == weekday_of(self@),
            r < 7,
    {
        proof {
            use_type_invariant(self);
        }
        chrono_weekday(self.days).unwrap()
    }

    /// The date `days` days after this one (before it where `days` is negative);
    /// `None` where that leaves chrono's range.
    pub fn checked_add_days(&self, days: i64) -> (r: Option<Date>)
        ensures
            r is Some <==> in_day_range(self@ + days),
            r matches Some(date) ==> date@ == self@ + days,
    {
        proof {
            use_type_invariant(self);
        }
        if days < (MIN_DAY_NUMBER as i64) - (self.days as i64) || days > (MAX_DAY_NUMBER as i64)
            - (self.days as i64) {
            None
        } else {
            let n = (self.days as i64 + days) as i32;
            Some(Date { days: n })
        }
    }

    /// Parses `YYYY-MM-DD` text as chrono does.
    pub fn parse_ymd(text: &str) -> (r: Option<Date>)
        ensures
            (match r {
                Some(date) => Some(date@),
                None => None,
            }) == parsed_ymd_day_number(text@),
    {
        match chrono_parse_ymd(text) {
            Some(n) => Some(Date { days: n }),
            None => None,
        }
    }
}

/// The year whose days hold day number `n`, searching upward from year `y`.
proof fn lemma_find_year(n: int, y: int) -> (r: int)
    requires
        days_before_year(y) < n,
    ensures
        y <= r,
        days_before_year(r) < n <= days_before_year(r + 1),
    decreases n - days_before_year(y),
{
    lemma_year_length(y);
    if n <= days_before_year(y + 1) {
        y
    } else {
        lemma_find_year(n, y + 1)
    }
}

/// The month of year `y` that holds day `o` of the year.
spec fn month_of_ordinal(y: int, o: int) -> int {
    if o <= days_before_month(y, 2) {
        1
    } else if o <= days_before_month(y, 3) {
        2
    } else if o <= days_before_month(y, 4) {
        3
    } else if o <= days_before_month(y, 5) {
        4
    } else if o <= days_before_month(y, 6) {
        5
    } else if o <= days_before_month(y, 7) {
        6
    } else if o <= days_before_month(y, 8) {
        7
    } else if o <= days_before_month(y, 9) {
        8
    } else if o <= days_before_month(y, 10) {
        9
    } else if o <= days_before_month(y, 11) {
        10
    } else if o <= days_before_month(y, 12) {
        11
    } else {
        12
    }
}

/// Every day number in chrono's range is the day number of a calendar date, which
/// `civil_of` then gives.
pub proof fn lemma_every_day_has_a_date(n: int)
    requires
        in_day_range(n),
    ensures
        is_representable(civil_of(n).0, civil_of(n).1, civil_of(n).2),
        day_number(civil_of(n).0, civil_of(n).1, civil_of(n).2) == n,
{
    assert(day_number(MIN_YEAR as int, 1, 1) == MIN_DAY_NUMBER);
    let y = lemma_find_year(n, MIN_YEAR as int);
    lemma_year_length(y);
    if y > MAX_YEAR {
        lemma_years_ordered(MAX_YEAR as int, y);
        lemma_year_length(MAX_YEAR as int);
        assert(day_number(MAX_YEAR as int, 12, 31) == MAX_DAY_NUMBER);
    }
    let o = n - days_before_year(y);
    let m = month_of_ordinal(y, o);
    let d = o - days_before_month(y, m);
    assert(is_valid_ymd(y, m, d));
    assert(day_number(y, m, d) == n);
    assert(is_representable((y, m, d).0, (y, m, d).1, (y, m, d).2) && day_number(
        (y, m, d).0,
        (y, m, d).1,
        (y, m, d).2,
    ) == n);
}

/// The day numbers of representable dates are those of `MIN_DAY_NUMBER..=MAX_DAY_NUMBER`.
pub proof fn lemma_day_number_bounds(y: int, m: int, d: int)
    requires
        is_representable(y, m, d),
    ensures
        in_day_range(day_number(y, m, d)),
{
    if y > MIN_YEAR {
        lemma_day_number_monotone_year(MIN_YEAR as int, 1, 1, y, m, d);
    } else {
        lemma_within_year(y, m, d);
    }
    if y < MAX_YEAR {
        lemma_day_number_monotone_year(y, m, d, MAX_YEAR as int, 12, 31);
    } else {
        lemma_within_year(y, m, d);
    }
    assert(day_number(MIN_YEAR as int, 1, 1) == MIN_DAY_NUMBER);
    assert(day_number(MAX_YEAR as int, 12, 31) == MAX_DAY_NUMBER);
}

} // verus!
