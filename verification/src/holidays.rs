//! French public holidays, computed for any year.
use vstd::prelude::*;

use crate::date::{
    civil_of, day_number, days_before_year, lemma_civil_of_day_number, lemma_day_number_injective,
    lemma_every_day_has_a_date, month_of, day_of, is_valid_ymd, in_day_range, is_representable, lemma_day_number_bounds,
    lemma_day_number_monotone_year, lemma_year_length, weekday_of, year_of, Date, MAX_DAY_NUMBER,
    MAX_YEAR, MIN_YEAR,
};

verus! {

/// Integer division rounding toward zero, as `/` does on machine integers.
pub open spec fn tdiv(a: int, b: int) -> int {
    if a >= 0 { a / b } else { -((-a) / b) }
}

/// The remainder that goes with `tdiv`, as `%` does on machine integers.
pub open spec fn trem(a: int, b: int) -> int {
    a - b * tdiv(a, b)
}

/// Month and day of Easter Sunday by the Anonymous Gregorian algorithm
/// (Meeus/Jones/Butcher), with machine-integer division.
pub open spec fn easter_month_day(year: int) -> (int, int) {
    let a = trem(year, 19);
    let b = tdiv(year, 100);
    let c = trem(year, 100);
    let d = tdiv(b, 4);
    let e = trem(b, 4);
    let f = tdiv(b + 8, 25);
    let g = tdiv(b - f + 1, 3);
    let h = trem(19 * a + b - d - g + 15, 30);
    let i = tdiv(c, 4);
    let k = trem(c, 4);
    let l = trem(32 + 2 * e + 2 * i - h - k, 7);
    let m = tdiv(a + 11 * h + 22 * l, 451);
    let v = h + l - 7 * m + 114;
    (tdiv(v, 31), trem(v, 31) + 1)
}

/// The algorithm yields a day of the calendar that chrono can represent.
pub open spec fn easter_is_defined(year: int) -> bool {
    is_representable(year, easter_month_day(year).0, easter_month_day(year).1)
}

pub open spec fn easter_day_number(year: int) -> int {
    day_number(year, easter_month_day(year).0, easter_month_day(year).1)
}

/// The public holidays of `year`, in the order of the list: day number and name.
pub open spec fn holiday_table(year: int) -> Seq<(int, Seq<char>)> {
    let e = easter_day_number(year);
    seq![
        (day_number(year, 1, 1), "Jour de l'An"@),
        (e + 1, "Lundi de Pâques"@),
        (day_number(year, 5, 1), "Fête du Travail"@),
        (day_number(year, 5, 8), "Victoire 1945"@),
        (e + 39, "Ascension"@),
        (e + 50, "Lundi de Pentecôte"@),
        (day_number(year, 7, 14), "Fête Nationale"@),
        (day_number(year, 8, 15), "Assomption"@),
        (day_number(year, 11, 1), "Toussaint"@),
        (day_number(year, 11, 11), "Armistice"@),
        (day_number(year, 12, 25), "Noël"@),
    ]
}

/// The name of the first entry of `table` that falls on day `n`.
pub open spec fn first_holiday(table: Seq<(int, Seq<char>)>, n: int) -> Option<Seq<char>>
    decreases table.len(),
{
    if table.len() == 0 {
        None
    } else if table[0].0 == n {
        Some(table[0].1)
    } else {
        first_holiday(table.drop_first(), n)
    }
}

/// The holiday that falls on day `n`, if any.
pub open spec fn holiday_name_of(n: int) -> Option<Seq<char>> {
    first_holiday(holiday_table(year_of(n)), n)
}

proof fn lemma_machine_division(x: int, k: int)
    requires
        x >= 0,
        k > 0,
    ensures
        tdiv(x, k) == x / k,
        trem(x, k) == x % k,
        k * (x / k) <= x,
        x / k >= 0,
        0 <= x % k < k,
{
    vstd::arithmetic::div_mod::lemma_fundamental_div_mod(x, k);
    vstd::arithmetic::div_mod::lemma_mod_bound(x, k);
    vstd::arithmetic::div_mod::lemma_div_pos_is_pos(x, k);
}

/// From year 0 on, Easter falls in March or April of a representable year.
pub proof fn lemma_easter_defined(year: int)
    requires
        0 <= year <= MAX_YEAR,
    ensures
        easter_is_defined(year),
        3 <= easter_month_day(year).0 <= 4,
{
    let a = year % 19;
    lemma_machine_division(year, 19);
    lemma_machine_division(year, 100);
    let b = year / 100;
    let c = year % 100;
    lemma_machine_division(b, 4);
    let d = b / 4;
    let e = b % 4;
    lemma_machine_division(b + 8, 25);
    let f = (b + 8) / 25;
    assert(f <= b + 1) by (nonlinear_arith)
        requires
            25 * f <= b + 8,
            b >= 0,
            f >= 0,
    ;
    lemma_machine_division(b - f + 1, 3);
    let g = (b - f + 1) / 3;
    assert(19 * a + b - d - g + 15 >= 0);
    lemma_machine_division(19 * a + b - d - g + 15, 30);
    let h = (19 * a + b - d - g + 15) % 30;
    lemma_machine_division(c, 4);
    let i = c / 4;
    let k = c % 4;
    assert(i <= 24) by (nonlinear_arith)
        requires
            4 * i <= c,
            c < 100,
    ;
    lemma_machine_division(32 + 2 * e + 2 * i - h - k, 7);
    let l = (32 + 2 * e + 2 * i - h - k) % 7;
    lemma_machine_division(a + 11 * h + 22 * l, 451);
    let m = (a + 11 * h + 22 * l) / 451;
    assert(m <= 1) by (nonlinear_arith)
        requires
            451 * m <= a + 11 * h + 22 * l,
            a < 19,
            h < 30,
            l < 7,
    ;
    let v = h + l - 7 * m + 114;
    lemma_machine_division(v, 31);
    assert(easter_month_day(year) == (v / 31, v % 31 + 1));
}

/// `x / k` on machine integers: rounds toward zero.
fn div_toward_zero(x: i32, k: i32) -> (r: i32)
    requires
        k > 0,
    ensures
        r == tdiv(x as int, k as int),
        x >= 0 ==> 0 <= r <= x,
        x < 0 ==> x <= r <= 0,
{
    let r = x / k;
    proof {
        let xi = x as int;
        let ki = k as int;
        if x >= 0 {
            vstd::arithmetic::div_mod::lemma_div_pos_is_pos(xi, ki);
            vstd::arithmetic::div_mod::lemma_div_is_ordered_by_denominator(xi, 1, ki);
        } else {
            vstd::arithmetic::div_mod::lemma_div_pos_is_pos(-xi, ki);
            vstd::arithmetic::div_mod::lemma_div_is_ordered_by_denominator(-xi, 1, ki);
        }
    }
    r
}

/// `x % k` on machine integers: the remainder of `div_toward_zero`.
fn rem_toward_zero(x: i32, k: i32) -> (r: i32)
    requires
        k > 0,
    ensures
        r == trem(x as int, k as int),
        -k < r < k,
{
    let r = x % k;
    proof {
        let xi = x as int;
        let ki = k as int;
        if x >= 0 {
            vstd::arithmetic::div_mod::lemma_fundamental_div_mod(xi, ki);
            assert(tdiv(xi, ki) == xi / ki);
            assert(trem(xi, ki) == xi - ki * (xi / ki));
        } else {
            assert(r == -((-xi) % ki));
            vstd::arithmetic::div_mod::lemma_fundamental_div_mod(-xi, ki);
            assert(tdiv(xi, ki) == -((-xi) / ki));
            assert(ki * (-((-xi) / ki)) == -(ki * ((-xi) / ki))) by (nonlinear_arith);
            assert(trem(xi, ki) == xi + ki * ((-xi) / ki));
        }
    }
    r
}

/// Month and day given by the Easter algorithm for `year`.
#[verifier::rlimit(50)]
fn easter_month_day_of(year: i32) -> (r: (i32, i32))
    requires
        MIN_YEAR <= year <= MAX_YEAR,
    ensures
        r.0 == easter_month_day(year as int).0,
        r.1 == easter_month_day(year as int).1,
{
    let a = rem_toward_zero(year, 19);
    let b = div_toward_zero(year, 100);
    let c = rem_toward_zero(year, 100);
    let d = div_toward_zero(b, 4);
    let e = rem_toward_zero(b, 4);
    let f = div_toward_zero(b + 8, 25);
    let g = div_toward_zero(b - f + 1, 3);
    let h = rem_toward_zero(19 * a + b - d - g + 15, 30);
    let i = div_toward_zero(c, 4);
    let k = rem_toward_zero(c, 4);
    let l = rem_toward_zero(32 + 2 * e + 2 * i - h - k, 7);
    let m = div_toward_zero(a + 11 * h + 22 * l, 451);
    let month = div_toward_zero(h + l - 7 * m + 114, 31);
    let day = rem_toward_zero(h + l - 7 * m + 114, 31) + 1;
    (month, day)
}

/// Easter Sunday of `year`.
pub fn easter(year: i32) -> (r: Date)
    requires
        easter_is_defined(year as int),
    ensures
        r@ == easter_day_number(year as int),
        year >= 0 ==> weekday_of(r@) == 6,
        year >= 0 ==> civil_of(r@).0 == year && 3 <= civil_of(r@).1 <= 4,
{
    proof {
        if year >= 0 {
            lemma_easter_is_sunday(year as int);
            let (m, d) = easter_month_day(year as int);
            lemma_civil_of_day_number(year as int, m, d);
        }
    }
    let (month, day) = easter_month_day_of(year);
    Date::from_ymd_opt(year, month as u32, day as u32).unwrap()
}

/// Whether the Easter algorithm gives a representable date for `year`, so that
/// `easter`, `french_holidays` and `is_holiday` can run for that year.
pub fn easter_is_computable(year: i32) -> (r: bool)
    ensures
        r == easter_is_defined(year as int),
{
    if year < MIN_YEAR || year > MAX_YEAR {
        return false;
    }
    let (month, day) = easter_month_day_of(year);
    if month < 1 || month > 12 || day < 1 || day > 31 {
        return false;
    }
    Date::from_ymd_opt(year, month as u32, day as u32).is_some()
}

/// Easter Monday, Ascension and Whit Monday stay within chrono's range.
proof fn lemma_easter_offsets_in_range(year: int)
    requires
        easter_is_defined(year),
    ensures
        in_day_range(easter_day_number(year)),
        in_day_range(easter_day_number(year) + 50),
{
    let (m, d) = easter_month_day(year);
    lemma_day_number_bounds(year, m, d);
    if year < MAX_YEAR {
        lemma_day_number_monotone_year(year, m, d, MAX_YEAR as int, 12, 31);
        lemma_day_number_monotone_year(year, m, d, MAX_YEAR as int, 1, 1);
        assert(day_number(MAX_YEAR as int, 12, 31) == day_number(MAX_YEAR as int, 1, 1) + 364);
    } else {
        lemma_easter_defined(year);
        assert(day_number(MAX_YEAR as int, 12, 31) == MAX_DAY_NUMBER);
    }
}

/// The date of a holiday with a fixed day in the calendar.
fn fixed_day(year: i32, month: u32, day: u32) -> (r: Date)
    requires
        is_representable(year as int, month as int, day as int),
    ensures
        r@ == day_number(year as int, month as int, day as int),
{
    Date::from_ymd_opt(year, month, day).unwrap()
}

/// The date `offset` days after Easter Sunday.
fn after_easter(easter_sunday: Date, year: i32, offset: i64) -> (r: Date)
    requires
        easter_is_defined(year as int),
        easter_sunday@ == easter_day_number(year as int),
        0 <= offset <= 50,
    ensures
        r@ == easter_day_number(year as int) + offset,
{
    proof {
        lemma_easter_offsets_in_range(year as int);
    }
    easter_sunday.checked_add_days(offset).unwrap()
}

/// All French public holidays of `year`, in the order of `holiday_table`.
pub fn french_holidays(year: i32) -> (r: Vec<(Date, &'static str)>)
    requires
        easter_is_defined(year as int),
    ensures
        r@.len() == 11,
        forall|i: int|
            0 <= i < 11 ==> #[trigger] r@[i].0@ == holiday_table(year as int)[i].0 && r@[i].1@
                == holiday_table(year as int)[i].1,
        civil_of(r@[0].0@) == (year as int, 1int, 1int) && r@[0].1@ == "Jour de l'An"@,
        civil_of(r@[2].0@) == (year as int, 5int, 1int) && r@[2].1@ == "Fête du Travail"@,
        civil_of(r@[3].0@) == (year as int, 5int, 8int) && r@[3].1@ == "Victoire 1945"@,
        civil_of(r@[6].0@) == (year as int, 7int, 14int) && r@[6].1@ == "Fête Nationale"@,
        civil_of(r@[7].0@) == (year as int, 8int, 15int) && r@[7].1@ == "Assomption"@,
        civil_of(r@[8].0@) == (year as int, 11int, 1int) && r@[8].1@ == "Toussaint"@,
        civil_of(r@[9].0@) == (year as int, 11int, 11int) && r@[9].1@ == "Armistice"@,
        civil_of(r@[10].0@) == (year as int, 12int, 25int) && r@[10].1@ == "Noël"@,
        r@[1].0@ == easter_day_number(year as int) + 1 && r@[1].1@ == "Lundi de Pâques"@,
        r@[4].0@ == r@[1].0@ + 38 && r@[4].1@ == "Ascension"@,
        r@[5].0@ == r@[1].0@ + 49 && r@[5].1@ == "Lundi de Pentecôte"@,
        year >= 0 ==> weekday_of(r@[1].0@) == 0 && weekday_of(r@[4].0@) == 3 && weekday_of(
            r@[5].0@,
        ) == 0,
{
    proof {
        let y = year as int;
        lemma_civil_of_day_number(y, 1, 1);
        lemma_civil_of_day_number(y, 5, 1);
        lemma_civil_of_day_number(y, 5, 8);
        lemma_civil_of_day_number(y, 7, 14);
        lemma_civil_of_day_number(y, 8, 15);
        lemma_civil_of_day_number(y, 11, 1);
        lemma_civil_of_day_number(y, 11, 11);
        lemma_civil_of_day_number(y, 12, 25);
        if year >= 0 {
            lemma_easter_is_sunday(y);
        }
    }
    let easter_sunday = easter(year);
    let mut out: Vec<(Date, &'static str)> = Vec::new();
    out.push((fixed_day(year, 1, 1), "Jour de l'An"));
    out.push((after_easter(easter_sunday, year, 1), "Lundi de Pâques"));
    out.push((fixed_day(year, 5, 1), "Fête du Travail"));
    out.push((fixed_day(year, 5, 8), "Victoire 1945"));
    out.push((after_easter(easter_sunday, year, 39), "Ascension"));
    out.push((after_easter(easter_sunday, year, 50), "Lundi de Pentecôte"));
    out.push((fixed_day(year, 7, 14), "Fête Nationale"));
    out.push((fixed_day(year, 8, 15), "Assomption"));
    out.push((fixed_day(year, 11, 1), "Toussaint"));
    out.push((fixed_day(year, 11, 11), "Armistice"));
    out.push((fixed_day(year, 12, 25), "Noël"));
    out
}

proof fn lemma_first_holiday_step(table: Seq<(int, Seq<char>)>, i: int, n: int)
    requires
        0 <= i < table.len(),
        table[i].0 != n,
    ensures
        first_holiday(table.subrange(i, table.len() as int), n) == first_holiday(
            table.subrange(i + 1, table.len() as int),
            n,
        ),
{
    assert(table.subrange(i, table.len() as int).drop_first() =~= table.subrange(
        i + 1,
        table.len() as int,
    ));
}

/// The name of the public holiday that falls on `date`, if any; where two holidays
/// fall on the same day, the one listed first.
pub fn is_holiday(date: Date) -> (r: Option<&'static str>)
    requires
        easter_is_defined(year_of(date@)),
    ensures
        match r {
            Some(name) => holiday_name_of(date@) == Some(name@),
            None => holiday_name_of(date@) is None,
        },
        ({
            let (m, d) = (month_of(date@), day_of(date@));
            ||| m == 1 && d == 1
            ||| m == 5 && d == 1
            ||| m == 5 && d == 8
            ||| m == 7 && d == 14
            ||| m == 8 && d == 15
            ||| m == 11 && d == 1
            ||| m == 11 && d == 11
            ||| m == 12 && d == 25
        }) ==> r is Some,
        r matches Some(name) ==> (name@ == "Armistice"@ ==> month_of(date@) == 11 && day_of(
            date@,
        ) == 11),
{
    let n = date.num_days_from_ce();
    proof {
        lemma_fixed_date_holidays(n as int);
    }
    first_holiday_on(date)
}

/// The name of the first holiday in the list of `date`'s year that falls on `date`.
fn first_holiday_on(date: Date) -> (r: Option<&'static str>)
    requires
        easter_is_defined(year_of(date@)),
    ensures
        match r {
            Some(name) => holiday_name_of(date@) == Some(name@),
            None => holiday_name_of(date@) is None,
        },
{
    let year = date.year();
    let n = date.num_days_from_ce();
    let table = french_holidays(year);
    let ghost spec_table = holiday_table(year as int);
    assert(spec_table.subrange(0, 11) =~= spec_table);
    let mut i: usize = 0;
    while i < table.len()
        invariant
            table@.len() == 11,
            spec_table.len() == 11,
            0 <= i <= 11,
            n == date@,
            forall|j: int|
                0 <= j < 11 ==> #[trigger] table@[j].0@ == spec_table[j].0 && table@[j].1@
                    == spec_table[j].1,
            holiday_name_of(date@) == first_holiday(spec_table.subrange(i as int, 11), n as int),
        decreases 11 - i,
    {
        if table[i].0.num_days_from_ce() == n {
            return Some(table[i].1);
        }
        proof {
            lemma_first_holiday_step(spec_table, i as int, n as int);
        }
        i = i + 1;
    }
    None
}

proof fn lemma_first_holiday_spec(table: Seq<(int, Seq<char>)>, n: int)
    ensures
        match first_holiday(table, n) {
            Some(name) => exists|i: int|
                0 <= i < table.len() && #[trigger] table[i] == (n, name) && forall|j: int|
                    0 <= j < i ==> (#[trigger] table[j]).0 != n,
            None => forall|i: int| 0 <= i < table.len() ==> (#[trigger] table[i]).0 != n,
        },
    decreases table.len(),
{
    if table.len() > 0 {
        let rest = table.drop_first();
        lemma_first_holiday_spec(rest, n);
        if table[0].0 == n {
            assert(table[0] == (n, table[0].1));
        } else {
            match first_holiday(rest, n) {
                Some(name) => {
                    let i = choose|i: int|
                        0 <= i < rest.len() && #[trigger] rest[i] == (n, name) && forall|j: int|
                            0 <= j < i ==> (#[trigger] rest[j]).0 != n;
                    assert(table[i + 1] == rest[i]);
                    assert forall|j: int| 0 <= j < i + 1 implies (#[trigger] table[j]).0 != n by {
                        if j > 0 {
                            assert(table[j] == rest[j - 1]);
                        }
                    }
                },
                None => {
                    assert forall|i: int| 0 <= i < table.len() implies (
                    #[trigger] table[i]).0 != n by {
                        if i > 0 {
                            assert(table[i] == rest[i - 1]);
                        }
                    }
                },
            }
        }
    }
}

/// A day is a public holiday exactly when it is one of the eleven holidays of its
/// year; its name is that of the first of them listed on that day.
pub proof fn lemma_holiday_name_in_table(n: int)
    ensures
        holiday_table(year_of(n)).len() == 11,
        match holiday_name_of(n) {
            Some(name) => exists|i: int|
                0 <= i < 11 && #[trigger] holiday_table(year_of(n))[i] == (n, name) && forall|
                    j: int,
                | 0 <= j < i ==> (#[trigger] holiday_table(year_of(n))[j]).0 != n,
            None => forall|i: int|
                0 <= i < 11 ==> (#[trigger] holiday_table(year_of(n))[i]).0 != n,
        },
{
    lemma_first_holiday_spec(holiday_table(year_of(n)), n);
}

/// The algorithm gives a Sunday: from year 0 on, Easter Sunday falls on a Sunday,
/// so Easter Monday and Whit Monday fall on Mondays and Ascension on a Thursday.
pub proof fn lemma_easter_is_sunday(year: int)
    requires
        0 <= year <= MAX_YEAR,
    ensures
        weekday_of(easter_day_number(year)) == 6,
        weekday_of(easter_day_number(year) + 1) == 0,
        weekday_of(easter_day_number(year) + 39) == 3,
        weekday_of(easter_day_number(year) + 50) == 0,
{
    lemma_easter_defined(year);
    let y = year;
    lemma_machine_division(y, 19);
    lemma_machine_division(y, 100);
    let a = y % 19;
    let b = y / 100;
    let c = y % 100;
    lemma_machine_division(b, 4);
    let d = b / 4;
    let e = b % 4;
    lemma_machine_division(b + 8, 25);
    let f = (b + 8) / 25;
    assert(f <= b + 1) by (nonlinear_arith)
        requires
            25 * f <= b + 8,
            b >= 0,
            f >= 0,
    ;
    lemma_machine_division(b - f + 1, 3);
    let g = (b - f + 1) / 3;
    assert(19 * a + b - d - g + 15 >= 0);
    lemma_machine_division(19 * a + b - d - g + 15, 30);
    let h = (19 * a + b - d - g + 15) % 30;
    lemma_machine_division(c, 4);
    let i = c / 4;
    let k = c % 4;
    let x = 32 + 2 * e + 2 * i - h - k;
    lemma_machine_division(x, 7);
    let l = x % 7;
    let ql = x / 7;
    lemma_machine_division(a + 11 * h + 22 * l, 451);
    let m = (a + 11 * h + 22 * l) / 451;
    let v = h + l - 7 * m + 114;
    lemma_machine_division(v, 31);
    assert(easter_month_day(year) == (v / 31, v % 31 + 1));
    // The day number of Easter is that of March 22 plus h + l - 7m days.
    lemma_year_length(y);
    let n = easter_day_number(year);
    assert(n == days_before_year(y + 1) - 365 + 81 + h + l - 7 * m);
    // Split the year into centuries and the year within the century.
    assert(y == 100 * b + c);
    assert(c == 4 * i + k);
    assert(b == 4 * d + e);
    assert(y == 4 * (25 * b + i) + k);
    vstd::arithmetic::div_mod::lemma_fundamental_div_mod_converse_div(y, 4, 25 * b + i, k);
    assert(y == 400 * d + (100 * e + c));
    vstd::arithmetic::div_mod::lemma_fundamental_div_mod_converse_div(y, 400, d, 100 * e + c);
    assert(days_before_year(y + 1) == 365 * y + y / 4 - y / 100 + y / 400);
    let q = 20871 * d + 5218 * e + 209 * i + 52 * k - 36 - ql - m;
    assert(n == 7 * q);
    vstd::arithmetic::div_mod::lemma_fundamental_div_mod_converse_mod(n - 1, 7, q - 1, 6);
    vstd::arithmetic::div_mod::lemma_fundamental_div_mod_converse_mod(n, 7, q, 0);
    vstd::arithmetic::div_mod::lemma_fundamental_div_mod_converse_mod(n + 38, 7, q + 5, 3);
    vstd::arithmetic::div_mod::lemma_fundamental_div_mod_converse_mod(n + 49, 7, q + 7, 0);
}

/// The eleven holidays of a year have eleven different names.
proof fn lemma_holiday_names_distinct(year: int)
    ensures
        forall|a: int, b: int|
            0 <= a < 11 && 0 <= b < 11 && a != b ==> (#[trigger] holiday_table(year)[a]).1
                != (#[trigger] holiday_table(year)[b]).1,
{
    reveal_strlit("Jour de l'An");
    reveal_strlit("Lundi de Pâques");
    reveal_strlit("Fête du Travail");
    reveal_strlit("Victoire 1945");
    reveal_strlit("Ascension");
    reveal_strlit("Lundi de Pentecôte");
    reveal_strlit("Fête Nationale");
    reveal_strlit("Assomption");
    reveal_strlit("Toussaint");
    reveal_strlit("Armistice");
    reveal_strlit("Noël");
    let t = holiday_table(year);
    assert forall|a: int, b: int| 0 <= a < 11 && 0 <= b < 11 && a != b implies (
    #[trigger] t[a]).1 != (#[trigger] t[b]).1 by {
        let x = t[a].1;
        let y = t[b].1;
        assert(x.len() != y.len() || x[0] != y[0] || x[1] != y[1] || x[2] != y[2] || x[6]
            != y[6]);
    }
}

/// A day named after entry `i` of its year's holiday list, where that entry is the
/// fixed date `month`/`day`, is that date.
proof fn lemma_named_fixed_holiday(n: int, i: int, name: Seq<char>, month: int, day: int)
    requires
        in_day_range(n),
        0 <= i < 11,
        holiday_table(year_of(n))[i] == (n, name),
        holiday_table(year_of(n))[i].0 == day_number(year_of(n), month, day),
        is_valid_ymd(year_of(n), month, day),
    ensures
        month_of(n) == month && day_of(n) == day,
{
    lemma_every_day_has_a_date(n);
    let t = civil_of(n);
    lemma_day_number_injective(t.0, t.1, t.2, year_of(n), month, day);
}

/// The name of the holiday on day `n` is entry `i` of its year's list.
proof fn lemma_holiday_index(n: int, name: Seq<char>, i: int)
    requires
        0 <= i < 11,
        holiday_name_of(n) == Some(name),
        holiday_table(year_of(n))[i].1 == name,
    ensures
        holiday_table(year_of(n))[i] == (n, name),
{
    lemma_holiday_name_in_table(n);
    lemma_holiday_names_distinct(year_of(n));
    let j = choose|j: int|
        0 <= j < 11 && #[trigger] holiday_table(year_of(n))[j] == (n, name) && forall|k: int|
            0 <= k < j ==> (#[trigger] holiday_table(year_of(n))[k]).0 != n;
    assert(holiday_table(year_of(n))[j].1 == name);
    assert(i == j);
}

/// Each public holiday with a fixed date falls on that date, in every year: a day
/// is named after one of them only on its date, and each of these dates is a
/// public holiday.
pub proof fn lemma_fixed_date_holidays(n: int)
    requires
        in_day_range(n),
    ensures
        ({
            let (m, d) = (month_of(n), day_of(n));
            ||| m == 1 && d == 1
            ||| m == 5 && d == 1
            ||| m == 5 && d == 8
            ||| m == 7 && d == 14
            ||| m == 8 && d == 15
            ||| m == 11 && d == 1
            ||| m == 11 && d == 11
            ||| m == 12 && d == 25
        }) ==> holiday_name_of(n) is Some,
        holiday_name_of(n) == Some("Jour de l'An"@) ==> month_of(n) == 1 && day_of(n) == 1,
        holiday_name_of(n) == Some("Fête du Travail"@) ==> month_of(n) == 5 && day_of(n) == 1,
        holiday_name_of(n) == Some("Victoire 1945"@) ==> month_of(n) == 5 && day_of(n) == 8,
        holiday_name_of(n) == Some("Fête Nationale"@) ==> month_of(n) == 7 && day_of(n) == 14,
        holiday_name_of(n) == Some("Assomption"@) ==> month_of(n) == 8 && day_of(n) == 15,
        holiday_name_of(n) == Some("Toussaint"@) ==> month_of(n) == 11 && day_of(n) == 1,
        holiday_name_of(n) == Some("Armistice"@) ==> month_of(n) == 11 && day_of(n) == 11,
        holiday_name_of(n) == Some("Noël"@) ==> month_of(n) == 12 && day_of(n) == 25,
{
    lemma_every_day_has_a_date(n);
    let t = civil_of(n);
    let y = t.0;
    let table = holiday_table(y);
    lemma_holiday_name_in_table(n);
    assert(t == (y, month_of(n), day_of(n)));
    assert(n == day_number(y, month_of(n), day_of(n)));
    if holiday_name_of(n) == Some("Jour de l'An"@) {
        lemma_holiday_index(n, "Jour de l'An"@, 0);
        lemma_named_fixed_holiday(n, 0, "Jour de l'An"@, 1, 1);
    }
    if holiday_name_of(n) == Some("Fête du Travail"@) {
        lemma_holiday_index(n, "Fête du Travail"@, 2);
        lemma_named_fixed_holiday(n, 2, "Fête du Travail"@, 5, 1);
    }
    if holiday_name_of(n) == Some("Victoire 1945"@) {
        lemma_holiday_index(n, "Victoire 1945"@, 3);
        lemma_named_fixed_holiday(n, 3, "Victoire 1945"@, 5, 8);
    }
    if holiday_name_of(n) == Some("Fête Nationale"@) {
        lemma_holiday_index(n, "Fête Nationale"@, 6);
        lemma_named_fixed_holiday(n, 6, "Fête Nationale"@, 7, 14);
    }
    if holiday_name_of(n) == Some("Assomption"@) {
        lemma_holiday_index(n, "Assomption"@, 7);
        lemma_named_fixed_holiday(n, 7, "Assomption"@, 8, 15);
    }
    if holiday_name_of(n) == Some("Toussaint"@) {
        lemma_holiday_index(n, "Toussaint"@, 8);
        lemma_named_fixed_holiday(n, 8, "Toussaint"@, 11, 1);
    }
    if holiday_name_of(n) == Some("Armistice"@) {
        lemma_holiday_index(n, "Armistice"@, 9);
        lemma_named_fixed_holiday(n, 9, "Armistice"@, 11, 11);
    }
    if holiday_name_of(n) == Some("Noël"@) {
        lemma_holiday_index(n, "Noël"@, 10);
        lemma_named_fixed_holiday(n, 10, "Noël"@, 12, 25);
    }
    if holiday_name_of(n) is None {
        assert(table[0].0 != n && table[2].0 != n && table[3].0 != n && table[6].0 != n
            && table[7].0 != n && table[8].0 != n && table[9].0 != n && table[10].0 != n);
    }
}

} // verus!
