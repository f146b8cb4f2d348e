//! The weekly report: which days of the week are worked, the lunch breaks of the
//! worked days, the hour totals and the mail body.
use vstd::prelude::*;

use crate::date::{
    civil_of, day_number, day_of, in_day_range, lemma_day_number_monotone_year,
    lemma_every_day_has_a_date, month_of, weekday_of, year_of, Date, MAX_YEAR,
};
use crate::holidays::{
    easter_is_computable, easter_is_defined, holiday_name_of, is_holiday, lemma_easter_defined,
};
use crate::text::{decimal, join, push_decimal, str_eq};
use vstd::string::StringExecFns;

verus! {

/// The lunch break of one worked day, e.g. from "12h30" to "13h30".
#[derive(Clone, Debug)]
pub struct DaySchedule {
    pub lunch_start: String,
    pub lunch_end: String,
}

/// How a single day is categorised in the weekly report.
#[derive(Clone, Debug, PartialEq, Eq)]
pub enum DayKind {
    Worked,
    /// A public holiday, with its name.
    Holiday(&'static str),
    /// A personal day off.
    Off,
}

/// What a `DayKind` says, with the holiday's name as text.
pub enum KindModel {
    Worked,
    Holiday(Seq<char>),
    Off,
}

impl View for DayKind {
    type V = KindModel;

    open spec fn view(&self) -> KindModel {
        match self {
            DayKind::Worked => KindModel::Worked,
            DayKind::Holiday(name) => KindModel::Holiday(name@),
            DayKind::Off => KindModel::Off,
        }
    }
}

/// The report of one day.
#[derive(Clone, Debug)]
pub struct DayReport {
    pub date: Date,
    pub weekday_name: &'static str,
    pub kind: DayKind,
    /// Present exactly for worked days.
    pub schedule: Option<DaySchedule>,
}

/// The report of a week, Monday to Friday.
#[derive(Clone, Debug)]
pub struct WeekReport {
    pub days: Vec<DayReport>,
    pub total_hours: u32,
    /// Hours of public holidays and personal days off.
    pub off_hours: u32,
}

/// The lunch breaks asked of the language model, one per worked day.
#[derive(Clone, Debug)]
pub struct LlmWeekOutput {
    pub days: Vec<DaySchedule>,
}

/// How many times the language model is asked for the week's lunch breaks
/// before the run gives up. There is no random fallback.
pub const MAX_SCHEDULE_ATTEMPTS: u32 = 5;

/// What to do once an attempt to get valid lunch breaks has failed.
#[derive(Clone, Copy, Debug, PartialEq, Eq, Structural)]
pub enum AfterFailure {
    TryAgain,
    GiveUp,
}

/// After `attempts_made` attempts, the last of which failed: ask again while
/// fewer than `MAX_SCHEDULE_ATTEMPTS` attempts have been made, so that at most
/// five attempts are made in all.
pub fn after_failed_attempt(attempts_made: u32) -> (r: AfterFailure)
    ensures
        r == (if attempts_made < MAX_SCHEDULE_ATTEMPTS {
            AfterFailure::TryAgain
        } else {
            AfterFailure::GiveUp
        }),
{
    if attempts_made < MAX_SCHEDULE_ATTEMPTS {
        AfterFailure::TryAgain
    } else {
        AfterFailure::GiveUp
    }
}

/// The end of the lunch break that goes with a start: one hour later for the
/// five allowed starts, "13h30" for any other start.
pub open spec fn paired_end(start: Seq<char>) -> Seq<char> {
    if start == "12h00"@ {
        "13h00"@
    } else if start == "12h30"@ {
        "13h30"@
    } else if start == "13h00"@ {
        "14h00"@
    } else if start == "13h30"@ {
        "14h30"@
    } else if start == "14h00"@ {
        "15h00"@
    } else {
        "13h30"@
    }
}

/// One of the five allowed lunch starts.
pub open spec fn is_valid_start(start: Seq<char>) -> bool {
    start == "12h00"@ || start == "12h30"@ || start == "13h00"@ || start == "13h30"@ || start
        == "14h00"@
}

/// One of the five allowed lunch breaks: a one-hour break starting between 12h00 and 14h00.
pub open spec fn is_valid_pair(start: Seq<char>, end: Seq<char>) -> bool {
    ||| start == "12h00"@ && end == "13h00"@
    ||| start == "12h30"@ && end == "13h30"@
    ||| start == "13h00"@ && end == "14h00"@
    ||| start == "13h30"@ && end == "14h30"@
    ||| start == "14h00"@ && end == "15h00"@
}

pub open spec fn schedule_is_valid(day: DaySchedule) -> bool {
    is_valid_pair(day.lunch_start@, day.lunch_end@)
}

/// The index of the first day, from `i` on, whose lunch break is not allowed.
pub open spec fn first_invalid_from(days: Seq<DaySchedule>, i: int) -> Option<int>
    decreases days.len() - i,
{
    if i < 0 || i >= days.len() {
        None
    } else if !schedule_is_valid(days[i]) {
        Some(i)
    } else {
        first_invalid_from(days, i + 1)
    }
}

pub open spec fn count_error_text(expected: nat, got: nat) -> Seq<char> {
    "expected "@ + decimal(expected) + " days, got "@ + decimal(got)
}

pub open spec fn pair_error_text(index: nat, day: DaySchedule) -> Seq<char> {
    "day "@ + decimal(index + 1) + ": invalid lunch pair ("@ + day.lunch_start@ + ", "@
        + day.lunch_end@ + ")"@
}

/// The outcome of checking `days` against the expected number of worked days.
pub open spec fn validation(days: Seq<DaySchedule>, expected: nat) -> Result<(), Seq<char>> {
    if days.len() != expected {
        Err(count_error_text(expected, days.len()))
    } else {
        match first_invalid_from(days, 0) {
            None => Ok(()),
            Some(i) => Err(pair_error_text(i as nat, days[i])),
        }
    }
}

/// The end of the lunch break that goes with `start`.
fn paired_end_of(start: &str) -> (r: &'static str)
    ensures
        r@ == paired_end(start@),
{
    if str_eq(start, "12h00") {
        "13h00"
    } else if str_eq(start, "12h30") {
        "13h30"
    } else if str_eq(start, "13h00") {
        "14h00"
    } else if str_eq(start, "13h30") {
        "14h30"
    } else if str_eq(start, "14h00") {
        "15h00"
    } else {
        "13h30"
    }
}

fn pair_is_valid(start: &str, end: &str) -> (r: bool)
    ensures
        r == is_valid_pair(start@, end@),
{
    (str_eq(start, "12h00") && str_eq(end, "13h00")) || (str_eq(start, "12h30") && str_eq(
        end,
        "13h30",
    )) || (str_eq(start, "13h00") && str_eq(end, "14h00")) || (str_eq(start, "13h30") && str_eq(
        end,
        "14h30",
    )) || (str_eq(start, "14h00") && str_eq(end, "15h00"))
}

impl LlmWeekOutput {
    /// Sets each day's lunch end to match its lunch start (the JSON schema given
    /// to the model cannot tie the two together).
    pub fn fix_pairs(&mut self)
        ensures
            final(self).days@.len() == old(self).days@.len(),
            forall|i: int|
                0 <= i < old(self).days@.len() ==> (#[trigger] final(self).days@[i]).lunch_start@
                    == old(self).days@[i].lunch_start@ && final(self).days@[i].lunch_end@
                    == paired_end(old(self).days@[i].lunch_start@),
    {
        let n = self.days.len();
        let mut fixed: Vec<DaySchedule> = Vec::new();
        let mut i: usize = 0;
        while i < n
            invariant
                n == self.days@.len(),
                self.days@ == old(self).days@,
                i <= n,
                fixed@.len() == i,
                forall|j: int|
                    0 <= j < i ==> (#[trigger] fixed@[j]).lunch_start@ == self.days@[j].lunch_start@
                        && fixed@[j].lunch_end@ == paired_end(self.days@[j].lunch_start@),
            decreases n - i,
        {
            let start = self.days[i].lunch_start.clone();
            let end = paired_end_of(start.as_str());
            fixed.push(DaySchedule { lunch_start: start, lunch_end: String::from_str(end) });
            i = i + 1;
        }
        self.days = fixed;
    }

    /// Checks that there is one entry per expected day and that every entry is one
    /// of the allowed lunch breaks; the error says what is wrong.
    pub fn validate(&self, expected_days: usize) -> (r: Result<(), String>)
        ensures
            match r {
                Ok(()) => validation(self.days@, expected_days as nat) == Ok::<(), Seq<char>>(()),
                Err(message) => validation(self.days@, expected_days as nat) == Err::<
                    (),
                    Seq<char>,
                >(message@),
            },
            r is Ok ==> self.days@.len() == expected_days,
            r is Ok ==> forall|i: int|
                0 <= i < self.days@.len() ==> {
                    let start = (#[trigger] self.days@[i]).lunch_start@;
                    let end = self.days@[i].lunch_end@;
                    ||| start == "12h00"@ && end == "13h00"@
                    ||| start == "12h30"@ && end == "13h30"@
                    ||| start == "13h00"@ && end == "14h00"@
                    ||| start == "13h30"@ && end == "14h30"@
                    ||| start == "14h00"@ && end == "15h00"@
                },
            self.days@.len() != expected_days ==> (r matches Err(message) && message@ == "expected "@
                + decimal(expected_days as nat) + " days, got "@ + decimal(self.days@.len())),
            self.days@.len() == expected_days && (exists|i: int|
                0 <= i < self.days@.len() && !is_valid_pair(
                    (#[trigger] self.days@[i]).lunch_start@,
                    self.days@[i].lunch_end@,
                )) ==> r is Err,
    {
        proof {
            lemma_first_invalid_none(self.days@, 0);
        }
        let n = self.days.len();
        if n != expected_days {
            let mut message = String::from_str("expected ");
            push_decimal(&mut message, expected_days as u64);
            message.append(" days, got ");
            push_decimal(&mut message, n as u64);
            return Err(message);
        }
        let mut i: usize = 0;
        while i < n
            invariant
                n == self.days@.len(),
                n == expected_days,
                i <= n,
                first_invalid_from(self.days@, 0) == first_invalid_from(self.days@, i as int),
            decreases n - i,
        {
            let day = &self.days[i];
            if !pair_is_valid(day.lunch_start.as_str(), day.lunch_end.as_str()) {
                let mut message = String::from_str("day ");
                push_decimal(&mut message, i as u64 + 1);
                message.append(": invalid lunch pair (");
                message.append(day.lunch_start.as_str());
                message.append(", ");
                message.append(day.lunch_end.as_str());
                message.append(")");
                assert(message@ =~= pair_error_text(i as nat, self.days@[i as int]));
                return Err(message);
            }
            i = i + 1;
        }
        Ok(())
    }
}

/// A list whose lunch ends have been set by `fix_pairs` passes `validate` with its
/// own length exactly when every lunch start is one of the five allowed starts.
pub proof fn lemma_fixed_pairs_validate(days: Seq<DaySchedule>)
    requires
        forall|i: int|
            0 <= i < days.len() ==> (#[trigger] days[i]).lunch_end@ == paired_end(
                days[i].lunch_start@,
            ),
    ensures
        validation(days, days.len()) is Ok <==> forall|i: int|
            0 <= i < days.len() ==> is_valid_start(#[trigger] days[i].lunch_start@),
{
    lemma_first_invalid_none(days, 0);
    assert forall|i: int| 0 <= i < days.len() implies (is_valid_start(
        #[trigger] days[i].lunch_start@,
    ) <==> schedule_is_valid(days[i])) by {
        let start = days[i].lunch_start@;
        if !is_valid_start(start) {
            assert(days[i].lunch_end@ == "13h30"@);
        }
    }
}

/// No day from `i` on has a lunch break that is not allowed, exactly when
/// `first_invalid_from` finds none.
proof fn lemma_first_invalid_none(days: Seq<DaySchedule>, i: int)
    requires
        0 <= i <= days.len(),
    ensures
        first_invalid_from(days, i) is None <==> forall|j: int|
            i <= j < days.len() ==> schedule_is_valid(#[trigger] days[j]),
    decreases days.len() - i,
{
    if i < days.len() {
        lemma_first_invalid_none(days, i + 1);
    }
}

pub open spec fn weekday_name_of(w: int) -> Seq<char> {
    if w == 0 {
        "Lundi"@
    } else if w == 1 {
        "Mardi"@
    } else if w == 2 {
        "Mercredi"@
    } else if w == 3 {
        "Jeudi"@
    } else if w == 4 {
        "Vendredi"@
    } else if w == 5 {
        "Samedi"@
    } else {
        "Dimanche"@
    }
}

/// The French name of month `m`, "???" outside 1..=12.
pub open spec fn month_name_of(m: int) -> Seq<char> {
    if m == 1 {
        "janvier"@
    } else if m == 2 {
        "février"@
    } else if m == 3 {
        "mars"@
    } else if m == 4 {
        "avril"@
    } else if m == 5 {
        "mai"@
    } else if m == 6 {
        "juin"@
    } else if m == 7 {
        "juillet"@
    } else if m == 8 {
        "août"@
    } else if m == 9 {
        "septembre"@
    } else if m == 10 {
        "octobre"@
    } else if m == 11 {
        "novembre"@
    } else if m == 12 {
        "décembre"@
    } else {
        "???"@
    }
}

/// The French name of a weekday counted from Monday (0) to Sunday (6).
pub fn weekday_name(w: u32) -> (r: &'static str)
    requires
        w < 7,
    ensures
        r@ == weekday_name_of(w as int),
{
    if w == 0 {
        "Lundi"
    } else if w == 1 {
        "Mardi"
    } else if w == 2 {
        "Mercredi"
    } else if w == 3 {
        "Jeudi"
    } else if w == 4 {
        "Vendredi"
    } else if w == 5 {
        "Samedi"
    } else {
        "Dimanche"
    }
}

/// The French name of month `m` (1 is January), "???" for any other number.
pub fn french_month(m: u32) -> (r: &'static str)
    ensures
        r@ == month_name_of(m as int),
{
    if m == 1 {
        "janvier"
    } else if m == 2 {
        "février"
    } else if m == 3 {
        "mars"
    } else if m == 4 {
        "avril"
    } else if m == 5 {
        "mai"
    } else if m == 6 {
        "juin"
    } else if m == 7 {
        "juillet"
    } else if m == 8 {
        "août"
    } else if m == 9 {
        "septembre"
    } else if m == 10 {
        "octobre"
    } else if m == 11 {
        "novembre"
    } else if m == 12 {
        "décembre"
    } else {
        "???"
    }
}

/// The Monday of the week (Monday to Sunday) that holds day `n`.
pub open spec fn monday_of(n: int) -> int {
    n - weekday_of(n)
}

/// Whether day `n` is one of `days`.
pub open spec fn is_listed(days: Seq<Date>, n: int) -> bool {
    exists|j: int| 0 <= j < days.len() && (#[trigger] days[j])@ == n
}

/// The category of day `n`: a public holiday wins over a personal day off.
pub open spec fn day_kind(n: int, personal_off: Seq<Date>) -> KindModel {
    match holiday_name_of(n) {
        Some(name) => KindModel::Holiday(name),
        None => if is_listed(personal_off, n) {
            KindModel::Off
        } else {
            KindModel::Worked
        },
    }
}

/// The categories of Monday to Friday of the week that holds day `n`.
pub open spec fn week_kinds(n: int, personal_off: Seq<Date>) -> Seq<KindModel> {
    Seq::new(5, |i: int| day_kind(monday_of(n) + i, personal_off))
}

/// The number of worked days in `kinds`.
pub open spec fn count_worked(kinds: Seq<KindModel>) -> nat
    decreases kinds.len(),
{
    if kinds.len() == 0 {
        0
    } else {
        count_worked(kinds.drop_last()) + if kinds.last() is Worked {
            1nat
        } else {
            0nat
        }
    }
}

/// The public holidays of the year of day `i` of the week of day `n` can be computed.
pub open spec fn holidays_known(n: int, i: int) -> bool {
    easter_is_defined(year_of(monday_of(n) + i))
}

/// Monday to Friday of the week of day `n` are within chrono's range and the public
/// holidays of their years can be computed.
pub open spec fn week_is_computable(n: int) -> bool {
    &&& in_day_range(monday_of(n))
    &&& in_day_range(monday_of(n) + 4)
    &&& forall|i: int| 0 <= i < 5 ==> #[trigger] holidays_known(n, i)
}

/// Whether the week that holds `date` can be reported: its Monday to Friday are
/// within chrono's range and the public holidays of their years can be computed.
/// This is the condition that `week_days`, `worked_day_count`, `build_llm_prompt`
/// and `assemble` need.
pub fn week_is_reportable(date: Date) -> (r: bool)
    ensures
        r == week_is_computable(date@),
{
    let w = date.weekday_from_monday();
    let monday = match date.checked_add_days(-(w as i64)) {
        Some(monday) => monday,
        None => return false,
    };
    if monday.checked_add_days(4).is_none() {
        return false;
    }
    let mut i: usize = 0;
    while i < 5
        invariant
            i <= 5,
            monday@ == monday_of(date@),
            in_day_range(monday_of(date@)),
            in_day_range(monday_of(date@) + 4),
            forall|j: int| 0 <= j < i ==> #[trigger] holidays_known(date@, j),
        decreases 5 - i,
    {
        let day = monday.checked_add_days(i as i64).unwrap();
        if !easter_is_computable(day.year()) {
            assert(!holidays_known(date@, i as int));
            return false;
        }
        i = i + 1;
    }
    true
}

proof fn lemma_weekday_of_week_day(n: int, i: int)
    requires
        0 <= i < 7,
    ensures
        weekday_of(monday_of(n) + i) == i,
{
    vstd::arithmetic::div_mod::lemma_fundamental_div_mod(n - 1, 7);
    let q = (n - 1) / 7;
    assert(monday_of(n) + i - 1 == q * 7 + i);
    vstd::arithmetic::div_mod::lemma_fundamental_div_mod_converse_mod(monday_of(n) + i - 1, 7, q, i);
}

/// Whether `day` is one of `days`.
fn contains_date(days: &[Date], day: Date) -> (r: bool)
    ensures
        r == is_listed(days@, day@),
{
    let n = day.num_days_from_ce();
    let mut j: usize = 0;
    while j < days.len()
        invariant
            j <= days@.len(),
            n == day@,
            forall|k: int| 0 <= k < j ==> (#[trigger] days@[k])@ != n,
        decreases days@.len() - j,
    {
        if days[j].num_days_from_ce() == n {
            return true;
        }
        j = j + 1;
    }
    false
}

/// The category of one day.
fn classify(day: Date, personal_off: &[Date]) -> (r: DayKind)
    requires
        easter_is_defined(year_of(day@)),
    ensures
        r@ == day_kind(day@, personal_off@),
{
    match is_holiday(day) {
        Some(name) => DayKind::Holiday(name),
        None => if contains_date(personal_off, day) {
            DayKind::Off
        } else {
            DayKind::Worked
        },
    }
}

/// Monday to Friday of the week that holds `date`, each with its weekday name and
/// category. Public holidays take precedence over personal days off.
pub fn week_days(date: Date, personal_off: &[Date]) -> (r: Vec<(Date, &'static str, DayKind)>)
    requires
        week_is_computable(date@),
    ensures
        r@.len() == 5,
        forall|i: int|
            0 <= i < 5 ==> (#[trigger] r@[i]).0@ == monday_of(date@) + i && r@[i].1@
                == weekday_name_of(i) && r@[i].2@ == day_kind(monday_of(date@) + i, personal_off@),
        weekday_of(r@[0].0@) == 0,
        r@[0].0@ <= date@ <= r@[0].0@ + 6,
        forall|i: int| 0 <= i < 5 ==> (#[trigger] r@[i]).0@ == r@[0].0@ + i,
{
    proof {
        lemma_week_of_day(date@);
    }
    let weekday_num = date.weekday_from_monday();
    let monday = date.checked_add_days(-(weekday_num as i64)).unwrap();
    let mut out: Vec<(Date, &'static str, DayKind)> = Vec::new();
    let mut i: usize = 0;
    while i < 5
        invariant
            i <= 5,
            monday@ == monday_of(date@),
            week_is_computable(date@),
            out@.len() == i,
            forall|j: int|
                0 <= j < i ==> (#[trigger] out@[j]).0@ == monday_of(date@) + j && out@[j].1@
                    == weekday_name_of(j) && out@[j].2@ == day_kind(
                    monday_of(date@) + j,
                    personal_off@,
                ),
        decreases 5 - i,
    {
        let day = monday.checked_add_days(i as i64).unwrap();
        proof {
            assert(holidays_known(date@, i as int));
            lemma_weekday_of_week_day(date@, i as int);
        }
        let kind = classify(day, personal_off);
        let name = weekday_name(day.weekday_from_monday());
        out.push((day, name, kind));
        i = i + 1;
    }
    out
}

proof fn lemma_count_worked_step(kinds: Seq<KindModel>, i: int)
    requires
        0 <= i < kinds.len(),
    ensures
        count_worked(kinds.take(i + 1)) == count_worked(kinds.take(i)) + if kinds[i] is Worked {
            1nat
        } else {
            0nat
        },
{
    assert(kinds.take(i + 1).drop_last() =~= kinds.take(i));
}

/// The number of worked days (neither public holiday nor personal day off) in the
/// week that holds `date`.
pub fn worked_day_count(date: Date, personal_off: &[Date]) -> (r: usize)
    requires
        week_is_computable(date@),
    ensures
        r == count_worked(week_kinds(date@, personal_off@)),
        r == week_kinds(date@, personal_off@).filter(|k: KindModel| k is Worked).len(),
        r <= 5,
{
    proof {
        lemma_count_worked_is_filter_len(week_kinds(date@, personal_off@));
    }
    let days = week_days(date, personal_off);
    let ghost kinds = week_kinds(date@, personal_off@);
    let mut count: usize = 0;
    let mut i: usize = 0;
    while i < 5
        invariant
            i <= 5,
            days@.len() == 5,
            kinds.len() == 5,
            forall|j: int| 0 <= j < 5 ==> (#[trigger] days@[j]).2@ == kinds[j],
            count == count_worked(kinds.take(i as int)),
            count <= i,
        decreases 5 - i,
    {
        proof {
            lemma_count_worked_step(kinds, i as int);
        }
        if let DayKind::Worked = days[i].2 {
            count = count + 1;
        }
        i = i + 1;
    }
    assert(kinds.take(5) =~= kinds);
    count
}

/// The weekday names of the worked days among `kinds` (index 0 being Monday).
pub open spec fn worked_names(kinds: Seq<KindModel>) -> Seq<Seq<char>>
    decreases kinds.len(),
{
    if kinds.len() == 0 {
        Seq::empty()
    } else if kinds.last() is Worked {
        worked_names(kinds.drop_last()).push(weekday_name_of(kinds.len() - 1))
    } else {
        worked_names(kinds.drop_last())
    }
}

pub open spec fn prompt_head() -> Seq<char> {
    "Génère un JSON avec des horaires de pause déjeuner pour "@
}

pub open spec fn prompt_rules() -> Seq<char> {
    ").\n\nRÈGLES STRICTES :\n- Chaque \"lunch_start\" DOIT être une de ces 5 valeurs EXACTES : \"12h00\", \"12h30\", \"13h00\", \"13h30\", \"14h00\"\n- \"lunch_end\" = lunch_start + 1h. Donc les seules paires valides sont :\n  \"12h00\"→\"13h00\", \"12h30\"→\"13h30\", \"13h00\"→\"14h00\", \"13h30\"→\"14h30\", \"14h00\"→\"15h00\"\n- AUCUNE AUTRE VALEUR N'EST ACCEPTÉE\n- Varie les paires entre les jours, pas la même tous les jours\n- Exactement "@
}

pub open spec fn prompt_tail() -> Seq<char> {
    " entrées dans \"days\"\n- UNIQUEMENT du JSON, rien d'autre\n\nExemple pour 2 jours :\n{\"days\":[{\"lunch_start\":\"12h30\",\"lunch_end\":\"13h30\"},{\"lunch_start\":\"13h00\",\"lunch_end\":\"14h00\"}]}"@
}

/// The prompt that asks for `names.len()` lunch breaks, for the days `names`.
pub open spec fn prompt_text(names: Seq<Seq<char>>) -> Seq<char> {
    prompt_head() + decimal(names.len()) + " jours travaillés ("@ + join(names, ", "@)
        + prompt_rules() + decimal(names.len()) + prompt_tail()
}

proof fn lemma_worked_names_step(kinds: Seq<KindModel>, i: int)
    requires
        0 <= i < kinds.len(),
    ensures
        worked_names(kinds.take(i + 1)) == if kinds[i] is Worked {
            worked_names(kinds.take(i)).push(weekday_name_of(i))
        } else {
            worked_names(kinds.take(i))
        },
{
    assert(kinds.take(i + 1).drop_last() =~= kinds.take(i));
}

/// The prompt asks for as many lunch breaks as there are worked days.
pub proof fn lemma_worked_names_len(kinds: Seq<KindModel>)
    ensures
        worked_names(kinds).len() == count_worked(kinds),
    decreases kinds.len(),
{
    if kinds.len() > 0 {
        lemma_worked_names_len(kinds.drop_last());
    }
}

/// The weekday names of the worked days of the week that holds `date`.
fn worked_day_names(date: Date, personal_off: &[Date]) -> (r: Vec<&'static str>)
    requires
        week_is_computable(date@),
    ensures
        r@.len() == worked_names(week_kinds(date@, personal_off@)).len(),
        forall|j: int|
            0 <= j < r@.len() ==> (#[trigger] r@[j])@ == worked_names(
                week_kinds(date@, personal_off@),
            )[j],
{
    let days = week_days(date, personal_off);
    let ghost kinds = week_kinds(date@, personal_off@);
    let mut names: Vec<&'static str> = Vec::new();
    let mut i: usize = 0;
    while i < 5
        invariant
            i <= 5,
            days@.len() == 5,
            kinds.len() == 5,
            forall|j: int|
                0 <= j < 5 ==> (#[trigger] days@[j]).2@ == kinds[j] && days@[j].1@
                    == weekday_name_of(j),
            names@.len() == worked_names(kinds.take(i as int)).len(),
            forall|j: int|
                0 <= j < names@.len() ==> (#[trigger] names@[j])@ == worked_names(
                    kinds.take(i as int),
                )[j],
        decreases 5 - i,
    {
        proof {
            lemma_worked_names_step(kinds, i as int);
        }
        if let DayKind::Worked = days[i].2 {
            names.push(days[i].1);
        }
        i = i + 1;
    }
    assert(kinds.take(5) =~= kinds);
    names
}

/// Builds the prompt that asks the language model for one lunch break per
/// worked day of the week that holds `date`, in JSON.
pub fn build_llm_prompt(date: Date, personal_off: &[Date]) -> (r: String)
    requires
        week_is_computable(date@),
    ensures
        r@ == prompt_text(worked_names(week_kinds(date@, personal_off@))),
{
    let names = worked_day_names(date, personal_off);
    let ghost views = worked_names(week_kinds(date@, personal_off@));
    let count = names.len();
    let mut out = String::from_str("Génère un JSON avec des horaires de pause déjeuner pour ");
    push_decimal(&mut out, count as u64);
    out.append(" jours travaillés (");
    let ghost before_list = out@;
    let mut k: usize = 0;
    while k < count
        invariant
            count == names@.len(),
            count == views.len(),
            k <= count,
            forall|j: int| 0 <= j < count ==> (#[trigger] names@[j])@ == views[j],
            out@ == before_list + join(views.take(k as int), ", "@),
        decreases count - k,
    {
        if k > 0 {
            out.append(", ");
        }
        out.append(names[k]);
        proof {
            let taken = views.take(k as int + 1);
            assert(taken.drop_last() =~= views.take(k as int));
            if k == 0 {
                assert(join(taken, ", "@) == taken[0]);
            }
        }
        k = k + 1;
    }
    assert(views.take(count as int) =~= views);
    out.append(
        ").\n\nRÈGLES STRICTES :\n- Chaque \"lunch_start\" DOIT être une de ces 5 valeurs EXACTES : \"12h00\", \"12h30\", \"13h00\", \"13h30\", \"14h00\"\n- \"lunch_end\" = lunch_start + 1h. Donc les seules paires valides sont :\n  \"12h00\"→\"13h00\", \"12h30\"→\"13h30\", \"13h00\"→\"14h00\", \"13h30\"→\"14h30\", \"14h00\"→\"15h00\"\n- AUCUNE AUTRE VALEUR N'EST ACCEPTÉE\n- Varie les paires entre les jours, pas la même tous les jours\n- Exactement ",
    );
    push_decimal(&mut out, count as u64);
    out.append(
        " entrées dans \"days\"\n- UNIQUEMENT du JSON, rien d'autre\n\nExemple pour 2 jours :\n{\"days\":[{\"lunch_start\":\"12h30\",\"lunch_end\":\"13h30\"},{\"lunch_start\":\"13h00\",\"lunch_end\":\"14h00\"}]}",
    );
    assert(out@ =~= prompt_text(views));
    out
}

/// Lunch start of the `k`-th worked day: the model's `k`-th entry, or "12h30"
/// where the model gave fewer entries.
pub open spec fn schedule_start(llm_days: Seq<DaySchedule>, k: int) -> Seq<char> {
    if 0 <= k < llm_days.len() {
        llm_days[k].lunch_start@
    } else {
        "12h30"@
    }
}

/// Lunch end of the `k`-th worked day: the model's `k`-th entry, or "13h30"
/// where the model gave fewer entries.
pub open spec fn schedule_end(llm_days: Seq<DaySchedule>, k: int) -> Seq<char> {
    if 0 <= k < llm_days.len() {
        llm_days[k].lunch_end@
    } else {
        "13h30"@
    }
}

/// Day `i` (0 being Monday) of a report assembled for the week of day `n`.
pub open spec fn assembled_day(
    day: DayReport,
    i: int,
    n: int,
    personal_off: Seq<Date>,
    llm_days: Seq<DaySchedule>,
) -> bool {
    let kinds = week_kinds(n, personal_off);
    &&& day.date@ == monday_of(n) + i
    &&& day.weekday_name@ == weekday_name_of(i)
    &&& day.kind@ == kinds[i]
    &&& if kinds[i] is Worked {
        &&& day.schedule matches Some(s)
        &&& s.lunch_start@ == schedule_start(llm_days, count_worked(kinds.take(i)) as int)
        &&& s.lunch_end@ == schedule_end(llm_days, count_worked(kinds.take(i)) as int)
    } else {
        day.schedule is None
    }
}

fn copy_kind(kind: &DayKind) -> (r: DayKind)
    ensures
        r@ == kind@,
{
    match kind {
        DayKind::Worked => DayKind::Worked,
        DayKind::Holiday(name) => DayKind::Holiday(name),
        DayKind::Off => DayKind::Off,
    }
}

fn copy_schedule(day: &DaySchedule) -> (r: DaySchedule)
    ensures
        r.lunch_start@ == day.lunch_start@,
        r.lunch_end@ == day.lunch_end@,
{
    DaySchedule { lunch_start: day.lunch_start.clone(), lunch_end: day.lunch_end.clone() }
}

/// Assembles the report of the week that holds `date`: worked days take the
/// model's lunch breaks in order (or 12h30 to 13h30 where the model gave too
/// few), and count 7 hours each toward the total; holidays and days off count
/// 7 hours each toward the off hours.
pub fn assemble(date: Date, personal_off: &[Date], llm_output: &LlmWeekOutput) -> (r: WeekReport)
    requires
        week_is_computable(date@),
    ensures
        r.days@.len() == 5,
        forall|i: int|
            0 <= i < 5 ==> assembled_day(
                #[trigger] r.days@[i],
                i,
                date@,
                personal_off@,
                llm_output.days@,
            ),
        r.total_hours == 7 * count_worked(week_kinds(date@, personal_off@)),
        r.off_hours == 7 * (5 - count_worked(week_kinds(date@, personal_off@))),
        r.total_hours + r.off_hours == 35,
        weekday_of(r.days@[0].date@) == 0,
        r.days@[0].date@ <= date@ <= r.days@[0].date@ + 6,
        forall|i: int|
            #![trigger r.days@[i]]
            0 <= i < 5 ==> r.days@[i].date@ == r.days@[0].date@ + i && if r.days@[i].kind is Worked {
                r.days@[i].schedule matches Some(s) && if worked_before(r.days@, i)
                    < llm_output.days@.len() {
                    s.lunch_start@ == llm_output.days@[worked_before(r.days@, i) as int].lunch_start@
                        && s.lunch_end@ == llm_output.days@[worked_before(
                        r.days@,
                        i,
                    ) as int].lunch_end@
                } else {
                    s.lunch_start@ == "12h30"@ && s.lunch_end@ == "13h30"@
                }
            } else {
                r.days@[i].schedule is None
            },
        r.total_hours == 7 * worked_before(r.days@, 5),
{
    proof {
        lemma_week_of_day(date@);
    }
    let days_info = week_days(date, personal_off);
    let ghost kinds = week_kinds(date@, personal_off@);
    let mut next: usize = 0;
    let mut total_hours: u32 = 0;
    let mut off_hours: u32 = 0;
    let mut days: Vec<DayReport> = Vec::new();
    let mut i: usize = 0;
    while i < 5
        invariant
            i <= 5,
            days_info@.len() == 5,
            kinds.len() == 5,
            kinds == week_kinds(date@, personal_off@),
            forall|j: int|
                0 <= j < 5 ==> (#[trigger] days_info@[j]).0@ == monday_of(date@) + j
                    && days_info@[j].1@ == weekday_name_of(j) && days_info@[j].2@ == kinds[j],
            next == count_worked(kinds.take(i as int)),
            next <= i,
            total_hours == 7 * next,
            off_hours == 7 * (i - next),
            days@.len() == i,
            forall|j: int|
                0 <= j < i ==> assembled_day(
                    #[trigger] days@[j],
                    j,
                    date@,
                    personal_off@,
                    llm_output.days@,
                ),
        decreases 5 - i,
    {
        proof {
            lemma_count_worked_step(kinds, i as int);
        }
        let info = &days_info[i];
        let report = match &info.2 {
            DayKind::Worked => {
                total_hours = total_hours + 7;
                let schedule = if next < llm_output.days.len() {
                    copy_schedule(&llm_output.days[next])
                } else {
                    DaySchedule {
                        lunch_start: String::from_str("12h30"),
                        lunch_end: String::from_str("13h30"),
                    }
                };
                next = next + 1;
                DayReport {
                    date: info.0,
                    weekday_name: info.1,
                    kind: DayKind::Worked,
                    schedule: Some(schedule),
                }
            },
            other => {
                off_hours = off_hours + 7;
                DayReport {
                    date: info.0,
                    weekday_name: info.1,
                    kind: copy_kind(other),
                    schedule: None,
                }
            },
        };
        days.push(report);
        i = i + 1;
    }
    assert(kinds.take(5) =~= kinds);
    proof {
        assert forall|i: int| 0 <= i <= 5 implies worked_before(days@, i) == count_worked(
            kinds.take(i),
        ) by {
            lemma_worked_before_counts(days@, kinds, i);
        }
    }
    WeekReport { days, total_hours, off_hours }
}

/// Whether a day of a report is a worked day.
pub open spec fn is_worked_report(day: DayReport) -> bool {
    day.kind is Worked
}

/// How many of the first `i` days of a report are worked days.
pub open spec fn worked_before(days: Seq<DayReport>, i: int) -> nat {
    days.take(i).filter(|day: DayReport| is_worked_report(day)).len()
}

proof fn lemma_worked_before_counts(days: Seq<DayReport>, kinds: Seq<KindModel>, i: int)
    requires
        0 <= i <= days.len(),
        days.len() == kinds.len(),
        forall|j: int| 0 <= j < days.len() ==> (#[trigger] days[j]).kind@ == kinds[j],
    ensures
        worked_before(days, i) == count_worked(kinds.take(i)),
    decreases i,
{
    reveal(Seq::filter);
    if i == 0 {
        assert(days.take(0) =~= Seq::<DayReport>::empty());
        assert(kinds.take(0) =~= Seq::<KindModel>::empty());
    } else {
        lemma_worked_before_counts(days, kinds, i - 1);
        assert(days.take(i).drop_last() =~= days.take(i - 1));
        lemma_count_worked_step(kinds, i - 1);
        assert(days[i - 1].kind@ == kinds[i - 1]);
    }
}

/// The beginning of a day's line: weekday, day of the month and month name.
pub open spec fn day_heading(day: DayReport) -> Seq<char> {
    day.weekday_name@ + " "@ + decimal(day_of(day.date@) as nat) + " "@ + month_name_of(
        month_of(day.date@),
    )
}

/// The line of one day in the mail body; a worked day without a schedule has none.
pub open spec fn day_line(day: DayReport) -> Seq<char> {
    match day.kind {
        DayKind::Holiday(name) => day_heading(day) + " - Férié ("@ + name@
            + "). Temps de travail journalier : 0h.\n"@,
        DayKind::Off => day_heading(day) + " - Congé. Temps de travail journalier : 0h.\n"@,
        DayKind::Worked => match day.schedule {
            Some(s) => day_heading(day)
                + " - Durée de ma journée de travail : 9h à 17h. Pause déjeuner entre "@
                + s.lunch_start@ + " et "@ + s.lunch_end@
                + ". Temps de travail journalier : 7h.\n"@,
            None => Seq::empty(),
        },
    }
}

/// The lines of `days`, in order.
pub open spec fn day_lines(days: Seq<DayReport>) -> Seq<char>
    decreases days.len(),
{
    if days.len() == 0 {
        Seq::empty()
    } else {
        day_lines(days.drop_last()) + day_line(days.last())
    }
}

/// The mail body of a week report: one line per day, then the two totals.
pub open spec fn mail_body(week: WeekReport) -> Seq<char> {
    day_lines(week.days@) + "\nTOTAL DURÉE DE TRAVAIL HEBDOMADAIRE : "@ + decimal(
        week.total_hours as nat,
    ) + "h\n"@ + "TOTAL CONGES HEBDOMADAIRE : "@ + decimal(week.off_hours as nat) + "h\n"@
}

impl WeekReport {
    /// Formats the report as the exact mail body: no greeting, no signature.
    pub fn to_mail_body(&self) -> (r: String)
        ensures
            r@ == mail_body(*self),
    {
        let mut out = String::new();
        let n = self.days.len();
        let mut i: usize = 0;
        while i < n
            invariant
                n == self.days@.len(),
                i <= n,
                out@ == day_lines(self.days@.take(i as int)),
            decreases n - i,
        {
            let day = &self.days[i];
            let month_name = french_month(day.date.month());
            let ghost before = out@;
            match &day.kind {
                DayKind::Holiday(name) => {
                    out.append(day.weekday_name);
                    out.append(" ");
                    push_decimal(&mut out, day.date.day() as u64);
                    out.append(" ");
                    out.append(month_name);
                    out.append(" - Férié (");
                    out.append(name);
                    out.append("). Temps de travail journalier : 0h.\n");
                },
                DayKind::Off => {
                    out.append(day.weekday_name);
                    out.append(" ");
                    push_decimal(&mut out, day.date.day() as u64);
                    out.append(" ");
                    out.append(month_name);
                    out.append(" - Congé. Temps de travail journalier : 0h.\n");
                },
                DayKind::Worked => {
                    if let Some(schedule) = &day.schedule {
                        out.append(day.weekday_name);
                        out.append(" ");
                        push_decimal(&mut out, day.date.day() as u64);
                        out.append(" ");
                        out.append(month_name);
                        out.append(
                            " - Durée de ma journée de travail : 9h à 17h. Pause déjeuner entre ",
                        );
                        out.append(schedule.lunch_start.as_str());
                        out.append(" et ");
                        out.append(schedule.lunch_end.as_str());
                        out.append(". Temps de travail journalier : 7h.\n");
                    }
                },
            }
            proof {
                assert(self.days@.take(i as int + 1).drop_last() =~= self.days@.take(i as int));
                assert(out@ =~= before + day_line(self.days@[i as int]));
            }
            i = i + 1;
        }
        assert(self.days@.take(n as int) =~= self.days@);
        out.append("\nTOTAL DURÉE DE TRAVAIL HEBDOMADAIRE : ");
        push_decimal(&mut out, self.total_hours as u64);
        out.append("h\n");
        out.append("TOTAL CONGES HEBDOMADAIRE : ");
        push_decimal(&mut out, self.off_hours as u64);
        out.append("h\n");
        assert(out@ =~= mail_body(*self));
        out
    }
}

/// A public holiday is reported as a holiday even when it is also listed as a
/// personal day off.
pub proof fn lemma_holiday_wins(n: int, personal_off: Seq<Date>)
    ensures
        holiday_name_of(n) matches Some(name) ==> day_kind(n, personal_off) == KindModel::Holiday(
            name,
        ),
{
}

/// The week of day `n` starts on a Monday, and a weekday `n` is one of the five
/// reported days (Monday to Friday) of its week.
pub proof fn lemma_week_of_day(n: int)
    ensures
        weekday_of(monday_of(n)) == 0,
        0 <= weekday_of(n) < 7,
        monday_of(n) <= n <= monday_of(n) + 6,
        weekday_of(n) < 5 ==> monday_of(n) <= n <= monday_of(n) + 4,
{
    lemma_weekday_of_week_day(n, 0);
    vstd::arithmetic::div_mod::lemma_mod_bound(n - 1, 7);
}

/// Personal days off outside Monday to Friday of the week of day `n` do not change
/// how that week's days are categorised.
pub proof fn lemma_other_weeks_ignored(n: int, personal_off: Seq<Date>)
    requires
        forall|j: int|
            0 <= j < personal_off.len() ==> (#[trigger] personal_off[j])@ < monday_of(n) || (
            personal_off[j])@ > monday_of(n) + 4,
    ensures
        week_kinds(n, personal_off) == week_kinds(n, Seq::<Date>::empty()),
{
    assert forall|i: int| 0 <= i < 5 implies #[trigger] day_kind(monday_of(n) + i, personal_off)
        == day_kind(monday_of(n) + i, Seq::<Date>::empty()) by {
        assert(!is_listed(personal_off, monday_of(n) + i));
    }
    assert(week_kinds(n, personal_off) =~= week_kinds(n, Seq::<Date>::empty()));
}

proof fn lemma_count_worked_take_monotone(kinds: Seq<KindModel>, i: int, j: int)
    requires
        0 <= i <= j <= kinds.len(),
    ensures
        count_worked(kinds.take(i)) <= count_worked(kinds.take(j)),
    decreases j - i,
{
    if i < j {
        lemma_count_worked_take_monotone(kinds, i, j - 1);
        lemma_count_worked_step(kinds, j - 1);
    }
}

/// The worked days of a week take the model's entries one each, in order: the
/// entry index of a worked day is below the number of worked days, and a later
/// worked day takes a later entry.
pub proof fn lemma_worked_days_take_entries_in_order(kinds: Seq<KindModel>, i: int, j: int)
    requires
        0 <= i < j < kinds.len(),
        kinds[i] is Worked,
        kinds[j] is Worked,
    ensures
        count_worked(kinds.take(i)) < count_worked(kinds.take(j)),
        count_worked(kinds.take(j)) < count_worked(kinds),
{
    lemma_count_worked_step(kinds, i);
    lemma_count_worked_take_monotone(kinds, i + 1, j);
    lemma_count_worked_step(kinds, j);
    lemma_count_worked_take_monotone(kinds, j + 1, kinds.len() as int);
    assert(kinds.take(kinds.len() as int) =~= kinds);
}

proof fn lemma_day_lines_prefix(days: Seq<DayReport>, k: int)
    requires
        1 <= k <= days.len(),
    ensures
        day_line(days[0]).is_prefix_of(day_lines(days.take(k))),
    decreases k,
{
    let taken = days.take(k);
    assert(taken.drop_last() =~= days.take(k - 1));
    if k == 1 {
        assert(day_lines(days.take(0)) =~= Seq::<char>::empty());
        assert(day_lines(taken) =~= day_line(days[0]));
    } else {
        lemma_day_lines_prefix(days, k - 1);
    }
}

/// The mail body opens with the line of the first day: nothing (no greeting)
/// comes before it.
pub proof fn lemma_mail_body_opens_with_first_day(week: WeekReport)
    requires
        week.days@.len() > 0,
    ensures
        day_line(week.days@[0]).is_prefix_of(mail_body(week)),
{
    lemma_day_lines_prefix(week.days@, week.days@.len() as int);
    assert(week.days@.take(week.days@.len() as int) =~= week.days@);
}

/// Every week from the first week of year 0 to the last full week that chrono can
/// represent can be reported: its days are in range and their holidays computable.
pub proof fn lemma_week_is_computable(n: int)
    requires
        day_number(0, 1, 7) <= n <= day_number(MAX_YEAR as int, 12, 27),
    ensures
        week_is_computable(n),
{
    let monday = monday_of(n);
    assert(day_number(0, 1, 1) <= monday);
    assert forall|i: int| 0 <= i < 5 implies #[trigger] holidays_known(n, i) by {
        let x = monday + i;
        lemma_every_day_has_a_date(x);
        let t = civil_of(x);
        if t.0 < 0 {
            lemma_day_number_monotone_year(t.0, t.1, t.2, 0, 1, 1);
        }
        lemma_easter_defined(t.0);
    }
}

/// The twelve month names are the French names of January to December, in order,
/// and no two months share a name.
pub proof fn lemma_month_names()
    ensures
        Seq::new(12, |i: int| month_name_of(i + 1)) == seq![
            "janvier"@,
            "février"@,
            "mars"@,
            "avril"@,
            "mai"@,
            "juin"@,
            "juillet"@,
            "août"@,
            "septembre"@,
            "octobre"@,
            "novembre"@,
            "décembre"@,
        ],
        forall|a: int, b: int| 1 <= a < b <= 12 ==> month_name_of(a) != month_name_of(b),
{
    reveal_strlit("janvier");
    reveal_strlit("février");
    reveal_strlit("mars");
    reveal_strlit("avril");
    reveal_strlit("mai");
    reveal_strlit("juin");
    reveal_strlit("juillet");
    reveal_strlit("août");
    reveal_strlit("septembre");
    reveal_strlit("octobre");
    reveal_strlit("novembre");
    reveal_strlit("décembre");
    let names = Seq::new(12, |i: int| month_name_of(i + 1));
    assert(names =~= seq![
        "janvier"@,
        "février"@,
        "mars"@,
        "avril"@,
        "mai"@,
        "juin"@,
        "juillet"@,
        "août"@,
        "septembre"@,
        "octobre"@,
        "novembre"@,
        "décembre"@,
    ]);
    assert forall|a: int, b: int| 1 <= a < b <= 12 implies month_name_of(a) != month_name_of(b) by {
        let x = month_name_of(a);
        let y = month_name_of(b);
        assert(x.len() != y.len() || x[0] != y[0] || x[1] != y[1] || x[2] != y[2] || x[3]
            != y[3]);
    }
}

/// The weekday names are the French names of Monday to Sunday, in order, and no
/// two days share a name.
pub proof fn lemma_weekday_names()
    ensures
        Seq::new(7, |i: int| weekday_name_of(i)) == seq![
            "Lundi"@,
            "Mardi"@,
            "Mercredi"@,
            "Jeudi"@,
            "Vendredi"@,
            "Samedi"@,
            "Dimanche"@,
        ],
        forall|a: int, b: int| 0 <= a < b < 7 ==> weekday_name_of(a) != weekday_name_of(b),
{
    reveal_strlit("Lundi");
    reveal_strlit("Mardi");
    reveal_strlit("Mercredi");
    reveal_strlit("Jeudi");
    reveal_strlit("Vendredi");
    reveal_strlit("Samedi");
    reveal_strlit("Dimanche");
    assert(Seq::new(7, |i: int| weekday_name_of(i)) =~= seq![
        "Lundi"@,
        "Mardi"@,
        "Mercredi"@,
        "Jeudi"@,
        "Vendredi"@,
        "Samedi"@,
        "Dimanche"@,
    ]);
    assert forall|a: int, b: int| 0 <= a < b < 7 implies weekday_name_of(a) != weekday_name_of(
        b,
    ) by {
        let x = weekday_name_of(a);
        let y = weekday_name_of(b);
        assert(x.len() != y.len() || x[0] != y[0] || x[1] != y[1]);
    }
}

/// `count_worked` counts exactly the worked days.
pub proof fn lemma_count_worked_is_filter_len(kinds: Seq<KindModel>)
    ensures
        count_worked(kinds) == kinds.filter(|k: KindModel| k is Worked).len(),
    decreases kinds.len(),
{
    reveal(Seq::filter);
    if kinds.len() > 0 {
        lemma_count_worked_is_filter_len(kinds.drop_last());
    }
}

} // verus!
