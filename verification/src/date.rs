//! Calendar dates as day numbers in the proleptic Gregorian calendar
//! (January 1 of year 1 is day 1), backed by `chrono::NaiveDate`.

use vstd::prelude::*;
use chrono::Datelike;
use crate::text::decimal_text;

verus! {

/// The first day number that `chrono::NaiveDate` can hold (-262143-01-01).
pub const MIN_DAY_NUMBER: i32 = -95746129;
/// The last day number that `chrono::NaiveDate` can hold (262142-12-31).
pub const MAX_DAY_NUMBER: i32 = 95745399;
/// Smallest year `chrono::NaiveDate` accepts.
pub const MIN_YEAR: i32 = -262143;
/// Largest year `chrono::NaiveDate` accepts.
pub const MAX_YEAR: i32 = 262142;

#[verifier::external_type_specification]
#[verifier::external_body]
pub struct ExNaiveDate(chrono::NaiveDate);

/// A calendar date, stored as its day number counted from January 1 of
/// year 1 (which is day 1).
#[derive(Clone, Copy, Debug, PartialEq, Eq, Hash)]
pub struct Date {
    pub(crate) day_number: i32,
}

pub open spec fn in_date_range(n: int) -> bool {
    MIN_DAY_NUMBER <= n <= MAX_DAY_NUMBER
}

pub open spec fn is_leap_year(y: int) -> bool {
    y % 4 == 0 && (y % 100 != 0 || y % 400 == 0)
}

pub open spec fn days_in_month(y: int, m: int) -> int {
    if m == 2 {
        if is_leap_year(y) { 29 } else { 28 }
    } else if m == 4 || m == 6 || m == 9 || m == 11 {
        30
    } else {
        31
    }
}

/// Days of the months before `m` in year `y`.
pub open spec fn days_before_month(y: int, m: int) -> int
    decreases m,
{
    if m <= 1 { 0 } else { days_before_month(y, m - 1) + days_in_month(y, m - 1) }
}

/// Days of all years before year `y` (Euclidean division floors here).
pub open spec fn days_before_year(y: int) -> int {
    365 * (y - 1) + (y - 1) / 4 - (y - 1) / 100 + (y - 1) / 400
}

/// The day number of `y-m-d`, when that is a date `chrono::NaiveDate` holds.
pub open spec fn ymd_day_number(y: int, m: int, d: int) -> Option<int> {
    if MIN_YEAR <= y <= MAX_YEAR && 1 <= m <= 12 && 1 <= d <= days_in_month(y, m) {
        Some(days_before_year(y) + days_before_month(y, m) + d)
    } else {
        None
    }
}

/// ISO weekday number (Monday 1 … Sunday 7) of day number `n`; day 1 is a Monday.
pub open spec fn weekday_number(n: int) -> int {
    (n - 1) % 7 + 1
}

/// The month after month `m` of year `y`.
pub open spec fn month_after(y: int, m: int) -> (int, int) {
    if m == 12 { (y + 1, 1) } else { (y, m + 1) }
}

proof fn lemma_div_step(y: int, k: int)
    requires
        k > 0,
    ensures
        y / k - (y - 1) / k == if y % k == 0 { 1int } else { 0int },
{
    vstd::arithmetic::div_mod::lemma_fundamental_div_mod(y, k);
    vstd::arithmetic::div_mod::lemma_fundamental_div_mod(y - 1, k);
    vstd::arithmetic::div_mod::lemma_mod_bound(y, k);
    vstd::arithmetic::div_mod::lemma_mod_bound(y - 1, k);
    let q1 = y / k;
    let q0 = (y - 1) / k;
    let r1 = y % k;
    let r0 = (y - 1) % k;
    assert(k * (q1 - q0) == r0 + 1 - r1) by (nonlinear_arith)
        requires
            y == k * q1 + r1,
            y - 1 == k * q0 + r0,
    ;
    assert(q1 - q0 == if r1 == 0 { 1int } else { 0int }) by (nonlinear_arith)
        requires
            k * (q1 - q0) == r0 + 1 - r1,
            0 <= r1 < k,
            0 <= r0 < k,
            k > 0,
    ;
}

/// A year is 365 days, 366 in a leap year.
proof fn lemma_year_length(y: int)
    ensures
        days_before_year(y + 1) == days_before_year(y) + days_before_month(y, 12) + days_in_month(y, 12),
{
    lemma_div_step(y, 4);
    lemma_div_step(y, 100);
    lemma_div_step(y, 400);
    reveal_with_fuel(days_before_month, 13);
}

/// The first day of the next month follows the last day of this one.
pub proof fn lemma_month_after_start(y: int, m: int)
    requires
        1 <= m <= 12,
        ymd_day_number(y, m, 1) is Some,
        ymd_day_number(month_after(y, m).0, month_after(y, m).1, 1) is Some,
    ensures
        ymd_day_number(month_after(y, m).0, month_after(y, m).1, 1).unwrap()
            == ymd_day_number(y, m, 1).unwrap() + days_in_month(y, m),
{
    if m == 12 {
        lemma_year_length(y);
    }
}

/// A later month starts after this month ends.
pub proof fn lemma_later_month_start(y: int, m: int, y2: int, m2: int)
    requires
        1 <= m <= 12,
        1 <= m2 <= 12,
        y * 12 + m < y2 * 12 + m2,
        ymd_day_number(y, m, 1) is Some,
        ymd_day_number(y2, m2, 1) is Some,
    ensures
        ymd_day_number(y2, m2, 1).unwrap() >= ymd_day_number(y, m, 1).unwrap() + days_in_month(y, m),
    decreases y2 * 12 + m2 - (y * 12 + m),
{
    let (y1, m1) = month_after(y, m);
    assert(ymd_day_number(y1, m1, 1) is Some);
    lemma_month_after_start(y, m);
    if y1 * 12 + m1 < y2 * 12 + m2 {
        lemma_later_month_start(y1, m1, y2, m2);
    } else {
        assert(y1 == y2 && m1 == m2);
    }
}

/// The "%Y-%m-%d" text of the date with day number `n` (its year, month
/// and day, as `iso_text_of` writes them).
#[verifier::opaque]
pub open spec fn iso_date_text(n: int) -> Seq<char> {
    let t = choose|t: (int, int, int)| ymd_day_number(t.0, t.1, t.2) == Some(n);
    iso_text_of(t.0, t.1, t.2)
}

/// `v` in decimal, zero-padded to at least `w` digits.
pub open spec fn padded_decimal(v: nat, w: nat) -> Seq<char> {
    let t = decimal_text(v);
    if t.len() >= w {
        t
    } else {
        Seq::new((w - t.len()) as nat, |i: int| '0') + t
    }
}

/// A year as "%Y" writes it: at least four digits, with a sign outside
/// 0..=9999.
pub open spec fn year_text(y: int) -> Seq<char> {
    if 0 <= y <= 9999 {
        padded_decimal(y as nat, 4)
    } else if y < 0 {
        seq!['-'] + padded_decimal((-y) as nat, 4)
    } else {
        seq!['+'] + padded_decimal(y as nat, 4)
    }
}

/// The date `y-m-d` as "%Y-%m-%d" writes it.
pub open spec fn iso_text_of(y: int, m: int, d: int) -> Seq<char> {
    year_text(y) + seq!['-'] + padded_decimal(m as nat, 2) + seq!['-'] + padded_decimal(d as nat, 2)
}

/// English three-letter month names, January being 1.
pub open spec fn short_month_name(m: int) -> Seq<char> {
    if m == 1 { seq!['J', 'a', 'n'] }
    else if m == 2 { seq!['F', 'e', 'b'] }
    else if m == 3 { seq!['M', 'a', 'r'] }
    else if m == 4 { seq!['A', 'p', 'r'] }
    else if m == 5 { seq!['M', 'a', 'y'] }
    else if m == 6 { seq!['J', 'u', 'n'] }
    else if m == 7 { seq!['J', 'u', 'l'] }
    else if m == 8 { seq!['A', 'u', 'g'] }
    else if m == 9 { seq!['S', 'e', 'p'] }
    else if m == 10 { seq!['O', 'c', 't'] }
    else if m == 11 { seq!['N', 'o', 'v'] }
    else { seq!['D', 'e', 'c'] }
}

/// The day number `chrono` reads from `s` under "%Y-%m-%d", if it reads one.
pub uninterp spec fn parse_iso_date_text(s: Seq<char>) -> Option<int>;


impl View for Date {
    type V = int;

    closed spec fn view(&self) -> int {
        self.day_number as int
    }
}

impl Date {
    #[verifier::type_invariant]
    closed spec fn inv(self) -> bool {
        in_date_range(self.day_number as int)
    }

    /// The day number of this date.
    pub fn day_number(&self) -> (r: i32)
        ensures
            r == self@,
            in_date_range(r as int),
    {
        proof { use_type_invariant(self); }
        self.day_number
    }

    /// The date with day number `n`, which `chrono` can hold.
    pub fn new_in_range(n: i32) -> (r: Date)
        requires
            in_date_range(n as int),
        ensures
            r@ == n,
    {
        Date { day_number: n }
    }

    /// The date with day number `n`, if `chrono` can hold it.
    pub fn from_day_number(n: i32) -> (r: Option<Date>)
        ensures
            r is Some <==> in_date_range(n as int),
            r matches Some(d) ==> d@ == n,
    {
        if MIN_DAY_NUMBER <= n && n <= MAX_DAY_NUMBER {
            Some(Date { day_number: n })
        } else {
            None
        }
    }

}

impl Date {
    /// The date `y-m-d`, or `None` when that is no date (`NaiveDate::from_ymd_opt`).
    pub fn from_ymd_opt(y: i32, m: u32, d: u32) -> (r: Option<Date>)
        ensures
            r is Some <==> ymd_day_number(y as int, m as int, d as int) is Some,
            r matches Some(date) ==> ymd_day_number(y as int, m as int, d as int) == Some(date@),
    {
        match chrono_from_ymd(y, m, d) {
            Some(n) => Some(Date { day_number: n }),
            None => None,
        }
    }

    /// The date of a `chrono::NaiveDate`: the one with the same day number.
    pub fn from_naive(nd: chrono::NaiveDate) -> (r: Date)
        ensures
            r@ == naive_day_count(nd),
    {
        Date { day_number: naive_day_number(nd) }
    }

    /// This date as a `chrono::NaiveDate`: the one with the same day number.
    pub fn to_naive(&self) -> (r: chrono::NaiveDate)
        ensures
            naive_day_count(r) == self@,
    {
        proof { use_type_invariant(self); }
        naive_from_day_number(self.day_number)
    }

    /// Year, month and day of month of this date.
    pub fn ymd(&self) -> (r: (i32, u32, u32))
        ensures
            ymd_day_number(r.0 as int, r.1 as int, r.2 as int) == Some(self@),
    {
        proof { use_type_invariant(self); }
        chrono_ymd(self.day_number)
    }

    /// ISO weekday number: Monday 1 … Sunday 7.
    pub fn weekday_from_monday(&self) -> (r: u32)
        ensures
            r == weekday_number(self@),
            1 <= r <= 7,
    {
        proof { use_type_invariant(self); }
        chrono_weekday(self.day_number)
    }

    /// This date moved by `delta` days, or `None` when that leaves the range
    /// `chrono` holds (`NaiveDate::checked_add_signed`).
    pub fn checked_add_days(&self, delta: i32) -> (r: Option<Date>)
        ensures
            r is Some <==> in_date_range(self@ + delta),
            r matches Some(d) ==> d@ == self@ + delta,
    {
        proof { use_type_invariant(self); }
        match chrono_add_days(self.day_number, delta) {
            Some(n) => Some(Date { day_number: n }),
            None => None,
        }
    }

    /// "%Y-%m-%d" text of this date.
    pub fn iso_text(&self) -> (r: String)
        ensures
            r@ == iso_date_text(self@),
            forall|y: int, m: int, d: int| ymd_day_number(y, m, d) == Some(self@) ==> r@ == iso_text_of(y, m, d),
            parse_iso_date_text(r@) == Some(self@),
    {
        proof { use_type_invariant(self); }
        chrono_iso_text(self.day_number)
    }

    /// Reads a "%Y-%m-%d" date.
    pub fn parse_iso(s: &str) -> (r: Option<Date>)
        ensures
            r matches Some(d) ==> parse_iso_date_text(s@) == Some(d@),
            r is None ==> parse_iso_date_text(s@) is None,
    {
        match chrono_parse_iso(s) {
            Some(n) => Some(Date { day_number: n }),
            None => None,
        }
    }

    /// English abbreviated month name ("%b").
    pub fn month_abbrev(&self) -> (r: String)
        ensures
            forall|y: int, m: int, d: int| ymd_day_number(y, m, d) == Some(self@) ==> r@ == short_month_name(m),
    {
        proof { use_type_invariant(self); }
        chrono_month_abbrev(self.day_number)
    }
}

/// Calls `NaiveDate::from_ymd_opt` and returns the day number of the date it
/// makes: claims that the date exists exactly for valid year/month/day
/// triples within chrono's year range, and that its day number is the
/// proleptic Gregorian count.
#[verifier::external_body]
fn chrono_from_ymd(y: i32, m: u32, d: u32) -> (r: Option<i32>)
    ensures
        r is Some <==> ymd_day_number(y as int, m as int, d as int) is Some,
        r matches Some(n) ==> ymd_day_number(y as int, m as int, d as int) == Some(n as int)
            && in_date_range(n as int),
{
    chrono::NaiveDate::from_ymd_opt(y, m, d).map(|nd| nd.num_days_from_ce())
}

/// The day number `Datelike::num_days_from_ce` gives a `chrono::NaiveDate`
/// (January 1 of year 1 is day 1).
pub uninterp spec fn naive_day_count(nd: chrono::NaiveDate) -> int;

/// Calls `Datelike::num_days_from_ce`: claims the result is the date's day
/// number and lies in chrono's range.
#[verifier::external_body]
fn naive_day_number(nd: chrono::NaiveDate) -> (r: i32)
    ensures
        r == naive_day_count(nd),
        in_date_range(r as int),
{
    nd.num_days_from_ce()
}

/// Calls `NaiveDate::from_num_days_from_ce_opt` on an in-range day number:
/// claims the date it makes has day number `n` (both functions count days
/// the same way, January 1 of year 1 being day 1).
#[verifier::external_body]
fn naive_from_day_number(n: i32) -> (r: chrono::NaiveDate)
    requires
        in_date_range(n as int),
    ensures
        naive_day_count(r) == n,
{
    chrono::NaiveDate::from_num_days_from_ce_opt(n).unwrap()
}

/// Calls `Datelike::year`, `month` and `day`: claims they are the calendar
/// fields whose day number is `n`.
#[verifier::external_body]
fn chrono_ymd(n: i32) -> (r: (i32, u32, u32))
    requires
        in_date_range(n as int),
    ensures
        ymd_day_number(r.0 as int, r.1 as int, r.2 as int) == Some(n as int),
{
    let nd = chrono::NaiveDate::from_num_days_from_ce_opt(n).unwrap();
    (nd.year(), nd.month(), nd.day())
}

/// Calls `Weekday::number_from_monday` on the date's weekday: claims day 1
/// (0001-01-01) is a Monday and weekdays repeat every 7 days.
#[verifier::external_body]
fn chrono_weekday(n: i32) -> (r: u32)
    requires
        in_date_range(n as int),
    ensures
        r == weekday_number(n as int),
{
    chrono::NaiveDate::from_num_days_from_ce_opt(n).unwrap().weekday().number_from_monday()
}

/// Calls `NaiveDate::checked_add_signed` with `TimeDelta::days(delta)`:
/// claims the result is the date `delta` days later exactly when chrono holds it.
#[verifier::external_body]
fn chrono_add_days(n: i32, delta: i32) -> (r: Option<i32>)
    requires
        in_date_range(n as int),
    ensures
        r is Some <==> in_date_range(n + delta),
        r matches Some(m) ==> m == n + delta,
{
    chrono::NaiveDate::from_num_days_from_ce_opt(n)
        .unwrap()
        .checked_add_signed(chrono::TimeDelta::days(delta as i64))
        .map(|nd| nd.num_days_from_ce())
}

/// Calls `NaiveDate::format("%Y-%m-%d")`: claims the text is the year (four
/// digits at least, signed outside 0..=9999), month and day (two digits
/// each) joined by '-', and that `NaiveDate::parse_from_str` with the same
/// format reads the date back.
#[verifier::external_body]
fn chrono_iso_text(n: i32) -> (r: String)
    requires
        in_date_range(n as int),
    ensures
        r@ == iso_date_text(n as int),
        forall|y: int, m: int, d: int| ymd_day_number(y, m, d) == Some(n as int) ==> r@ == iso_text_of(y, m, d),
        parse_iso_date_text(r@) == Some(n as int),
{
    chrono::NaiveDate::from_num_days_from_ce_opt(n).unwrap().format("%Y-%m-%d").to_string()
}

/// Calls `NaiveDate::parse_from_str(s, "%Y-%m-%d")`; what it reads is named.
#[verifier::external_body]
fn chrono_parse_iso(s: &str) -> (r: Option<i32>)
    ensures
        r matches Some(n) ==> parse_iso_date_text(s@) == Some(n as int) && in_date_range(n as int),
        r is None ==> parse_iso_date_text(s@) is None,
{
    chrono::NaiveDate::parse_from_str(s, "%Y-%m-%d").ok().map(|nd| nd.num_days_from_ce())
}

/// Calls `NaiveDate::format("%b")`: claims the text is the English
/// three-letter name of the date's month.
#[verifier::external_body]
fn chrono_month_abbrev(n: i32) -> (r: String)
    requires
        in_date_range(n as int),
    ensures
        forall|y: int, m: int, d: int| ymd_day_number(y, m, d) == Some(n as int) ==> r@ == short_month_name(m),
{
    chrono::NaiveDate::from_num_days_from_ce_opt(n).unwrap().format("%b").to_string()
}

} // verus!
