//! The date picker's calendar kernel: the month grid, month navigation and
//! what a click on a day does in single-date and date-range modes.

use vstd::prelude::*;
use crate::date::{
    days_before_month, days_before_year, days_in_month, in_date_range, weekday_number, ymd_day_number, Date,
    MAX_DAY_NUMBER, MAX_YEAR, MIN_DAY_NUMBER, MIN_YEAR,
};

verus! {

/// The month index of `(year, month)` shifted by `delta`: months counted
/// from year 0, as the computation writes it.
pub open spec fn month_index(year: i32, month: u32, delta: i32) -> int {
    year * 12 + (month as i32) - 1 + delta
}

/// The arithmetic of `shift_month` stays within `i32`.
pub open spec fn shift_fits(year: i32, month: u32, delta: i32) -> bool {
    &&& i32::MIN <= year * 12 <= i32::MAX
    &&& i32::MIN <= year * 12 + (month as i32) <= i32::MAX
    &&& i32::MIN <= year * 12 + (month as i32) - 1 <= i32::MAX
    &&& i32::MIN <= month_index(year, month, delta) <= i32::MAX
}

/// Advances (positive `delta`) or retreats (negative) the month `(year,
/// month)` by `delta` months.
pub fn shift_month(year: i32, month: u32, delta: i32) -> (r: (i32, u32))
    requires
        shift_fits(year, month, delta),
    ensures
        r.0 == month_index(year, month, delta) / 12,
        r.1 == month_index(year, month, delta) % 12 + 1,
        1 <= r.1 <= 12,
{
    let total: i32 = year * 12 + month as i32 - 1 + delta;
    let mut y: i32 = total / 12;
    let mut m: i32 = total % 12;
    if m < 0 {
        m = m + 12;
        y = y - 1;
    }
    proof {
        assert(total == month_index(year, month, delta));
        assert(y == total / 12 && m == total % 12) by (nonlinear_arith)
            requires
                (m < 12 && m >= 0),
                y * 12 + m == total,
        ;
    }
    (y, (m + 1) as u32)
}

/// Shifting by `a` months and then by `b` months is shifting by `a + b`.
pub proof fn lemma_shift_month_compose(year: i32, month: u32, a: i32, b: i32)
    requires
        1 <= month <= 12,
        shift_fits(year, month, a),
        shift_fits(year, month, (a + b) as i32),
        i32::MIN <= a + b <= i32::MAX,
        shift_fits(
            (month_index(year, month, a) / 12) as i32,
            (month_index(year, month, a) % 12 + 1) as u32,
            b,
        ),
    ensures
        ({
            let y1 = (month_index(year, month, a) / 12) as i32;
            let m1 = (month_index(year, month, a) % 12 + 1) as u32;
            &&& month_index(y1, m1, b) / 12 == month_index(year, month, (a + b) as i32) / 12
            &&& month_index(y1, m1, b) % 12 == month_index(year, month, (a + b) as i32) % 12
        }),
{
    let t = month_index(year, month, a);
    let y1 = (t / 12) as i32;
    let m1 = (t % 12 + 1) as u32;
    assert(y1 * 12 + (m1 as i32) - 1 == t) by (nonlinear_arith)
        requires
            y1 == t / 12,
            m1 == t % 12 + 1,
            0 <= t % 12 < 12,
    ;
    assert(month_index(y1, m1, b) == month_index(year, month, (a + b) as i32));
}

/// Shifting a valid month by 0 leaves it as it is.
pub proof fn lemma_shift_month_zero(year: i32, month: u32)
    requires
        1 <= month <= 12,
        shift_fits(year, month, 0),
    ensures
        month_index(year, month, 0) / 12 == year,
        month_index(year, month, 0) % 12 + 1 == month,
{
    let t = month_index(year, month, 0);
    assert(t == year * 12 + (month - 1));
    assert(t / 12 == year && t % 12 == month - 1) by (nonlinear_arith)
        requires
            t == year * 12 + (month - 1),
            0 <= month - 1 < 12,
    ;
}

/// Persistent state of the date picker across frames.
pub struct DatePickerState {
    /// Year and month currently displayed in the grid.
    pub shown_month: (i32, u32),
    /// `false` = single-date mode, `true` = range mode.
    pub mode_range: bool,
    /// Selected date (single) or range start.
    pub start: Date,
    /// Range end — `None` while awaiting the second click.
    pub end: Option<Date>,
    /// Range mode: `true` when the next click sets `end`.
    pub picking_end: bool,
}

/// A selection the picker commits.
#[derive(Debug, Clone, Copy, PartialEq, Eq)]
pub enum DatePickerResult {
    Single(Date),
    Range(Date, Date),
}

/// `(y, m)` is the year and month of the date with day number `n`.
pub open spec fn is_month_of(y: i32, m: u32, n: int) -> bool {
    exists|d: int| ymd_day_number(y as int, m as int, d) == Some(n)
}

impl DatePickerState {
    /// Single-date mode showing and selecting `date`.
    pub fn single(date: Date) -> (r: Self)
        ensures
            is_month_of(r.shown_month.0, r.shown_month.1, date@),
            !r.mode_range,
            r.start == date,
            r.end is None,
            !r.picking_end,
    {
        let (y, m, d) = date.ymd();
        DatePickerState { shown_month: (y, m), mode_range: false, start: date, end: None, picking_end: false }
    }

    /// Range mode from `start` to `end`; the next click sets the end when
    /// one is already chosen.
    pub fn range(start: Date, end: Option<Date>) -> (r: Self)
        ensures
            is_month_of(r.shown_month.0, r.shown_month.1, start@),
            r.mode_range,
            r.start == start,
            r.end == end,
            r.picking_end == end is Some,
    {
        let (y, m, d) = start.ymd();
        DatePickerState { shown_month: (y, m), mode_range: true, start, end, picking_end: end.is_some() }
    }
}

/// Processes a click on day `day`, updating `state`; returns the selection
/// when it is complete. Single mode commits every click. Range mode takes a
/// start on the first click and commits on the second, ordering the two
/// days so that the start is not after the end.
pub fn handle_click(state: &mut DatePickerState, day: Date) -> (r: Option<DatePickerResult>)
    ensures
        !old(state).mode_range ==> {
            &&& r == Some(DatePickerResult::Single(day))
            &&& final(state).start == day
            &&& is_month_of(final(state).shown_month.0, final(state).shown_month.1, day@)
            &&& final(state).mode_range == old(state).mode_range
            &&& final(state).end == old(state).end
            &&& final(state).picking_end == old(state).picking_end
        },
        old(state).mode_range && !old(state).picking_end ==> {
            &&& r is None
            &&& final(state).start == day
            &&& final(state).end is None
            &&& final(state).picking_end
            &&& final(state).mode_range
            &&& final(state).shown_month == old(state).shown_month
        },
        old(state).mode_range && old(state).picking_end ==> {
            let (lo, hi) = if day@ >= old(state).start@ { (old(state).start, day) } else { (day, old(state).start) };
            &&& r == Some(DatePickerResult::Range(lo, hi))
            &&& lo@ <= hi@
            &&& final(state).start == lo
            &&& final(state).end == Some(hi)
            &&& !final(state).picking_end
            &&& final(state).mode_range
            &&& final(state).shown_month == old(state).shown_month
        },
{
    if !state.mode_range {
        state.start = day;
        let (y, m, d) = day.ymd();
        state.shown_month = (y, m);
        return Some(DatePickerResult::Single(day));
    }
    if !state.picking_end {
        state.start = day;
        state.end = None;
        state.picking_end = true;
        None
    } else {
        let (start, end) = if day.day_number() >= state.start.day_number() {
            (state.start, day)
        } else {
            (day, state.start)
        };
        state.start = start;
        state.end = Some(end);
        state.picking_end = false;
        Some(DatePickerResult::Range(start, end))
    }
}

/// The first day shown for `(year, month)`: the 1st of the month (the 1st
/// of January when `month` is no month), moved back to its Monday.
pub open spec fn grid_start(year: i32, month: u32) -> int {
    let first = match ymd_day_number(year as int, month as int, 1) {
        Some(n) => n,
        None => ymd_day_number(year as int, 1, 1).unwrap(),
    };
    first - (weekday_number(first) - 1)
}

proof fn lemma_days_before_month_le(y: int, m: int)
    requires
        1 <= m <= 13,
    ensures
        0 <= days_before_month(y, m) <= 31 * (m - 1),
    decreases m,
{
    if m > 1 {
        lemma_days_before_month_le(y, m - 1);
    }
}

proof fn lemma_days_before_year_mono(y1: int, y2: int)
    requires
        y1 <= y2,
    ensures
        days_before_year(y1) + 364 * (y2 - y1) <= days_before_year(y2),
{
    let a = y1 - 1;
    let b = y2 - 1;
    assert(365 * a + a / 4 - a / 100 + a / 400 + 364 * (b - a) <= 365 * b + b / 4 - b / 100 + b / 400) by (nonlinear_arith)
        requires
            a <= b,
    ;
}

/// Every grid of a year strictly inside chrono's range is in range.
pub proof fn lemma_inner_year_grid_in_range(year: i32, month: u32)
    requires
        MIN_YEAR < year < MAX_YEAR,
    ensures
        grid_in_range(year, month),
{
    lemma_days_before_year_mono(MIN_YEAR + 1, year as int);
    lemma_days_before_year_mono(year as int, MAX_YEAR - 1);
    assert(days_before_year(MIN_YEAR + 1) == MIN_DAY_NUMBER - 1 + 365 || days_before_year(MIN_YEAR + 1) == MIN_DAY_NUMBER - 1 + 366);
    assert(days_before_year(MAX_YEAR - 1) + 730 == MAX_DAY_NUMBER);
    let m = month as u32 as int;
    if 1 <= m <= 12 {
        lemma_days_before_month_le(year as int, m);
    }
}

/// The 42 days of the grid for `(year, month)`, and the day after them,
/// lie in the range of dates `chrono` holds.
pub open spec fn grid_in_range(year: i32, month: u32) -> bool {
    &&& MIN_YEAR <= year <= MAX_YEAR
    &&& MIN_DAY_NUMBER <= grid_start(year, month)
    &&& grid_start(year, month) + 42 <= MAX_DAY_NUMBER
}

/// The 6 × 7 calendar grid (Monday first) for `(year, month)`: 42
/// consecutive days from the Monday on or before the 1st of the month.
/// Every year strictly inside chrono's range has its grids in range (see
/// `lemma_inner_year_grid_in_range`); of the two outermost years, the
/// months whose grid stays in range.
pub fn month_grid(year: i32, month: u32) -> (r: [[Date; 7]; 6])
    requires
        grid_in_range(year, month),
    ensures
        forall|i: int, j: int| 0 <= i < 6 && 0 <= j < 7 ==> (#[trigger] r@[i]@[j])@ == grid_start(year, month) + 7 * i + j,
{
    let first = match Date::from_ymd_opt(year, month, 1) {
        Some(d) => d,
        None => {
            let j = Date::from_ymd_opt(year, 1, 1);
            match j {
                Some(d) => d,
                None => {
                    proof {
                        assert(ymd_day_number(year as int, 1, 1) is Some);
                    }
                    Date::new_in_range(1)
                },
            }
        },
    };
    let back = first.weekday_from_monday() as i32 - 1;
    let start_n = first.day_number() - back;
    let mut grid: [[Date; 7]; 6] = [[first; 7]; 6];
    let mut i: usize = 0;
    while i < 6
        invariant
            i <= 6,
            start_n == grid_start(year, month),
            MIN_DAY_NUMBER <= start_n && start_n + 41 <= MAX_DAY_NUMBER,
            forall|a: int, b: int| 0 <= a < i && 0 <= b < 7 ==> (#[trigger] grid@[a]@[b])@ == start_n + 7 * a + b,
        decreases 6 - i,
    {
        let mut row: [Date; 7] = [first; 7];
        let mut j: usize = 0;
        while j < 7
            invariant
                i < 6,
                j <= 7,
                MIN_DAY_NUMBER <= start_n && start_n + 41 <= MAX_DAY_NUMBER,
                forall|b: int| 0 <= b < j ==> (#[trigger] row@[b])@ == start_n + 7 * i + b,
            decreases 7 - j,
        {
            let n: i32 = start_n + 7 * (i as i32) + (j as i32);
            row[j] = Date::new_in_range(n);
            j += 1;
        }
        grid[i] = row;
        i += 1;
    }
    grid
}

} // verus!
