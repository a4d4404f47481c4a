//! Timeline labels: the date text under a day and stepping through months.

use vstd::prelude::*;
use crate::calendar::{
    columns_before, date_to_day, day_to_column, day_to_date, lemma_columns_before_le_len, first_occurrences, first_working_day_of_month, first_working_in_month,
    holiday_offset, is_working, lemma_columns_before_monotone, lemma_date_to_day_increasing, lemma_date_to_day_lower,
    lemma_days_up_to_span_in_range, lemma_first_working_from, DateSet,
};
use crate::date::{
    days_in_month, in_date_range, lemma_later_month_start, lemma_month_after_start, month_after, short_month_name, ymd_day_number,
    MAX_YEAR, MIN_YEAR,
};
use crate::model::{CalendarConfig, Day};
use crate::text::{decimal_text, i64_text, push_char, push_text, signed_decimal_text, u64_text};

verus! {

/// `y % 100` as Rust computes it on integers: the remainder takes the sign
/// of `y`.
pub open spec fn year_rem(y: int) -> int {
    if y >= 0 {
        y % 100
    } else {
        -((-y) % 100)
    }
}

/// `v` as `{:02}` writes it: at least two characters, zero-padded.
pub open spec fn two_digit_text(v: int) -> Seq<char> {
    if 0 <= v < 10 {
        seq!['0'] + decimal_text(v as nat)
    } else {
        signed_decimal_text(v)
    }
}

/// The label of the date `y-m-d`: "Jun 2025" when `month_only`, else
/// "Jun 16 '25".
pub open spec fn day_label_text(m: int, y: int, d: int, month_only: bool) -> Seq<char> {
    if month_only {
        short_month_name(m) + " "@ + signed_decimal_text(y)
    } else {
        short_month_name(m) + " "@ + decimal_text(d as nat) + " '"@ + two_digit_text(year_rem(y))
    }
}

/// Formats timeline day `day` as a date label: "Jun 2025" when
/// `month_only`, otherwise "Jun 16 '25".
pub fn format_day_label(day: Day, month_only: bool, config: &CalendarConfig) -> (r: String)
    requires
        day != 0 ==> config.working_days_per_week >= 1,
        config.day_steps_in_range(day as int),
    ensures
        exists|n: int, y: int, m: int, d: int|
            #![trigger config.is_date_of_day(day as int, n), ymd_day_number(y, m, d)]
            config.is_date_of_day(day as int, n) && ymd_day_number(y, m, d) == Some(n)
                && r@ == day_label_text(m, y, d, month_only),
{
    let date = day_to_date(day, config);
    let (y, m, d) = date.ymd();
    let mut out = date.month_abbrev();
    assert(out@ == short_month_name(m as int));
    push_text(&mut out, " ");
    if month_only {
        let year = i64_text(y as i64);
        push_text(&mut out, year.as_str());
    } else {
        let dd = u64_text(d as u64);
        push_text(&mut out, dd.as_str());
        push_text(&mut out, " '");
        let v: i32 = if y >= 0 { y % 100 } else { -((-y) % 100) };
        if 0 <= v && v < 10 {
            push_char(&mut out, '0');
            let t = u64_text(v as u64);
            push_text(&mut out, t.as_str());
            assert(out@ =~= short_month_name(m as int) + " "@ + decimal_text(d as nat) + " '"@ + (seq!['0'] + decimal_text(v as nat)));
        } else {
            let t = i64_text(v as i64);
            push_text(&mut out, t.as_str());
        }
    }
    assert(config.is_date_of_day(day as int, date@) && ymd_day_number(y as int, m as int, d as int) == Some(date@)
        && out@ == day_label_text(m as int, y as int, d as int, month_only));
    out
}

/// The month after `month` of `year`.
pub fn next_ym(year: i32, month: u32) -> (r: (i32, u32))
    requires
        month == 12 ==> year < i32::MAX,
        month != 12 ==> month < u32::MAX,
    ensures
        r == if month == 12 { ((year + 1) as i32, 1u32) } else { (year, (month + 1) as u32) },
{
    if month == 12 {
        (year + 1, 1)
    } else {
        (year, month + 1)
    }
}

// ── quarters ────────────────────────────────────────────────────────────────

/// One quarter label of the period ruler: its text and the columns it spans
/// (`[start_column, end_column)`, in working-day columns with holiday
/// columns counted).
#[derive(Debug)]
pub struct QuarterRange {
    pub label: String,
    pub start_column: i64,
    pub end_column: i64,
}

/// The column of working day `day`: the day plus the holiday columns before it.
pub open spec fn column_of(config: &CalendarConfig, day: int) -> int {
    day + columns_before(first_occurrences(config.off_seq()), day, config)
}

/// The column of the first working day of month `m` of `y`.
pub open spec fn month_column(config: &CalendarConfig, y: int, m: int) -> int {
    column_of(config, config.spec_date_to_day(first_working_in_month(y, m, config).unwrap()))
}

/// The first month of the quarter after the one holding month `m` of `y`.
pub open spec fn next_quarter(y: int, m: int) -> (int, int) {
    let q = (m - 1) / 3 + 1;
    if q * 3 + 1 > 12 { (y + 1, 1) } else { (y, q * 3 + 1) }
}

/// "Q3 '25".
pub open spec fn quarter_label_text(q: int, y: int) -> Seq<char> {
    "Q"@ + decimal_text(q as nat) + " '"@ + two_digit_text(year_rem(y))
}

/// The quarter label drawn from month `m` of `y`: its text, from the first
/// working day of the month (not before column 0) to the first working day
/// of the next quarter (not past the span, and the span's end when that
/// quarter has none).
pub open spec fn quarter_at(config: &CalendarConfig, span: int, y: int, m: int) -> (Seq<char>, int, int) {
    let x0 = month_column(config, y, m);
    let (ny, nm) = next_quarter(y, m);
    let x1 = match first_working_in_month(ny, nm, config) {
        Some(_) => {
            let c = month_column(config, ny, nm);
            if c < span { c } else { span }
        },
        None => span,
    };
    (quarter_label_text((m - 1) / 3 + 1, y), if x0 > 0 { x0 } else { 0 }, x1)
}

/// The labelling stops at month `m` of `y`: a month without working days
/// whose next month lies more than 50 years after `sy`, or a month whose
/// label would start at or past the span.
pub open spec fn quarters_stop(config: &CalendarConfig, span: int, sy: int, y: int, m: int) -> bool {
    match first_working_in_month(y, m, config) {
        None => month_after(y, m).0 > sy + 50,
        Some(_) => (if month_column(config, y, m) > 0 { month_column(config, y, m) } else { 0 }) >= span,
    }
}

/// Where the labelling goes from month `m` of `y`: the next month when it
/// has no working day, the next quarter after a label.
pub open spec fn quarters_next(config: &CalendarConfig, y: int, m: int) -> (int, int) {
    match first_working_in_month(y, m, config) {
        None => month_after(y, m),
        Some(_) => next_quarter(y, m),
    }
}

/// The labels from month `m` of `y` on, when the labelling stops within
/// `n` steps.
pub open spec fn quarters_from(config: &CalendarConfig, span: int, sy: int, y: int, m: int, n: nat) -> Option<Seq<(Seq<char>, int, int)>>
    decreases n,
{
    if n == 0 {
        None
    } else if quarters_stop(config, span, sy, y, m) {
        Some(Seq::empty())
    } else {
        let (ny, nm) = quarters_next(config, y, m);
        match quarters_from(config, span, sy, ny, nm, (n - 1) as nat) {
            Some(rest) => if first_working_in_month(y, m, config) is Some {
                Some(seq![quarter_at(config, span, y, m)] + rest)
            } else {
                Some(rest)
            },
            None => None,
        }
    }
}

pub open spec fn quarter_view(q: QuarterRange) -> (Seq<char>, int, int) {
    (q.label@, q.start_column as int, q.end_column as int)
}

/// The column of working day `day`.
fn day_column(day: Day, non_working: &DateSet, config: &CalendarConfig) -> (r: i64)
    requires
        non_working@ == first_occurrences(config.off_seq()),
    ensures
        r == column_of(config, day as int),
{
    day as i64 + holiday_offset(day, non_working, config) as i64
}

/// The column of the first working day of month `m` of `y`, if it has one.
fn month_start_column(year: i32, month: u32, non_working: &DateSet, config: &CalendarConfig) -> (r: Option<i64>)
    requires
        non_working@ == first_occurrences(config.off_seq()),
    ensures
        r is Some <==> first_working_in_month(year as int, month as int, config) is Some,
        r matches Some(c) ==> c == month_column(config, year as int, month as int),
{
    match first_working_day_of_month(year, month, config) {
        Some(d) => {
            let dd = date_to_day(d, config);
            Some(day_column(dd, non_working, config))
        },
        None => None,
    }
}

/// "Q3 '25".
fn quarter_label(quarter: u32, year: i32) -> (r: String)
    requires
        MIN_YEAR <= year <= MAX_YEAR + 1,
    ensures
        r@ == quarter_label_text(quarter as int, year as int),
{
    let mut out = String::new();
    push_text(&mut out, "Q");
    let q = u64_text(quarter as u64);
    push_text(&mut out, q.as_str());
    push_text(&mut out, " '");
    let v: i32 = if year >= 0 { year % 100 } else { -((-year) % 100) };
    if 0 <= v && v < 10 {
        push_char(&mut out, '0');
        let t = u64_text(v as u64);
        push_text(&mut out, t.as_str());
        assert(out@ =~= "Q"@ + decimal_text(quarter as nat) + " '"@ + (seq!['0'] + decimal_text(v as nat)));
    } else {
        let t = i64_text(v as i64);
        push_text(&mut out, t.as_str());
    }
    out
}

/// One step of the labelling keeps the labels found so far and the labels
/// still to come adding up to the whole.
proof fn lemma_quarters_step(
    config: &CalendarConfig,
    sp: int,
    sy: int,
    m0: int,
    py: int,
    pm: int,
    steps: nat,
    before: Seq<(Seq<char>, int, int)>,
    after: Seq<(Seq<char>, int, int)>,
)
    requires
        !quarters_stop(config, sp, sy, py, pm),
        after == if first_working_in_month(py, pm, config) is Some {
            before.push(quarter_at(config, sp, py, pm))
        } else {
            before
        },
        forall|n: nat| #![trigger quarters_from(config, sp, sy, py, pm, n)]
            quarters_from(config, sp, sy, py, pm, n) is Some
            ==> quarters_from(config, sp, sy, sy, m0, n + steps) == Some(before + quarters_from(config, sp, sy, py, pm, n).unwrap()),
    ensures
        forall|n: nat| #![trigger quarters_from(config, sp, sy, quarters_next(config, py, pm).0, quarters_next(config, py, pm).1, n)]
            quarters_from(config, sp, sy, quarters_next(config, py, pm).0, quarters_next(config, py, pm).1, n) is Some
            ==> quarters_from(config, sp, sy, sy, m0, n + steps + 1) == Some(after
                + quarters_from(config, sp, sy, quarters_next(config, py, pm).0, quarters_next(config, py, pm).1, n).unwrap()),
{
    let (ny, nm) = quarters_next(config, py, pm);
    assert forall|n: nat| #![trigger quarters_from(config, sp, sy, ny, nm, n)]
        quarters_from(config, sp, sy, ny, nm, n) is Some
        implies quarters_from(config, sp, sy, sy, m0, n + steps + 1) == Some(after + quarters_from(config, sp, sy, ny, nm, n).unwrap()) by {
        let rest = quarters_from(config, sp, sy, ny, nm, n).unwrap();
        assert(quarters_from(config, sp, sy, py, pm, n + 1) is Some);
        if first_working_in_month(py, pm, config) is Some {
            assert(quarters_from(config, sp, sy, py, pm, n + 1) == Some(seq![quarter_at(config, sp, py, pm)] + rest));
            assert(before + (seq![quarter_at(config, sp, py, pm)] + rest) =~= after + rest);
        } else {
            assert(quarters_from(config, sp, sy, py, pm, n + 1) == Some(rest));
        }
    }
}

/// Labels found from a month on start after every working day from the next
/// month of the labelling on.
proof fn lemma_quarter_columns_grow(config: &CalendarConfig, py: int, pm: int)
    requires
        1 <= pm <= 12,
        first_working_in_month(py, pm, config) is Some,
    ensures
        ({
            let (qy, qm) = next_quarter(py, pm);
            ymd_day_number(qy, qm, 1) matches Some(g2) ==> forall|n: int|
                n >= g2 && #[trigger] is_working(n, config.wdpw(), config.off_seq())
                ==> column_of(config, config.spec_date_to_day(n)) > month_column(config, py, pm)
        }),
{
    let (qy, qm) = next_quarter(py, pm);
    let g = ymd_day_number(py, pm, 1).unwrap();
    let f = first_working_in_month(py, pm, config).unwrap();
    lemma_first_working_from(g, 0, days_in_month(py, pm), config.wdpw(), config.off_seq());
    if ymd_day_number(qy, qm, 1) is Some {
        lemma_later_month_start(py, pm, qy, qm);
        let g2 = ymd_day_number(qy, qm, 1).unwrap();
        assert forall|n: int| n >= g2 && #[trigger] is_working(n, config.wdpw(), config.off_seq())
            implies column_of(config, config.spec_date_to_day(n)) > month_column(config, py, pm) by {
            lemma_date_to_day_increasing(config, f, n);
            lemma_columns_before_monotone(first_occurrences(config.off_seq()), config.spec_date_to_day(f),
                config.spec_date_to_day(n), config);
        }
    }
}

/// A month without working days keeps what holds from its first day on.
proof fn lemma_month_after_keeps(config: &CalendarConfig, py: int, pm: int, bound: int)
    requires
        1 <= pm <= 12,
        MIN_YEAR <= py,
        ymd_day_number(py, pm, 1) matches Some(g) ==> forall|n: int|
            n >= g && #[trigger] is_working(n, config.wdpw(), config.off_seq())
            ==> column_of(config, config.spec_date_to_day(n)) > bound,
    ensures
        ymd_day_number(month_after(py, pm).0, month_after(py, pm).1, 1) matches Some(g) ==> forall|n: int|
            n >= g && #[trigger] is_working(n, config.wdpw(), config.off_seq())
            ==> column_of(config, config.spec_date_to_day(n)) > bound,
{
    let (ay, am) = month_after(py, pm);
    if ymd_day_number(ay, am, 1) is Some {
        assert(ymd_day_number(py, pm, 1) is Some);
        lemma_month_after_start(py, pm);
    }
}

/// Every working day from the first of the start month on has a column
/// after -31.
proof fn lemma_start_month_columns(config: &CalendarConfig, g0: int, d0: int)
    requires
        config.start_date@ == g0 + d0 - 1,
        1 <= d0 <= 31,
    ensures
        forall|n: int| n >= g0 && #[trigger] is_working(n, config.wdpw(), config.off_seq())
            ==> column_of(config, config.spec_date_to_day(n)) > -31,
{
    assert forall|n: int| n >= g0 && #[trigger] is_working(n, config.wdpw(), config.off_seq())
        implies column_of(config, config.spec_date_to_day(n)) > -31 by {
        lemma_date_to_day_lower(config, n, d0 - 1);
    }
}

/// The quarter labels of a timeline that starts at `config.start_date` and
/// spans `span_days` working days: from the start month's quarter on, one
/// label per quarter, each from its first working day to the next
/// quarter's; months without working days are passed over (for at most 50
/// years), and the labels end with the first one that would start at or
/// past the span.
#[verifier::rlimit(50)]
pub fn compute_quarter_ranges(config: &CalendarConfig, span_days: Day) -> (r: Vec<QuarterRange>)
    ensures
        exists|y0: int, m0: int, d0: int, n: nat|
            #![trigger ymd_day_number(y0, m0, d0), quarters_from(config, column_of(config, span_days as int), y0, y0, m0, n)]
            ymd_day_number(y0, m0, d0) == Some(config.start_date@)
                && quarters_from(config, column_of(config, span_days as int), y0, y0, m0, n)
                == Some(r@.map_values(|q: QuarterRange| quarter_view(q))),
{
    let off = config.global_off_days();
    let span = day_column(span_days, &off, config);
    let (sy, m0, d0) = config.start_date.ymd();
    let ghost sp = span as int;
    let ghost g0 = ymd_day_number(sy as int, m0 as int, 1).unwrap();
    proof {
        assert(ymd_day_number(sy as int, m0 as int, 1) is Some);
        assert(config.start_date@ == g0 + d0 - 1);
        lemma_start_month_columns(config, g0, d0 as int);
    }
    let mut year: i32 = sy;
    let mut month: u32 = m0;
    let mut ranges: Vec<QuarterRange> = Vec::new();
    let ghost mut last_raw: int = -31;
    let ghost mut steps: nat = 0;
    assert(ranges@.map_values(|q: QuarterRange| quarter_view(q)) + Seq::<(Seq<char>, int, int)>::empty()
        =~= Seq::<(Seq<char>, int, int)>::empty());
    loop
        invariant_except_break
            1 <= month <= 12,
            sy <= year <= MAX_YEAR + 51,
            ymd_day_number(year as int, month as int, 1) matches Some(g) ==> forall|n: int|
                n >= g && #[trigger] is_working(n, config.wdpw(), config.off_seq())
                ==> column_of(config, config.spec_date_to_day(n)) > last_raw,
            forall|n: nat| #![trigger quarters_from(config, sp, sy as int, year as int, month as int, n)]
                quarters_from(config, sp, sy as int, year as int, month as int, n) is Some
                ==> quarters_from(config, sp, sy as int, sy as int, m0 as int, n + steps)
                    == Some(ranges@.map_values(|q: QuarterRange| quarter_view(q))
                        + quarters_from(config, sp, sy as int, year as int, month as int, n).unwrap()),
        invariant
            off@ == first_occurrences(config.off_seq()),
            span == column_of(config, span_days as int),
            sp == span as int,
            ymd_day_number(sy as int, m0 as int, d0 as int) == Some(config.start_date@),
            MIN_YEAR <= sy <= MAX_YEAR,
        ensures
            quarters_from(config, sp, sy as int, sy as int, m0 as int, steps + 1)
                == Some(ranges@.map_values(|q: QuarterRange| quarter_view(q))),
        decreases sp - last_raw, (sy + 52) * 12 - (year * 12 + month),
    {
        let ghost (py, pm) = (year as int, month as int);
        let ghost before = ranges@.map_values(|q: QuarterRange| quarter_view(q));
        match month_start_column(year, month, &off, config) {
            None => {
                let (ny, nm) = next_ym(year, month);
                proof {
                    lemma_month_after_keeps(config, py, pm, last_raw);
                }
                year = ny;
                month = nm;
                if year > sy + 50 {
                    proof {
                        assert(quarters_stop(config, sp, sy as int, py, pm));
                        assert(quarters_from(config, sp, sy as int, py, pm, 1) == Some(Seq::<(Seq<char>, int, int)>::empty()));
                        assert(before + Seq::<(Seq<char>, int, int)>::empty() =~= before);
                    }
                    break;
                }
                proof {
                    lemma_quarters_step(config, sp, sy as int, m0 as int, py, pm, steps, before, before);
                    steps = steps + 1;
                }
            },
            Some(raw) => {
                let x_start: i64 = if raw > 0 { raw } else { 0 };
                if x_start >= span {
                    proof {
                        assert(quarters_stop(config, sp, sy as int, py, pm));
                        assert(quarters_from(config, sp, sy as int, py, pm, 1) == Some(Seq::<(Seq<char>, int, int)>::empty()));
                        assert(before + Seq::<(Seq<char>, int, int)>::empty() =~= before);
                    }
                    break;
                }
                proof {
                    let g = ymd_day_number(py, pm, 1).unwrap();
                    lemma_first_working_from(g, 0, days_in_month(py, pm), config.wdpw(), config.off_seq());
                    lemma_quarter_columns_grow(config, py, pm);
                }
                let quarter: u32 = (month - 1) / 3 + 1;
                let q_end_month: u32 = quarter * 3 + 1;
                let (q_end_year, q_end_mon): (i32, u32) = if q_end_month > 12 { (year + 1, 1) } else { (year, q_end_month) };
                let x_end: i64 = match month_start_column(q_end_year, q_end_mon, &off, config) {
                    Some(c) => if c < span { c } else { span },
                    None => span,
                };
                let label = quarter_label(quarter, year);
                let item = QuarterRange { label, start_column: x_start, end_column: x_end };
                assert(quarter_view(item) == quarter_at(config, sp, py, pm));
                ranges.push(item);
                proof {
                    assert(ranges@.map_values(|q: QuarterRange| quarter_view(q)) =~= before.push(quarter_view(item)));
                    lemma_quarters_step(config, sp, sy as int, m0 as int, py, pm, steps,
                        before, ranges@.map_values(|q: QuarterRange| quarter_view(q)));
                    steps = steps + 1;
                    last_raw = raw as int;
                }
                year = q_end_year;
                month = q_end_mon;
            },
        }
    }
    ranges
}


// ── day ruler ───────────────────────────────────────────────────────────────

/// `text` is the label of timeline day `day` (see `format_day_label`).
pub open spec fn is_day_label(config: &CalendarConfig, day: int, month_only: bool, text: Seq<char>) -> bool {
    exists|n: int, y: int, m: int, d: int|
        #![trigger config.is_date_of_day(day, n), ymd_day_number(y, m, d)]
        config.is_date_of_day(day, n) && ymd_day_number(y, m, d) == Some(n)
            && text == day_label_text(m, y, d, month_only)
}

/// One mark of the day ruler: a timeline day, its column (holiday columns
/// counted), its label, and whether it lies before today.
#[derive(Debug)]
pub struct DayLabelEntry {
    pub day: Day,
    pub column: i32,
    pub label: String,
    pub past: bool,
}

/// The day ruler of a timeline spanning `total_duration_days`: every
/// `step`-th day from 0 through one step past the span, each at its column
/// laid out against the calendar's holidays, labelled as `format_day_label`
/// does ("Jun 2025" when `month_only`), and past when before `today_day`.
pub fn day_label_entries(
    config: &CalendarConfig,
    total_duration_days: Day,
    step: i32,
    month_only: bool,
    today_day: Day,
) -> (r: Vec<DayLabelEntry>)
    requires
        step >= 1,
        total_duration_days + step <= i32::MAX,
        total_duration_days + step > 0 ==> config.working_days_per_week >= 1,
        total_duration_days + step >= 0 ==> config.day_steps_in_range(total_duration_days + step),
    ensures
        ({
            let span = total_duration_days + step;
            r@.len() == if span >= 0 { span / (step as int) + 1 } else { 0 }
        }),
        forall|k: int| 0 <= k < r@.len() ==> {
            let day = k * step;
            &&& (#[trigger] r@[k]).day == day
            &&& r@[k].column == day + columns_before(first_occurrences(config.off_seq()), day, config)
            &&& is_day_label(config, day, month_only, r@[k].label@)
            &&& r@[k].past == (day < today_day)
        },
{
    let span: i64 = total_duration_days as i64 + step as i64;
    let off = config.global_off_days();
    let n_off = off.len();
    let mut out: Vec<DayLabelEntry> = Vec::new();
    let mut day: i64 = 0;
    let _ = config.start_date.day_number();
    assert(out@.len() * step == 0);
    while day <= span
        invariant
            in_date_range(config.start_date@),
            step >= 1,
            span == total_duration_days + step,
            span > 0 ==> config.working_days_per_week >= 1,
            span >= 0 ==> config.day_steps_in_range(span as int),
            off@ == first_occurrences(config.off_seq()),
            n_off == off@.len(),
            n_off <= crate::date::MAX_DAY_NUMBER - crate::date::MIN_DAY_NUMBER + 1,
            0 <= day,
            day == out@.len() * step,
            out@.len() > 0 ==> day <= span + step,
            forall|k: int| 0 <= k < out@.len() ==> {
                let d = k * step;
                &&& (#[trigger] out@[k]).day == d
                &&& out@[k].column == d + columns_before(first_occurrences(config.off_seq()), d, config)
                &&& is_day_label(config, d, month_only, out@[k].label@)
                &&& out@[k].past == (d < today_day)
            },
        decreases span + step - day,
    {
        proof {
            lemma_days_up_to_span_in_range(config, span as int, day as int);
        }
        let d = day as i32;
        proof {
            lemma_columns_before_le_len(off@, d as int, config);
        }
        let column = day_to_column(d, &off, config);
        let label = format_day_label(d, month_only, config);
        let ghost k = out@.len() as int;
        out.push(DayLabelEntry { day: d, column, label, past: d < today_day });
        proof {
            assert((k + 1) * step == k * step + step) by (nonlinear_arith);
        }
        day = day + step as i64;
    }
    proof {
        let k = out@.len() as int;
        if span >= 0 {
            assert(k == (span as int) / (step as int) + 1) by (nonlinear_arith)
                requires
                    step >= 1,
                    span >= 0,
                    k * step > span,
                    k > 0 ==> k * step <= span + step,
            {
                assert(k >= 1);
                let q = (span as int) / (step as int);
                assert(q * step <= span < q * step + step);
            }
        } else {
            assert(k == 0) by (nonlinear_arith)
                requires
                    step >= 1,
                    k >= 0,
                    span < 0,
                    k > 0 ==> k * step <= span + step,
            {}
        }
    }
    out
}

} // verus!
