//! Where blocks and days off fall on the timeline grid. Positions are grid
//! columns: one per working day, plus one inserted before the working day
//! that follows each non-working date of the set laid out against.

use vstd::prelude::*;
use crate::calendar::{columns_before, date_to_day, day_to_column, first_occurrences, lemma_first_occurrences_push, DateSet};
use crate::date::Date;
use crate::text::{chars_of, push_char, string_of};
use crate::model::{
    first_main, lemma_scope_index, names_view, resource_named, scope_index, scope_names, CalendarConfig, Model,
    NonWorkingDate, Plan, ResourceBlock, WorkBlock, WorkBlockId,
};

verus! {

// ── per-row days off ────────────────────────────────────────────────────────

/// The day numbers a resource takes off, in list order.
pub open spec fn resource_off_seq(rb: ResourceBlock) -> Seq<int> {
    rb.non_working_dates@.map_values(|n: NonWorkingDate| n.date@)
}

/// The main plan's top-level row names (none without a main plan).
pub open spec fn main_row_names(model: Model) -> Seq<Seq<char>> {
    match first_main(model.plans@) {
        Some(p) => scope_names(model.plans@[p].row_names@, None),
        None => Seq::empty(),
    }
}

/// The resource a row named `name` stands for, when that resource has days
/// off of its own.
pub open spec fn resource_with_offs(model: Model, name: Seq<char>) -> Option<int> {
    if name.len() == 0 {
        None
    } else {
        match resource_named(model.resource_blocks@, name) {
            Some(i) => if model.resource_blocks@[i].non_working_dates@.len() > 0 { Some(i) } else { None },
            None => None,
        }
    }
}

/// The rows among the first `upto` of `names` whose resource has days off,
/// ascending.
pub open spec fn rows_with_offs(model: Model, names: Seq<Seq<char>>, upto: int) -> Seq<int>
    decreases upto,
{
    if upto <= 0 {
        Seq::empty()
    } else {
        let before = rows_with_offs(model, names, upto - 1);
        if resource_with_offs(model, names[upto - 1]) is Some {
            before.push(upto - 1)
        } else {
            before
        }
    }
}

/// The days off laid out on a row: the calendar's holidays, then the row's
/// resource's days off, each date once.
pub open spec fn row_off_days(model: Model, row: int) -> Seq<int> {
    let i = resource_with_offs(model, main_row_names(model)[row]).unwrap();
    first_occurrences(model.calendar.off_seq() + resource_off_seq(model.resource_blocks@[i]))
}

/// Position of the entry holding `plan`'s top-level row names.
fn top_level_names(plan: &Plan) -> (r: Option<usize>)
    ensures
        match r {
            Some(k) => k < plan.row_names@.len()
                && scope_names(plan.row_names@, None) == names_view(plan.row_names@[k as int].names@),
            None => scope_names(plan.row_names@, None) == Seq::<Seq<char>>::empty(),
        },
{
    proof {
        lemma_scope_index(plan.row_names@, None);
    }
    let mut i: usize = 0;
    while i < plan.row_names.len()
        invariant
            i <= plan.row_names@.len(),
            forall|j: int| 0 <= j < i ==> plan.row_names@[j].scope != None::<WorkBlockId>,
            match scope_index(plan.row_names@, None) {
                Some(x) => 0 <= x < plan.row_names@.len() && plan.row_names@[x].scope == None::<WorkBlockId>
                    && forall|j: int| 0 <= j < x ==> plan.row_names@[j].scope != None::<WorkBlockId>,
                None => forall|j: int| 0 <= j < plan.row_names@.len() ==> plan.row_names@[j].scope != None::<WorkBlockId>,
            },
            match scope_index(plan.row_names@, None) {
                Some(x) => scope_names(plan.row_names@, None) == names_view(plan.row_names@[x].names@),
                None => scope_names(plan.row_names@, None) == Seq::<Seq<char>>::empty(),
            },
        decreases plan.row_names.len() - i,
    {
        if plan.row_names[i].scope.is_none() {
            return Some(i);
        }
        i += 1;
    }
    None
}

/// The calendar's holidays with the days off of `rb` added, each date once.
fn holidays_with(config: &CalendarConfig, rb: &ResourceBlock) -> (r: DateSet)
    ensures
        r@ == first_occurrences(config.off_seq() + resource_off_seq(*rb)),
{
    let mut offs = config.global_off_days();
    let ghost res = resource_off_seq(*rb);
    let mut j: usize = 0;
    assert(config.off_seq() + res.take(0) =~= config.off_seq());
    while j < rb.non_working_dates.len()
        invariant
            j <= rb.non_working_dates@.len(),
            res == resource_off_seq(*rb),
            offs@ == first_occurrences(config.off_seq() + res.take(j as int)),
        decreases rb.non_working_dates.len() - j,
    {
        let d = rb.non_working_dates[j].date;
        proof {
            lemma_first_occurrences_push(config.off_seq() + res.take(j as int), d@);
            assert(config.off_seq() + res.take(j + 1) =~= (config.off_seq() + res.take(j as int)).push(d@));
        }
        offs.insert(d);
        j += 1;
    }
    assert(res.take(j as int) =~= res);
    offs
}

/// The days off of each row of the main plan's top level that names a
/// resource with days off of its own: the calendar's holidays together with
/// the resource's, by row, ascending. Returns the calendar's holidays too,
/// the set every other row is laid out against.
pub fn compute_row_offs(model: &Model) -> (r: (DateSet, Vec<(i32, DateSet)>))
    requires
        main_row_names(*model).len() <= i32::MAX,
    ensures
        r.0@ == first_occurrences(model.calendar.off_seq()),
        ({
            let rows = rows_with_offs(*model, main_row_names(*model), main_row_names(*model).len() as int);
            &&& r.1@.len() == rows.len()
            &&& forall|k: int| 0 <= k < rows.len() ==> {
                &&& (#[trigger] r.1@[k]).0 == rows[k]
                &&& r.1@[k].1@ == row_off_days(*model, rows[k])
            }
        }),
{
    let global = model.calendar.global_off_days();
    let mut out: Vec<(i32, DateSet)> = Vec::new();
    let p = match model.main_plan_position() {
        Some(p) => p,
        None => {
            assert(main_row_names(*model) =~= Seq::<Seq<char>>::empty());
            return (global, out);
        },
    };
    let plan = &model.plans[p];
    let k = match top_level_names(plan) {
        Some(k) => k,
        None => {
            assert(main_row_names(*model) =~= Seq::<Seq<char>>::empty());
            return (global, out);
        },
    };
    let names = &plan.row_names[k].names;
    let ghost all = main_row_names(*model);
    assert(all == names_view(names@));
    let mut idx: usize = 0;
    while idx < names.len()
        invariant
            idx <= names@.len(),
            all == names_view(names@),
            all == main_row_names(*model),
            all.len() <= i32::MAX,
            out@.len() == rows_with_offs(*model, all, idx as int).len(),
            forall|q: int| 0 <= q < out@.len() ==> {
                &&& (#[trigger] out@[q]).0 == rows_with_offs(*model, all, idx as int)[q]
                &&& out@[q].1@ == row_off_days(*model, rows_with_offs(*model, all, idx as int)[q])
            },
        decreases names.len() - idx,
    {
        let name = names[idx].as_str();
        assert(name@ == all[idx as int]);
        let ghost before = rows_with_offs(*model, all, idx as int);
        assert(rows_with_offs(*model, all, idx + 1) == if resource_with_offs(*model, all[idx as int]) is Some {
            before.push(idx as int)
        } else {
            before
        });
        if !name.is_empty() {
            match model.resource_by_name(name) {
                Some(rb) => {
                    if rb.non_working_dates.len() > 0 {
                        let offs = holidays_with(&model.calendar, rb);
                        let ghost prev = out@;
                        out.push((idx as i32, offs));
                        assert forall|q: int| 0 <= q < out@.len() implies {
                            &&& (#[trigger] out@[q]).0 == rows_with_offs(*model, all, idx + 1)[q]
                            &&& out@[q].1@ == row_off_days(*model, rows_with_offs(*model, all, idx + 1)[q])
                        } by {
                            if q < prev.len() {
                                assert(out@[q] == prev[q]);
                            }
                        }
                    }
                },
                None => {},
            }
        }
        idx += 1;
    }
    (global, out)
}

// ── block bars ──────────────────────────────────────────────────────────────

/// The left and right columns of a block bar laid out against
/// `non_working`: from its start day to `start + duration` working days, any
/// inserted columns it crosses widening it; never narrower than nothing.
pub fn block_edge_columns(wb: &WorkBlock, non_working: &DateSet, config: &CalendarConfig) -> (r: (i32, i32))
    requires
        i32::MIN <= wb.start_day + wb.duration_days <= i32::MAX,
        wb.start_day + columns_before(non_working@, wb.start_day as int, config) <= i32::MAX,
        wb.start_day + wb.duration_days
            + columns_before(non_working@, wb.start_day + wb.duration_days, config) <= i32::MAX,
    ensures
        ({
            let left = wb.start_day + columns_before(non_working@, wb.start_day as int, config);
            let end = wb.start_day + wb.duration_days;
            let right = end + columns_before(non_working@, end, config);
            r == (left as i32, if right >= left { right as i32 } else { left as i32 })
        }),
{
    let left = day_to_column(wb.start_day, non_working, config);
    let right = day_to_column(wb.start_day + wb.duration_days, non_working, config);
    (left, if right >= left { right } else { left })
}

/// The left column and the width in columns of a block bar laid out against
/// `non_working`.
pub fn block_span_columns(wb: &WorkBlock, non_working: &DateSet, config: &CalendarConfig) -> (r: (i32, i32))
    requires
        i32::MIN <= wb.start_day + wb.duration_days <= i32::MAX,
        wb.start_day + columns_before(non_working@, wb.start_day as int, config) <= i32::MAX,
        wb.start_day + wb.duration_days
            + columns_before(non_working@, wb.start_day + wb.duration_days, config) <= i32::MAX,
        wb.start_day + wb.duration_days + columns_before(non_working@, wb.start_day + wb.duration_days, config)
            - (wb.start_day + columns_before(non_working@, wb.start_day as int, config)) <= i32::MAX,
    ensures
        ({
            let left = wb.start_day + columns_before(non_working@, wb.start_day as int, config);
            let end = wb.start_day + wb.duration_days;
            let right = end + columns_before(non_working@, end, config);
            r == (left as i32, if right >= left { (right - left) as i32 } else { 0i32 })
        }),
{
    let (l, r) = block_edge_columns(wb, non_working, config);
    (l, r - l)
}

/// The column of the grey mark for day off `date` on a row laid out against
/// `row_offs`: the column just before the working day that follows it.
pub fn resource_offday_column(date: Date, row_offs: &DateSet, config: &CalendarConfig) -> (r: i32)
    requires
        config.spec_date_to_day(date@) < i32::MAX,
        config.spec_date_to_day(date@) + 1
            + columns_before(row_offs@, config.spec_date_to_day(date@) + 1, config) <= i32::MAX,
    ensures
        ({
            let next = config.spec_date_to_day(date@) + 1;
            r == next + columns_before(row_offs@, next, config) - 1
        }),
{
    let boundary = date_to_day(date, config) + 1;
    day_to_column(boundary, row_offs, config) - 1
}


// ── block labels ────────────────────────────────────────────────────────────

/// A block label that holds at most `max_chars` characters: the whole name
/// when it fits, else its first `max_chars - 1` characters and "…" (only
/// "…" when one character fits); none when not even one does.
pub fn fit_label_chars(full_name: &str, max_chars: i64) -> (r: Option<String>)
    ensures
        max_chars < 1 ==> r is None,
        max_chars >= 1 && full_name@.len() <= max_chars ==> (r matches Some(s) && s@ == full_name@),
        max_chars >= 1 && full_name@.len() > max_chars ==> (r matches Some(s)
            && s@ == full_name@.take(max_chars - 1) + seq!['\u{2026}']),
{
    if max_chars < 1 {
        return None;
    }
    let cs = chars_of(full_name);
    if (cs.len() as u64) <= (max_chars as u64) {
        return Some(string_of(cs.as_slice()));
    }
    let keep = (max_chars - 1) as usize;
    let mut out = String::new();
    let mut i: usize = 0;
    while i < keep
        invariant
            keep < cs@.len(),
            cs@ == full_name@,
            i <= keep,
            out@ == full_name@.take(i as int),
        decreases keep - i,
    {
        push_char(&mut out, cs[i]);
        assert(full_name@.take(i + 1) =~= full_name@.take(i as int).push(cs@[i as int]));
        i += 1;
    }
    push_char(&mut out, '\u{2026}');
    Some(out)
}

} // verus!
