//! A plan as CSV: exporting its blocks in parent-before-child order, and
//! clearing a plan before an import replaces it.

use vstd::prelude::*;
use crate::calendar::{date_to_day, day_convertible, day_to_date, is_working, lemma_date_to_day_of_day_to_date, lemma_nth_working_date_unique};
use crate::csv::{CsvRow, after_first_line, check_record, row_matches, csv_row, first_line_end, lemma_parse_records_of_rows_text, parse_records_spec, record_errors, row_text, rows_text, HEADER, HEADER_FIELDS};
use crate::date::iso_date_text;
use crate::model::{block_index, has_default_details, lemma_block_index, lemma_plan_index_same_ids, plan_index, row_entry, CalendarConfig, Dependency, Model, Plan, PlanId, WorkBlock, WorkBlockId};
use crate::date::parse_iso_date_text;
use crate::text::{decimal_text, i64_text, lemma_decimal_reads_back, lemma_signed_decimal_reads_back, push_text, signed_decimal_text, trim_spec, u64_text};

verus! {

/// The start day of block `id` (0 when it is missing).
pub open spec fn start_of(blocks: Seq<WorkBlock>, id: WorkBlockId) -> int {
    match block_index(blocks, id) {
        Some(i) => blocks[i].start_day as int,
        None => 0,
    }
}

/// Block `a` sorts strictly before block `b`: earlier start, or the same
/// start and a smaller id.
pub open spec fn sorts_before(blocks: Seq<WorkBlock>, a: WorkBlockId, b: WorkBlockId) -> bool {
    start_of(blocks, a) < start_of(blocks, b) || (start_of(blocks, a) == start_of(blocks, b) && a.0 < b.0)
}

/// `x` inserted into `s` before the first entry it sorts before.
pub open spec fn insert_sorted(blocks: Seq<WorkBlock>, x: WorkBlockId, s: Seq<WorkBlockId>) -> Seq<WorkBlockId>
    decreases s.len(),
{
    if s.len() == 0 {
        seq![x]
    } else if sorts_before(blocks, x, s[0]) {
        seq![x] + s
    } else {
        seq![s[0]] + insert_sorted(blocks, x, s.skip(1))
    }
}

/// `s` sorted by start day then id, equal entries keeping their order.
pub open spec fn sort_ids(blocks: Seq<WorkBlock>, s: Seq<WorkBlockId>) -> Seq<WorkBlockId>
    decreases s.len(),
{
    if s.len() == 0 {
        Seq::empty()
    } else {
        insert_sorted(blocks, s.last(), sort_ids(blocks, s.drop_last()))
    }
}

/// The children of `id`, sorted by start day then id.
pub open spec fn sorted_children(blocks: Seq<WorkBlock>, id: WorkBlockId) -> Seq<WorkBlockId> {
    sort_ids(blocks, blocks.filter(|b: WorkBlock| b.parent == Some(id)).map_values(|b: WorkBlock| b.id))
}

/// Block `id` followed by its descendants in pre-order, descending at most
/// `budget` levels.
pub open spec fn subtree(blocks: Seq<WorkBlock>, id: WorkBlockId, budget: nat) -> Seq<WorkBlockId>
    decreases budget, 0nat,
{
    if budget == 0 {
        seq![id]
    } else {
        seq![id] + forest(blocks, sorted_children(blocks, id), (budget - 1) as nat)
    }
}

/// The subtrees of `ids`, one after the other.
pub open spec fn forest(blocks: Seq<WorkBlock>, ids: Seq<WorkBlockId>, budget: nat) -> Seq<WorkBlockId>
    decreases budget, ids.len(),
{
    if ids.len() == 0 {
        Seq::empty()
    } else {
        forest(blocks, ids.drop_last(), budget) + subtree(blocks, ids.last(), budget)
    }
}

/// Position at which `x` goes into the sorted `s`.
proof fn lemma_insert_sorted_at(blocks: Seq<WorkBlock>, x: WorkBlockId, s: Seq<WorkBlockId>, p: int)
    requires
        0 <= p <= s.len(),
        forall|j: int| 0 <= j < p ==> !sorts_before(blocks, x, #[trigger] s[j]),
        p < s.len() ==> sorts_before(blocks, x, s[p]),
    ensures
        insert_sorted(blocks, x, s) == s.take(p) + seq![x] + s.skip(p),
    decreases s.len(),
{
    if s.len() == 0 {
        assert(s.take(p) + seq![x] + s.skip(p) =~= seq![x]);
    } else if p == 0 {
        assert(s.take(0) + seq![x] + s.skip(0) =~= seq![x] + s);
    } else {
        assert forall|j: int| 0 <= j < p - 1 implies !sorts_before(blocks, x, #[trigger] s.skip(1)[j]) by {
            assert(s.skip(1)[j] == s[j + 1]);
        }
        lemma_insert_sorted_at(blocks, x, s.skip(1), p - 1);
        assert(s.take(p) + seq![x] + s.skip(p) =~= seq![s[0]] + (s.skip(1).take(p - 1) + seq![x] + s.skip(1).skip(p - 1)));
    }
}

/// The start day of block `id` (0 when it is missing).
fn block_start(model: &Model, id: WorkBlockId) -> (r: i32)
    ensures
        r == start_of(model.work_blocks@, id),
{
    match model.block_position(id) {
        Some(i) => model.work_blocks[i].start_day,
        None => 0,
    }
}

/// The children of `id`, sorted by start day then id.
fn children_sorted(model: &Model, id: WorkBlockId) -> (r: Vec<WorkBlockId>)
    ensures
        r@ == sorted_children(model.work_blocks@, id),
{
    let kids = model.children(id);
    let ghost blocks = model.work_blocks@;
    let mut out: Vec<WorkBlockId> = Vec::new();
    let mut i: usize = 0;
    while i < kids.len()
        invariant
            i <= kids@.len(),
            blocks == model.work_blocks@,
            out@ == sort_ids(blocks, kids@.take(i as int)),
        decreases kids.len() - i,
    {
        let x = kids[i];
        let sx = block_start(model, x);
        let mut p: usize = 0;
        while p < out.len() && !(sx < block_start(model, out[p]) || (sx == block_start(model, out[p]) && x.0 < out[p].0))
            invariant
                p <= out@.len(),
                blocks == model.work_blocks@,
                sx == start_of(blocks, x),
                forall|j: int| 0 <= j < p ==> !sorts_before(blocks, x, #[trigger] out@[j]),
            decreases out.len() - p,
        {
            p += 1;
        }
        proof {
            lemma_insert_sorted_at(blocks, x, out@, p as int);
            assert(kids@.take(i + 1).drop_last() =~= kids@.take(i as int));
            assert(kids@.take(i + 1).last() == x);
        }
        out.insert(p, x);
        assert(out@ =~= sort_ids(blocks, kids@.take(i + 1)));
        i += 1;
    }
    assert(kids@.take(i as int) =~= kids@);
    out
}

fn push_subtree(model: &Model, id: WorkBlockId, budget: usize, out: &mut Vec<WorkBlockId>)
    ensures
        final(out)@ == old(out)@ + subtree(model.work_blocks@, id, budget as nat),
    decreases budget, 0nat,
{
    out.push(id);
    if budget > 0 {
        let kids = children_sorted(model, id);
        let ghost mid = out@;
        push_forest(model, &kids, budget - 1, out);
        assert(out@ =~= old(out)@ + subtree(model.work_blocks@, id, budget as nat));
    }
}

fn push_forest(model: &Model, ids: &Vec<WorkBlockId>, budget: usize, out: &mut Vec<WorkBlockId>)
    ensures
        final(out)@ == old(out)@ + forest(model.work_blocks@, ids@, budget as nat),
    decreases budget, ids@.len(),
{
    let mut i: usize = 0;
    assert(ids@.take(0) =~= Seq::<WorkBlockId>::empty());
    while i < ids.len()
        invariant
            i <= ids@.len(),
            out@ == old(out)@ + forest(model.work_blocks@, ids@.take(i as int), budget as nat),
        decreases ids.len() - i,
    {
        let ghost before = out@;
        push_subtree(model, ids[i], budget, out);
        assert(ids@.take(i + 1).drop_last() =~= ids@.take(i as int));
        assert(out@ =~= old(out)@ + forest(model.work_blocks@, ids@.take(i + 1), budget as nat));
        i += 1;
    }
    assert(ids@.take(i as int) =~= ids@);
}

/// The blocks reachable from `plan`'s top-level blocks, each parent before
/// its children, children sorted by start day then id (descending at most
/// as many levels as the model has blocks).
pub fn blocks_preorder(plan: &Plan, model: &Model) -> (r: Vec<WorkBlockId>)
    ensures
        r@ == forest(model.work_blocks@, plan.root_blocks@, model.work_blocks@.len()),
{
    let mut out: Vec<WorkBlockId> = Vec::new();
    push_forest(model, &plan.root_blocks, model.work_blocks.len(), &mut out);
    assert(out@ =~= forest(model.work_blocks@, plan.root_blocks@, model.work_blocks@.len()));
    out
}

// ── export ──────────────────────────────────────────────────────────────────

/// The date (day number) `day` working days from the calendar's start.
pub open spec fn date_of_day(config: &CalendarConfig, day: int) -> int {
    choose|n: int| config.is_date_of_day(day, n)
}

/// The `parent_id` column: the parent's id, or empty for a top-level block.
pub open spec fn parent_text(p: Option<WorkBlockId>) -> Seq<char> {
    match p {
        Some(x) => decimal_text(x.0 as nat),
        None => Seq::empty(),
    }
}

/// The exported fields of block `b` of `plan`: id, name, parent id, start
/// date, duration, row and row name.
pub open spec fn export_fields(plan: &Plan, model: &Model, b: WorkBlock) -> Seq<Seq<char>> {
    let row = plan.spec_row_of(b.id);
    seq![
        decimal_text(b.id.0 as nat),
        b.name@,
        parent_text(b.parent),
        iso_date_text(date_of_day(&model.calendar, b.start_day as int)),
        signed_decimal_text(b.duration_days as int),
        signed_decimal_text(row as int),
        match plan.spec_row_name(None, row as int) {
            Some(s) => s,
            None => Seq::empty(),
        },
    ]
}

/// The exported rows for `ids`, skipping ids with no block.
pub open spec fn export_rows(plan: &Plan, model: &Model, ids: Seq<WorkBlockId>) -> Seq<Seq<Seq<char>>>
    decreases ids.len(),
{
    if ids.len() == 0 {
        Seq::empty()
    } else {
        export_rows(plan, model, ids.drop_last()) + match block_index(model.work_blocks@, ids.last()) {
            Some(i) => seq![export_fields(plan, model, model.work_blocks@[i])],
            None => Seq::empty(),
        }
    }
}

/// The blocks exported for `ids`: those that exist, in order.
pub open spec fn exported_blocks(model: &Model, ids: Seq<WorkBlockId>) -> Seq<WorkBlock>
    decreases ids.len(),
{
    if ids.len() == 0 {
        Seq::empty()
    } else {
        exported_blocks(model, ids.drop_last()) + match block_index(model.work_blocks@, ids.last()) {
            Some(i) => seq![model.work_blocks@[i]],
            None => Seq::empty(),
        }
    }
}

/// What the record of exported block `b` reads back as: its id, parent id,
/// start date, duration and row.
pub open spec fn record_of(plan: &Plan, model: &Model, b: WorkBlock) -> (u64, Option<u64>, int, i32, i32) {
    (
        b.id.0,
        match b.parent {
            Some(p) => Some(p.0),
            None => None,
        },
        date_of_day(&model.calendar, b.start_day as int),
        b.duration_days,
        plan.spec_row_of(b.id),
    )
}

/// Block `b` of `plan` is one the import takes back: it has a name, lasts
/// at least a day and sits on a row that is not negative.
pub open spec fn reads_back(plan: &Plan, b: WorkBlock) -> bool {
    b.name@.len() > 0 && b.duration_days >= 1 && plan.spec_row_of(b.id) >= 0
}

proof fn lemma_export_rows_map(plan: &Plan, model: &Model, ids: Seq<WorkBlockId>)
    ensures
        export_rows(plan, model, ids) == exported_blocks(model, ids).map_values(|b: WorkBlock| export_fields(plan, model, b)),
    decreases ids.len(),
{
    if ids.len() > 0 {
        lemma_export_rows_map(plan, model, ids.drop_last());
        let prev = exported_blocks(model, ids.drop_last());
        match block_index(model.work_blocks@, ids.last()) {
            Some(i) => {
                assert((prev + seq![model.work_blocks@[i]]).map_values(|b: WorkBlock| export_fields(plan, model, b))
                    =~= prev.map_values(|b: WorkBlock| export_fields(plan, model, b)) + seq![export_fields(plan, model, model.work_blocks@[i])]);
            },
            None => {
                assert(prev + Seq::<WorkBlock>::empty() =~= prev);
                assert(export_rows(plan, model, ids.drop_last()) + Seq::<Seq<Seq<char>>>::empty() =~= export_rows(plan, model, ids.drop_last()));
            },
        }
    } else {
        assert(exported_blocks(model, ids).map_values(|b: WorkBlock| export_fields(plan, model, b)) =~= Seq::<Seq<Seq<char>>>::empty());
    }
}

/// The record of a block the import takes back checks out as the block.
proof fn lemma_record_reads_back(plan: &Plan, model: &Model, b: WorkBlock, line: nat)
    requires
        reads_back(plan, b),
        parse_iso_date_text(iso_date_text(date_of_day(&model.calendar, b.start_day as int)))
            == Some(date_of_day(&model.calendar, b.start_day as int)),
    ensures
        check_record(export_fields(plan, model, b), line) == Ok::<(u64, Option<u64>, int, i32, i32), Seq<char>>(record_of(plan, model, b)),
{
    let f = export_fields(plan, model, b);
    lemma_decimal_reads_back(b.id.0);
    lemma_signed_decimal_reads_back(b.duration_days);
    lemma_signed_decimal_reads_back(plan.spec_row_of(b.id));
    match b.parent {
        Some(p) => {
            lemma_decimal_reads_back(p.0);
            lemma_decimal_text_len(p.0 as nat);
        },
        None => {},
    }
}

proof fn lemma_decimal_text_len(n: nat)
    ensures
        decimal_text(n).len() >= 1,
    decreases n,
{
    if n >= 10 {
        lemma_decimal_text_len(n / 10);
    }
}

/// No record errors when every record checks out.
proof fn lemma_no_record_errors(recs: Seq<Seq<Seq<char>>>, line: nat)
    requires
        forall|k: int| 0 <= k < recs.len() ==> #[trigger] check_record(recs[k], (line + k) as nat) is Ok,
    ensures
        record_errors(recs, line).len() == 0,
    decreases recs.len(),
{
    if recs.len() > 0 {
        assert(check_record(recs[0], (line + 0) as nat) is Ok);
        assert forall|k: int| 0 <= k < recs.skip(1).len() implies #[trigger] check_record(recs.skip(1)[k], (line + 1 + k) as nat) is Ok by {
            assert(recs.skip(1)[k] == recs[k + 1]);
            assert(check_record(recs[k + 1], (line + (k + 1)) as nat) is Ok);
        }
        lemma_no_record_errors(recs.skip(1), line + 1);
    }
}

/// Day `d` of the calendar can be turned into a date.
pub open spec fn start_convertible(config: &CalendarConfig, d: int) -> bool {
    &&& (d != 0 ==> config.working_days_per_week >= 1)
    &&& config.day_steps_in_range(d)
}

/// Every block among `ids` that the model holds starts on a day that can be
/// turned into a date.
pub open spec fn ids_convertible(model: &Model, ids: Seq<WorkBlockId>) -> bool {
    forall|k: int| 0 <= k < ids.len() ==> match #[trigger] block_index(model.work_blocks@, ids[k]) {
        Some(i) => start_convertible(&model.calendar, model.work_blocks@[i].start_day as int),
        None => true,
    }
}

/// Every block that exporting `plan` writes out starts on a day that can be
/// turned into a date.
pub open spec fn starts_convertible(plan: &Plan, model: &Model) -> bool {
    ids_convertible(model, forest(model.work_blocks@, plan.root_blocks@, model.work_blocks@.len()))
}

/// Whether every block that exporting `plan` writes out starts on a day
/// that can be turned into a date, as exporting needs.
pub fn starts_are_convertible(plan: &Plan, model: &Model) -> (r: bool)
    ensures
        r == starts_convertible(plan, model),
{
    let ids = blocks_preorder(plan, model);
    let mut k: usize = 0;
    while k < ids.len()
        invariant
            k <= ids@.len(),
            ids@ == forest(model.work_blocks@, plan.root_blocks@, model.work_blocks@.len()),
            ids_convertible(model, ids@.take(k as int)),
        decreases ids.len() - k,
    {
        proof {
            lemma_block_index(model.work_blocks@, ids@[k as int]);
        }
        match model.block_position(ids[k]) {
            Some(i) => {
                if !day_convertible(&model.calendar, model.work_blocks[i].start_day) {
                    proof {
                        assert(block_index(model.work_blocks@, ids@[k as int]) == Some(i as int));
                    }
                    return false;
                }
            },
            None => {},
        }
        proof {
            assert forall|j: int| 0 <= j < k + 1 implies match #[trigger] block_index(model.work_blocks@, ids@.take(k + 1)[j]) {
                Some(i) => start_convertible(&model.calendar, model.work_blocks@[i].start_day as int),
                None => true,
            } by {
                if j < k {
                    assert(ids@.take(k + 1)[j] == ids@.take(k as int)[j]);
                }
            }
        }
        k += 1;
    }
    assert(ids@.take(k as int) =~= ids@);
    true
}

proof fn lemma_rows_text_push(rs: Seq<Seq<Seq<char>>>, r: Seq<Seq<char>>)
    ensures
        rows_text(rs.push(r)) == rows_text(rs) + row_text(r),
    decreases rs.len(),
{
    if rs.len() == 0 {
        assert(rs.push(r).skip(1) =~= Seq::<Seq<Seq<char>>>::empty());
        assert(rows_text(rs.push(r)) =~= row_text(r) + rows_text(Seq::<Seq<Seq<char>>>::empty()));
        assert(rows_text(rs.push(r)) =~= rows_text(rs) + row_text(r));
    } else {
        assert(rs.push(r).skip(1) =~= rs.skip(1).push(r));
        assert(rs.push(r)[0] == rs[0]);
        lemma_rows_text_push(rs.skip(1), r);
        assert(rows_text(rs.push(r)) =~= rows_text(rs) + row_text(r));
    }
}

/// The CSV text of `plan`: the header, then one row per block in parent-
/// before-child order (see `blocks_preorder`): id, name, parent id (empty
/// for top-level blocks), start date (YYYY-MM-DD), duration, row, row name.
pub fn plan_to_csv(plan: &Plan, model: &Model) -> (r: String)
    requires
        starts_convertible(plan, model),
    ensures
        r@ == HEADER@ + rows_text(export_rows(plan, model, forest(model.work_blocks@, plan.root_blocks@, model.work_blocks@.len()))),
        ({
            let bs = exported_blocks(model, forest(model.work_blocks@, plan.root_blocks@, model.work_blocks@.len()));
            let recs = parse_records_spec(after_first_line(r@));
            &&& trim_spec(r@.take(first_line_end(r@))) == HEADER_FIELDS@
            &&& recs.len() == bs.len()
            &&& forall|k: int| 0 <= k < bs.len() && reads_back(plan, #[trigger] bs[k])
                ==> check_record(recs[k], (k + 2) as nat) == Ok::<(u64, Option<u64>, int, i32, i32), Seq<char>>(record_of(plan, model, bs[k]))
            &&& (forall|k: int| 0 <= k < bs.len() ==> reads_back(plan, #[trigger] bs[k])) ==> record_errors(recs, 2).len() == 0
        }),
{
    let ids = blocks_preorder(plan, model);
    let mut out = String::new();
    push_text(&mut out, HEADER);
    let mut k: usize = 0;
    assert(ids@.take(0) =~= Seq::<WorkBlockId>::empty());
    while k < ids.len()
        invariant
            k <= ids@.len(),
            ids_convertible(model, ids@),
            out@ == HEADER@ + rows_text(export_rows(plan, model, ids@.take(k as int))),
            forall|j: int| 0 <= j < exported_blocks(model, ids@.take(k as int)).len() ==> {
                let n = date_of_day(&model.calendar, (#[trigger] exported_blocks(model, ids@.take(k as int))[j]).start_day as int);
                parse_iso_date_text(iso_date_text(n)) == Some(n)
            },
        decreases ids.len() - k,
    {
        let id = ids[k];
        assert(ids@.take(k + 1).drop_last() =~= ids@.take(k as int));
        assert(ids@.take(k + 1).last() == id);
        match model.block_position(id) {
            Some(i) => {
                let wb = &model.work_blocks[i];
                let row = plan.row_of(id);
                let row_name = match plan.row_name(None, row) {
                    Some(s) => s,
                    None => String::new(),
                };
                let date = day_to_date(wb.start_day, &model.calendar);
                proof {
                    let n = date_of_day(&model.calendar, wb.start_day as int);
                    assert(model.calendar.is_date_of_day(wb.start_day as int, date@));
                    lemma_nth_working_date_unique(
                        model.calendar.start_date@,
                        wb.start_day as int,
                        model.calendar.wdpw(),
                        model.calendar.off_seq(),
                        date@,
                        n,
                    );
                }
                let date_text = date.iso_text();
                let id_text = u64_text(id.0);
                let parent = match wb.parent {
                    Some(p) => u64_text(p.0),
                    None => String::new(),
                };
                let duration = i64_text(wb.duration_days as i64);
                let row_text_s = i64_text(row as i64);
                let fields: Vec<&str> = vec![
                    id_text.as_str(),
                    wb.name.as_str(),
                    parent.as_str(),
                    date_text.as_str(),
                    duration.as_str(),
                    row_text_s.as_str(),
                    row_name.as_str(),
                ];
                let line = csv_row(fields.as_slice());
                let ghost before = out@;
                push_text(&mut out, line.as_str());
                proof {
                    let fv = fields@.map_values(|f: &str| f@);
                    assert(fv =~= export_fields(plan, model, model.work_blocks@[i as int]));
                    let prev = export_rows(plan, model, ids@.take(k as int));
                    assert(block_index(model.work_blocks@, ids@.take(k + 1).last()) == Some(i as int));
                    assert(export_rows(plan, model, ids@.take(k + 1)) == prev + seq![fv]);
                    assert(prev + seq![fv] =~= prev.push(fv));
                    lemma_rows_text_push(prev, fv);
                    assert(line@ == row_text(fv));
                    assert(out@ =~= HEADER@ + rows_text(export_rows(plan, model, ids@.take(k + 1))));
                    let pb = exported_blocks(model, ids@.take(k as int));
                    let nb = exported_blocks(model, ids@.take(k + 1));
                    assert(nb =~= pb.push(model.work_blocks@[i as int]));
                    assert forall|j: int| 0 <= j < nb.len() implies {
                        let n = date_of_day(&model.calendar, (#[trigger] nb[j]).start_day as int);
                        parse_iso_date_text(iso_date_text(n)) == Some(n)
                    } by {
                        if j < pb.len() {
                            assert(nb[j] == pb[j]);
                        }
                    }
                }
            },
            None => {
                assert(export_rows(plan, model, ids@.take(k + 1)) =~= export_rows(plan, model, ids@.take(k as int)));
                assert(exported_blocks(model, ids@.take(k + 1)) =~= exported_blocks(model, ids@.take(k as int)));
            },
        }
        k += 1;
    }
    assert(ids@.take(k as int) =~= ids@);
    proof {
        let bs = exported_blocks(model, ids@);
        let recs = parse_records_spec(after_first_line(out@));
        lemma_export_reads_back(plan, model, ids@);
        lemma_export_rows_map(plan, model, ids@);
        assert(recs == bs.map_values(|b: WorkBlock| export_fields(plan, model, b)));
        assert forall|k: int| 0 <= k < bs.len() && reads_back(plan, #[trigger] bs[k])
            implies check_record(recs[k], (k + 2) as nat) == Ok::<(u64, Option<u64>, int, i32, i32), Seq<char>>(record_of(plan, model, bs[k])) by {
            lemma_record_reads_back(plan, model, bs[k], (k + 2) as nat);
        }
        if forall|k: int| 0 <= k < bs.len() ==> reads_back(plan, #[trigger] bs[k]) {
            assert forall|k: int| 0 <= k < recs.len() implies #[trigger] check_record(recs[k], (2 + k) as nat) is Ok by {
                assert(reads_back(plan, bs[k]));
                lemma_record_reads_back(plan, model, bs[k], (k + 2) as nat);
            }
            lemma_no_record_errors(recs, 2);
        }
    }
    out
}

proof fn lemma_first_line_end_of(a: Seq<char>, b: Seq<char>)
    requires
        forall|j: int| 0 <= j < a.len() ==> a[j] != '\n',
    ensures
        first_line_end(a + seq!['\n'] + b) == a.len(),
    decreases a.len(),
{
    let s = a + seq!['\n'] + b;
    if a.len() == 0 {
        assert(s[0] == '\n');
    } else {
        assert(s[0] == a[0]);
        assert(s.skip(1) =~= a.skip(1) + seq!['\n'] + b);
        assert forall|j: int| 0 <= j < a.skip(1).len() implies a.skip(1)[j] != '\n' by {
            assert(a.skip(1)[j] == a[j + 1]);
        }
        lemma_first_line_end_of(a.skip(1), b);
    }
}

/// Every exported row has its seven fields.
proof fn lemma_export_rows_fields(plan: &Plan, model: &Model, ids: Seq<WorkBlockId>)
    ensures
        forall|i: int| 0 <= i < export_rows(plan, model, ids).len() ==> (#[trigger] export_rows(plan, model, ids)[i]).len() == 7,
    decreases ids.len(),
{
    if ids.len() > 0 {
        lemma_export_rows_fields(plan, model, ids.drop_last());
        let prev = export_rows(plan, model, ids.drop_last());
        let all = export_rows(plan, model, ids);
        assert forall|i: int| 0 <= i < all.len() implies (#[trigger] all[i]).len() == 7 by {
            if i < prev.len() {
                assert(all[i] == prev[i]);
            } else {
                match block_index(model.work_blocks@, ids.last()) {
                    Some(k) => {
                        assert(all[i] == export_fields(plan, model, model.work_blocks@[k]));
                    },
                    None => {},
                }
            }
        }
    }
}

/// What `plan_to_csv` writes is read back by the import: its first line is
/// the expected header, and its records are exactly the exported rows.
pub proof fn lemma_export_reads_back(plan: &Plan, model: &Model, ids: Seq<WorkBlockId>)
    ensures
        ({
            let text = HEADER@ + rows_text(export_rows(plan, model, ids));
            &&& trim_spec(text.take(first_line_end(text))) == HEADER_FIELDS@
            &&& parse_records_spec(after_first_line(text)) == export_rows(plan, model, ids)
        }),
{
    let rs = export_rows(plan, model, ids);
    let body = rows_text(rs);
    reveal_strlit("id,name,parent_id,start_date,duration_days,row,row_name\n");
    reveal_strlit("id,name,parent_id,start_date,duration_days,row,row_name");
    let h = HEADER_FIELDS@;
    assert(HEADER@ =~= h + seq!['\n']);
    let text = HEADER@ + body;
    assert(text =~= h + seq!['\n'] + body);
    lemma_first_line_end_of(h, body);
    assert(text.take(h.len() as int) =~= h);
    assert(h[0] == 'i' && h.last() == 'e');
    assert(crate::text::trim_front(h) == h);
    assert(crate::text::trim_back(h) == h);
    assert(after_first_line(text) =~= body);
    lemma_export_rows_fields(plan, model, ids);
    lemma_parse_records_of_rows_text(rs);
}

// ── clearing a plan ─────────────────────────────────────────────────────────

/// Plan `p` places block `id` on a row.
pub open spec fn in_rows(p: Plan, id: WorkBlockId) -> bool {
    row_entry(p.block_rows@, id) is Some
}

/// Clearing plan `p` discards block `id`: `p` places it and no other plan does.
pub open spec fn dropped_by_clear(plans: Seq<Plan>, p: int, id: WorkBlockId) -> bool {
    &&& in_rows(plans[p], id)
    &&& forall|q: int| 0 <= q < plans.len() && q != p ==> !in_rows(#[trigger] plans[q], id)
}

impl Plan {
    /// Whether this plan places block `id` on a row.
    pub fn has_row(&self, id: WorkBlockId) -> (r: bool)
        ensures
            r == in_rows(*self, id),
    {
        let mut i: usize = 0;
        assert(self.block_rows@.skip(0) =~= self.block_rows@);
        while i < self.block_rows.len()
            invariant
                i <= self.block_rows@.len(),
                row_entry(self.block_rows@.skip(i as int), id) == row_entry(self.block_rows@, id),
            decreases self.block_rows.len() - i,
        {
            assert(self.block_rows@.skip(i as int).drop_first() =~= self.block_rows@.skip(i + 1));
            if self.block_rows[i].0 == id {
                return true;
            }
            i += 1;
        }
        assert(self.block_rows@.skip(i as int) =~= Seq::<(WorkBlockId, i32)>::empty());
        false
    }
}

fn dropped(model: &Model, p: usize, id: WorkBlockId) -> (r: bool)
    requires
        p < model.plans@.len(),
    ensures
        r == dropped_by_clear(model.plans@, p as int, id),
{
    if !model.plans[p].has_row(id) {
        return false;
    }
    let mut q: usize = 0;
    while q < model.plans.len()
        invariant
            p < model.plans@.len(),
            q <= model.plans@.len(),
            forall|j: int| 0 <= j < q && j != p ==> !in_rows(#[trigger] model.plans@[j], id),
        decreases model.plans.len() - q,
    {
        if q != p && model.plans[q].has_row(id) {
            return false;
        }
        q += 1;
    }
    true
}

/// Removes all blocks from plan `plan_id` — its top-level blocks, row
/// placements and row names — and discards from the model each block it
/// placed that no other plan places, with the dependencies touching it.
pub fn clear_plan_blocks(model: &mut Model, plan_id: PlanId)
    ensures
        match plan_index(old(model).plans@, plan_id) {
            None => *final(model) == *old(model),
            Some(p) => {
                &&& final(model).plans@.len() == old(model).plans@.len()
                &&& forall|q: int| 0 <= q < old(model).plans@.len() && q != p ==> #[trigger] final(model).plans@[q] == old(model).plans@[q]
                &&& final(model).plans@[p].id == old(model).plans@[p].id
                &&& final(model).plans@[p].name == old(model).plans@[p].name
                &&& final(model).plans@[p].branch_start_day == old(model).plans@[p].branch_start_day
                &&& final(model).plans@[p].root_blocks@.len() == 0
                &&& final(model).plans@[p].block_rows@.len() == 0
                &&& final(model).plans@[p].row_names@.len() == 0
                &&& final(model).plans@[p].allocations == old(model).plans@[p].allocations
                &&& final(model).work_blocks@ == old(model).work_blocks@.filter(
                    |b: WorkBlock| !dropped_by_clear(old(model).plans@, p, b.id))
                &&& final(model).dependencies@ == old(model).dependencies@.filter(
                    |d: Dependency| !dropped_by_clear(old(model).plans@, p, d.predecessor)
                        && !dropped_by_clear(old(model).plans@, p, d.successor))
                &&& final(model).resource_blocks == old(model).resource_blocks
                &&& final(model).calendar == old(model).calendar
                &&& final(model).t_shirt_sizes == old(model).t_shirt_sizes
                &&& final(model).next_id == old(model).next_id
            },
        },
{
    let p = match model.plan_position(plan_id) {
        Some(p) => p,
        None => return,
    };
    let ghost plans0 = model.plans@;
    let ghost keep_block = |b: WorkBlock| !dropped_by_clear(plans0, p as int, b.id);
    let ghost keep_dep = |d: Dependency| !dropped_by_clear(plans0, p as int, d.predecessor)
        && !dropped_by_clear(plans0, p as int, d.successor);
    let mut blocks: Vec<WorkBlock> = Vec::new();
    let mut i: usize = 0;
    while i < model.work_blocks.len()
        invariant
            p < model.plans@.len(),
            model.plans@ == plans0,
            i <= model.work_blocks@.len(),
            keep_block == (|b: WorkBlock| !dropped_by_clear(plans0, p as int, b.id)),
            blocks@ == model.work_blocks@.take(i as int).filter(keep_block),
        decreases model.work_blocks.len() - i,
    {
        let ghost pre = model.work_blocks@.take(i as int);
        assert(model.work_blocks@.take(i + 1) =~= pre.push(model.work_blocks@[i as int]));
        proof {
            pre.lemma_filter_push(model.work_blocks@[i as int], keep_block);
        }
        if !dropped(model, p, model.work_blocks[i].id) {
            blocks.push(model.work_blocks[i].clone());
        }
        i += 1;
    }
    assert(model.work_blocks@.take(i as int) =~= model.work_blocks@);
    let mut deps: Vec<Dependency> = Vec::new();
    let mut k: usize = 0;
    while k < model.dependencies.len()
        invariant
            p < model.plans@.len(),
            model.plans@ == plans0,
            k <= model.dependencies@.len(),
            keep_dep == (|d: Dependency| !dropped_by_clear(plans0, p as int, d.predecessor)
                && !dropped_by_clear(plans0, p as int, d.successor)),
            deps@ == model.dependencies@.take(k as int).filter(keep_dep),
        decreases model.dependencies.len() - k,
    {
        let ghost pre = model.dependencies@.take(k as int);
        assert(model.dependencies@.take(k + 1) =~= pre.push(model.dependencies@[k as int]));
        proof {
            pre.lemma_filter_push(model.dependencies@[k as int], keep_dep);
        }
        let d = &model.dependencies[k];
        if !dropped(model, p, d.predecessor) && !dropped(model, p, d.successor) {
            deps.push(d.clone());
        }
        k += 1;
    }
    assert(model.dependencies@.take(k as int) =~= model.dependencies@);
    model.work_blocks = blocks;
    model.dependencies = deps;
    let mut plan = model.plans.remove(p);
    plan.root_blocks = Vec::new();
    plan.block_rows = Vec::new();
    plan.row_names = Vec::new();
    model.plans.insert(p, plan);
    assert(model.plans@ =~= plans0.update(p as int, plan));
}

// ── importing rows ──────────────────────────────────────────────────────────

/// Some row of `rows` has old id `id`.
pub open spec fn known_id(rows: Seq<CsvRow>, id: u64) -> bool {
    exists|j: int| 0 <= j < rows.len() && (#[trigger] rows[j]).old_id == id
}

/// "Row {line}: {text}".
pub open spec fn row_message(line: nat, text: Seq<char>) -> Seq<char> {
    "Row "@ + decimal_text(line) + text
}

/// Messages for the rows among the first `n` whose parent id names no row.
pub open spec fn unknown_parent_errors(rows: Seq<CsvRow>, n: int) -> Seq<Seq<char>>
    decreases n,
{
    if n <= 0 {
        Seq::empty()
    } else {
        unknown_parent_errors(rows, n - 1) + match rows[n - 1].parent_old_id {
            Some(pid) => if known_id(rows, pid) {
                Seq::empty()
            } else {
                seq![row_message((n + 1) as nat, ": parent_id "@ + decimal_text(pid as nat) + " not found in this file"@)]
            },
            None => Seq::empty(),
        }
    }
}

/// The latest row before `i` that was imported with old id `pid`.
pub open spec fn latest_import(rows: Seq<CsvRow>, flags: Seq<bool>, i: int, pid: u64) -> Option<int>
    decreases i,
{
    if i <= 0 {
        None
    } else if flags[i - 1] && rows[i - 1].old_id == pid {
        Some(i - 1)
    } else {
        latest_import(rows, flags, i - 1, pid)
    }
}

/// Which of the first `n` rows are imported: those without a parent, and
/// those whose parent was imported earlier.
pub open spec fn import_flags(rows: Seq<CsvRow>, n: int) -> Seq<bool>
    decreases n,
{
    if n <= 0 {
        Seq::empty()
    } else {
        let f = import_flags(rows, n - 1);
        f.push(match rows[n - 1].parent_old_id {
            None => true,
            Some(pid) => latest_import(rows, f, n - 1, pid) is Some,
        })
    }
}

/// Number of imported rows among the first `i`.
pub open spec fn imported_before(flags: Seq<bool>, i: int) -> nat
    decreases i,
{
    if i <= 0 {
        0
    } else {
        imported_before(flags, i - 1) + if flags[i - 1] { 1nat } else { 0nat }
    }
}

/// Messages for the rows among the first `n` whose parent comes after them.
pub open spec fn order_errors(rows: Seq<CsvRow>, n: int) -> Seq<Seq<char>>
    decreases n,
{
    if n <= 0 {
        Seq::empty()
    } else {
        order_errors(rows, n - 1) + match rows[n - 1].parent_old_id {
            Some(pid) => if import_flags(rows, n)[n - 1] {
                Seq::empty()
            } else {
                seq![row_message((n + 1) as nat, ": parent_id "@ + decimal_text(pid as nat)
                    + " appears after child in file (must be pre-order)"@)]
            },
            None => Seq::empty(),
        }
    }
}

/// The blocks the first `n` rows create: id, name, parent, start day and
/// duration, ids handed out from `next`.
pub open spec fn imported_blocks(rows: Seq<CsvRow>, n: int, next: u64, config: &CalendarConfig) -> Seq<(WorkBlockId, Seq<char>, Option<WorkBlockId>, int, i32)>
    decreases n,
{
    if n <= 0 {
        Seq::empty()
    } else {
        let flags = import_flags(rows, n);
        let r = rows[n - 1];
        imported_blocks(rows, n - 1, next, config) + if flags[n - 1] {
            seq![(
                WorkBlockId((next + imported_before(flags, n - 1)) as u64),
                r.name@,
                match r.parent_old_id {
                    None => None,
                    Some(pid) => Some(WorkBlockId((next + imported_before(flags, latest_import(rows, flags, n - 1, pid).unwrap())) as u64)),
                },
                config.spec_date_to_day(r.start_date@),
                r.duration_days,
            )]
        } else {
            Seq::empty()
        }
    }
}

/// The new ids of the imported rows among the first `n` that have no
/// parent: the plan's new top-level blocks, in order.
pub open spec fn imported_roots(rows: Seq<CsvRow>, n: int, next: u64) -> Seq<WorkBlockId>
    decreases n,
{
    if n <= 0 {
        Seq::empty()
    } else {
        let flags = import_flags(rows, n);
        imported_roots(rows, n - 1, next) + if flags[n - 1] && rows[n - 1].parent_old_id is None {
            seq![WorkBlockId((next + imported_before(flags, n - 1)) as u64)]
        } else {
            Seq::empty()
        }
    }
}

/// The row the first `n` rows give block `x`, when one of them made it.
pub open spec fn imported_row(rows: Seq<CsvRow>, n: int, next: u64, x: WorkBlockId) -> Option<i32>
    decreases n,
{
    if n <= 0 {
        None
    } else {
        let flags = import_flags(rows, n);
        if flags[n - 1] && x == WorkBlockId((next + imported_before(flags, n - 1)) as u64) {
            Some(rows[n - 1].row)
        } else {
            imported_row(rows, n - 1, next, x)
        }
    }
}

/// The name the first `n` rows give top-level row `r`: that of the first
/// imported row on it with a name.
pub open spec fn imported_row_name(rows: Seq<CsvRow>, n: int, r: int) -> Option<Seq<char>>
    decreases n,
{
    if n <= 0 {
        None
    } else {
        let before = imported_row_name(rows, n - 1, r);
        if before is Some {
            before
        } else if import_flags(rows, n)[n - 1] && rows[n - 1].row == r && rows[n - 1].row_name@.len() > 0 {
            Some(rows[n - 1].row_name@)
        } else {
            None
        }
    }
}

pub open spec fn block_view(b: WorkBlock) -> (WorkBlockId, Seq<char>, Option<WorkBlockId>, int, i32) {
    (b.id, b.name@, b.parent, b.start_day as int, b.duration_days)
}

fn row_prefix(line: usize) -> (r: String)
    ensures
        r@ == "Row "@ + decimal_text(line as nat),
{
    let mut m = String::new();
    push_text(&mut m, "Row ");
    push_text(&mut m, u64_text(line as u64).as_str());
    m
}

proof fn lemma_latest_import_found(rows: Seq<CsvRow>, flags: Seq<bool>, i: int, pid: u64)
    requires
        0 <= i <= flags.len(),
    ensures
        match latest_import(rows, flags, i, pid) {
            Some(j) => 0 <= j < i && flags[j] && rows[j].old_id == pid
                && forall|k: int| j < k < i ==> !(flags[k] && rows[k].old_id == pid),
            None => forall|k: int| 0 <= k < i ==> !(#[trigger] flags[k] && rows[k].old_id == pid),
        },
    decreases i,
{
    if i > 0 && !(flags[i - 1] && rows[i - 1].old_id == pid) {
        lemma_latest_import_found(rows, flags, i - 1, pid);
    }
}

proof fn lemma_import_flags_prefix(rows: Seq<CsvRow>, n: int, m: int)
    requires
        0 <= m <= n <= rows.len(),
    ensures
        import_flags(rows, n).len() == n,
        import_flags(rows, n).take(m) == import_flags(rows, m),
    decreases n,
{
    if n > 0 {
        lemma_import_flags_prefix(rows, n - 1, if m == n { n - 1 } else { m });
        if m == n {
            assert(import_flags(rows, n).take(m) =~= import_flags(rows, n));
        } else {
            assert(import_flags(rows, n).take(m) =~= import_flags(rows, n - 1).take(m));
        }
    }
}

proof fn lemma_latest_import_prefix(rows: Seq<CsvRow>, f1: Seq<bool>, f2: Seq<bool>, i: int, pid: u64)
    requires
        0 <= i <= f1.len(),
        i <= f2.len(),
        forall|k: int| 0 <= k < i ==> f1[k] == f2[k],
    ensures
        latest_import(rows, f1, i, pid) == latest_import(rows, f2, i, pid),
    decreases i,
{
    if i > 0 {
        lemma_latest_import_prefix(rows, f1, f2, i - 1, pid);
    }
}

proof fn lemma_imported_before_prefix(f1: Seq<bool>, f2: Seq<bool>, i: int)
    requires
        0 <= i <= f1.len(),
        i <= f2.len(),
        forall|k: int| 0 <= k < i ==> f1[k] == f2[k],
    ensures
        imported_before(f1, i) == imported_before(f2, i),
    decreases i,
{
    if i > 0 {
        lemma_imported_before_prefix(f1, f2, i - 1);
    }
}

proof fn lemma_imported_before_le(f: Seq<bool>, i: int)
    requires
        0 <= i,
    ensures
        imported_before(f, i) <= i,
    decreases i,
{
    if i > 0 {
        lemma_imported_before_le(f, i - 1);
    }
}

/// Adds the blocks of `rows` (in parent-before-child order) to plan
/// `plan_id`: each row becomes a top-level block, or a child of the block
/// made from the latest earlier row with its parent id; start dates become
/// working days of the model's calendar. Returns the problems found: when a
/// parent id names no row, one message per such row and nothing is added;
/// otherwise one message per row whose parent comes after it (that row is
/// skipped). Row names are applied to the plan's top level, the first name
/// given for a row winning.
pub fn populate_plan(rows: &[CsvRow], plan_id: PlanId, model: &mut Model) -> (r: Vec<String>)
    requires
        old(model).wf(),
        old(model).next_id + rows@.len() < u64::MAX,
        rows@.len() + 2 < usize::MAX,
    ensures
        unknown_parent_errors(rows@, rows@.len() as int).len() > 0 ==> {
            &&& r@.map_values(|s: String| s@) == unknown_parent_errors(rows@, rows@.len() as int)
            &&& *final(model) == *old(model)
        },
        unknown_parent_errors(rows@, rows@.len() as int).len() == 0 ==> {
            &&& r@.map_values(|s: String| s@) == order_errors(rows@, rows@.len() as int)
            &&& final(model).wf()
            &&& final(model).work_blocks@.len() >= old(model).work_blocks@.len()
            &&& final(model).work_blocks@.take(old(model).work_blocks@.len() as int) == old(model).work_blocks@
            &&& final(model).work_blocks@.skip(old(model).work_blocks@.len() as int).map_values(|b: WorkBlock| block_view(b))
                == imported_blocks(rows@, rows@.len() as int, old(model).next_id, &old(model).calendar)
            &&& forall|j: int| old(model).work_blocks@.len() <= j < final(model).work_blocks@.len()
                ==> has_default_details(#[trigger] final(model).work_blocks@[j])
            &&& final(model).dependencies == old(model).dependencies
            &&& final(model).calendar == old(model).calendar
            &&& final(model).resource_blocks == old(model).resource_blocks
            &&& final(model).t_shirt_sizes == old(model).t_shirt_sizes
            &&& final(model).next_id == old(model).next_id
                + imported_before(import_flags(rows@, rows@.len() as int), rows@.len() as int)
            &&& final(model).plans@.len() == old(model).plans@.len()
            &&& forall|q: int| 0 <= q < old(model).plans@.len() && Some(q) != plan_index(old(model).plans@, plan_id)
                ==> #[trigger] final(model).plans@[q] == old(model).plans@[q]
            &&& plan_index(old(model).plans@, plan_id) matches Some(p) ==> {
                let (before, after) = (old(model).plans@[p], final(model).plans@[p]);
                &&& after.id == before.id
                &&& after.name == before.name
                &&& after.branch_start_day == before.branch_start_day
                &&& after.root_blocks@ == before.root_blocks@ + imported_roots(rows@, rows@.len() as int, old(model).next_id)
                &&& forall|x: WorkBlockId| #[trigger] row_entry(after.block_rows@, x)
                    == match imported_row(rows@, rows@.len() as int, old(model).next_id, x) {
                        Some(r) => Some(r),
                        None => row_entry(before.block_rows@, x),
                    }
                &&& forall|x: WorkBlockId| #[trigger] after.spec_row_of(x)
                    == match imported_row(rows@, rows@.len() as int, old(model).next_id, x) {
                        Some(r) => r,
                        None => before.spec_row_of(x),
                    }
                &&& forall|sc: Option<WorkBlockId>, r: int| #[trigger] after.spec_row_name(sc, r)
                    == if sc is None && r >= 0 && imported_row_name(rows@, rows@.len() as int, r) is Some {
                        imported_row_name(rows@, rows@.len() as int, r)
                    } else {
                        before.spec_row_name(sc, r)
                    }
            }
        },
{
    // Every parent id must name some row of the file.
    let mut errors: Vec<String> = Vec::new();
    let mut i: usize = 0;
    while i < rows.len()
        invariant
            i <= rows@.len(),
            rows@.len() + 2 < usize::MAX,
            errors@.map_values(|s: String| s@) == unknown_parent_errors(rows@, i as int),
        decreases rows.len() - i,
    {
        if let Some(pid) = rows[i].parent_old_id {
            let mut found = false;
            let mut j: usize = 0;
            while j < rows.len()
                invariant
                    j <= rows@.len(),
                    found <==> exists|k: int| 0 <= k < j && (#[trigger] rows@[k]).old_id == pid,
                decreases rows.len() - j,
            {
                if rows[j].old_id == pid {
                    found = true;
                }
                j += 1;
            }
            if !found {
                let mut m = row_prefix(i + 2);
                push_text(&mut m, ": parent_id ");
                push_text(&mut m, u64_text(pid).as_str());
                push_text(&mut m, " not found in this file");
                let ghost before = errors@.map_values(|s: String| s@);
                errors.push(m);
                assert(errors@.map_values(|s: String| s@) =~= before.push(m@));
                assert(!known_id(rows@, pid));
                assert(m@ =~= row_message((i + 2) as nat, ": parent_id "@ + decimal_text(pid as nat) + " not found in this file"@));
                assert(unknown_parent_errors(rows@, i + 1) == before + seq![m@]);
                assert(errors@.map_values(|s: String| s@) =~= unknown_parent_errors(rows@, i + 1));
            } else {
                assert(errors@.map_values(|s: String| s@) =~= unknown_parent_errors(rows@, i + 1));
            }
        } else {
            assert(errors@.map_values(|s: String| s@) =~= unknown_parent_errors(rows@, i + 1));
        }
        i += 1;
    }
    if errors.len() > 0 {
        return errors;
    }
    let ghost old_len = model.work_blocks@.len();
    let ghost next0 = model.next_id;
    let ghost cal = model.calendar;
    // New id of each imported row, by row index.
    let mut new_ids: Vec<Option<WorkBlockId>> = Vec::new();
    let mut names: Vec<(i32, String)> = Vec::new();
    let mut count: u64 = 0;
    let mut k: usize = 0;
    while k < rows.len()
        invariant
            k <= rows@.len(),
            rows@.len() + 2 < usize::MAX,
            next0 + rows@.len() < u64::MAX,
            model.wf(),
            model.calendar == cal,
            model.dependencies == old(model).dependencies,
            new_ids@.len() == k,
            forall|j: int| 0 <= j < k ==> (#[trigger] new_ids@[j] is Some) == import_flags(rows@, k as int)[j],
            forall|j: int| 0 <= j < k && new_ids@[j] is Some ==>
                (#[trigger] new_ids@[j]).unwrap().0 == next0 + imported_before(import_flags(rows@, k as int), j),
            count == imported_before(import_flags(rows@, k as int), k as int),
            count <= k,
            model.next_id == next0 + count,
            model.work_blocks@.len() == old_len + count,
            model.work_blocks@.take(old_len as int) == old(model).work_blocks@,
            model.work_blocks@.skip(old_len as int).map_values(|b: WorkBlock| block_view(b))
                == imported_blocks(rows@, k as int, next0, &cal),
            forall|j: int| old_len <= j < model.work_blocks@.len() ==> has_default_details(#[trigger] model.work_blocks@[j]),
            errors@.map_values(|s: String| s@) == order_errors(rows@, k as int),
            next0 == old(model).next_id,
            model.resource_blocks == old(model).resource_blocks,
            model.t_shirt_sizes == old(model).t_shirt_sizes,
            model.plans@.len() == old(model).plans@.len(),
            forall|q: int| 0 <= q < old(model).plans@.len() ==> (#[trigger] model.plans@[q]).id == old(model).plans@[q].id,
            forall|q: int| 0 <= q < old(model).plans@.len() && Some(q) != plan_index(old(model).plans@, plan_id)
                ==> #[trigger] model.plans@[q] == old(model).plans@[q],
            plan_index(old(model).plans@, plan_id) matches Some(p) ==> {
                let (before, now) = (old(model).plans@[p], model.plans@[p]);
                &&& now.id == before.id
                &&& now.name == before.name
                &&& now.branch_start_day == before.branch_start_day
                &&& now.row_names == before.row_names
                &&& now.root_blocks@ == before.root_blocks@ + imported_roots(rows@, k as int, next0)
                &&& forall|x: WorkBlockId| #[trigger] row_entry(now.block_rows@, x) == match imported_row(rows@, k as int, next0, x) {
                    Some(r) => Some(r),
                    None => row_entry(before.block_rows@, x),
                }
                &&& forall|x: WorkBlockId| #[trigger] now.spec_row_of(x) == match imported_row(rows@, k as int, next0, x) {
                    Some(r) => r,
                    None => before.spec_row_of(x),
                }
            },
            forall|t: int| 0 <= t < names@.len() ==> (#[trigger] names@[t]).1@.len() > 0
                && imported_row_name(rows@, k as int, names@[t].0 as int) == Some(names@[t].1@),
            forall|a: int, b: int| 0 <= a < b < names@.len() ==> names@[a].0 != names@[b].0,
            forall|r: int| #[trigger] imported_row_name(rows@, k as int, r) is Some
                ==> exists|t: int| 0 <= t < names@.len() && names@[t].0 as int == r,
        decreases rows.len() - k,
    {
        let row = &rows[k];
        proof {
            lemma_import_flags_prefix(rows@, k + 1, k as int);
        }
        let ghost flags = import_flags(rows@, k + 1);
        let start_day = date_to_day(row.start_date, &model.calendar);
        let mut parent_new: Option<WorkBlockId> = None;
        let mut ok = true;
        if let Some(pid) = row.parent_old_id {
            // The latest earlier imported row with that old id.
            let mut j: usize = k;
            let mut hit: Option<WorkBlockId> = None;
            while j > 0 && hit.is_none()
                invariant
                    j <= k,
                    k < rows@.len(),
                    new_ids@.len() == k,
                    hit is None ==> latest_import(rows@, import_flags(rows@, k as int), k as int, pid)
                        == latest_import(rows@, import_flags(rows@, k as int), j as int, pid),
                    hit matches Some(h) ==> latest_import(rows@, import_flags(rows@, k as int), k as int, pid) == Some(j as int)
                        && new_ids@[j as int] == Some(h),
                    forall|q: int| 0 <= q < k ==> (#[trigger] new_ids@[q] is Some) == import_flags(rows@, k as int)[q],
                decreases j,
            {
                let q = j - 1;
                if rows[q].old_id == pid && new_ids[q].is_some() {
                    hit = new_ids[q];
                    assert(latest_import(rows@, import_flags(rows@, k as int), j as int, pid) == Some(q as int));
                    j = q;
                } else {
                    j = q;
                }
            }
            match hit {
                Some(h) => {
                    parent_new = Some(h);
                },
                None => {
                    ok = false;
                },
            }
            proof {
                lemma_latest_import_prefix(rows@, import_flags(rows@, k as int), flags, k as int, pid);
            }
        }
        assert(import_flags(rows@, k + 1)[k as int] == ok);
        if !ok {
            let pid = row.parent_old_id.unwrap();
            let mut m = row_prefix(k + 2);
            push_text(&mut m, ": parent_id ");
            push_text(&mut m, u64_text(pid).as_str());
            push_text(&mut m, " appears after child in file (must be pre-order)");
            let ghost before = errors@.map_values(|s: String| s@);
            errors.push(m);
            assert(errors@.map_values(|s: String| s@) =~= before.push(m@));
            assert(m@ =~= row_message((k + 2) as nat, ": parent_id "@ + decimal_text(pid as nat)
                + " appears after child in file (must be pre-order)"@));
            assert(rows@[k as int].parent_old_id == Some(pid));
            assert(order_errors(rows@, k + 1) == before + seq![m@]);
            assert(errors@.map_values(|s: String| s@) =~= order_errors(rows@, k + 1));
            new_ids.push(None);
            proof {
                lemma_imported_before_prefix(import_flags(rows@, k as int), flags, k as int);
                assert forall|j: int| 0 <= j < k + 1 implies (#[trigger] new_ids@[j] is Some) == flags[j] by {}
                assert forall|j: int| 0 <= j < k + 1 && new_ids@[j] is Some implies
                    (#[trigger] new_ids@[j]).unwrap().0 == next0 + imported_before(flags, j) by {
                    lemma_imported_before_prefix(import_flags(rows@, k as int), flags, j);
                }
                assert(model.work_blocks@.skip(old_len as int).map_values(|b: WorkBlock| block_view(b))
                    =~= imported_blocks(rows@, k + 1, next0, &cal));
                assert(imported_roots(rows@, k + 1, next0) =~= imported_roots(rows@, k as int, next0));
                assert forall|x: WorkBlockId| imported_row(rows@, k + 1, next0, x) == imported_row(rows@, k as int, next0, x) by {}
                assert forall|r: int| #[trigger] imported_row_name(rows@, k + 1, r) is Some
                    implies exists|t: int| 0 <= t < names@.len() && names@[t].0 as int == r by {
                    assert(imported_row_name(rows@, k + 1, r) == imported_row_name(rows@, k as int, r));
                }
                assert forall|t: int| 0 <= t < names@.len() implies (#[trigger] names@[t]).1@.len() > 0
                    && imported_row_name(rows@, k + 1, names@[t].0 as int) == Some(names@[t].1@) by {
                    assert(imported_row_name(rows@, k + 1, names@[t].0 as int) == imported_row_name(rows@, k as int, names@[t].0 as int));
                }
            }
        } else {
            proof {
                lemma_imported_before_le(import_flags(rows@, k as int), k as int);
            }
            let ghost wb_before = model.work_blocks@;
            let ghost plans_before = model.plans@;
            proof {
                lemma_plan_index_same_ids(old(model).plans@, plans_before, plan_id);
            }
            let new_id = match parent_new {
                Some(pn) => model.add_child_block(plan_id, pn, row.name.as_str(), start_day, row.duration_days, row.row),
                None => model.add_block_to_plan(plan_id, row.name.as_str(), start_day, row.duration_days, row.row),
            };
            new_ids.push(Some(new_id));
            proof {
                lemma_imported_before_prefix(import_flags(rows@, k as int), flags, k as int);
                assert(model.work_blocks@.take(old_len as int) =~= wb_before.take(old_len as int));
                assert(model.work_blocks@.skip(old_len as int) =~= wb_before.skip(old_len as int).push(model.work_blocks@.last()));
                assert forall|j: int| old_len <= j < model.work_blocks@.len() implies has_default_details(#[trigger] model.work_blocks@[j]) by {
                    if j < wb_before.len() {
                        assert(model.work_blocks@[j] == model.work_blocks@.drop_last()[j]);
                    }
                }
                assert forall|j: int| 0 <= j < k + 1 implies (#[trigger] new_ids@[j] is Some) == flags[j] by {}
                assert forall|j: int| 0 <= j < k + 1 && new_ids@[j] is Some implies
                    (#[trigger] new_ids@[j]).unwrap().0 == next0 + imported_before(flags, j) by {
                    lemma_imported_before_prefix(import_flags(rows@, k as int), flags, j);
                }
                match row.parent_old_id {
                    Some(pid) => {
                        lemma_latest_import_prefix(rows@, import_flags(rows@, k as int), flags, k as int, pid);
                        let lj = latest_import(rows@, flags, k as int, pid).unwrap();
                        lemma_latest_import_found(rows@, flags, k as int, pid);
                        lemma_imported_before_prefix(import_flags(rows@, k as int), flags, lj);
                    },
                    None => {},
                }
                assert(model.work_blocks@.skip(old_len as int).map_values(|b: WorkBlock| block_view(b))
                    =~= imported_blocks(rows@, k + 1, next0, &cal));
                assert(errors@.map_values(|s: String| s@) =~= order_errors(rows@, k + 1));
                // The plan gains the block (at its top level when it has no parent).
                assert(new_id == WorkBlockId((next0 + imported_before(flags, k as int)) as u64));
                assert forall|q: int| 0 <= q < old(model).plans@.len() implies (#[trigger] model.plans@[q]).id == old(model).plans@[q].id by {
                    if Some(q) != plan_index(plans_before, plan_id) {
                        assert(model.plans@[q] == plans_before[q]);
                    }
                }
                assert forall|q: int| 0 <= q < old(model).plans@.len() && Some(q) != plan_index(old(model).plans@, plan_id)
                    implies #[trigger] model.plans@[q] == old(model).plans@[q] by {
                    assert(model.plans@[q] == plans_before[q]);
                }
                if let Some(p) = plan_index(old(model).plans@, plan_id) {
                    let (before, now) = (old(model).plans@[p], model.plans@[p]);
                    if row.parent_old_id is None {
                        assert(imported_roots(rows@, k + 1, next0) =~= imported_roots(rows@, k as int, next0).push(new_id));
                        assert(now.root_blocks@ =~= before.root_blocks@ + imported_roots(rows@, k + 1, next0));
                    } else {
                        assert(imported_roots(rows@, k + 1, next0) =~= imported_roots(rows@, k as int, next0));
                    }
                    assert forall|x: WorkBlockId| #[trigger] now.spec_row_of(x) == match imported_row(rows@, k + 1, next0, x) {
                        Some(r) => r,
                        None => before.spec_row_of(x),
                    } by {
                        assert(now.spec_row_of(x) == if x == new_id { row.row } else { plans_before[p].spec_row_of(x) });
                    }
                    assert forall|x: WorkBlockId| #[trigger] row_entry(now.block_rows@, x) == match imported_row(rows@, k + 1, next0, x) {
                        Some(r) => Some(r),
                        None => row_entry(before.block_rows@, x),
                    } by {
                        assert(row_entry(now.block_rows@, x) == if x == new_id { Some(row.row) } else { row_entry(plans_before[p].block_rows@, x) });
                    }
                }
            }
            count = count + 1;
            let ghost names_before = names@;
            if !row.row_name.as_str().is_empty() {
                let mut seen = false;
                let mut t: usize = 0;
                while t < names.len()
                    invariant
                        t <= names@.len(),
                        seen <==> exists|u: int| 0 <= u < t && (#[trigger] names@[u]).0 == row.row,
                    decreases names.len() - t,
                {
                    if names[t].0 == row.row {
                        seen = true;
                    }
                    t += 1;
                }
                if !seen {
                    names.push((row.row, row.row_name.clone()));
                }
                proof {
                    assert(row.row_name@.len() > 0);
                    if seen {
                        let u = choose|u: int| 0 <= u < names_before.len() && (#[trigger] names_before[u]).0 == row.row;
                        assert(imported_row_name(rows@, k as int, row.row as int) is Some);
                    } else {
                        assert(imported_row_name(rows@, k as int, row.row as int) is None) by {
                            if imported_row_name(rows@, k as int, row.row as int) is Some {
                                let u = choose|u: int| 0 <= u < names_before.len() && names_before[u].0 as int == row.row as int;
                                assert(names_before[u].0 == row.row);
                            }
                        }
                    }
                    assert forall|t2: int| 0 <= t2 < names@.len() implies (#[trigger] names@[t2]).1@.len() > 0
                        && imported_row_name(rows@, k + 1, names@[t2].0 as int) == Some(names@[t2].1@) by {
                        if t2 < names_before.len() {
                            assert(names@[t2] == names_before[t2]);
                        }
                    }
                    assert forall|a: int, b: int| 0 <= a < b < names@.len() implies names@[a].0 != names@[b].0 by {
                        if b == names_before.len() && !seen {
                            assert(names@[a] == names_before[a]);
                        } else {
                            assert(names@[a] == names_before[a] && names@[b] == names_before[b]);
                        }
                    }
                    assert forall|r: int| #[trigger] imported_row_name(rows@, k + 1, r) is Some
                        implies exists|t2: int| 0 <= t2 < names@.len() && names@[t2].0 as int == r by {
                        if imported_row_name(rows@, k as int, r) is Some {
                            let u = choose|u: int| 0 <= u < names_before.len() && names_before[u].0 as int == r;
                            assert(names@[u] == names_before[u]);
                        } else {
                            assert(r == row.row as int);
                            if seen {
                                let u = choose|u: int| 0 <= u < names_before.len() && (#[trigger] names_before[u]).0 == row.row;
                                assert(names@[u] == names_before[u]);
                            } else {
                                assert(names@[names_before.len() as int].0 == row.row);
                            }
                        }
                    }
                }
            } else {
                proof {
                    assert forall|r: int| #[trigger] imported_row_name(rows@, k + 1, r) is Some
                        implies exists|t: int| 0 <= t < names@.len() && names@[t].0 as int == r by {
                        assert(imported_row_name(rows@, k + 1, r) == imported_row_name(rows@, k as int, r));
                    }
                    assert forall|t: int| 0 <= t < names@.len() implies (#[trigger] names@[t]).1@.len() > 0
                        && imported_row_name(rows@, k + 1, names@[t].0 as int) == Some(names@[t].1@) by {
                        assert(imported_row_name(rows@, k + 1, names@[t].0 as int) == imported_row_name(rows@, k as int, names@[t].0 as int));
                    }
                }
            }
        }
        k += 1;
    }
    assert(rows@.len() == k);
    // Apply the row names to the plan's top level.
    proof {
        lemma_plan_index_same_ids(old(model).plans@, model.plans@, plan_id);
    }
    match model.plan_position(plan_id) {
        Some(p) => {
            let ghost before = *model;
            let mut plan = model.plans.remove(p);
            let ghost plan0 = plan;
            assert(plan.id == before.plans@[p as int].id);
            let mut t: usize = 0;
            while t < names.len()
                invariant
                    t <= names@.len(),
                    plan.id == plan0.id,
                    plan.name == plan0.name,
                    plan.root_blocks == plan0.root_blocks,
                    plan.block_rows == plan0.block_rows,
                    plan.branch_start_day == plan0.branch_start_day,
                    forall|t2: int| 0 <= t2 < names@.len() ==> (#[trigger] names@[t2]).1@.len() > 0,
                    forall|a: int, b: int| 0 <= a < b < names@.len() ==> names@[a].0 != names@[b].0,
                    forall|t2: int| 0 <= t2 < t && names@[t2].0 >= 0
                        ==> plan.spec_row_name(None, #[trigger] names@[t2].0 as int) == Some(names@[t2].1@),
                    forall|sc: Option<WorkBlockId>, r: int| #![trigger plan.spec_row_name(sc, r)]
                        (sc is Some || r < 0 || forall|t2: int| 0 <= t2 < t ==> names@[t2].0 as int != r)
                        ==> plan.spec_row_name(sc, r) == plan0.spec_row_name(sc, r),
                decreases names.len() - t,
            {
                let (row, name) = (names[t].0, names[t].1.clone());
                let ghost plan_t = plan;
                plan.set_row_name(None, row, name);
                proof {
                    assert forall|t2: int| 0 <= t2 < t + 1 && names@[t2].0 >= 0
                        implies plan.spec_row_name(None, #[trigger] names@[t2].0 as int) == Some(names@[t2].1@) by {
                        if t2 < t {
                            assert(names@[t2].0 != names@[t as int].0);
                            assert(plan.spec_row_name(None, names@[t2].0 as int) == plan_t.spec_row_name(None, names@[t2].0 as int));
                        }
                    }
                }
                t += 1;
            }
            model.plans.insert(p, plan);
            assert forall|q: int| 0 <= q < model.plans@.len() implies (#[trigger] model.plans@[q]).id.0 < model.next_id by {
                if q != p {
                    assert(model.plans@[q] == before.plans@[q]);
                } else {
                    assert(model.plans@[q].id == before.plans@[q].id);
                }
            }
            proof {
                let n = rows@.len() as int;
                assert forall|q: int| 0 <= q < old(model).plans@.len() && Some(q) != plan_index(old(model).plans@, plan_id)
                    implies #[trigger] model.plans@[q] == old(model).plans@[q] by {
                    assert(model.plans@[q] == before.plans@[q]);
                }
                let pb = old(model).plans@[p as int];
                let pa = model.plans@[p as int];
                assert(pa == plan);
                assert forall|x: WorkBlockId| #[trigger] pa.spec_row_of(x) == match imported_row(rows@, n, next0, x) {
                    Some(r) => r,
                    None => pb.spec_row_of(x),
                } by {
                    assert(pa.spec_row_of(x) == plan0.spec_row_of(x));
                }
                assert forall|x: WorkBlockId| #[trigger] row_entry(pa.block_rows@, x) == match imported_row(rows@, n, next0, x) {
                    Some(r) => Some(r),
                    None => row_entry(pb.block_rows@, x),
                } by {
                    assert(row_entry(pa.block_rows@, x) == row_entry(plan0.block_rows@, x));
                }
                assert forall|sc: Option<WorkBlockId>, r: int| #[trigger] pa.spec_row_name(sc, r)
                    == if sc is None && r >= 0 && imported_row_name(rows@, n, r) is Some {
                        imported_row_name(rows@, n, r)
                    } else {
                        pb.spec_row_name(sc, r)
                    } by {
                    assert(plan0.spec_row_name(sc, r) == pb.spec_row_name(sc, r));
                    if sc is None && r >= 0 && imported_row_name(rows@, n, r) is Some {
                        let u = choose|u: int| 0 <= u < names@.len() && names@[u].0 as int == r;
                        assert(plan.spec_row_name(None, names@[u].0 as int) == Some(names@[u].1@));
                    } else if sc is None && r >= 0 {
                        assert forall|t2: int| 0 <= t2 < names@.len() implies names@[t2].0 as int != r by {
                            if names@[t2].0 as int == r {
                                assert(imported_row_name(rows@, n, names@[t2].0 as int) == Some(names@[t2].1@));
                            }
                        }
                    }
                }
            }
        },
        None => {},
    }
    errors
}

// ── export, then import ─────────────────────────────────────────────────────

/// `rows` are what reading back the export of blocks `bs` of `plan` gives:
/// one row per block, each matching the block's record.
pub open spec fn rows_read_back(plan: &Plan, model: &Model, bs: Seq<WorkBlock>, rows: Seq<CsvRow>) -> bool {
    &&& rows.len() == bs.len()
    &&& forall|k: int| 0 <= k < bs.len() ==> row_matches(#[trigger] rows[k], export_fields(plan, model, bs[k]), (k + 2) as nat)
    &&& forall|k: int| 0 <= k < bs.len() ==> check_record(export_fields(plan, model, #[trigger] bs[k]), (k + 2) as nat)
        == Ok::<(u64, Option<u64>, int, i32, i32), Seq<char>>(record_of(plan, model, bs[k]))
}

/// No two of `bs` share an id.
pub open spec fn distinct_block_ids(bs: Seq<WorkBlock>) -> bool {
    forall|i: int, j: int| 0 <= i < j < bs.len() ==> (#[trigger] bs[i]).id != (#[trigger] bs[j]).id
}

/// Each of `bs` that has a parent comes after it.
pub open spec fn parents_first(bs: Seq<WorkBlock>) -> bool {
    forall|k: int| 0 <= k < bs.len() ==> match (#[trigger] bs[k]).parent {
        Some(p) => exists|j: int| 0 <= j < k && bs[j].id == p,
        None => true,
    }
}

/// Each of `bs` starts on a day that has a date and that the date maps
/// back to (every day on or after the start does; a day before it does
/// when the start is a working day).
pub open spec fn days_read_back(model: &Model, bs: Seq<WorkBlock>) -> bool {
    forall|k: int| 0 <= k < bs.len() ==> {
        let d = (#[trigger] bs[k]).start_day as int;
        &&& exists|n: int| model.calendar.is_date_of_day(d, n)
        &&& (d >= 0 || is_working(model.calendar.start_date@, model.calendar.wdpw(), model.calendar.off_seq()))
    }
}

/// The position among `bs` of the parent `p` of block `k`.
pub open spec fn parent_position(bs: Seq<WorkBlock>, k: int, p: WorkBlockId) -> int {
    choose|j: int| 0 <= j < k && bs[j].id == p
}

/// Block `k` of `bs` as the import makes it again, ids handed out from
/// `next`: the new id, the name, the new id of its parent, its start day and
/// its duration.
pub open spec fn reimported(bs: Seq<WorkBlock>, k: int, next: u64) -> (WorkBlockId, Seq<char>, Option<WorkBlockId>, int, i32) {
    (
        WorkBlockId((next + k) as u64),
        bs[k].name@,
        match bs[k].parent {
            Some(p) => Some(WorkBlockId((next + parent_position(bs, k, p)) as u64)),
            None => None,
        },
        bs[k].start_day as int,
        bs[k].duration_days,
    )
}

/// The name row `r` of `plan`'s top level carries, when it has one.
pub open spec fn given_row_name(plan: &Plan, r: int) -> Option<Seq<char>> {
    match plan.spec_row_name(None, r) {
        Some(s) => if s.len() > 0 { Some(s) } else { None },
        None => None,
    }
}

proof fn lemma_row_fields(plan: &Plan, model: &Model, bs: Seq<WorkBlock>, rows: Seq<CsvRow>, k: int)
    requires
        rows_read_back(plan, model, bs, rows),
        0 <= k < bs.len(),
    ensures
        rows[k].old_id == bs[k].id.0,
        rows[k].name@ == bs[k].name@,
        rows[k].parent_old_id == match bs[k].parent { Some(p) => Some(p.0), None => None },
        rows[k].start_date@ == date_of_day(&model.calendar, bs[k].start_day as int),
        rows[k].duration_days == bs[k].duration_days,
        rows[k].row == plan.spec_row_of(bs[k].id),
        rows[k].row_name@ == match plan.spec_row_name(None, plan.spec_row_of(bs[k].id) as int) { Some(s) => s, None => Seq::empty() },
{
    assert(row_matches(rows[k], export_fields(plan, model, bs[k]), (k + 2) as nat));
    assert(check_record(export_fields(plan, model, bs[k]), (k + 2) as nat)
        == Ok::<(u64, Option<u64>, int, i32, i32), Seq<char>>(record_of(plan, model, bs[k])));
}

/// What each of `rows` holds of block `k` of `bs`.
pub open spec fn rows_carry(plan: &Plan, model: &Model, bs: Seq<WorkBlock>, rows: Seq<CsvRow>) -> bool {
    &&& rows.len() == bs.len()
    &&& forall|k: int| 0 <= k < bs.len() ==> {
        &&& (#[trigger] rows[k]).old_id == bs[k].id.0
        &&& rows[k].name@ == bs[k].name@
        &&& rows[k].parent_old_id == match bs[k].parent { Some(p) => Some(p.0), None => None }
        &&& rows[k].start_date@ == date_of_day(&model.calendar, bs[k].start_day as int)
        &&& rows[k].duration_days == bs[k].duration_days
        &&& rows[k].row == plan.spec_row_of(bs[k].id)
        &&& rows[k].row_name@ == match plan.spec_row_name(None, plan.spec_row_of(bs[k].id) as int) { Some(s) => s, None => Seq::empty() }
    }
}

proof fn lemma_rows_carry(plan: &Plan, model: &Model, bs: Seq<WorkBlock>, rows: Seq<CsvRow>)
    requires
        rows_read_back(plan, model, bs, rows),
    ensures
        rows_carry(plan, model, bs, rows),
{
    assert forall|k: int| 0 <= k < bs.len() implies {
        &&& (#[trigger] rows[k]).old_id == bs[k].id.0
        &&& rows[k].name@ == bs[k].name@
        &&& rows[k].parent_old_id == match bs[k].parent { Some(p) => Some(p.0), None => None }
        &&& rows[k].start_date@ == date_of_day(&model.calendar, bs[k].start_day as int)
        &&& rows[k].duration_days == bs[k].duration_days
        &&& rows[k].row == plan.spec_row_of(bs[k].id)
        &&& rows[k].row_name@ == match plan.spec_row_name(None, plan.spec_row_of(bs[k].id) as int) { Some(s) => s, None => Seq::empty() }
    } by {
        lemma_row_fields(plan, model, bs, rows, k);
    }
}

/// A start day that reads back maps from its date to itself.
proof fn lemma_day_reads_back(model: &Model, bs: Seq<WorkBlock>, k: int)
    requires
        days_read_back(model, bs),
        0 <= k < bs.len(),
    ensures
        model.calendar.spec_date_to_day(date_of_day(&model.calendar, bs[k].start_day as int)) == bs[k].start_day,
{
    let d = bs[k].start_day as int;
    let dn = date_of_day(&model.calendar, d);
    assert(model.calendar.is_date_of_day(d, dn)) by {
        assert(exists|x: int| model.calendar.is_date_of_day(d, x));
    }
    lemma_date_to_day_of_day_to_date(&model.calendar, d, dn);
}

proof fn lemma_latest_is_unique(rows: Seq<CsvRow>, f: Seq<bool>, i: int, pid: u64, j: int)
    requires
        0 <= j < i <= f.len(),
        i <= rows.len(),
        forall|k: int| 0 <= k < i ==> f[k],
        rows[j].old_id == pid,
        forall|a: int, b: int| 0 <= a < b < rows.len() ==> (#[trigger] rows[a]).old_id != (#[trigger] rows[b]).old_id,
    ensures
        latest_import(rows, f, i, pid) == Some(j),
    decreases i,
{
    if i - 1 != j {
        assert(rows[j].old_id != rows[i - 1].old_id);
        lemma_latest_is_unique(rows, f, i - 1, pid, j);
    }
}

proof fn lemma_all_imported(rows: Seq<CsvRow>, m: int)
    requires
        0 <= m <= rows.len(),
        forall|a: int, b: int| 0 <= a < b < rows.len() ==> (#[trigger] rows[a]).old_id != (#[trigger] rows[b]).old_id,
        forall|k: int| 0 <= k < rows.len() ==> match (#[trigger] rows[k]).parent_old_id {
            Some(pid) => exists|j: int| 0 <= j < k && rows[j].old_id == pid,
            None => true,
        },
    ensures
        import_flags(rows, m).len() == m,
        forall|k: int| 0 <= k < m ==> #[trigger] import_flags(rows, m)[k],
    decreases m,
{
    if m > 0 {
        lemma_all_imported(rows, m - 1);
        let f = import_flags(rows, m - 1);
        match rows[m - 1].parent_old_id {
            Some(pid) => {
                let j = choose|j: int| 0 <= j < m - 1 && rows[j].old_id == pid;
                lemma_latest_is_unique(rows, f, m - 1, pid, j);
            },
            None => {},
        }
        assert forall|k: int| 0 <= k < m implies #[trigger] import_flags(rows, m)[k] by {
            if k < m - 1 {
                assert(import_flags(rows, m)[k] == f[k]);
            }
        }
    }
}

proof fn lemma_imported_before_all(f: Seq<bool>, i: int)
    requires
        0 <= i <= f.len(),
        forall|k: int| 0 <= k < i ==> f[k],
    ensures
        imported_before(f, i) == i,
    decreases i,
{
    if i > 0 {
        lemma_imported_before_all(f, i - 1);
    }
}

/// Exporting a plan and reading the text back gives rows that the import
/// turns into the same blocks: every row is taken, block `k` comes back as
/// block `next + k` with its name, its parent (by its new id), its start
/// day, its duration and its row, and each top-level row gets back the
/// name it had. This holds for exported blocks with distinct ids, each
/// parent exported before its children, and start days whose dates map
/// back to them; `rows` are what `parse_csv` gives for the text of
/// `plan_to_csv` (whose contract states the records read back).
pub proof fn lemma_export_import_round_trip(plan: &Plan, model: &Model, rows: Seq<CsvRow>, next: u64)
    requires
        rows_read_back(plan, model, exported_blocks(model, forest(model.work_blocks@, plan.root_blocks@, model.work_blocks@.len())), rows),
        distinct_block_ids(exported_blocks(model, forest(model.work_blocks@, plan.root_blocks@, model.work_blocks@.len()))),
        parents_first(exported_blocks(model, forest(model.work_blocks@, plan.root_blocks@, model.work_blocks@.len()))),
        days_read_back(model, exported_blocks(model, forest(model.work_blocks@, plan.root_blocks@, model.work_blocks@.len()))),
        next + rows.len() <= u64::MAX,
    ensures
        ({
            let bs = exported_blocks(model, forest(model.work_blocks@, plan.root_blocks@, model.work_blocks@.len()));
            let n = rows.len() as int;
            &&& unknown_parent_errors(rows, n).len() == 0
            &&& order_errors(rows, n).len() == 0
            &&& forall|k: int| 0 <= k < n ==> #[trigger] import_flags(rows, n)[k]
            &&& imported_blocks(rows, n, next, &model.calendar) == Seq::new(n as nat, |k: int| reimported(bs, k, next))
            &&& forall|k: int| 0 <= k < n ==> #[trigger] imported_row(rows, n, next, WorkBlockId((next + k) as u64))
                == Some(plan.spec_row_of(bs[k].id))
            &&& forall|k: int| 0 <= k < n ==> imported_row_name(rows, n, #[trigger] plan.spec_row_of(bs[k].id) as int)
                == given_row_name(plan, plan.spec_row_of(bs[k].id) as int)
        }),
{
    let bs = exported_blocks(model, forest(model.work_blocks@, plan.root_blocks@, model.work_blocks@.len()));
    let n = rows.len() as int;
    assert forall|k: int| 0 <= k < n implies #[trigger] rows[k].old_id == bs[k].id.0 by {
        lemma_row_fields(plan, model, bs, rows, k);
    }
    assert forall|a: int, b: int| 0 <= a < b < rows.len() implies (#[trigger] rows[a]).old_id != (#[trigger] rows[b]).old_id by {
        lemma_row_fields(plan, model, bs, rows, a);
        lemma_row_fields(plan, model, bs, rows, b);
        assert(bs[a].id != bs[b].id);
    }
    assert forall|k: int| 0 <= k < rows.len() implies match (#[trigger] rows[k]).parent_old_id {
        Some(pid) => exists|j: int| 0 <= j < k && rows[j].old_id == pid,
        None => true,
    } by {
        lemma_row_fields(plan, model, bs, rows, k);
        match bs[k].parent {
            Some(p) => {
                let j = choose|j: int| 0 <= j < k && bs[j].id == p;
                lemma_row_fields(plan, model, bs, rows, j);
                assert(rows[j].old_id == p.0);
            },
            None => {},
        }
    }
    lemma_rows_carry(plan, model, bs, rows);
    lemma_no_import_errors(rows, n);
    lemma_all_imported(rows, n);
    lemma_reimported_blocks(plan, model, bs, rows, next, n);
    lemma_reimported_rows(plan, model, bs, rows, next, n);
    lemma_reimported_row_names(plan, model, bs, rows, n);
    assert forall|k: int| 0 <= k < n implies #[trigger] imported_row_name(rows, n, plan.spec_row_of(bs[k].id) as int)
        == given_row_name(plan, plan.spec_row_of(bs[k].id) as int) by {
        assert(0 <= k < n && plan.spec_row_of(bs[k].id) == plan.spec_row_of(bs[k].id));
    }
}

/// The facts about `rows` that the import's steps rest on.
pub open spec fn rows_import_cleanly(rows: Seq<CsvRow>) -> bool {
    &&& forall|a: int, b: int| 0 <= a < b < rows.len() ==> (#[trigger] rows[a]).old_id != (#[trigger] rows[b]).old_id
    &&& forall|k: int| 0 <= k < rows.len() ==> match (#[trigger] rows[k]).parent_old_id {
        Some(pid) => exists|j: int| 0 <= j < k && rows[j].old_id == pid,
        None => true,
    }
}

proof fn lemma_no_import_errors(rows: Seq<CsvRow>, m: int)
    requires
        rows_import_cleanly(rows),
        0 <= m <= rows.len(),
    ensures
        unknown_parent_errors(rows, m).len() == 0,
        order_errors(rows, m).len() == 0,
    decreases m,
{
    if m > 0 {
        let i = m - 1;
        lemma_no_import_errors(rows, i);
        lemma_all_imported(rows, m);
        match rows[i].parent_old_id {
            Some(pid) => {
                let j = choose|j: int| 0 <= j < i && rows[j].old_id == pid;
                assert(known_id(rows, pid)) by {
                    assert(rows[j].old_id == pid);
                }
                assert(import_flags(rows, m)[i]);
            },
            None => {},
        }
        assert(unknown_parent_errors(rows, m) =~= unknown_parent_errors(rows, i));
        assert(order_errors(rows, m) =~= order_errors(rows, i));
    }
}

proof fn lemma_reimported_blocks(plan: &Plan, model: &Model, bs: Seq<WorkBlock>, rows: Seq<CsvRow>, next: u64, m: int)
    requires
        rows_carry(plan, model, bs, rows),
        rows_import_cleanly(rows),
        parents_first(bs),
        days_read_back(model, bs),
        0 <= m <= rows.len(),
    ensures
        imported_blocks(rows, m, next, &model.calendar) == Seq::new(m as nat, |k: int| reimported(bs, k, next)),
    decreases m,
{
    if m > 0 {
        let i = m - 1;
        lemma_reimported_blocks(plan, model, bs, rows, next, i);
        lemma_all_imported(rows, m);
        let flags = import_flags(rows, m);
        lemma_imported_before_all(flags, i);
        assert(rows[i].old_id == bs[i].id.0);
        lemma_day_reads_back(model, bs, i);
        match bs[i].parent {
            Some(p) => {
                assert(exists|j: int| 0 <= j < i && bs[j].id == p);
                let j = parent_position(bs, i, p);
                assert(0 <= j < i && bs[j].id == p);
                assert(rows[j].old_id == bs[j].id.0);
                lemma_latest_is_unique(rows, flags, i, p.0, j);
                lemma_imported_before_all(flags, j);
            },
            None => {},
        }
        assert(imported_blocks(rows, m, next, &model.calendar)
            =~= Seq::new(m as nat, |k: int| reimported(bs, k, next)));
    } else {
        assert(imported_blocks(rows, 0, next, &model.calendar) =~= Seq::new(0, |k: int| reimported(bs, k, next)));
    }
}

proof fn lemma_reimported_rows(plan: &Plan, model: &Model, bs: Seq<WorkBlock>, rows: Seq<CsvRow>, next: u64, m: int)
    requires
        rows_carry(plan, model, bs, rows),
        rows_import_cleanly(rows),
        next + rows.len() <= u64::MAX,
        0 <= m <= rows.len(),
    ensures
        forall|k: int| 0 <= k < m ==> #[trigger] imported_row(rows, m, next, WorkBlockId((next + k) as u64))
            == Some(plan.spec_row_of(bs[k].id)),
    decreases m,
{
    if m > 0 {
        let i = m - 1;
        lemma_reimported_rows(plan, model, bs, rows, next, i);
        lemma_all_imported(rows, m);
        let flags = import_flags(rows, m);
        lemma_imported_before_all(flags, i);
        assert(rows[i].old_id == bs[i].id.0);
        assert forall|k: int| 0 <= k < m implies #[trigger] imported_row(rows, m, next, WorkBlockId((next + k) as u64))
            == Some(plan.spec_row_of(bs[k].id)) by {
            if k < i {
                assert(WorkBlockId((next + k) as u64) != WorkBlockId((next + imported_before(flags, i)) as u64));
                assert(imported_row(rows, i, next, WorkBlockId((next + k) as u64)) == Some(plan.spec_row_of(bs[k].id)));
            }
        }
    }
}

proof fn lemma_reimported_row_names(plan: &Plan, model: &Model, bs: Seq<WorkBlock>, rows: Seq<CsvRow>, m: int)
    requires
        rows_carry(plan, model, bs, rows),
        rows_import_cleanly(rows),
        0 <= m <= rows.len(),
    ensures
        forall|k: int| 0 <= k < rows.len() ==> #[trigger] imported_row_name(rows, m, plan.spec_row_of(bs[k].id) as int)
            == if exists|j: int| 0 <= j < m && plan.spec_row_of(bs[j].id) == plan.spec_row_of(bs[k].id) {
                given_row_name(plan, plan.spec_row_of(bs[k].id) as int)
            } else {
                None
            },
    decreases m,
{
    if m > 0 {
        let i = m - 1;
        lemma_reimported_row_names(plan, model, bs, rows, i);
        lemma_all_imported(rows, m);
        assert(rows[i].old_id == bs[i].id.0);
        assert forall|k: int| 0 <= k < rows.len() implies #[trigger] imported_row_name(rows, m, plan.spec_row_of(bs[k].id) as int)
            == if exists|j: int| 0 <= j < m && plan.spec_row_of(bs[j].id) == plan.spec_row_of(bs[k].id) {
                given_row_name(plan, plan.spec_row_of(bs[k].id) as int)
            } else {
                None
            } by {
            let r = plan.spec_row_of(bs[k].id);
            assert(import_flags(rows, m)[i]);
            let before = imported_row_name(rows, i, r as int);
            assert(before == if exists|j: int| 0 <= j < i && plan.spec_row_of(bs[j].id) == r {
                given_row_name(plan, r as int)
            } else {
                None
            });
            assert(imported_row_name(rows, m, r as int) == if before is Some {
                before
            } else if rows[i].row == r && rows[i].row_name@.len() > 0 {
                Some(rows[i].row_name@)
            } else {
                None
            });
            assert(rows[i].row_name@ == match plan.spec_row_name(None, plan.spec_row_of(bs[i].id) as int) { Some(s) => s, None => Seq::empty() });
            if exists|j: int| 0 <= j < i && plan.spec_row_of(bs[j].id) == r {
                let j = choose|j: int| 0 <= j < i && plan.spec_row_of(bs[j].id) == r;
                assert(0 <= j < m && plan.spec_row_of(bs[j].id) == r);
            } else if plan.spec_row_of(bs[i].id) == r {
                assert(0 <= i < m && plan.spec_row_of(bs[i].id) == r);
            } else {
                assert forall|j: int| 0 <= j < m implies plan.spec_row_of(bs[j].id) != r by {
                    if j < i {
                        assert(!(0 <= j < i && plan.spec_row_of(bs[j].id) == r));
                    }
                }
            }
        }
    }
}

} // verus!
