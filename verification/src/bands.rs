//! Branch swimlanes: each branch plan is drawn as a lane stacked below the
//! main plan, holding its own top-level blocks. This module decides what
//! the lanes hold, in rows and days; turning rows into screen positions is
//! the view's.

use vstd::prelude::*;
use crate::model::{block_index, first_main, Day, Model, Plan, PlanId, WorkBlock, WorkBlockId};
use crate::sorting::{insert_sorted_by, lemma_insert_sorted_at, sort_by};

verus! {

/// The fewest rows a lane shows.
pub const MIN_LANE_ROWS: i64 = 2;

/// One block drawn in a branch lane; `owned` when main does not hold it
/// at its top level.
#[derive(Debug)]
pub struct LaneBlock {
    pub id: WorkBlockId,
    pub name: String,
    pub start_day: Day,
    pub duration_days: Day,
    pub row: i32,
    pub owned: bool,
}

/// One branch plan's lane: the plan, the day it forks at, its name, the
/// rows it shows and the blocks drawn in it.
#[derive(Debug)]
pub struct BandLane {
    pub plan_id: PlanId,
    pub fork_day: Day,
    pub name: String,
    pub rows: i64,
    pub blocks: Vec<LaneBlock>,
}

/// Block `id` exists and lasts at least a day.
pub open spec fn shown(blocks: Seq<WorkBlock>, id: WorkBlockId) -> bool {
    match block_index(blocks, id) {
        Some(i) => blocks[i].duration_days > 0,
        None => false,
    }
}

/// The block with id `id` (its first entry).
pub open spec fn block_of(blocks: Seq<WorkBlock>, id: WorkBlockId) -> WorkBlock {
    blocks[block_index(blocks, id).unwrap()]
}

/// A lane block as values: id, name, start, duration, row, owned.
pub open spec fn lane_block_view(b: LaneBlock) -> (WorkBlockId, Seq<char>, int, int, int, bool) {
    (b.id, b.name@, b.start_day as int, b.duration_days as int, b.row as int, b.owned)
}

/// What the lane of a plan with top-level blocks `roots` shows of block `id`.
pub open spec fn lane_entry(blocks: Seq<WorkBlock>, main_roots: Seq<WorkBlockId>, id: WorkBlockId) -> (WorkBlockId, Seq<char>, int, int, int, bool) {
    let b = block_of(blocks, id);
    (id, b.name@, b.start_day as int, b.duration_days as int, b.row as int, !main_roots.contains(id))
}

/// The blocks a lane shows: the plan's top-level blocks that exist and last
/// at least a day, in order.
pub open spec fn lane_entries(blocks: Seq<WorkBlock>, main_roots: Seq<WorkBlockId>, roots: Seq<WorkBlockId>) -> Seq<(WorkBlockId, Seq<char>, int, int, int, bool)> {
    roots.filter(|id: WorkBlockId| shown(blocks, id)).map_values(|id: WorkBlockId| lane_entry(blocks, main_roots, id))
}

/// The lowest row (largest index) among `entries`, and 0 when none is
/// lower than row 0.
pub open spec fn lowest_row(entries: Seq<(WorkBlockId, Seq<char>, int, int, int, bool)>) -> int
    decreases entries.len(),
{
    if entries.len() == 0 {
        0
    } else {
        let before = lowest_row(entries.drop_last());
        if entries.last().4 > before { entries.last().4 } else { before }
    }
}

/// The rows a lane shows: one past its lowest block, plus an empty row to
/// click a new block into; at least `MIN_LANE_ROWS`.
pub open spec fn lane_rows(entries: Seq<(WorkBlockId, Seq<char>, int, int, int, bool)>) -> int {
    let r = lowest_row(entries) + 2;
    if r > MIN_LANE_ROWS { r } else { MIN_LANE_ROWS as int }
}

/// Branches are laid out by plan id.
pub open spec fn plan_before() -> spec_fn(Plan, Plan) -> bool {
    |a: Plan, b: Plan| a.id.0 < b.id.0
}

/// The plans drawn as lanes: the branches other than main, by id.
pub open spec fn branch_plans(plans: Seq<Plan>, main: PlanId) -> Seq<Plan> {
    sort_by(plan_before(), plans.filter(|p: Plan| p.id != main && p.branch_start_day is Some))
}

/// The main plan's top-level blocks (none without a main plan).
pub open spec fn main_roots(model: Model) -> Seq<WorkBlockId> {
    match first_main(model.plans@) {
        Some(p) => model.plans@[p].root_blocks@,
        None => Seq::empty(),
    }
}

/// A lane as values: plan id, fork day, name, rows and blocks.
pub open spec fn band_view(b: BandLane) -> (PlanId, int, Seq<char>, int, Seq<(WorkBlockId, Seq<char>, int, int, int, bool)>) {
    (b.plan_id, b.fork_day as int, b.name@, b.rows as int, b.blocks@.map_values(|x: LaneBlock| lane_block_view(x)))
}

/// The lane of branch `pl`.
pub open spec fn lane_of(model: Model, pl: Plan) -> (PlanId, int, Seq<char>, int, Seq<(WorkBlockId, Seq<char>, int, int, int, bool)>) {
    let entries = lane_entries(model.work_blocks@, main_roots(model), pl.root_blocks@);
    (pl.id, pl.branch_start_day.unwrap() as int, pl.name@, lane_rows(entries), entries)
}

/// Whether `id` is among `ids`.
fn holds_id(ids: &Vec<WorkBlockId>, id: WorkBlockId) -> (r: bool)
    ensures
        r == ids@.contains(id),
{
    let mut i: usize = 0;
    while i < ids.len()
        invariant
            i <= ids@.len(),
            forall|j: int| 0 <= j < i ==> ids@[j] != id,
        decreases ids.len() - i,
    {
        if ids[i] == id {
            assert(ids@[i as int] == id);
            return true;
        }
        i += 1;
    }
    false
}

/// The lane of the plan at position `p`, main's top-level blocks being
/// `roots_of_main`.
fn lane_at(model: &Model, p: usize, roots_of_main: &Vec<WorkBlockId>) -> (r: BandLane)
    requires
        p < model.plans@.len(),
        model.plans@[p as int].branch_start_day is Some,
        roots_of_main@ == main_roots(*model),
    ensures
        band_view(r) == lane_of(*model, model.plans@[p as int]),
{
    let plan = &model.plans[p];
    let ghost blocks = model.work_blocks@;
    let ghost keep = |id: WorkBlockId| shown(blocks, id);
    let ghost entry = |id: WorkBlockId| lane_entry(blocks, main_roots(*model), id);
    let mut out: Vec<LaneBlock> = Vec::new();
    let mut max_row: i32 = 0;
    let mut i: usize = 0;
    assert(plan.root_blocks@.take(0) =~= Seq::<WorkBlockId>::empty());
    while i < plan.root_blocks.len()
        invariant
            i <= plan.root_blocks@.len(),
            plan == &model.plans@[p as int],
            blocks == model.work_blocks@,
            keep == (|id: WorkBlockId| shown(blocks, id)),
            entry == (|id: WorkBlockId| lane_entry(blocks, main_roots(*model), id)),
            roots_of_main@ == main_roots(*model),
            out@.map_values(|x: LaneBlock| lane_block_view(x))
                == plan.root_blocks@.take(i as int).filter(keep).map_values(entry),
            max_row == lowest_row(plan.root_blocks@.take(i as int).filter(keep).map_values(entry)),
        decreases plan.root_blocks.len() - i,
    {
        let id = plan.root_blocks[i];
        let ghost pre = plan.root_blocks@.take(i as int);
        proof {
            assert(plan.root_blocks@.take(i + 1) =~= pre.push(id));
            pre.lemma_filter_push(id, keep);
        }
        match model.block_position(id) {
            Some(b) => {
                let wb = &model.work_blocks[b];
                if wb.duration_days > 0 {
                    let owned = !holds_id(roots_of_main, id);
                    let ghost before = out@.map_values(|x: LaneBlock| lane_block_view(x));
                    let item = LaneBlock {
                        id,
                        name: wb.name.clone(),
                        start_day: wb.start_day,
                        duration_days: wb.duration_days,
                        row: wb.row,
                        owned,
                    };
                    out.push(item);
                    proof {
                        assert(block_of(blocks, id) == *wb);
                        assert(lane_block_view(item) == entry(id));
                        assert(out@.map_values(|x: LaneBlock| lane_block_view(x)) =~= before.push(entry(id)));
                        assert(pre.filter(keep).push(id).map_values(entry) =~= pre.filter(keep).map_values(entry).push(entry(id)));
                        assert(pre.filter(keep).map_values(entry).push(entry(id)).drop_last()
                            =~= pre.filter(keep).map_values(entry));
                    }
                    if wb.row > max_row {
                        max_row = wb.row;
                    }
                }
            },
            None => {},
        }
        i += 1;
    }
    assert(plan.root_blocks@.take(i as int) =~= plan.root_blocks@);
    let r: i64 = max_row as i64 + 2;
    let rows = if r > MIN_LANE_ROWS { r } else { MIN_LANE_ROWS };
    let fork = match plan.branch_start_day {
        Some(d) => d,
        None => 0,
    };
    BandLane { plan_id: plan.id, fork_day: fork, name: plan.name.clone(), rows, blocks: out }
}

/// The lanes below the main plan: one per branch other than main, by plan
/// id; none without a main plan.
pub fn band_lanes(model: &Model) -> (r: Vec<BandLane>)
    ensures
        r@.map_values(|b: BandLane| band_view(b)) == match first_main(model.plans@) {
            Some(m) => branch_plans(model.plans@, model.plans@[m].id).map_values(|pl: Plan| lane_of(*model, pl)),
            None => Seq::empty(),
        },
{
    let m = match model.main_plan_position() {
        Some(m) => m,
        None => {
            let r: Vec<BandLane> = Vec::new();
            assert(r@.map_values(|b: BandLane| band_view(b)) =~= Seq::empty());
            return r;
        },
    };
    let main_id = model.plans[m].id;
    let roots_of_main = &model.plans[m].root_blocks;
    let ghost plans = model.plans@;
    let ghost keep = |pl: Plan| pl.id != main_id && pl.branch_start_day is Some;
    let ghost lt = plan_before();
    // Positions of the branches, kept in lane order.
    let mut order: Vec<usize> = Vec::new();
    let mut i: usize = 0;
    assert(plans.take(0) =~= Seq::<Plan>::empty());
    assert(order@.map_values(|q: usize| plans[q as int]) =~= Seq::<Plan>::empty());
    while i < model.plans.len()
        invariant
            i <= plans.len(),
            plans == model.plans@,
            keep == (|pl: Plan| pl.id != main_id && pl.branch_start_day is Some),
            lt == plan_before(),
            forall|k: int| 0 <= k < order@.len() ==> (#[trigger] order@[k]) < plans.len()
                && plans[order@[k] as int].branch_start_day is Some,
            order@.map_values(|q: usize| plans[q as int]) == sort_by(lt, plans.take(i as int).filter(keep)),
        decreases plans.len() - i,
    {
        let ghost pre = plans.take(i as int);
        let ghost x = plans[i as int];
        proof {
            assert(plans.take(i + 1) =~= pre.push(x));
            pre.lemma_filter_push(x, keep);
        }
        if model.plans[i].id != main_id && model.plans[i].branch_start_day.is_some() {
            let ghost sorted = order@.map_values(|q: usize| plans[q as int]);
            let mut q: usize = 0;
            while q < order.len() && !(model.plans[i].id.0 < model.plans[order[q]].id.0)
                invariant
                    q <= order@.len(),
                    i < plans.len(),
                    plans == model.plans@,
                    lt == plan_before(),
                    x == plans[i as int],
                    sorted == order@.map_values(|q: usize| plans[q as int]),
                    forall|k: int| 0 <= k < order@.len() ==> (#[trigger] order@[k]) < plans.len(),
                    forall|j: int| 0 <= j < q ==> !lt(x, #[trigger] sorted[j]),
                decreases order.len() - q,
            {
                q += 1;
            }
            proof {
                lemma_insert_sorted_at(lt, x, sorted, q as int);
                assert(pre.filter(keep).push(x).drop_last() =~= pre.filter(keep));
            }
            order.insert(q, i);
            assert(order@.map_values(|q: usize| plans[q as int]) =~= sorted.take(q as int) + seq![x] + sorted.skip(q as int));
        }
        i += 1;
    }
    assert(plans.take(i as int) =~= plans);
    let ghost branches = order@.map_values(|q: usize| plans[q as int]);
    let mut out: Vec<BandLane> = Vec::new();
    let mut k: usize = 0;
    while k < order.len()
        invariant
            k <= order@.len(),
            plans == model.plans@,
            branches == order@.map_values(|q: usize| plans[q as int]),
            forall|j: int| 0 <= j < order@.len() ==> (#[trigger] order@[j]) < plans.len()
                && plans[order@[j] as int].branch_start_day is Some,
            roots_of_main@ == main_roots(*model),
            out@.map_values(|b: BandLane| band_view(b)) == branches.take(k as int).map_values(|pl: Plan| lane_of(*model, pl)),
        decreases order.len() - k,
    {
        let ghost before = out@.map_values(|b: BandLane| band_view(b));
        let lane = lane_at(model, order[k], roots_of_main);
        out.push(lane);
        proof {
            assert(branches[k as int] == plans[order@[k as int] as int]);
            assert(out@.map_values(|b: BandLane| band_view(b)) =~= before.push(band_view(lane)));
            assert(branches.take(k + 1).map_values(|pl: Plan| lane_of(*model, pl))
                =~= branches.take(k as int).map_values(|pl: Plan| lane_of(*model, pl)).push(lane_of(*model, branches[k as int])));
        }
        k += 1;
    }
    assert(branches.take(k as int) =~= branches);
    out
}

/// The lowest row (largest index, 0 or more) among the main plan's
/// top-level blocks that exist and last at least a day; the lanes start
/// below it. `None` when there is none.
pub fn main_bottom_row(model: &Model) -> (r: Option<i32>)
    ensures
        ({
            let rows = lane_entries(model.work_blocks@, main_roots(*model), main_roots(*model))
                .map_values(|e: (WorkBlockId, Seq<char>, int, int, int, bool)| e.4);
            match r {
                Some(v) => v >= 0 && rows.contains(v as int) && forall|j: int| 0 <= j < rows.len() ==> rows[j] <= v,
                None => forall|j: int| 0 <= j < rows.len() ==> rows[j] < 0,
            }
        }),
{
    let m = match model.main_plan_position() {
        Some(m) => m,
        None => return None,
    };
    let roots = &model.plans[m].root_blocks;
    let ghost blocks = model.work_blocks@;
    let ghost keep = |id: WorkBlockId| shown(blocks, id);
    let ghost row_of = |id: WorkBlockId| block_of(blocks, id).row as int;
    let ghost entry = |id: WorkBlockId| lane_entry(blocks, main_roots(*model), id);
    let mut best: Option<i32> = None;
    let mut i: usize = 0;
    assert(roots@.take(0) =~= Seq::<WorkBlockId>::empty());
    while i < roots.len()
        invariant
            i <= roots@.len(),
            roots@ == main_roots(*model),
            blocks == model.work_blocks@,
            keep == (|id: WorkBlockId| shown(blocks, id)),
            row_of == (|id: WorkBlockId| block_of(blocks, id).row as int),
            match best {
                Some(v) => v >= 0 && roots@.take(i as int).filter(keep).map_values(row_of).contains(v as int)
                    && forall|j: int| 0 <= j < roots@.take(i as int).filter(keep).len()
                        ==> #[trigger] roots@.take(i as int).filter(keep).map_values(row_of)[j] <= v,
                None => forall|j: int| 0 <= j < roots@.take(i as int).filter(keep).len()
                    ==> #[trigger] roots@.take(i as int).filter(keep).map_values(row_of)[j] < 0,
            },
        decreases roots.len() - i,
    {
        let id = roots[i];
        let ghost pre = roots@.take(i as int);
        proof {
            assert(roots@.take(i + 1) =~= pre.push(id));
            pre.lemma_filter_push(id, keep);
        }
        let ghost old_rows = pre.filter(keep).map_values(row_of);
        match model.block_position(id) {
            Some(b) => {
                let wb = &model.work_blocks[b];
                if wb.duration_days > 0 {
                    proof {
                        assert(block_of(blocks, id) == *wb);
                        assert(pre.filter(keep).push(id).map_values(row_of) =~= old_rows.push(wb.row as int));
                        let new_rows = old_rows.push(wb.row as int);
                        assert forall|j: int| 0 <= j < old_rows.len() implies new_rows[j] == old_rows[j] by {}
                        if let Some(v) = best {
                            let w = choose|w: int| 0 <= w < old_rows.len() && old_rows[w] == v as int;
                            assert(new_rows[w] == v as int);
                        }
                        assert(new_rows[old_rows.len() as int] == wb.row as int);
                    }
                    let better = match best {
                        Some(v) => wb.row > v,
                        None => wb.row >= 0,
                    };
                    if better {
                        best = Some(wb.row);
                    }
                } else {
                    assert(!keep(id));
                }
            },
            None => {
                assert(!keep(id));
            },
        }
        i += 1;
    }
    assert(roots@.take(i as int) =~= roots@);
    proof {
        let rows = lane_entries(blocks, main_roots(*model), main_roots(*model))
            .map_values(|e: (WorkBlockId, Seq<char>, int, int, int, bool)| e.4);
        assert(rows =~= roots@.filter(keep).map_values(row_of));
    }
    best
}

} // verus!
