//! Pasting copied blocks into a plan as new blocks.

use vstd::prelude::*;
use crate::edits::push_unique;
use crate::model::{
    is_new_block, lemma_plan_index, lemma_plan_index_same_ids, plan_index, same_but_rows, Dependency, DependencyId,
    Model, PlanId, WorkBlock, WorkBlockId,
};

verus! {

/// Index of the last clipboard entry holding block `id`.
pub open spec fn last_copy(cb: Seq<(WorkBlock, i32)>, id: WorkBlockId) -> Option<int>
    decreases cb.len(),
{
    if cb.len() == 0 {
        None
    } else if cb.last().0.id == id {
        Some(cb.len() - 1)
    } else {
        last_copy(cb.drop_last(), id)
    }
}

pub proof fn lemma_last_copy(cb: Seq<(WorkBlock, i32)>, id: WorkBlockId)
    ensures
        match last_copy(cb, id) {
            Some(k) => 0 <= k < cb.len() && cb[k].0.id == id && forall|j: int| k < j < cb.len() ==> cb[j].0.id != id,
            None => forall|j: int| 0 <= j < cb.len() ==> cb[j].0.id != id,
        },
    decreases cb.len(),
{
    if cb.len() > 0 && cb.last().0.id != id {
        lemma_last_copy(cb.drop_last(), id);
        assert forall|j: int| 0 <= j < cb.len() - 1 implies cb.drop_last()[j] == cb[j] by {}
    }
}

/// The id a paste gives to copied block `id`: new ids are handed out from
/// `base` in clipboard order, and a block copied twice takes its last copy's.
pub open spec fn pasted_id(cb: Seq<(WorkBlock, i32)>, base: int, id: WorkBlockId) -> Option<WorkBlockId> {
    match last_copy(cb, id) {
        Some(k) => Some(WorkBlockId((base + k) as u64)),
        None => None,
    }
}

/// The smallest start day on the clipboard (0 when it is empty).
pub open spec fn min_start_day(cb: Seq<(WorkBlock, i32)>) -> int
    decreases cb.len(),
{
    if cb.len() == 0 {
        0
    } else if cb.len() == 1 {
        cb[0].0.start_day as int
    } else {
        let m = min_start_day(cb.drop_last());
        if cb.last().0.start_day < m { cb.last().0.start_day as int } else { m }
    }
}

/// The smallest row on the clipboard (0 when it is empty).
pub open spec fn min_clip_row(cb: Seq<(WorkBlock, i32)>) -> int
    decreases cb.len(),
{
    if cb.len() == 0 {
        0
    } else if cb.len() == 1 {
        cb[0].1 as int
    } else {
        let m = min_clip_row(cb.drop_last());
        if cb.last().1 < m { cb.last().1 as int } else { m }
    }
}

proof fn lemma_min_start_day(cb: Seq<(WorkBlock, i32)>)
    ensures
        cb.len() > 0 ==> exists|j: int| 0 <= j < cb.len() && min_start_day(cb) == cb[j].0.start_day,
        forall|j: int| 0 <= j < cb.len() ==> min_start_day(cb) <= cb[j].0.start_day,
    decreases cb.len(),
{
    if cb.len() > 1 {
        lemma_min_start_day(cb.drop_last());
        assert forall|j: int| 0 <= j < cb.len() - 1 implies cb.drop_last()[j] == cb[j] by {}
        if cb.last().0.start_day >= min_start_day(cb.drop_last()) {
            let w = choose|j: int| 0 <= j < cb.len() - 1 && min_start_day(cb.drop_last()) == cb.drop_last()[j].0.start_day;
            assert(min_start_day(cb) == cb[w].0.start_day);
        } else {
            assert(min_start_day(cb) == cb[cb.len() - 1].0.start_day);
        }
    } else if cb.len() == 1 {
        assert(min_start_day(cb) == cb[0].0.start_day);
    }
}

proof fn lemma_min_clip_row(cb: Seq<(WorkBlock, i32)>)
    ensures
        cb.len() > 0 ==> exists|j: int| 0 <= j < cb.len() && min_clip_row(cb) == cb[j].1,
        forall|j: int| 0 <= j < cb.len() ==> min_clip_row(cb) <= cb[j].1,
    decreases cb.len(),
{
    if cb.len() > 1 {
        lemma_min_clip_row(cb.drop_last());
        assert forall|j: int| 0 <= j < cb.len() - 1 implies cb.drop_last()[j] == cb[j] by {}
        if cb.last().1 >= min_clip_row(cb.drop_last()) {
            let w = choose|j: int| 0 <= j < cb.len() - 1 && min_clip_row(cb.drop_last()) == cb.drop_last()[j].1;
            assert(min_clip_row(cb) == cb[w].1);
        } else {
            assert(min_clip_row(cb) == cb[cb.len() - 1].1);
        }
    } else if cb.len() == 1 {
        assert(min_clip_row(cb) == cb[0].1);
    }
}

/// Whether entry `j` lands at the top level of the plan: it has no parent,
/// or its parent was not copied.
pub open spec fn pasted_at_top(cb: Seq<(WorkBlock, i32)>, j: int) -> bool {
    match cb[j].0.parent {
        None => true,
        Some(p) => last_copy(cb, p) is None,
    }
}

/// The plan's top-level blocks after the first `i` entries are pasted: each
/// entry that lands at the top level adds its new id, once.
pub open spec fn roots_after_paste(roots: Seq<WorkBlockId>, cb: Seq<(WorkBlock, i32)>, base: int, i: int) -> Seq<WorkBlockId>
    decreases i,
{
    if i <= 0 {
        roots
    } else {
        let acc = roots_after_paste(roots, cb, base, i - 1);
        let id = WorkBlockId((base + last_copy(cb, cb[i - 1].0.id).unwrap()) as u64);
        if pasted_at_top(cb, i - 1) && !acc.contains(id) { acc.push(id) } else { acc }
    }
}

/// The dependencies a paste creates from the first `i` copied ones: those
/// whose two ends were both copied, between the copies, with fresh ids
/// following the new blocks' ids.
pub open spec fn pasted_deps(cb: Seq<(WorkBlock, i32)>, deps: Seq<Dependency>, base: int, plan_id: PlanId, i: int) -> Seq<Dependency>
    decreases i,
{
    if i <= 0 {
        Seq::empty()
    } else {
        let acc = pasted_deps(cb, deps, base, plan_id, i - 1);
        let d = deps[i - 1];
        match (pasted_id(cb, base, d.predecessor), pasted_id(cb, base, d.successor)) {
            (Some(p), Some(s)) => acc.push(Dependency {
                id: DependencyId((base + cb.len() + acc.len()) as u64),
                plan_id,
                predecessor: p,
                successor: s,
                dependency_type: d.dependency_type,
                lag: 0,
            }),
            _ => acc,
        }
    }
}

proof fn lemma_pasted_deps_len(cb: Seq<(WorkBlock, i32)>, deps: Seq<Dependency>, base: int, plan_id: PlanId, i: int)
    ensures
        pasted_deps(cb, deps, base, plan_id, i).len() <= if i < 0 { 0 } else { i },
    decreases i,
{
    if i > 0 {
        lemma_pasted_deps_len(cb, deps, base, plan_id, i - 1);
    }
}

/// Law: every dependency a paste makes copies a clipboard dependency,
/// running from the copy of its predecessor to the copy of its successor
/// (the new block made for a clipboard entry holding that block), with its
/// type, in the paste's plan.
pub proof fn lemma_pasted_deps_follow_clipboard(cb: Seq<(WorkBlock, i32)>, deps: Seq<Dependency>, base: int, plan_id: PlanId, n: int)
    requires
        0 <= n <= deps.len(),
    ensures
        forall|t: int| #![trigger pasted_deps(cb, deps, base, plan_id, n)[t]]
            0 <= t < pasted_deps(cb, deps, base, plan_id, n).len() ==> exists|k: int, a: int, b: int|
            #![trigger deps[k], cb[a], cb[b]]
            0 <= k < n && 0 <= a < cb.len() && 0 <= b < cb.len()
                && cb[a].0.id == deps[k].predecessor && cb[b].0.id == deps[k].successor
                && pasted_deps(cb, deps, base, plan_id, n)[t].predecessor == WorkBlockId((base + a) as u64)
                && pasted_deps(cb, deps, base, plan_id, n)[t].successor == WorkBlockId((base + b) as u64)
                && pasted_deps(cb, deps, base, plan_id, n)[t].dependency_type == deps[k].dependency_type
                && pasted_deps(cb, deps, base, plan_id, n)[t].plan_id == plan_id,
    decreases n,
{
    if n > 0 {
        lemma_pasted_deps_follow_clipboard(cb, deps, base, plan_id, n - 1);
        let acc = pasted_deps(cb, deps, base, plan_id, n - 1);
        let all = pasted_deps(cb, deps, base, plan_id, n);
        let d = deps[n - 1];
        lemma_last_copy(cb, d.predecessor);
        lemma_last_copy(cb, d.successor);
        assert forall|t: int| #![trigger all[t]] 0 <= t < all.len() implies exists|k: int, a: int, b: int|
            #![trigger deps[k], cb[a], cb[b]]
            0 <= k < n && 0 <= a < cb.len() && 0 <= b < cb.len()
                && cb[a].0.id == deps[k].predecessor && cb[b].0.id == deps[k].successor
                && all[t].predecessor == WorkBlockId((base + a) as u64)
                && all[t].successor == WorkBlockId((base + b) as u64)
                && all[t].dependency_type == deps[k].dependency_type
                && all[t].plan_id == plan_id by {
            if t < acc.len() {
                assert(all[t] == acc[t]);
                let (k, a, b) = choose|k: int, a: int, b: int|
                    #![trigger deps[k], cb[a], cb[b]]
                    0 <= k < n - 1 && 0 <= a < cb.len() && 0 <= b < cb.len()
                        && cb[a].0.id == deps[k].predecessor && cb[b].0.id == deps[k].successor
                        && acc[t].predecessor == WorkBlockId((base + a) as u64)
                        && acc[t].successor == WorkBlockId((base + b) as u64)
                        && acc[t].dependency_type == deps[k].dependency_type
                        && acc[t].plan_id == plan_id;
                assert(0 <= k < n);
            } else {
                let a = last_copy(cb, d.predecessor).unwrap();
                let b = last_copy(cb, d.successor).unwrap();
                assert(cb[a].0.id == deps[n - 1].predecessor);
            }
        }
    }
}

/// The new block made for entry `j`: its id is `base + j` and it carries the
/// entry's name; when `j` is the last entry for its block it is a copy of
/// it, moved so that the earliest copied block starts on `paste_day`, with
/// its parent mapped to the parent's copy; otherwise it stays bare.
pub open spec fn pasted_block_ok(b: WorkBlock, cb: Seq<(WorkBlock, i32)>, base: int, j: int, paste_day: int) -> bool {
    let src = cb[j].0;
    &&& b.id == WorkBlockId((base + j) as u64)
    &&& b.name@ == src.name@
    &&& if last_copy(cb, src.id) == Some(j) {
        &&& b.parent == match src.parent {
            Some(p) => pasted_id(cb, base, p),
            None => None,
        }
        &&& b.start_day == paste_day + (src.start_day - min_start_day(cb))
        &&& b.duration_days == src.duration_days
        &&& b.row == 0
        &&& b.description == src.description
        &&& b.priority == src.priority
        &&& b.t_shirt_size == src.t_shirt_size
        &&& b.rollup == src.rollup
    } else {
        is_new_block(b, WorkBlockId((base + j) as u64), src.name@)
    }
}

/// The row a paste gives to block `x`, when `x` is the copy of a last entry:
/// rows keep their distances, the smallest landing on `paste_row`.
pub open spec fn pasted_row(cb: Seq<(WorkBlock, i32)>, base: int, paste_row: int, x: WorkBlockId) -> Option<int> {
    let k = x.0 - base;
    if 0 <= k < cb.len() && last_copy(cb, cb[k].0.id) == Some(k) {
        Some(paste_row + (cb[k].1 - min_clip_row(cb)))
    } else {
        None
    }
}

/// The index of the last clipboard entry holding block `id`.
fn last_copy_index(cb: &[(WorkBlock, i32)], id: WorkBlockId) -> (r: Option<usize>)
    ensures
        match r {
            Some(k) => last_copy(cb@, id) == Some(k as int),
            None => last_copy(cb@, id) is None,
        },
{
    let mut i: usize = cb.len();
    assert(cb@.take(i as int) =~= cb@);
    while i > 0
        invariant
            i <= cb@.len(),
            last_copy(cb@, id) == last_copy(cb@.take(i as int), id),
        decreases i,
    {
        let ghost pre = cb@.take(i as int);
        assert(pre.drop_last() =~= cb@.take(i - 1));
        assert(pre.last() == cb@[i - 1]);
        if cb[i - 1].0.id == id {
            return Some(i - 1);
        }
        i -= 1;
    }
    None
}

/// Adds `id` to the top level of plan `plan_id` unless it is there already
/// (nothing when the plan is unknown).
fn add_root_once(model: &mut Model, plan_id: PlanId, id: WorkBlockId)
    requires
        old(model).wf(),
    ensures
        final(model).wf(),
        final(model).work_blocks == old(model).work_blocks,
        final(model).dependencies == old(model).dependencies,
        final(model).resource_blocks == old(model).resource_blocks,
        final(model).calendar == old(model).calendar,
        final(model).t_shirt_sizes == old(model).t_shirt_sizes,
        final(model).next_id == old(model).next_id,
        final(model).plans@.len() == old(model).plans@.len(),
        forall|q: int| 0 <= q < old(model).plans@.len() ==> (#[trigger] final(model).plans@[q]).id == old(model).plans@[q].id,
        forall|q: int| 0 <= q < old(model).plans@.len() && Some(q) != plan_index(old(model).plans@, plan_id)
            ==> #[trigger] final(model).plans@[q] == old(model).plans@[q],
        forall|pid: PlanId, x: WorkBlockId| #[trigger] final(model).spec_block_row(pid, x) == old(model).spec_block_row(pid, x),
        forall|pid: PlanId, x: WorkBlockId| #[trigger] final(model).spec_block_row_entry(pid, x) == old(model).spec_block_row_entry(pid, x),
        plan_index(old(model).plans@, plan_id) matches Some(p) ==> {
            let a = final(model).plans@[p];
            let b = old(model).plans@[p];
            &&& a.id == b.id
            &&& a.name == b.name
            &&& a.block_rows == b.block_rows
            &&& a.row_names == b.row_names
            &&& a.branch_start_day == b.branch_start_day
            &&& a.allocations == b.allocations
            &&& a.root_blocks@ == if b.root_blocks@.contains(id) { b.root_blocks@ } else { b.root_blocks@.push(id) }
        },
{
    match model.plan_position(plan_id) {
        Some(p) => {
            let ghost before = model.plans@;
            let mut plan = model.plans.remove(p);
            push_unique(&mut plan.root_blocks, id);
            model.plans.insert(p, plan);
            proof {
                assert(model.plans@ =~= before.update(p as int, plan));
                lemma_plan_index(before, plan_id);
                assert forall|q: int| 0 <= q < model.plans@.len() implies (#[trigger] model.plans@[q]).id.0 < model.next_id by {
                    if q != p {
                        assert(model.plans@[q] == before[q]);
                    }
                }
                assert forall|pid: PlanId, x: WorkBlockId| #[trigger] model.spec_block_row(pid, x) == old(model).spec_block_row(pid, x) by {
                    lemma_plan_index_same_ids(before, model.plans@, pid);
                    lemma_plan_index(before, pid);
                }
                assert forall|pid: PlanId, x: WorkBlockId| #[trigger] model.spec_block_row_entry(pid, x) == old(model).spec_block_row_entry(pid, x) by {
                    lemma_plan_index_same_ids(before, model.plans@, pid);
                    lemma_plan_index(before, pid);
                }
            }
        },
        None => {},
    }
}

/// Pastes the clipboard `cb_blocks` (each block with its row) and
/// `cb_deps` into plan `plan_id` as new blocks: every entry gets a new
/// block, the copies keep their day and row distances with the earliest
/// landing on `paste_day` and the topmost on `paste_row`, parent links and
/// dependencies among copied blocks are carried over to the copies, and
/// dependencies reaching outside the clipboard are dropped. Returns the new
/// ids in clipboard order.
pub fn paste_clipboard(
    model: &mut Model,
    plan_id: PlanId,
    cb_blocks: &[(WorkBlock, i32)],
    cb_deps: &[Dependency],
    paste_day: i32,
    paste_row: i32,
) -> (r: Vec<WorkBlockId>)
    requires
        old(model).wf(),
        old(model).next_id + cb_blocks@.len() + cb_deps@.len() < u64::MAX,
        forall|j: int| 0 <= j < cb_blocks@.len() ==> {
            &&& #[trigger] cb_blocks@[j].0.start_day - min_start_day(cb_blocks@) <= i32::MAX
            &&& paste_day + (cb_blocks@[j].0.start_day - min_start_day(cb_blocks@)) <= i32::MAX
            &&& cb_blocks@[j].1 - min_clip_row(cb_blocks@) <= i32::MAX
            &&& paste_row + (cb_blocks@[j].1 - min_clip_row(cb_blocks@)) <= i32::MAX
        },
    ensures
        ({
            let cb = cb_blocks@;
            let base = old(model).next_id as int;
            let n = cb.len();
            let nb = old(model).work_blocks@.len();
            let new_deps = pasted_deps(cb, cb_deps@, base, plan_id, cb_deps@.len() as int);
            &&& final(model).wf()
            &&& r@.len() == n
            &&& forall|j: int| 0 <= j < n ==> #[trigger] r@[j] == pasted_id(cb, base, cb[j].0.id).unwrap()
            &&& final(model).next_id == base + n + new_deps.len()
            &&& final(model).work_blocks@.len() == nb + n
            &&& final(model).work_blocks@.take(nb as int) == old(model).work_blocks@
            &&& forall|j: int| 0 <= j < n ==> pasted_block_ok(#[trigger] final(model).work_blocks@[nb + j], cb, base, j, paste_day as int)
            &&& final(model).dependencies@ == old(model).dependencies@ + new_deps
            &&& forall|t: int| #![trigger final(model).dependencies@[t]]
                old(model).dependencies@.len() <= t < final(model).dependencies@.len() ==> exists|k: int, a: int, b: int|
                #![trigger cb_deps@[k], cb[a], cb[b]]
                0 <= k < cb_deps@.len() && 0 <= a < n && 0 <= b < n
                    && cb[a].0.id == cb_deps@[k].predecessor && cb[b].0.id == cb_deps@[k].successor
                    && final(model).dependencies@[t].predecessor == WorkBlockId((base + a) as u64)
                    && final(model).dependencies@[t].successor == WorkBlockId((base + b) as u64)
                    && final(model).dependencies@[t].dependency_type == cb_deps@[k].dependency_type
                    && final(model).dependencies@[t].plan_id == plan_id
            &&& final(model).resource_blocks == old(model).resource_blocks
            &&& final(model).calendar == old(model).calendar
            &&& final(model).t_shirt_sizes == old(model).t_shirt_sizes
            &&& final(model).plans@.len() == old(model).plans@.len()
            &&& forall|q: int| 0 <= q < old(model).plans@.len() && Some(q) != plan_index(old(model).plans@, plan_id)
                ==> #[trigger] final(model).plans@[q] == old(model).plans@[q]
            &&& plan_index(old(model).plans@, plan_id) matches Some(p) ==> {
                &&& final(model).plans@[p].id == old(model).plans@[p].id
                &&& final(model).plans@[p].name == old(model).plans@[p].name
                &&& final(model).plans@[p].row_names == old(model).plans@[p].row_names
                &&& final(model).plans@[p].branch_start_day == old(model).plans@[p].branch_start_day
                &&& final(model).plans@[p].allocations == old(model).plans@[p].allocations
                &&& final(model).plans@[p].root_blocks@ == roots_after_paste(old(model).plans@[p].root_blocks@, cb, base, n as int)
            }
            &&& forall|pid: PlanId, x: WorkBlockId| #![trigger final(model).spec_block_row(pid, x)]
                final(model).spec_block_row(pid, x) as int == if pid == plan_id && plan_index(old(model).plans@, plan_id) is Some
                    && pasted_row(cb, base, paste_row as int, x) is Some {
                    pasted_row(cb, base, paste_row as int, x).unwrap()
                } else {
                    old(model).spec_block_row(pid, x) as int
                }
            &&& forall|pid: PlanId, x: WorkBlockId| #![trigger final(model).spec_block_row_entry(pid, x)]
                final(model).spec_block_row_entry(pid, x) == if pid == plan_id && plan_index(old(model).plans@, plan_id) is Some
                    && pasted_row(cb, base, paste_row as int, x) is Some {
                    Some(pasted_row(cb, base, paste_row as int, x).unwrap() as i32)
                } else {
                    old(model).spec_block_row_entry(pid, x)
                }
        }),
{
    let n = cb_blocks.len();
    let ghost cb = cb_blocks@;
    // The earliest start and the topmost row.
    let mut min_start: i32 = 0;
    let mut min_row: i32 = 0;
    let mut i: usize = 0;
    assert(cb.take(0) =~= Seq::<(WorkBlock, i32)>::empty());
    while i < n
        invariant
            n == cb.len(),
            cb == cb_blocks@,
            i <= n,
            min_start == min_start_day(cb.take(i as int)),
            min_row == min_clip_row(cb.take(i as int)),
        decreases n - i,
    {
        assert(cb.take(i + 1).drop_last() =~= cb.take(i as int));
        assert(cb.take(i + 1).last() == cb[i as int]);
        if i == 0 || cb_blocks[i].0.start_day < min_start {
            min_start = cb_blocks[i].0.start_day;
        }
        if i == 0 || cb_blocks[i].1 < min_row {
            min_row = cb_blocks[i].1;
        }
        i += 1;
    }
    assert(cb.take(n as int) =~= cb);
    proof {
        lemma_min_start_day(cb);
        lemma_min_clip_row(cb);
    }
    // A fresh block for every entry.
    let base = model.next_id;
    let nb = model.work_blocks.len();
    let mut j: usize = 0;
    while j < n
        invariant
            n == cb.len(),
            cb == cb_blocks@,
            j <= n,
            model.wf(),
            base == old(model).next_id,
            model.next_id == base + j,
            base + n + cb_deps@.len() < u64::MAX,
            nb == old(model).work_blocks@.len(),
            model.work_blocks@.len() == nb + j,
            model.work_blocks@.take(nb as int) == old(model).work_blocks@,
            forall|k: int| 0 <= k < j ==> is_new_block(#[trigger] model.work_blocks@[nb + k], WorkBlockId((base + k) as u64), cb[k].0.name@),
            model.dependencies == old(model).dependencies,
            model.plans == old(model).plans,
            model.resource_blocks == old(model).resource_blocks,
            model.calendar == old(model).calendar,
            model.t_shirt_sizes == old(model).t_shirt_sizes,
        decreases n - j,
    {
        let ghost before = model.work_blocks@;
        model.create_work_block(cb_blocks[j].0.name.as_str());
        assert(model.work_blocks@.take(nb as int) =~= before.take(nb as int));
        assert forall|k: int| 0 <= k < j + 1 implies is_new_block(#[trigger] model.work_blocks@[nb + k], WorkBlockId((base + k) as u64), cb[k].0.name@) by {
            if k < j {
                assert(model.work_blocks@[nb + k] == before[nb + k]);
            }
        }
        j += 1;
    }
    // Fill in the copies, place them, and collect their ids.
    let ghost created = model.work_blocks@;
    let ghost plans0 = model.plans@;
    let mut new_ids: Vec<WorkBlockId> = Vec::new();
    let mut j: usize = 0;
    while j < n
        invariant
            n == cb.len(),
            cb == cb_blocks@,
            j <= n,
            model.wf(),
            base == old(model).next_id,
            model.next_id == base + n,
            base + n + cb_deps@.len() < u64::MAX,
            nb == old(model).work_blocks@.len(),
            min_start == min_start_day(cb),
            min_row == min_clip_row(cb),
            forall|k: int| 0 <= k < n ==> min_start_day(cb) <= (#[trigger] cb[k]).0.start_day && min_clip_row(cb) <= cb[k].1,
            forall|k: int| 0 <= k < n ==> {
                &&& #[trigger] cb[k].0.start_day - min_start_day(cb) <= i32::MAX
                &&& paste_day + (cb[k].0.start_day - min_start_day(cb)) <= i32::MAX
                &&& cb[k].1 - min_clip_row(cb) <= i32::MAX
                &&& paste_row + (cb[k].1 - min_clip_row(cb)) <= i32::MAX
            },
            created.len() == nb + n,
            model.work_blocks@.len() == nb + n,
            model.work_blocks@.take(nb as int) == old(model).work_blocks@,
            forall|k: int| 0 <= k < n ==> is_new_block(#[trigger] created[nb + k], WorkBlockId((base + k) as u64), cb[k].0.name@),
            forall|k: int| 0 <= k < j ==> pasted_block_ok(#[trigger] model.work_blocks@[nb + k], cb, base as int, k, paste_day as int),
            forall|k: int| j <= k < n ==> #[trigger] model.work_blocks@[nb + k] == created[nb + k],
            new_ids@.len() == j,
            forall|k: int| 0 <= k < j ==> #[trigger] new_ids@[k] == pasted_id(cb, base as int, cb[k].0.id).unwrap(),
            model.dependencies == old(model).dependencies,
            model.resource_blocks == old(model).resource_blocks,
            model.calendar == old(model).calendar,
            model.t_shirt_sizes == old(model).t_shirt_sizes,
            plans0 == old(model).plans@,
            model.plans@.len() == plans0.len(),
            forall|q: int| 0 <= q < plans0.len() ==> (#[trigger] model.plans@[q]).id == plans0[q].id,
            forall|q: int| 0 <= q < plans0.len() && Some(q) != plan_index(plans0, plan_id) ==> #[trigger] model.plans@[q] == plans0[q],
            plan_index(plans0, plan_id) matches Some(p) ==> {
                &&& model.plans@[p].id == plans0[p].id
                &&& model.plans@[p].name == plans0[p].name
                &&& model.plans@[p].row_names == plans0[p].row_names
                &&& model.plans@[p].branch_start_day == plans0[p].branch_start_day
                &&& model.plans@[p].allocations == plans0[p].allocations
                &&& model.plans@[p].root_blocks@ == roots_after_paste(plans0[p].root_blocks@, cb, base as int, j as int)
            },
            forall|pid: PlanId, x: WorkBlockId| #![trigger model.spec_block_row(pid, x)]
                model.spec_block_row(pid, x) as int == if pid == plan_id && plan_index(plans0, plan_id) is Some
                    && pasted_row(cb, base as int, paste_row as int, x) is Some && x.0 - base < j {
                    pasted_row(cb, base as int, paste_row as int, x).unwrap()
                } else {
                    old(model).spec_block_row(pid, x) as int
                },
            forall|pid: PlanId, x: WorkBlockId| #![trigger model.spec_block_row_entry(pid, x)]
                model.spec_block_row_entry(pid, x) == if pid == plan_id && plan_index(plans0, plan_id) is Some
                    && pasted_row(cb, base as int, paste_row as int, x) is Some && x.0 - base < j {
                    Some(pasted_row(cb, base as int, paste_row as int, x).unwrap() as i32)
                } else {
                    old(model).spec_block_row_entry(pid, x)
                },
        decreases n - j,
    {
        let src = &cb_blocks[j].0;
        proof {
            lemma_last_copy(cb, src.id);
            lemma_plan_index(plans0, plan_id);
        }
        let k = match last_copy_index(cb_blocks, src.id) {
            Some(k) => k,
            None => {
                assert(false);
                0
            },
        };
        assert(j <= k < n);
        let new_id = WorkBlockId(base + k as u64);
        let top = match src.parent {
            Some(p) => last_copy_index(cb_blocks, p).is_none(),
            None => true,
        };
        assert(top == pasted_at_top(cb, j as int));
        let ghost ms = *model;
        if k == j {
            let parent = match src.parent {
                Some(p) => match last_copy_index(cb_blocks, p) {
                    Some(q) => {
                        proof {
                            lemma_last_copy(cb, p);
                        }
                        Some(WorkBlockId(base + q as u64))
                    },
                    None => None,
                },
                None => None,
            };
            let total = model.work_blocks.len();
            let idx = nb + j;
            let ghost before = model.work_blocks@;
            let start: i32 = paste_day + (src.start_day - min_start);
            model.work_blocks[idx].parent = parent;
            model.work_blocks[idx].start_day = start;
            model.work_blocks[idx].duration_days = src.duration_days;
            model.work_blocks[idx].description = src.description.clone();
            model.work_blocks[idx].priority = src.priority;
            model.work_blocks[idx].t_shirt_size = match &src.t_shirt_size {
                Some(s) => Some(s.clone()),
                None => None,
            };
            model.work_blocks[idx].rollup = src.rollup;
            proof {
                assert forall|q: int| 0 <= q < model.work_blocks@.len() && q != idx implies #[trigger] model.work_blocks@[q] == before[q] by {}
                assert(model.work_blocks@.take(nb as int) =~= before.take(nb as int));
                assert forall|q: int| 0 <= q < model.work_blocks@.len() implies (#[trigger] model.work_blocks@[q]).id.0 < model.next_id by {
                    if q != idx {
                        assert(model.work_blocks@[q] == before[q]);
                    }
                }
                assert(pasted_block_ok(model.work_blocks@[nb + j], cb, base as int, j as int, paste_day as int));
            }
            let row: i32 = paste_row + (cb_blocks[j].1 - min_row);
            let ghost m0 = *model;
            model.set_block_row(plan_id, new_id, row);
            proof {
                lemma_plan_index_same_ids(plans0, m0.plans@, plan_id);
                assert forall|q: int| 0 <= q < model.plans@.len() && Some(q) != plan_index(plans0, plan_id)
                    implies #[trigger] model.plans@[q] == plans0[q] by {
                    assert(same_but_rows(model.plans@[q], m0.plans@[q]));
                    assert(model.plans@[q].block_rows == m0.plans@[q].block_rows);
                }
                assert forall|q: int| 0 <= q < plans0.len() implies (#[trigger] model.plans@[q]).id == plans0[q].id by {
                    assert(same_but_rows(model.plans@[q], m0.plans@[q]));
                }
                assert forall|pid: PlanId, x: WorkBlockId| #![trigger model.spec_block_row(pid, x)]
                    model.spec_block_row(pid, x) as int == if pid == plan_id && plan_index(plans0, plan_id) is Some
                        && pasted_row(cb, base as int, paste_row as int, x) is Some && x.0 - base < j + 1 {
                        pasted_row(cb, base as int, paste_row as int, x).unwrap()
                    } else {
                        old(model).spec_block_row(pid, x) as int
                    } by {
                    assert(m0.spec_block_row(pid, x) == ms.spec_block_row(pid, x));
                }
                assert forall|pid: PlanId, x: WorkBlockId| #![trigger model.spec_block_row_entry(pid, x)]
                    model.spec_block_row_entry(pid, x) == if pid == plan_id && plan_index(plans0, plan_id) is Some
                        && pasted_row(cb, base as int, paste_row as int, x) is Some && x.0 - base < j + 1 {
                        Some(pasted_row(cb, base as int, paste_row as int, x).unwrap() as i32)
                    } else {
                        old(model).spec_block_row_entry(pid, x)
                    } by {
                    assert(m0.spec_block_row_entry(pid, x) == ms.spec_block_row_entry(pid, x));
                }
            }
        } else {
            proof {
                assert(last_copy(cb, cb[j as int].0.id) != Some(j as int));
                assert forall|pid: PlanId, x: WorkBlockId| #![trigger model.spec_block_row(pid, x)]
                    model.spec_block_row(pid, x) as int == if pid == plan_id && plan_index(plans0, plan_id) is Some
                        && pasted_row(cb, base as int, paste_row as int, x) is Some && x.0 - base < j + 1 {
                        pasted_row(cb, base as int, paste_row as int, x).unwrap()
                    } else {
                        old(model).spec_block_row(pid, x) as int
                    } by {
                    assert(model.spec_block_row(pid, x) == ms.spec_block_row(pid, x));
                }
                assert forall|pid: PlanId, x: WorkBlockId| #![trigger model.spec_block_row_entry(pid, x)]
                    model.spec_block_row_entry(pid, x) == if pid == plan_id && plan_index(plans0, plan_id) is Some
                        && pasted_row(cb, base as int, paste_row as int, x) is Some && x.0 - base < j + 1 {
                        Some(pasted_row(cb, base as int, paste_row as int, x).unwrap() as i32)
                    } else {
                        old(model).spec_block_row_entry(pid, x)
                    } by {
                    assert(model.spec_block_row_entry(pid, x) == ms.spec_block_row_entry(pid, x));
                }
            }
        }
        let ghost m1 = *model;
        if top {
            proof {
                lemma_plan_index_same_ids(plans0, m1.plans@, plan_id);
            }
            add_root_once(model, plan_id, new_id);
        }
        proof {
            lemma_plan_index_same_ids(plans0, model.plans@, plan_id);
            assert(new_id == pasted_id(cb, base as int, cb[j as int].0.id).unwrap());
            assert forall|pid: PlanId, x: WorkBlockId| #![trigger model.spec_block_row(pid, x)]
                model.spec_block_row(pid, x) as int == if pid == plan_id && plan_index(plans0, plan_id) is Some
                    && pasted_row(cb, base as int, paste_row as int, x) is Some && x.0 - base < j + 1 {
                    pasted_row(cb, base as int, paste_row as int, x).unwrap()
                } else {
                    old(model).spec_block_row(pid, x) as int
                } by {
                assert(model.spec_block_row(pid, x) == m1.spec_block_row(pid, x));
            }
            assert forall|pid: PlanId, x: WorkBlockId| #![trigger model.spec_block_row_entry(pid, x)]
                model.spec_block_row_entry(pid, x) == if pid == plan_id && plan_index(plans0, plan_id) is Some
                    && pasted_row(cb, base as int, paste_row as int, x) is Some && x.0 - base < j + 1 {
                    Some(pasted_row(cb, base as int, paste_row as int, x).unwrap() as i32)
                } else {
                    old(model).spec_block_row_entry(pid, x)
                } by {
                assert(model.spec_block_row_entry(pid, x) == m1.spec_block_row_entry(pid, x));
            }
        }
        new_ids.push(new_id);
        j += 1;
    }
    // Carry over the dependencies among copied blocks.
    let ghost deps0 = model.dependencies@;
    let ghost blocks1 = model.work_blocks;
    let ghost plans1 = model.plans;
    let ghost m2 = *model;
    let mut d: usize = 0;
    while d < cb_deps.len()
        invariant
            n == cb.len(),
            cb == cb_blocks@,
            d <= cb_deps@.len(),
            model.wf(),
            base == old(model).next_id,
            base + n + cb_deps@.len() < u64::MAX,
            deps0 == old(model).dependencies@,
            model.dependencies@ == deps0 + pasted_deps(cb, cb_deps@, base as int, plan_id, d as int),
            model.next_id == base + n + pasted_deps(cb, cb_deps@, base as int, plan_id, d as int).len(),
            model.work_blocks == blocks1,
            model.plans == plans1,
            model.resource_blocks == old(model).resource_blocks,
            model.calendar == old(model).calendar,
            model.t_shirt_sizes == old(model).t_shirt_sizes,
        decreases cb_deps.len() - d,
    {
        proof {
            lemma_pasted_deps_len(cb, cb_deps@, base as int, plan_id, d as int);
            lemma_last_copy(cb, cb_deps@[d as int].predecessor);
            lemma_last_copy(cb, cb_deps@[d as int].successor);
        }
        let dep = &cb_deps[d];
        match (last_copy_index(cb_blocks, dep.predecessor), last_copy_index(cb_blocks, dep.successor)) {
            (Some(a), Some(b)) => {
                model.create_dependency_in(
                    plan_id,
                    WorkBlockId(base + a as u64),
                    WorkBlockId(base + b as u64),
                    dep.dependency_type,
                );
            },
            _ => {},
        }
        d += 1;
    }
    proof {
        assert forall|pid: PlanId, x: WorkBlockId| #![trigger model.spec_block_row(pid, x)]
            model.spec_block_row(pid, x) as int == if pid == plan_id && plan_index(old(model).plans@, plan_id) is Some
                && pasted_row(cb, base as int, paste_row as int, x) is Some {
                pasted_row(cb, base as int, paste_row as int, x).unwrap()
            } else {
                old(model).spec_block_row(pid, x) as int
            } by {
            assert(model.spec_block_row(pid, x) == m2.spec_block_row(pid, x));
        }
        lemma_pasted_deps_follow_clipboard(cb, cb_deps@, base as int, plan_id, cb_deps@.len() as int);
        let nd = pasted_deps(cb, cb_deps@, base as int, plan_id, cb_deps@.len() as int);
        assert forall|t: int| #![trigger model.dependencies@[t]]
            old(model).dependencies@.len() <= t < model.dependencies@.len() implies exists|k: int, a: int, b: int|
            #![trigger cb_deps@[k], cb[a], cb[b]]
            0 <= k < cb_deps@.len() && 0 <= a < n && 0 <= b < n
                && cb[a].0.id == cb_deps@[k].predecessor && cb[b].0.id == cb_deps@[k].successor
                && model.dependencies@[t].predecessor == WorkBlockId((base + a) as u64)
                && model.dependencies@[t].successor == WorkBlockId((base + b) as u64)
                && model.dependencies@[t].dependency_type == cb_deps@[k].dependency_type
                && model.dependencies@[t].plan_id == plan_id by {
            assert(model.dependencies@[t] == nd[t - old(model).dependencies@.len()]);
        }
        assert forall|pid: PlanId, x: WorkBlockId| #![trigger model.spec_block_row_entry(pid, x)]
            model.spec_block_row_entry(pid, x) == if pid == plan_id && plan_index(old(model).plans@, plan_id) is Some
                && pasted_row(cb, base as int, paste_row as int, x) is Some {
                Some(pasted_row(cb, base as int, paste_row as int, x).unwrap() as i32)
            } else {
                old(model).spec_block_row_entry(pid, x)
            } by {
            assert(model.spec_block_row_entry(pid, x) == m2.spec_block_row_entry(pid, x));
            if pasted_row(cb, base as int, paste_row as int, x) is Some {
                assert(x.0 - base < n);
            }
        }
    }
    new_ids
}

} // verus!
