//! The undo stack: what the last undoable edit left to undo, recording an
//! edit, deleting a selection, and undoing the last edit.

use vstd::prelude::*;
use crate::edits::{
    block_map, blocks_after_delete, build_deletion_snapshot, delete_work_block, dep_map, deps_after_delete, detach,
    entry_not_id, inserted_deps, not_id, plan_without, restore_deletion_snapshot, restored_blocks, root_added,
    same_but_roots, snapshot_of, DeletedBlockSnapshot,
};
use crate::inspector::{batch_restored, first_entry, lemma_same_ids_same_index, restore_batch_edit, BatchEditSnapshot};
use crate::model::{
    block_index, first_main, lemma_block_index, lemma_plan_index, lemma_plan_index_same_ids, plan_index, same_but_rows,
    Day, Dependency, DependencyId, Model, Plan, PlanId, WorkBlock, WorkBlockId,
};

verus! {

// ── deleting several blocks ─────────────────────────────────────────────────

/// `b` with its parent link cleared when it pointed at one of `ids`.
pub open spec fn detach_all(b: WorkBlock, ids: Seq<WorkBlockId>) -> WorkBlock {
    match b.parent {
        Some(p) => if ids.contains(p) { WorkBlock { parent: None, ..b } } else { b },
        None => b,
    }
}

/// The blocks left after deleting each of `ids`, their children detached.
pub open spec fn blocks_after_deletes(bs: Seq<WorkBlock>, ids: Seq<WorkBlockId>) -> Seq<WorkBlock> {
    bs.filter(|b: WorkBlock| !ids.contains(b.id)).map_values(|b: WorkBlock| detach_all(b, ids))
}

/// The dependencies left after deleting each of `ids`.
pub open spec fn deps_after_deletes(ds: Seq<Dependency>, ids: Seq<WorkBlockId>) -> Seq<Dependency> {
    ds.filter(|d: Dependency| !ids.contains(d.predecessor) && !ids.contains(d.successor))
}

/// Plan `b` is plan `a` with each of `ids` taken off its top level and rows.
pub open spec fn plan_without_all(a: Plan, b: Plan, ids: Seq<WorkBlockId>) -> bool {
    &&& b.id == a.id
    &&& b.name == a.name
    &&& b.row_names == a.row_names
    &&& b.branch_start_day == a.branch_start_day
    &&& b.root_blocks@ == a.root_blocks@.filter(|x: WorkBlockId| !ids.contains(x))
    &&& b.block_rows@ == a.block_rows@.filter(|e: (WorkBlockId, i32)| !ids.contains(e.0))
    &&& b.allocations == a.allocations
}

/// Model `after` is model `before` with each of `ids` deleted.
pub open spec fn deleted_all(before: Model, after: Model, ids: Seq<WorkBlockId>) -> bool {
    &&& after.work_blocks@ == blocks_after_deletes(before.work_blocks@, ids)
    &&& after.dependencies@ == deps_after_deletes(before.dependencies@, ids)
    &&& after.plans@.len() == before.plans@.len()
    &&& forall|p: int| 0 <= p < before.plans@.len() ==> plan_without_all(before.plans@[p], #[trigger] after.plans@[p], ids)
    &&& after.resource_blocks == before.resource_blocks
    &&& after.calendar == before.calendar
    &&& after.t_shirt_sizes == before.t_shirt_sizes
    &&& after.next_id == before.next_id
}

proof fn lemma_filter_push_map<A, B>(s: Seq<A>, x: A, keep: spec_fn(A) -> bool, f: spec_fn(A) -> B)
    ensures
        s.push(x).filter(keep).map_values(f) == if keep(x) {
            s.filter(keep).map_values(f).push(f(x))
        } else {
            s.filter(keep).map_values(f)
        },
{
    s.lemma_filter_push(x, keep);
    if keep(x) {
        assert(s.filter(keep).push(x).map_values(f) =~= s.filter(keep).map_values(f).push(f(x)));
    }
}

proof fn lemma_blocks_step(bs: Seq<WorkBlock>, ids: Seq<WorkBlockId>, id: WorkBlockId)
    ensures
        blocks_after_delete(blocks_after_deletes(bs, ids), id) == blocks_after_deletes(bs, ids.push(id)),
    decreases bs.len(),
{
    let ids2 = ids.push(id);
    let k1 = |b: WorkBlock| !ids.contains(b.id);
    let f1 = |b: WorkBlock| detach_all(b, ids);
    let k2 = |b: WorkBlock| b.id != id;
    let f2 = |b: WorkBlock| detach(b, id);
    let k3 = |b: WorkBlock| !ids2.contains(b.id);
    let f3 = |b: WorkBlock| detach_all(b, ids2);
    assert forall|y: WorkBlockId| ids2.contains(y) <==> (ids.contains(y) || y == id) by {
        if ids2.contains(y) {
            let w = choose|w: int| 0 <= w < ids2.len() && ids2[w] == y;
            if w < ids.len() {
                assert(ids[w] == y);
            }
        }
        if ids.contains(y) {
            let w = choose|w: int| 0 <= w < ids.len() && ids[w] == y;
            assert(ids2[w] == y);
        }
        if y == id {
            assert(ids2[ids.len() as int] == y);
        }
    }
    if bs.len() == 0 {
        assert(blocks_after_deletes(bs, ids) =~= Seq::<WorkBlock>::empty());
        assert(blocks_after_deletes(bs, ids2) =~= Seq::<WorkBlock>::empty());
        assert(blocks_after_delete(Seq::<WorkBlock>::empty(), id) =~= Seq::<WorkBlock>::empty());
    } else {
        let pre = bs.drop_last();
        let x = bs.last();
        assert(bs =~= pre.push(x));
        lemma_blocks_step(pre, ids, id);
        lemma_filter_push_map(pre, x, k1, f1);
        lemma_filter_push_map(pre, x, k3, f3);
        let mid = blocks_after_deletes(pre, ids);
        assert(detach(detach_all(x, ids), id) == detach_all(x, ids2));
        if k1(x) {
            lemma_filter_push_map(mid, f1(x), k2, f2);
        }
    }
}

proof fn lemma_deps_step(ds: Seq<Dependency>, ids: Seq<WorkBlockId>, id: WorkBlockId)
    ensures
        deps_after_delete(deps_after_deletes(ds, ids), id) == deps_after_deletes(ds, ids.push(id)),
    decreases ds.len(),
{
    let ids2 = ids.push(id);
    let k1 = |d: Dependency| !ids.contains(d.predecessor) && !ids.contains(d.successor);
    let k2 = |d: Dependency| d.predecessor != id && d.successor != id;
    let k3 = |d: Dependency| !ids2.contains(d.predecessor) && !ids2.contains(d.successor);
    assert forall|y: WorkBlockId| ids2.contains(y) <==> (ids.contains(y) || y == id) by {
        if ids2.contains(y) {
            let w = choose|w: int| 0 <= w < ids2.len() && ids2[w] == y;
            if w < ids.len() {
                assert(ids[w] == y);
            }
        }
        if ids.contains(y) {
            let w = choose|w: int| 0 <= w < ids.len() && ids[w] == y;
            assert(ids2[w] == y);
        }
        if y == id {
            assert(ids2[ids.len() as int] == y);
        }
    }
    if ds.len() == 0 {
        assert(deps_after_deletes(ds, ids) =~= Seq::<Dependency>::empty());
        assert(deps_after_deletes(ds, ids2) =~= Seq::<Dependency>::empty());
        assert(deps_after_delete(Seq::<Dependency>::empty(), id) =~= Seq::<Dependency>::empty());
    } else {
        let pre = ds.drop_last();
        let x = ds.last();
        assert(ds =~= pre.push(x));
        lemma_deps_step(pre, ids, id);
        pre.lemma_filter_push(x, k1);
        pre.lemma_filter_push(x, k3);
        if k1(x) {
            pre.filter(k1).lemma_filter_push(x, k2);
        }
    }
}

proof fn lemma_filter_step<A>(s: Seq<A>, key: spec_fn(A) -> WorkBlockId, ids: Seq<WorkBlockId>, id: WorkBlockId)
    ensures
        s.filter(|a: A| !ids.contains(key(a))).filter(|a: A| key(a) != id)
            == s.filter(|a: A| !ids.push(id).contains(key(a))),
    decreases s.len(),
{
    let ids2 = ids.push(id);
    let k1 = |a: A| !ids.contains(key(a));
    let k2 = |a: A| key(a) != id;
    let k3 = |a: A| !ids2.contains(key(a));
    assert forall|y: WorkBlockId| ids2.contains(y) <==> (ids.contains(y) || y == id) by {
        if ids2.contains(y) {
            let w = choose|w: int| 0 <= w < ids2.len() && ids2[w] == y;
            if w < ids.len() {
                assert(ids[w] == y);
            }
        }
        if ids.contains(y) {
            let w = choose|w: int| 0 <= w < ids.len() && ids[w] == y;
            assert(ids2[w] == y);
        }
        if y == id {
            assert(ids2[ids.len() as int] == y);
        }
    }
    if s.len() == 0 {
        assert(s.filter(k1) =~= Seq::<A>::empty());
        assert(s.filter(k3) =~= Seq::<A>::empty());
        assert(Seq::<A>::empty().filter(k2) =~= Seq::<A>::empty());
    } else {
        let pre = s.drop_last();
        let x = s.last();
        assert(s =~= pre.push(x));
        lemma_filter_step(pre, key, ids, id);
        pre.lemma_filter_push(x, k1);
        pre.lemma_filter_push(x, k3);
        if k1(x) {
            pre.filter(k1).lemma_filter_push(x, k2);
        }
    }
}

proof fn lemma_filter_keeps_all<A>(s: Seq<A>, keep: spec_fn(A) -> bool)
    requires
        forall|i: int| 0 <= i < s.len() ==> keep(#[trigger] s[i]),
    ensures
        s.filter(keep) == s,
    decreases s.len(),
{
    if s.len() > 0 {
        lemma_filter_keeps_all(s.drop_last(), keep);
        s.drop_last().lemma_filter_push(s.last(), keep);
        assert(s.drop_last().push(s.last()) =~= s);
    } else {
        assert(s.filter(keep) =~= s);
    }
}

/// Deletes each block of `ids` in turn, with its dependencies, its places
/// in every plan and its children's links to it.
pub fn delete_blocks(model: &mut Model, ids: &Vec<WorkBlockId>)
    ensures
        deleted_all(*old(model), *final(model), ids@),
{
    let ghost m0 = *model;
    let mut k: usize = 0;
    proof {
        let e = ids@.take(0);
        assert(e =~= Seq::<WorkBlockId>::empty());
        lemma_filter_keeps_all(m0.work_blocks@, |b: WorkBlock| !e.contains(b.id));
        assert(blocks_after_deletes(m0.work_blocks@, e) =~= m0.work_blocks@);
        lemma_filter_keeps_all(m0.dependencies@, |d: Dependency| !e.contains(d.predecessor) && !e.contains(d.successor));
        assert(deps_after_deletes(m0.dependencies@, e) =~= m0.dependencies@);
        assert forall|p: int| 0 <= p < m0.plans@.len() implies plan_without_all(m0.plans@[p], #[trigger] m0.plans@[p], e) by {
            lemma_filter_keeps_all(m0.plans@[p].root_blocks@, |x: WorkBlockId| !e.contains(x));
            lemma_filter_keeps_all(m0.plans@[p].block_rows@, |r: (WorkBlockId, i32)| !e.contains(r.0));
        }
    }
    while k < ids.len()
        invariant
            k <= ids@.len(),
            m0 == *old(model),
            deleted_all(m0, *model, ids@.take(k as int)),
        decreases ids.len() - k,
    {
        let ghost before = *model;
        let id = ids[k];
        delete_work_block(model, id);
        proof {
            let done = ids@.take(k as int);
            assert(ids@.take(k + 1) =~= done.push(id));
            lemma_blocks_step(m0.work_blocks@, done, id);
            lemma_deps_step(m0.dependencies@, done, id);
            assert forall|p: int| 0 <= p < m0.plans@.len() implies plan_without_all(m0.plans@[p], #[trigger] model.plans@[p], done.push(id)) by {
                assert(plan_without(before.plans@[p], model.plans@[p], id));
                assert(plan_without_all(m0.plans@[p], before.plans@[p], done));
                lemma_filter_step(m0.plans@[p].root_blocks@, |x: WorkBlockId| x, done, id);
                lemma_filter_step(m0.plans@[p].block_rows@, |e: (WorkBlockId, i32)| e.0, done, id);
                assert(not_id(id) =~= (|x: WorkBlockId| x != id));
                assert(entry_not_id(id) =~= (|e: (WorkBlockId, i32)| e.0 != id));
                assert((|x: WorkBlockId| !done.contains(x)) =~= (|x: WorkBlockId| !done.contains((|y: WorkBlockId| y)(x))));
                assert((|x: WorkBlockId| !done.push(id).contains(x)) =~= (|x: WorkBlockId| !done.push(id).contains((|y: WorkBlockId| y)(x))));
                assert((|x: WorkBlockId| x != id) =~= (|x: WorkBlockId| (|y: WorkBlockId| y)(x) != id));
                assert((|e: (WorkBlockId, i32)| !done.contains(e.0)) =~= (|e: (WorkBlockId, i32)| !done.contains((|r: (WorkBlockId, i32)| r.0)(e))));
                assert((|e: (WorkBlockId, i32)| !done.push(id).contains(e.0)) =~= (|e: (WorkBlockId, i32)| !done.push(id).contains((|r: (WorkBlockId, i32)| r.0)(e))));
                assert((|e: (WorkBlockId, i32)| e.0 != id) =~= (|e: (WorkBlockId, i32)| (|r: (WorkBlockId, i32)| r.0)(e) != id));
            }
        }
        k += 1;
    }
    assert(ids@.take(k as int) =~= ids@);
}


// ── undoing deletions ───────────────────────────────────────────────────────

/// The blocks, by id, after putting back each snapshot in turn.
pub open spec fn blocks_restored_all(m: Map<WorkBlockId, WorkBlock>, snaps: Seq<DeletedBlockSnapshot>) -> Map<WorkBlockId, WorkBlock>
    decreases snaps.len(),
{
    if snaps.len() == 0 {
        m
    } else {
        restored_blocks(blocks_restored_all(m, snaps.drop_last()), snaps.last().blocks@, snaps.last().reparented_children@)
    }
}

/// The dependencies, by id, after putting back each snapshot in turn.
pub open spec fn deps_restored_all(m: Map<DependencyId, Dependency>, snaps: Seq<DeletedBlockSnapshot>) -> Map<DependencyId, Dependency>
    decreases snaps.len(),
{
    if snaps.len() == 0 {
        m
    } else {
        inserted_deps(deps_restored_all(m, snaps.drop_last()), snaps.last().dependencies@)
    }
}

/// Some snapshot puts `x` back on plan `p`'s top level.
pub open spec fn root_restored(snaps: Seq<DeletedBlockSnapshot>, plans: Seq<Plan>, p: int, x: WorkBlockId) -> bool {
    exists|k: int| 0 <= k < snaps.len() && #[trigger] root_added(snaps[k].plan_roots@, plans, snaps[k].plan_roots@.len() as int, p, x)
}

/// Model `after` is model `before` with each snapshot put back in turn.
pub open spec fn restored_all(before: Model, after: Model, snaps: Seq<DeletedBlockSnapshot>) -> bool {
    &&& block_map(after.work_blocks@) == blocks_restored_all(block_map(before.work_blocks@), snaps)
    &&& dep_map(after.dependencies@) == deps_restored_all(dep_map(before.dependencies@), snaps)
    &&& after.plans@.len() == before.plans@.len()
    &&& forall|p: int| 0 <= p < before.plans@.len() ==> same_but_roots(before.plans@[p], #[trigger] after.plans@[p])
    &&& forall|p: int, x: WorkBlockId| 0 <= p < before.plans@.len() ==> (#[trigger] after.plans@[p].root_blocks@.contains(x)
        <==> (before.plans@[p].root_blocks@.contains(x) || root_restored(snaps, before.plans@, p, x)))
    &&& after.resource_blocks == before.resource_blocks
    &&& after.calendar == before.calendar
    &&& after.t_shirt_sizes == before.t_shirt_sizes
    &&& after.next_id == before.next_id
}

proof fn lemma_root_added_same_ids(entries: Seq<(PlanId, Vec<WorkBlockId>)>, a: Seq<Plan>, b: Seq<Plan>, n: int, p: int, x: WorkBlockId)
    requires
        a.len() == b.len(),
        forall|i: int| 0 <= i < a.len() ==> (#[trigger] a[i]).id == b[i].id,
    ensures
        root_added(entries, a, n, p, x) == root_added(entries, b, n, p, x),
{
    if root_added(entries, a, n, p, x) {
        let q = choose|q: int| 0 <= q < n && plan_index(a, entries[q].0) == Some(p) && (#[trigger] entries[q].1@).contains(x);
        lemma_plan_index_same_ids(a, b, entries[q].0);
    }
    if root_added(entries, b, n, p, x) {
        let q = choose|q: int| 0 <= q < n && plan_index(b, entries[q].0) == Some(p) && (#[trigger] entries[q].1@).contains(x);
        lemma_plan_index_same_ids(a, b, entries[q].0);
    }
}

proof fn lemma_root_restored_push(snaps: Seq<DeletedBlockSnapshot>, s: DeletedBlockSnapshot, plans: Seq<Plan>, p: int, x: WorkBlockId)
    ensures
        root_restored(snaps.push(s), plans, p, x) <==> (root_restored(snaps, plans, p, x)
            || root_added(s.plan_roots@, plans, s.plan_roots@.len() as int, p, x)),
{
    let all = snaps.push(s);
    if root_restored(all, plans, p, x) {
        let k = choose|k: int| 0 <= k < all.len() && #[trigger] root_added(all[k].plan_roots@, plans, all[k].plan_roots@.len() as int, p, x);
        if k < snaps.len() {
            assert(all[k] == snaps[k]);
            assert(root_restored(snaps, plans, p, x));
        }
    }
    if root_restored(snaps, plans, p, x) {
        let k = choose|k: int| 0 <= k < snaps.len() && #[trigger] root_added(snaps[k].plan_roots@, plans, snaps[k].plan_roots@.len() as int, p, x);
        assert(all[k] == snaps[k]);
        assert(root_restored(all, plans, p, x));
    }
    if root_added(s.plan_roots@, plans, s.plan_roots@.len() as int, p, x) {
        assert(all[snaps.len() as int] == s);
        assert(root_restored(all, plans, p, x));
    }
}

/// Puts back each snapshot in turn.
pub fn restore_all(model: &mut Model, snaps: Vec<DeletedBlockSnapshot>)
    ensures
        restored_all(*old(model), *final(model), snaps@),
{
    let ghost m0 = *model;
    let ghost all = snaps@;
    let total = snaps.len();
    assert(all.len() == total);
    let mut rest = snaps;
    let mut k: usize = 0;
    proof {
        assert(all.take(0) =~= Seq::<DeletedBlockSnapshot>::empty());
        assert forall|p: int, x: WorkBlockId| 0 <= p < m0.plans@.len() implies !root_restored(all.take(0), m0.plans@, p, x) by {}
    }
    while rest.len() > 0
        invariant
            k <= all.len(),
            all.len() <= usize::MAX,
            rest@ == all.skip(k as int),
            m0 == *old(model),
            restored_all(m0, *model, all.take(k as int)),
        decreases rest.len(),
    {
        let ghost before = *model;
        let ghost done = all.take(k as int);
        assert(rest@[0] == all[k as int]);
        let s = rest.remove(0);
        proof {
            assert(all.take(k + 1) =~= done.push(s));
            assert(all.take(k + 1).drop_last() =~= done);
        }
        restore_deletion_snapshot(model, s);
        proof {
            assert(rest@ =~= all.skip(k + 1));
            assert forall|i: int| 0 <= i < before.plans@.len() implies (#[trigger] before.plans@[i]).id == m0.plans@[i].id by {
                assert(same_but_roots(m0.plans@[i], before.plans@[i]));
            }
            assert forall|p: int| 0 <= p < m0.plans@.len() implies same_but_roots(m0.plans@[p], #[trigger] model.plans@[p]) by {
                assert(same_but_roots(m0.plans@[p], before.plans@[p]));
                assert(same_but_roots(before.plans@[p], model.plans@[p]));
            }
            assert forall|p: int, x: WorkBlockId| 0 <= p < m0.plans@.len() implies (#[trigger] model.plans@[p].root_blocks@.contains(x)
                <==> (m0.plans@[p].root_blocks@.contains(x) || root_restored(all.take(k + 1), m0.plans@, p, x))) by {
                lemma_root_added_same_ids(s.plan_roots@, before.plans@, m0.plans@, s.plan_roots@.len() as int, p, x);
                lemma_root_restored_push(done, s, m0.plans@, p, x);
                assert(before.plans@[p].root_blocks@.contains(x)
                    <==> (m0.plans@[p].root_blocks@.contains(x) || root_restored(done, m0.plans@, p, x)));
            }
        }
        k += 1;
    }
    assert(all.take(k as int) =~= all);
}

// ── undoing moves ───────────────────────────────────────────────────────────

/// The id of the main plan (the first plan that is not a branch).
pub open spec fn main_id(plans: Seq<Plan>) -> Option<PlanId> {
    match first_main(plans) {
        Some(i) => Some(plans[i].id),
        None => None,
    }
}

/// Index of the last of the first `n` moves of block `id`.
pub open spec fn last_move(moves: Seq<(WorkBlockId, Day, i32)>, id: WorkBlockId, n: int) -> Option<int>
    decreases n,
{
    if n <= 0 {
        None
    } else if moves[n - 1].0 == id {
        Some(n - 1)
    } else {
        last_move(moves, id, n - 1)
    }
}

/// The blocks with each moved block back at the start day its last move
/// recorded.
pub open spec fn moved_back(blocks: Seq<WorkBlock>, moves: Seq<(WorkBlockId, Day, i32)>) -> Seq<WorkBlock> {
    Seq::new(blocks.len(), |j: int| if first_entry(blocks, j) {
        match last_move(moves, blocks[j].id, moves.len() as int) {
            Some(k) => WorkBlock { start_day: moves[k].1, ..blocks[j] },
            None => blocks[j],
        }
    } else {
        blocks[j]
    })
}

/// Model `after` is model `before` with the moves undone on the main plan
/// (nothing changes without a main plan).
pub open spec fn moves_undone(before: Model, after: Model, moves: Seq<(WorkBlockId, Day, i32)>) -> bool {
    match main_id(before.plans@) {
        None => after == before,
        Some(plan_id) => {
            &&& after.work_blocks@ == moved_back(before.work_blocks@, moves)
            &&& after.plans@.len() == before.plans@.len()
            &&& forall|p: int| 0 <= p < before.plans@.len() ==> same_but_rows(#[trigger] after.plans@[p], before.plans@[p])
            &&& forall|pid: PlanId, x: WorkBlockId| #![trigger after.spec_block_row(pid, x)]
                after.spec_block_row(pid, x) == match last_move(moves, x, moves.len() as int) {
                    Some(k) => if pid == plan_id { moves[k].2 } else { before.spec_block_row(pid, x) },
                    None => before.spec_block_row(pid, x),
                }
            &&& after.dependencies == before.dependencies
            &&& after.resource_blocks == before.resource_blocks
            &&& after.calendar == before.calendar
            &&& after.t_shirt_sizes == before.t_shirt_sizes
            &&& after.next_id == before.next_id
        },
    }
}

proof fn lemma_last_move_prefix(moves: Seq<(WorkBlockId, Day, i32)>, id: WorkBlockId, k: int, n: int)
    requires
        0 <= n <= k <= moves.len(),
    ensures
        last_move(moves.take(k), id, n) == last_move(moves, id, n),
    decreases n,
{
    if n > 0 {
        lemma_last_move_prefix(moves, id, k, n - 1);
    }
}

proof fn lemma_last_move_in(moves: Seq<(WorkBlockId, Day, i32)>, id: WorkBlockId, n: int)
    ensures
        last_move(moves, id, n) matches Some(q) ==> 0 <= q < n && moves[q].0 == id,
    decreases n,
{
    if n > 0 {
        lemma_last_move_in(moves, id, n - 1);
    }
}

proof fn lemma_moved_back_step(b0: Seq<WorkBlock>, moves: Seq<(WorkBlockId, Day, i32)>, k: int)
    requires
        0 <= k < moves.len(),
    ensures
        match block_index(b0, moves[k].0) {
            Some(i) => moved_back(b0, moves.take(k + 1)) == moved_back(b0, moves.take(k)).update(
                i, WorkBlock { start_day: moves[k].1, ..moved_back(b0, moves.take(k))[i] }),
            None => moved_back(b0, moves.take(k + 1)) == moved_back(b0, moves.take(k)),
        },
{
    let id = moves[k].0;
    let a = moves.take(k);
    let b = moves.take(k + 1);
    lemma_block_index(b0, id);
    assert forall|x: WorkBlockId| x != id implies #[trigger] last_move(b, x, k + 1) == last_move(a, x, k) by {
        lemma_last_move_prefix(moves, x, k + 1, k);
        lemma_last_move_prefix(moves, x, k, k);
    }
    assert(last_move(b, id, k + 1) == Some(k));
    let before = moved_back(b0, a);
    let after = moved_back(b0, b);
    match block_index(b0, id) {
        Some(i) => {
            let expect = before.update(i, WorkBlock { start_day: moves[k].1, ..before[i] });
            assert forall|j: int| 0 <= j < b0.len() implies #[trigger] after[j] == expect[j] by {
                if j == i {
                    assert(first_entry(b0, i));
                    assert(b0[i].id == id);
                    assert(b.len() == k + 1);
                    assert(last_move(b, id, b.len() as int) == Some(k));
                    assert(b[k] == moves[k]);
                } else if first_entry(b0, j) {
                    assert(b0[j].id != id) by {
                        if b0[j].id == id {
                            assert(block_index(b0, b0[j].id) == Some(i));
                        }
                    }
                    assert(b.len() == k + 1 && a.len() == k);
                    assert(last_move(b, b0[j].id, k + 1) == last_move(a, b0[j].id, k));
                    match last_move(a, b0[j].id, k) {
                        Some(q) => {
                            lemma_last_move_in(a, b0[j].id, k);
                            assert(a[q] == b[q]);
                        },
                        None => {},
                    }
                }
            }
            assert(after =~= expect);
        },
        None => {
            assert forall|j: int| 0 <= j < b0.len() implies #[trigger] after[j] == before[j] by {
                assert(b0[j].id != id);
                assert(b.len() == k + 1 && a.len() == k);
                assert(last_move(b, b0[j].id, k + 1) == last_move(a, b0[j].id, k));
                match last_move(a, b0[j].id, k) {
                    Some(q) => {
                        lemma_last_move_in(a, b0[j].id, k);
                        assert(a[q] == b[q]);
                    },
                    None => {},
                }
            }
            assert(after =~= before);
        },
    }
}

/// Puts each moved block back where its last recorded move found it: its
/// start day, and its row in the main plan.
pub fn undo_moves(model: &mut Model, moves: &Vec<(WorkBlockId, Day, i32)>)
    ensures
        moves_undone(*old(model), *final(model), moves@),
{
    let plan_id = match model.main_plan_id() {
        Some(p) => p,
        None => return,
    };
    let ghost m0 = *model;
    proof {
        lemma_plan_index(m0.plans@, plan_id);
        let i = first_main(m0.plans@).unwrap();
        assert(m0.plans@[i].id == plan_id);
        assert(plan_index(m0.plans@, plan_id) is Some);
    }
    let mut k: usize = 0;
    proof {
        assert forall|j: int| 0 <= j < m0.work_blocks@.len() implies #[trigger] moved_back(m0.work_blocks@, moves@.take(0))[j]
            == m0.work_blocks@[j] by {}
        assert(moved_back(m0.work_blocks@, moves@.take(0)) =~= m0.work_blocks@);
    }
    while k < moves.len()
        invariant
            k <= moves@.len(),
            m0 == *old(model),
            main_id(m0.plans@) == Some(plan_id),
            plan_index(m0.plans@, plan_id) is Some,
            model.work_blocks@ == moved_back(m0.work_blocks@, moves@.take(k as int)),
            model.plans@.len() == m0.plans@.len(),
            forall|p: int| 0 <= p < m0.plans@.len() ==> same_but_rows(#[trigger] model.plans@[p], m0.plans@[p]),
            forall|pid: PlanId, x: WorkBlockId| #![trigger model.spec_block_row(pid, x)]
                model.spec_block_row(pid, x) == match last_move(moves@.take(k as int), x, k as int) {
                    Some(q) => if pid == plan_id { moves@[q].2 } else { m0.spec_block_row(pid, x) },
                    None => m0.spec_block_row(pid, x),
                },
            model.dependencies == m0.dependencies,
            model.resource_blocks == m0.resource_blocks,
            model.calendar == m0.calendar,
            model.t_shirt_sizes == m0.t_shirt_sizes,
            model.next_id == m0.next_id,
        decreases moves.len() - k,
    {
        let (id, start, row) = moves[k];
        let ghost b_before = model.work_blocks@;
        let ghost before = *model;
        let ghost mk = moves@.take(k + 1);
        proof {
            assert forall|j: int| 0 <= j < b_before.len() implies (#[trigger] b_before[j]).id == m0.work_blocks@[j].id by {}
            lemma_same_ids_same_index(m0.work_blocks@, b_before, id);
            lemma_moved_back_step(m0.work_blocks@, moves@, k as int);
            assert forall|x: WorkBlockId, n: int| 0 <= n <= k implies #[trigger] last_move(mk, x, n) == last_move(moves@.take(k as int), x, n) by {
                lemma_last_move_prefix(moves@, x, k + 1, n);
                lemma_last_move_prefix(moves@, x, k as int, n);
            }
        }
        match model.block_position(id) {
            Some(i) => {
                model.work_blocks[i].start_day = start;
                assert(model.work_blocks@ =~= moved_back(m0.work_blocks@, mk));
            },
            None => {
                assert(model.work_blocks@ =~= moved_back(m0.work_blocks@, mk));
            },
        }
        let ghost p_before = model.plans@;
        model.set_block_row(plan_id, id, row);
        proof {
            assert forall|i: int| 0 <= i < m0.plans@.len() implies (#[trigger] m0.plans@[i]).id == p_before[i].id by {
                assert(same_but_rows(p_before[i], m0.plans@[i]));
            }
            lemma_plan_index_same_ids(m0.plans@, p_before, plan_id);
            assert forall|p: int| 0 <= p < m0.plans@.len() implies same_but_rows(#[trigger] model.plans@[p], m0.plans@[p]) by {
                assert(same_but_rows(model.plans@[p], p_before[p]));
                assert(same_but_rows(p_before[p], m0.plans@[p]));
            }
            assert forall|pid: PlanId, x: WorkBlockId| #![trigger model.spec_block_row(pid, x)]
                model.spec_block_row(pid, x) == match last_move(mk, x, k + 1) {
                    Some(q) => if pid == plan_id { moves@[q].2 } else { m0.spec_block_row(pid, x) },
                    None => m0.spec_block_row(pid, x),
                } by {
                assert(last_move(mk, x, k as int) == last_move(moves@.take(k as int), x, k as int));
                assert(before.spec_block_row(pid, x) == match last_move(moves@.take(k as int), x, k as int) {
                    Some(q) => if pid == plan_id { moves@[q].2 } else { m0.spec_block_row(pid, x) },
                    None => m0.spec_block_row(pid, x),
                });
            }
        }
        k += 1;
    }
    assert(moves@.take(k as int) =~= moves@);
}

// ── the stack ───────────────────────────────────────────────────────────────

/// What the last undoable edit left to undo: the blocks a deletion
/// removed, where a drag found the blocks it moved (id, start day, row),
/// the blocks a paste created, or the fields a batch edit overwrote.
pub struct UndoStack {
    pub last_deletion: Option<Vec<DeletedBlockSnapshot>>,
    pub last_move: Option<Vec<(WorkBlockId, Day, i32)>>,
    pub last_paste: Option<Vec<WorkBlockId>>,
    pub last_batch_edit: Option<Vec<BatchEditSnapshot>>,
}

impl Default for UndoStack {
    /// Nothing to undo.
    fn default() -> (r: UndoStack)
        ensures
            r.last_deletion is None,
            r.last_move is None,
            r.last_paste is None,
            r.last_batch_edit is None,
            r.at_most_one_slot(),
    {
        UndoStack { last_deletion: None, last_move: None, last_paste: None, last_batch_edit: None }
    }
}

impl UndoStack {
    /// At most one edit is left to undo: no two slots are filled at once.
    pub open spec fn at_most_one_slot(&self) -> bool {
        (if self.last_deletion is Some { 1int } else { 0 })
            + (if self.last_move is Some { 1int } else { 0 })
            + (if self.last_paste is Some { 1int } else { 0 })
            + (if self.last_batch_edit is Some { 1int } else { 0 }) <= 1
    }

    /// Records a deletion; it is the one edit left to undo.
    pub fn record_deletion(&mut self, snaps: Vec<DeletedBlockSnapshot>)
        ensures
            final(self).last_deletion == Some(snaps),
            final(self).at_most_one_slot(),
            final(self).last_move is None,
            final(self).last_paste is None,
            final(self).last_batch_edit is None,
    {
        self.last_deletion = Some(snaps);
        self.last_move = None;
        self.last_paste = None;
        self.last_batch_edit = None;
    }

    /// Records a drag that moved blocks (nothing when none moved); when it
    /// moved any, it is the one edit left to undo.
    pub fn record_move(&mut self, moves: Vec<(WorkBlockId, Day, i32)>)
        ensures
            moves@.len() == 0 ==> *final(self) == *old(self),
            moves@.len() > 0 ==> {
                &&& final(self).last_move == Some(moves)
                &&& final(self).last_deletion is None
                &&& final(self).last_paste is None
                &&& final(self).last_batch_edit is None
            },
            old(self).at_most_one_slot() ==> final(self).at_most_one_slot(),
    {
        if moves.len() > 0 {
            self.last_move = Some(moves);
            self.last_deletion = None;
            self.last_paste = None;
            self.last_batch_edit = None;
        }
    }

    /// Records a paste; it is the one edit left to undo.
    pub fn record_paste(&mut self, ids: Vec<WorkBlockId>)
        ensures
            final(self).last_paste == Some(ids),
            final(self).at_most_one_slot(),
            final(self).last_deletion is None,
            final(self).last_move is None,
            final(self).last_batch_edit is None,
    {
        self.last_paste = Some(ids);
        self.last_deletion = None;
        self.last_move = None;
        self.last_batch_edit = None;
    }

    /// Records a batch edit; it is the one edit left to undo.
    pub fn record_batch_edit(&mut self, snaps: Vec<BatchEditSnapshot>)
        ensures
            final(self).last_batch_edit == Some(snaps),
            final(self).at_most_one_slot(),
            final(self).last_deletion is None,
            final(self).last_move is None,
            final(self).last_paste is None,
    {
        self.last_batch_edit = Some(snaps);
        self.last_deletion = None;
        self.last_move = None;
        self.last_paste = None;
    }
}

// ── the record of a finished drag ───────────────────────────────────────────

/// Each block's id and start day, in model order.
pub fn start_days(model: &Model) -> (r: Vec<(WorkBlockId, Day)>)
    ensures
        r@ == model.work_blocks@.map_values(|b: WorkBlock| (b.id, b.start_day)),
{
    let mut out: Vec<(WorkBlockId, Day)> = Vec::new();
    let mut i: usize = 0;
    while i < model.work_blocks.len()
        invariant
            i <= model.work_blocks@.len(),
            out@ == model.work_blocks@.take(i as int).map_values(|b: WorkBlock| (b.id, b.start_day)),
        decreases model.work_blocks.len() - i,
    {
        out.push((model.work_blocks[i].id, model.work_blocks[i].start_day));
        assert(model.work_blocks@.take(i + 1) =~= model.work_blocks@.take(i as int).push(model.work_blocks@[i as int]));
        assert(out@ =~= model.work_blocks@.take(i + 1).map_values(|b: WorkBlock| (b.id, b.start_day)));
        i += 1;
    }
    assert(model.work_blocks@.take(i as int) =~= model.work_blocks@);
    out
}

/// Some entry of `direct` is for block `b`.
pub open spec fn moved_directly(direct: Seq<(WorkBlockId, Day, i32)>, b: WorkBlockId) -> bool {
    exists|t: int| 0 <= t < direct.len() && (#[trigger] direct[t]).0 == b
}

/// The row block `b` has in plan `plan` (0 with no plan).
pub open spec fn row_in(m: Model, plan: Option<PlanId>, b: WorkBlockId) -> i32 {
    match plan {
        Some(p) => m.spec_block_row(p, b),
        None => 0,
    }
}

/// The blocks of `pre` (id and start day before the release) that a
/// release moved although the drag did not move them directly: each with
/// its start day before and its row, in the order of `pre`.
pub open spec fn rippled_moves(pre: Seq<(WorkBlockId, Day)>, direct: Seq<(WorkBlockId, Day, i32)>, m: Model, plan: Option<PlanId>) -> Seq<(WorkBlockId, Day, i32)>
    decreases pre.len(),
{
    if pre.len() == 0 {
        Seq::empty()
    } else {
        let (b, d) = pre.last();
        rippled_moves(pre.drop_last(), direct, m, plan) + match block_index(m.work_blocks@, b) {
            Some(i) => if !moved_directly(direct, b) && m.work_blocks@[i].start_day != d {
                seq![(b, d, row_in(m, plan, b))]
            } else {
                Seq::empty()
            },
            None => Seq::empty(),
        }
    }
}

/// What a finished drag leaves to undo: the blocks it moved directly (with
/// where the drag found them), then every other block whose start day the
/// release changed, with its start day before the release and its row.
pub fn drag_undo_record(
    direct: Vec<(WorkBlockId, Day, i32)>,
    pre: &Vec<(WorkBlockId, Day)>,
    model: &Model,
    plan: Option<PlanId>,
) -> (r: Vec<(WorkBlockId, Day, i32)>)
    ensures
        r@ == direct@ + rippled_moves(pre@, direct@, *model, plan),
{
    let ghost d0 = direct@;
    let mut out = direct;
    let nd = out.len();
    let mut k: usize = 0;
    assert(pre@.take(0) =~= Seq::<(WorkBlockId, Day)>::empty());
    assert(out@ =~= d0 + rippled_moves(pre@.take(0), d0, *model, plan));
    while k < pre.len()
        invariant
            k <= pre@.len(),
            nd == d0.len(),
            d0.len() <= out@.len(),
            out@ == d0 + rippled_moves(pre@.take(k as int), d0, *model, plan),
        decreases pre.len() - k,
    {
        let (b, d) = pre[k];
        assert(pre@.take(k + 1).drop_last() =~= pre@.take(k as int));
        // Was it moved directly?
        let mut direct_hit = false;
        let mut t: usize = 0;
        while t < nd
            invariant
                nd == d0.len(),
                t <= d0.len(),
                d0.len() <= out@.len(),
                forall|q: int| 0 <= q < d0.len() ==> out@[q] == d0[q],
                direct_hit <==> exists|q: int| 0 <= q < t && (#[trigger] d0[q]).0 == b,
            decreases d0.len() - t,
        {
            if out[t].0 == b {
                direct_hit = true;
            }
            proof {
                assert(out@[t as int] == d0[t as int]);
                if !(exists|q: int| 0 <= q < t && (#[trigger] d0[q]).0 == b) && d0[t as int].0 != b {
                    assert forall|q: int| 0 <= q < t + 1 implies (#[trigger] d0[q]).0 != b by {}
                }
            }
            t += 1;
        }
        let ghost before = out@;
        if !direct_hit {
            match model.block_position(b) {
                Some(i) => {
                    if model.work_blocks[i].start_day != d {
                        let row = match plan {
                            Some(p) => model.block_row(p, b),
                            None => 0,
                        };
                        out.push((b, d, row));
                    }
                },
                None => {},
            }
        }
        assert(out@ =~= d0 + rippled_moves(pre@.take(k + 1), d0, *model, plan));
        k += 1;
    }
    assert(pre@.take(k as int) =~= pre@);
    out
}

/// Deletes the selected blocks, recording what each deletion removes (as
/// the model stood before any of them) so that they can be undone.
pub fn delete_selection(model: &mut Model, undo: &mut UndoStack, ids: &Vec<WorkBlockId>)
    ensures
        ids@.len() == 0 ==> *final(model) == *old(model) && *final(undo) == *old(undo),
        ids@.len() > 0 ==> {
            &&& deleted_all(*old(model), *final(model), ids@)
            &&& final(undo).last_deletion matches Some(snaps) && snaps@.len() == ids@.len()
                && forall|k: int| 0 <= k < ids@.len() ==> snapshot_of(*old(model), ids@[k], #[trigger] snaps@[k])
            &&& final(undo).last_move is None
            &&& final(undo).last_paste is None
            &&& final(undo).last_batch_edit is None
        },
{
    if ids.len() == 0 {
        return;
    }
    let mut snaps: Vec<DeletedBlockSnapshot> = Vec::new();
    let mut k: usize = 0;
    while k < ids.len()
        invariant
            k <= ids@.len(),
            snaps@.len() == k,
            forall|q: int| 0 <= q < k ==> snapshot_of(*model, ids@[q], #[trigger] snaps@[q]),
        decreases ids.len() - k,
    {
        let s = build_deletion_snapshot(model, ids[k]);
        snaps.push(s);
        k += 1;
    }
    undo.record_deletion(snaps);
    delete_blocks(model, ids);
}

/// Removes the dependency `id` (every entry with that id).
pub fn remove_dependency(model: &mut Model, id: DependencyId)
    ensures
        final(model).dependencies@ == old(model).dependencies@.filter(|d: Dependency| d.id != id),
        final(model).work_blocks == old(model).work_blocks,
        final(model).plans == old(model).plans,
        final(model).resource_blocks == old(model).resource_blocks,
        final(model).calendar == old(model).calendar,
        final(model).t_shirt_sizes == old(model).t_shirt_sizes,
        final(model).next_id == old(model).next_id,
{
    let ghost keep = |d: Dependency| d.id != id;
    let mut kept: Vec<Dependency> = Vec::new();
    let mut i: usize = 0;
    assert(model.dependencies@.take(0) =~= Seq::<Dependency>::empty());
    while i < model.dependencies.len()
        invariant
            i <= model.dependencies@.len(),
            keep == (|d: Dependency| d.id != id),
            kept@ == model.dependencies@.take(i as int).filter(keep),
        decreases model.dependencies.len() - i,
    {
        proof {
            assert(model.dependencies@.take(i + 1) =~= model.dependencies@.take(i as int).push(model.dependencies@[i as int]));
            model.dependencies@.take(i as int).lemma_filter_push(model.dependencies@[i as int], keep);
        }
        if model.dependencies[i].id != id {
            kept.push(model.dependencies[i].clone());
        }
        i += 1;
    }
    assert(model.dependencies@.take(i as int) =~= model.dependencies@);
    model.dependencies = kept;
}

/// Undoes the last recorded edit: a deletion is put back, moved blocks go
/// back where they were, pasted blocks are deleted, or a batch edit's
/// fields are restored, in that order of precedence; the undone record is
/// cleared. Returns whether there was anything to undo.
pub fn undo_last(model: &mut Model, undo: &mut UndoStack) -> (undone: bool)
    ensures
        match old(undo).last_deletion {
            Some(snaps) => {
                &&& undone
                &&& restored_all(*old(model), *final(model), snaps@)
                &&& final(undo).last_deletion is None
                &&& final(undo).last_move == old(undo).last_move
                &&& final(undo).last_paste == old(undo).last_paste
                &&& final(undo).last_batch_edit == old(undo).last_batch_edit
            },
            None => match old(undo).last_move {
                Some(moves) => {
                    &&& undone
                    &&& moves_undone(*old(model), *final(model), moves@)
                    &&& final(undo).last_deletion is None
                    &&& final(undo).last_move is None
                    &&& final(undo).last_paste == old(undo).last_paste
                    &&& final(undo).last_batch_edit == old(undo).last_batch_edit
                },
                None => match old(undo).last_paste {
                    Some(ids) => {
                        &&& undone
                        &&& deleted_all(*old(model), *final(model), ids@)
                        &&& final(undo).last_deletion is None
                        &&& final(undo).last_move is None
                        &&& final(undo).last_paste is None
                        &&& final(undo).last_batch_edit == old(undo).last_batch_edit
                    },
                    None => match old(undo).last_batch_edit {
                        Some(snaps) => {
                            &&& undone
                            &&& final(model).work_blocks@ == batch_restored(old(model).work_blocks@, snaps@)
                            &&& final(model).dependencies == old(model).dependencies
                            &&& final(model).plans == old(model).plans
                            &&& final(model).resource_blocks == old(model).resource_blocks
                            &&& final(model).calendar == old(model).calendar
                            &&& final(model).t_shirt_sizes == old(model).t_shirt_sizes
                            &&& final(model).next_id == old(model).next_id
                            &&& final(undo).last_deletion is None
                            &&& final(undo).last_move is None
                            &&& final(undo).last_paste is None
                            &&& final(undo).last_batch_edit is None
                        },
                        None => !undone && *final(model) == *old(model) && *final(undo) == *old(undo),
                    },
                },
            },
        },
{
    match undo.last_deletion.take() {
        Some(snaps) => {
            restore_all(model, snaps);
            return true;
        },
        None => {},
    }
    match undo.last_move.take() {
        Some(moves) => {
            undo_moves(model, &moves);
            return true;
        },
        None => {},
    }
    match undo.last_paste.take() {
        Some(ids) => {
            delete_blocks(model, &ids);
            return true;
        },
        None => {},
    }
    match undo.last_batch_edit.take() {
        Some(snaps) => {
            restore_batch_edit(model, &snaps);
            true
        },
        None => false,
    }
}

} // verus!
