use brick_road::edits::{
    assign_compare_extra_rows, build_deletion_snapshot, compare_cache_is_stale, delete_work_block, dep_type_from_edges,
    effective_inspector_id, group_targets, link_blocks, restore_deletion_snapshot, CompareScheduleCache,
};
use brick_road::model::{Dependency, DependencyId, DependencyType, Model, Plan, PlanId, WorkBlock, WorkBlockId};
use brick_road::paste::paste_clipboard;

fn id(n: u64) -> WorkBlockId {
    WorkBlockId(n)
}

fn bid(n: u64) -> WorkBlockId {
    WorkBlockId(n)
}

fn pid(n: u64) -> PlanId {
    PlanId(n)
}

fn plan(m: &Model, id: PlanId) -> &Plan {
    &m.plans[m.plan_position(id).unwrap()]
}

fn plan_mut(m: &mut Model, id: PlanId) -> &mut Plan {
    let i = m.plan_position(id).unwrap();
    &mut m.plans[i]
}

fn has_block(m: &Model, id: WorkBlockId) -> bool {
    m.block_position(id).is_some()
}

fn block(m: &Model, id: WorkBlockId) -> &WorkBlock {
    &m.work_blocks[m.block_position(id).unwrap()]
}

fn block_mut(m: &mut Model, id: WorkBlockId) -> &mut WorkBlock {
    let i = m.block_position(id).unwrap();
    &mut m.work_blocks[i]
}

fn has_dep(m: &Model, id: DependencyId) -> bool {
    m.dependencies.iter().any(|d| d.id == id)
}

fn dep(m: &Model, id: DependencyId) -> Dependency {
    m.dependencies.iter().find(|d| d.id == id).unwrap().clone()
}

fn row_of_pair(v: &[(WorkBlockId, i32)], id: WorkBlockId) -> Option<i32> {
    v.iter().find(|(b, _)| *b == id).map(|(_, r)| *r)
}

// ── deleting ────────────────────────────────────────────────────────────────

#[test]
fn delete_simple_block_removes_it() {
    let mut m = Model::default();
    let a = m.create_work_block("A");
    delete_work_block(&mut m, a);
    assert!(!has_block(&m, a));
}

#[test]
fn delete_block_clears_dangling_child_parent() {
    let mut m = Model::default();
    let parent = m.create_work_block("P");
    let child = m.create_work_block("C");
    block_mut(&mut m, child).parent = Some(parent);

    delete_work_block(&mut m, parent);

    assert!(!has_block(&m, parent), "parent removed");
    assert!(has_block(&m, child), "child survives");
    assert_eq!(block(&m, child).parent, None, "child parent cleared");
}

#[test]
fn delete_block_cleans_plan_root_and_rows() {
    let mut m = Model::default();
    let pid = m.create_plan("p", None);
    let a = m.create_work_block("A");
    plan_mut(&mut m, pid).root_blocks.push(a);
    m.set_block_row(pid, a, 3);

    delete_work_block(&mut m, a);

    assert!(!plan(&m, pid).root_blocks.contains(&a));
    assert!(row_of_pair(&plan(&m, pid).block_rows, a).is_none());
}

#[test]
fn delete_block_removes_its_dependencies() {
    let mut m = Model::default();
    let a = m.create_work_block("A");
    let b = m.create_work_block("B");
    let dep = m.create_dependency(a, b, DependencyType::FinishToStart);

    delete_work_block(&mut m, a);

    assert!(!has_dep(&m, dep));
    assert!(has_block(&m, b), "B survives");
}

#[test]
fn delete_block_only_removes_itself() {
    let mut m = Model::default();
    let parent = m.create_work_block("P");
    let child = m.create_work_block("C");
    block_mut(&mut m, child).parent = Some(parent);

    delete_work_block(&mut m, parent);

    assert!(!has_block(&m, parent));
    assert!(has_block(&m, child), "child not cascaded");
    assert_eq!(block(&m, child).parent, None);
}

// ── dependency type from edges ──────────────────────────────────────────────

#[test]
fn dep_type_finish_to_start() {
    assert_eq!(dep_type_from_edges(true, false), DependencyType::FinishToStart);
}

#[test]
fn dep_type_finish_to_finish() {
    assert_eq!(dep_type_from_edges(true, true), DependencyType::FinishToFinish);
}

#[test]
fn dep_type_start_to_start() {
    assert_eq!(dep_type_from_edges(false, false), DependencyType::StartToStart);
}

#[test]
fn dep_type_start_to_finish() {
    assert_eq!(dep_type_from_edges(false, true), DependencyType::StartToFinish);
}

// ── undoing a deletion ──────────────────────────────────────────────────────

#[test]
fn undo_snapshot_round_trip_single_block() {
    let mut m = Model::default();
    let plan_id = m.create_plan("p", None);
    let a = m.create_work_block("A");
    plan_mut(&mut m, plan_id).root_blocks.push(a);

    let snap = build_deletion_snapshot(&m, a);
    delete_work_block(&mut m, a);
    assert!(!has_block(&m, a), "block gone after delete");
    assert!(!plan(&m, plan_id).root_blocks.contains(&a), "root cleared");

    restore_deletion_snapshot(&mut m, snap);
    assert!(has_block(&m, a), "block restored");
    assert!(plan(&m, plan_id).root_blocks.contains(&a), "root restored");
}

#[test]
fn undo_snapshot_restores_dependencies() {
    let mut m = Model::default();
    let _plan = m.create_plan("p", None);
    let a = m.create_work_block("A");
    let b = m.create_work_block("B");
    let dep = m.create_dependency(a, b, DependencyType::FinishToStart);

    let snap = build_deletion_snapshot(&m, a);
    delete_work_block(&mut m, a);
    assert!(!has_dep(&m, dep), "dep gone");

    restore_deletion_snapshot(&mut m, snap);
    assert!(has_dep(&m, dep), "dep restored");
    assert!(has_block(&m, b), "B survived throughout");
}

#[test]
fn undo_snapshot_restores_reparented_children() {
    let mut m = Model::default();
    let _plan = m.create_plan("p", None);
    let parent = m.create_work_block("P");
    let child = m.create_work_block("C");
    block_mut(&mut m, child).parent = Some(parent);

    let snap = build_deletion_snapshot(&m, parent);
    delete_work_block(&mut m, parent);
    assert_eq!(block(&m, child).parent, None, "child parent cleared by delete");

    restore_deletion_snapshot(&mut m, snap);
    assert!(has_block(&m, parent), "parent restored");
    assert_eq!(block(&m, child).parent, Some(parent), "child re-parented on restore");
}

#[test]
fn undo_snapshot_dep_only_for_deleted_block() {
    let mut m = Model::default();
    let _plan = m.create_plan("p", None);
    let a = m.create_work_block("A");
    let b = m.create_work_block("B");
    let c = m.create_work_block("C");
    let _dep_bc = m.create_dependency(b, c, DependencyType::FinishToStart);
    let dep_ab = m.create_dependency(a, b, DependencyType::FinishToStart);

    let snap = build_deletion_snapshot(&m, a);
    assert_eq!(snap.dependencies.len(), 1);
    assert_eq!(snap.dependencies[0].id, dep_ab);
}

#[test]
fn undo_restores_the_model_exactly() {
    let mut m = Model::default();
    let p = m.create_plan("p", None);
    let a = m.add_block_to_plan(p, "A", 2, 4, 1);
    let b = m.add_child_block(p, a, "B", 3, 2, 2);
    let c = m.add_block_to_plan(p, "C", 8, 1, 0);
    let _d1 = m.create_dependency(a, c, DependencyType::FinishToStart);
    let _d2 = m.create_dependency(b, c, DependencyType::StartToStart);
    let before_blocks: Vec<(WorkBlockId, Option<WorkBlockId>)> = m.work_blocks.iter().map(|w| (w.id, w.parent)).collect();
    let before_deps: Vec<DependencyId> = m.dependencies.iter().map(|d| d.id).collect();

    let snap = build_deletion_snapshot(&m, a);
    delete_work_block(&mut m, a);
    restore_deletion_snapshot(&mut m, snap);

    for (id, parent) in before_blocks {
        assert!(has_block(&m, id));
        assert_eq!(block(&m, id).parent, parent);
    }
    for d in before_deps {
        assert!(has_dep(&m, d));
    }
    assert!(plan(&m, p).root_blocks.contains(&a));
}

// ── comparison cache ────────────────────────────────────────────────────────

fn make_cache(
    cmp_id: WorkBlockId,
    block_snapshot: Vec<(WorkBlockId, i32)>,
    dep_count: usize,
    row_snapshot: Vec<(WorkBlockId, i32)>,
) -> CompareScheduleCache {
    CompareScheduleCache { plan_id: Some(PlanId(cmp_id.0)), block_snapshot, dep_count, row_snapshot }
}

#[test]
fn cache_is_stale_on_plan_id_change() {
    let cache = make_cache(WorkBlockId(1), vec![], 0, vec![]);
    let (sched_stale, row_stale) = compare_cache_is_stale(&cache, PlanId(99), &vec![], 0, &vec![]);
    assert!(sched_stale, "changing plan_id must invalidate schedule");
    assert!(!row_stale);
}

#[test]
fn cache_is_stale_on_block_duration_change() {
    let snap = vec![(WorkBlockId(1), 5)];
    let cache = make_cache(WorkBlockId(42), snap, 0, vec![]);
    let new_snap = vec![(WorkBlockId(1), 10)];
    let (sched_stale, _) = compare_cache_is_stale(&cache, PlanId(42), &new_snap, 0, &vec![]);
    assert!(sched_stale, "duration change must invalidate schedule");
}

#[test]
fn cache_is_stale_on_dep_count_change() {
    let cache = make_cache(WorkBlockId(7), vec![], 2, vec![]);
    let (sched_stale, _) = compare_cache_is_stale(&cache, PlanId(7), &vec![], 3, &vec![]);
    assert!(sched_stale, "dep count change must invalidate schedule");
}

#[test]
fn cache_is_stale_on_row_change() {
    let rows = vec![(WorkBlockId(1), 0)];
    let cache = make_cache(WorkBlockId(5), vec![], 0, rows);
    let new_rows = vec![(WorkBlockId(1), 1)];
    let (sched_stale, row_stale) = compare_cache_is_stale(&cache, PlanId(5), &vec![], 0, &new_rows);
    assert!(!sched_stale, "row change alone must not invalidate schedule");
    assert!(row_stale, "row change must mark rows stale");
}

#[test]
fn cache_is_not_stale_when_nothing_changed() {
    let snap = vec![(WorkBlockId(1), 5)];
    let rows = vec![(WorkBlockId(1), 2)];
    let cache = make_cache(WorkBlockId(3), snap.clone(), 1, rows.clone());
    let (sched_stale, row_stale) = compare_cache_is_stale(&cache, PlanId(3), &snap, 1, &rows);
    assert!(!sched_stale);
    assert!(!row_stale);
}

#[test]
fn cache_ignores_snapshot_order() {
    let snap = vec![(WorkBlockId(1), 5), (WorkBlockId(2), 7)];
    let reordered = vec![(WorkBlockId(2), 7), (WorkBlockId(1), 5)];
    let cache = make_cache(WorkBlockId(3), snap, 1, vec![]);
    let (sched_stale, row_stale) = compare_cache_is_stale(&cache, PlanId(3), &reordered, 1, &vec![]);
    assert!(!sched_stale);
    assert!(!row_stale);
}

#[test]
fn assign_compare_extra_rows_places_compare_only_blocks_after_max_row() {
    let id_to_row = vec![(WorkBlockId(1), 2), (WorkBlockId(2), 5)];
    let extra = assign_compare_extra_rows(&id_to_row, &vec![WorkBlockId(1), WorkBlockId(3)]);
    assert!(row_of_pair(&extra, WorkBlockId(1)).is_none(), "shared block must not appear in extra");
    assert_eq!(row_of_pair(&extra, WorkBlockId(3)), Some(6), "compare-only block gets max_row+1");
}

#[test]
fn assign_compare_extra_rows_ordering_is_by_id_not_insertion() {
    let id_to_row: Vec<(WorkBlockId, i32)> = vec![];
    let extra = assign_compare_extra_rows(&id_to_row, &vec![WorkBlockId(30), WorkBlockId(10), WorkBlockId(20)]);
    assert_eq!(row_of_pair(&extra, WorkBlockId(10)), Some(1));
    assert_eq!(row_of_pair(&extra, WorkBlockId(20)), Some(2));
    assert_eq!(row_of_pair(&extra, WorkBlockId(30)), Some(3));
}

#[test]
fn assign_compare_extra_rows_empty_compare_schedule_returns_empty() {
    let id_to_row = vec![(WorkBlockId(1), 3)];
    let extra = assign_compare_extra_rows(&id_to_row, &vec![]);
    assert!(extra.is_empty());
}

#[test]
fn assign_compare_extra_rows_below_negative_rows() {
    let id_to_row = vec![(WorkBlockId(1), -4), (WorkBlockId(2), -2)];
    let extra = assign_compare_extra_rows(&id_to_row, &vec![WorkBlockId(9)]);
    assert_eq!(extra, vec![(WorkBlockId(9), -1)]);
}

// ── pasting ─────────────────────────────────────────────────────────────────

#[test]
fn paste_single_block_creates_new_id() {
    let mut m = Model::default();
    let plan_id = m.create_plan("p", None);
    let orig = m.create_work_block("A");
    block_mut(&mut m, orig).start_day = 10;
    block_mut(&mut m, orig).duration_days = 5;
    plan_mut(&mut m, plan_id).root_blocks.push(orig);
    m.set_block_row(plan_id, orig, 2);

    let cb = vec![(block(&m, orig).clone(), 2)];
    let new_ids = paste_clipboard(&mut m, plan_id, &cb, &[], 20, 3);

    assert_eq!(new_ids.len(), 1);
    assert_ne!(new_ids[0], orig, "paste must produce a new id");
    assert!(has_block(&m, new_ids[0]));
    assert_eq!(block(&m, new_ids[0]).start_day, 20);
    assert_eq!(m.block_row(plan_id, new_ids[0]), 3);
    assert_eq!(block(&m, new_ids[0]).duration_days, 5);
}

#[test]
fn paste_subtree_remaps_parent_links() {
    let mut m = Model::default();
    let plan_id = m.create_plan("p", None);
    let parent = m.create_work_block("Parent");
    let child = m.create_work_block("Child");
    block_mut(&mut m, parent).start_day = 0;
    block_mut(&mut m, parent).duration_days = 10;
    block_mut(&mut m, child).start_day = 2;
    block_mut(&mut m, child).duration_days = 3;
    block_mut(&mut m, child).parent = Some(parent);
    plan_mut(&mut m, plan_id).root_blocks.push(parent);
    m.set_block_row(plan_id, parent, 0);
    m.set_block_row(plan_id, child, 1);

    let cb = vec![(block(&m, parent).clone(), 0), (block(&m, child).clone(), 1)];
    let new_ids = paste_clipboard(&mut m, plan_id, &cb, &[], 5, 0);

    assert_eq!(new_ids.len(), 2);
    let new_parent_id = new_ids[0];
    let new_child_id = new_ids[1];
    assert_eq!(block(&m, new_child_id).parent, Some(new_parent_id));
    assert!(plan(&m, plan_id).root_blocks.contains(&new_parent_id));
    assert!(!plan(&m, plan_id).root_blocks.contains(&new_child_id));
}

#[test]
fn paste_duplicates_internal_dep_and_drops_external() {
    let mut m = Model::default();
    let plan_id = m.create_plan("p", None);
    let a = m.create_work_block("A");
    let b = m.create_work_block("B");
    let c = m.create_work_block("C");
    block_mut(&mut m, a).duration_days = 3;
    block_mut(&mut m, b).duration_days = 3;
    block_mut(&mut m, c).duration_days = 3;
    plan_mut(&mut m, plan_id).root_blocks.extend([a, b, c]);

    let dep_internal_id = m.create_dependency_in(plan_id, a, b, DependencyType::FinishToStart);
    let dep_internal = dep(&m, dep_internal_id);
    let _dep_ext = m.create_dependency_in(plan_id, a, c, DependencyType::FinishToStart);

    let cb_blocks = vec![(block(&m, a).clone(), 0), (block(&m, b).clone(), 0)];
    let cb_deps = vec![dep_internal];
    let new_ids = paste_clipboard(&mut m, plan_id, &cb_blocks, &cb_deps, 0, 0);

    let internal_deps = m
        .dependencies
        .iter()
        .filter(|d| new_ids.contains(&d.predecessor) && new_ids.contains(&d.successor))
        .count();
    assert_eq!(internal_deps, 1, "exactly one internal dep should be duplicated");
    let external_deps = m.dependencies.iter().filter(|d| new_ids.contains(&d.predecessor) && d.successor == c).count();
    assert_eq!(external_deps, 0, "external dep must be dropped");
}

#[test]
fn paste_day_offset_shifts_all_blocks_by_delta() {
    let mut m = Model::default();
    let plan_id = m.create_plan("p", None);
    let a = m.create_work_block("A");
    let b = m.create_work_block("B");
    block_mut(&mut m, a).start_day = 10;
    block_mut(&mut m, a).duration_days = 5;
    block_mut(&mut m, b).start_day = 15;
    block_mut(&mut m, b).duration_days = 5;

    let cb = vec![(block(&m, a).clone(), 0), (block(&m, b).clone(), 0)];
    let new_ids = paste_clipboard(&mut m, plan_id, &cb, &[], 20, 0);

    let starts: Vec<i32> = new_ids.iter().map(|id| block(&m, *id).start_day).collect();
    assert!(starts.contains(&20), "first block at paste_day");
    assert!(starts.contains(&25), "second block preserves 5-day gap");
}

#[test]
fn paste_keeps_row_distances_and_copies_fields() {
    let mut m = Model::default();
    let plan_id = m.create_plan("p", None);
    let a = m.create_work_block("A");
    let b = m.create_work_block("B");
    block_mut(&mut m, a).description = "first".to_string();
    block_mut(&mut m, a).priority = 3;
    block_mut(&mut m, a).t_shirt_size = Some("M".to_string());
    block_mut(&mut m, a).rollup = true;
    let cb = vec![(block(&m, a).clone(), 4), (block(&m, b).clone(), 7)];
    let new_ids = paste_clipboard(&mut m, plan_id, &cb, &[], 0, 10);
    assert_eq!(m.block_row(plan_id, new_ids[0]), 10);
    assert_eq!(m.block_row(plan_id, new_ids[1]), 13);
    let copy = block(&m, new_ids[0]);
    assert_eq!(copy.name, "A");
    assert_eq!(copy.description, "first");
    assert_eq!(copy.priority, 3);
    assert_eq!(copy.t_shirt_size, Some("M".to_string()));
    assert!(copy.rollup);
    assert_eq!(new_ids, vec![WorkBlockId(4), WorkBlockId(5)]);
}

// ── moving a group ──────────────────────────────────────────────────────────

#[test]
fn single_block_free_move() {
    let (day, peers) = group_targets(5, 10, 0, &[], 0);
    assert_eq!(day, 10);
    assert!(peers.is_empty());
}

#[test]
fn single_block_clamped_at_floor() {
    let (day, peers) = group_targets(5, -3, 0, &[], 0);
    assert_eq!(day, 0);
    assert!(peers.is_empty());
}

#[test]
fn single_block_branch_floor() {
    let (day, _) = group_targets(15, 7, 0, &[], 10);
    assert_eq!(day, 10);
}

#[test]
fn group_moves_by_same_delta() {
    let offsets = [(id(2), -2, 0)];
    let (anchor, peers) = group_targets(5, 8, 0, &offsets, 0);
    assert_eq!(anchor, 8);
    assert_eq!(peers[0], (id(2), 6, 0));
}

#[test]
fn group_rows_shifted_uniformly() {
    let offsets = [(id(1), 0, -1), (id(2), 0, 2)];
    let (_, peers) = group_targets(0, 0, 3, &offsets, 0);
    assert_eq!(peers[0].2, 2);
    assert_eq!(peers[1].2, 5);
}

#[test]
fn group_clamped_by_leftmost_peer() {
    let offsets = [(id(2), -3, 0)];
    let (anchor, peers) = group_targets(5, -1, 0, &offsets, 0);
    assert_eq!(anchor, 3);
    assert_eq!(peers[0].1, 0);
}

#[test]
fn group_clamped_when_anchor_itself_is_leftmost() {
    let offsets = [(id(2), 3, 0)];
    let (anchor, peers) = group_targets(2, -4, 0, &offsets, 0);
    assert_eq!(anchor, 0);
    assert_eq!(peers[0].1, 3);
}

#[test]
fn group_no_clamp_when_moving_right() {
    let offsets = [(id(2), -3, 0)];
    let (anchor, peers) = group_targets(5, 20, 0, &offsets, 0);
    assert_eq!(anchor, 20);
    assert_eq!(peers[0].1, 17);
}

#[test]
fn group_already_at_floor_no_movement() {
    let offsets = [(id(2), -2, 0)];
    let (anchor, peers) = group_targets(2, -5, 0, &offsets, 0);
    assert_eq!(anchor, 2);
    assert_eq!(peers[0].1, 0);
}

#[test]
fn group_multiple_peers_tightest_wins() {
    let offsets = [(id(2), -3, 0), (id(3), -6, 0)];
    let (anchor, peers) = group_targets(10, 2, 0, &offsets, 0);
    assert_eq!(anchor, 6);
    assert_eq!(peers[0].1, 3);
    assert_eq!(peers[1].1, 0);
}

// ── which block the inspector shows ─────────────────────────────────────────

#[test]
fn main_selection_wins() {
    assert_eq!(effective_inspector_id(Some(bid(1)), Some((bid(2), pid(10)))), Some(bid(1)));
}

#[test]
fn lane_fallback_when_main_empty() {
    assert_eq!(effective_inspector_id(None, Some((bid(2), pid(10)))), Some(bid(2)));
}

#[test]
fn none_when_both_empty() {
    assert_eq!(effective_inspector_id(None, None), None);
}

#[test]
fn main_only_no_lane() {
    assert_eq!(effective_inspector_id(Some(bid(5)), None), Some(bid(5)));
}

#[test]
fn dropping_on_the_finish_half_links_finish_to_start() {
    let mut m = Model::default();
    let a = m.create_work_block("A");
    let b = m.create_work_block("B");
    let next = m.next_id;
    let r = link_blocks(&mut m, a, b, true, false);
    assert_eq!(r, Some(DependencyId(next)));
    assert_eq!(m.dependencies.len(), 1);
    let d = dep(&m, DependencyId(next));
    assert_eq!(d.predecessor, a);
    assert_eq!(d.successor, b);
    assert_eq!(d.dependency_type, DependencyType::FinishToStart);
    assert_eq!(d.lag, 0);
}

#[test]
fn dropping_twice_links_once() {
    let mut m = Model::default();
    let a = m.create_work_block("A");
    let b = m.create_work_block("B");
    assert!(link_blocks(&mut m, a, b, false, true).is_some());
    assert_eq!(link_blocks(&mut m, a, b, false, true), None);
    assert_eq!(m.dependencies.len(), 1);
    assert_eq!(m.dependencies[0].dependency_type, DependencyType::StartToFinish);
    // Another edge pair is another dependency.
    assert!(link_blocks(&mut m, a, b, true, true).is_some());
    assert_eq!(m.dependencies.len(), 2);
}

#[test]
fn dropping_on_the_same_block_links_nothing() {
    let mut m = Model::default();
    let a = m.create_work_block("A");
    let next = m.next_id;
    assert_eq!(link_blocks(&mut m, a, a, true, false), None);
    assert!(m.dependencies.is_empty());
    assert_eq!(m.next_id, next);
}
