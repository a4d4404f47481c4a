use brick_road::date::Date;
use brick_road::model::{Model, NonWorkingDate, Plan, PlanId, ResourceType, WorkBlockId};
use brick_road::rows::{apply_row_reorder, commit_row_name, SaveRequest, reorder_row_names, reordered_row, visible_blocks};

fn plan(m: &Model, id: PlanId) -> &Plan {
    &m.plans[m.plan_position(id).unwrap()]
}

fn plan_mut(m: &mut Model, id: PlanId) -> &mut Plan {
    let i = m.plan_position(id).unwrap();
    &mut m.plans[i]
}

fn set_duration(m: &mut Model, id: WorkBlockId, days: i32) {
    let i = m.block_position(id).unwrap();
    m.work_blocks[i].duration_days = days;
}

#[test]
fn commit_rename_carries_sole_use_resource_registration() {
    let mut m = Model::default();
    let plan_id = m.create_plan("main", None);
    let scope: Option<WorkBlockId> = None;
    m.set_resource_kind("Jefff", ResourceType::Engineer);
    if let Some(rb) = m.resource_blocks.iter_mut().find(|r| r.name == "Jefff") {
        rb.non_working_dates.push(NonWorkingDate {
            date: Date::from_ymd_opt(2026, 8, 3).unwrap(),
            description: "PTO".to_string(),
        });
    }
    plan_mut(&mut m, plan_id).set_row_name(scope, 0, "Jefff".to_string());

    let mut save = SaveRequest::default();
    commit_row_name(&mut m, &mut save, plan_id, scope, 0, "Jeff");
    assert!(save.0, "rename marks the deferred save");

    let rb = m.resource_by_name("Jeff").expect("registration carried");
    assert_eq!(rb.resource_type, ResourceType::Engineer);
    assert_eq!(rb.non_working_dates.len(), 1, "PTO carried");
    assert!(m.resource_by_name("Jefff").is_none(), "no orphaned entry under the old name");
    assert_eq!(plan(&m, plan_id).row_name(scope, 0).as_deref(), Some("Jeff"));
}

#[test]
fn commit_rename_leaves_shared_resource_registration_alone() {
    let mut m = Model::default();
    let plan_id = m.create_plan("main", None);
    m.set_resource_kind("Team A", ResourceType::Team);
    {
        let p = plan_mut(&mut m, plan_id);
        p.set_row_name(None, 0, "Team A".to_string());
        p.set_row_name(Some(WorkBlockId(999)), 0, "Team A".to_string());
    }

    commit_row_name(&mut m, &mut SaveRequest::default(), plan_id, None, 0, "Team Alpha");

    assert!(m.resource_by_name("Team A").is_some(), "shared registration stays with the remaining rows");
    assert!(m.resource_by_name("Team Alpha").is_none());
    assert_eq!(plan(&m, plan_id).row_name(None, 0).as_deref(), Some("Team Alpha"));
}

#[test]
fn commit_rename_onto_registered_name_does_not_rename_registry() {
    let mut m = Model::default();
    let plan_id = m.create_plan("main", None);
    m.set_resource_kind("Old", ResourceType::Engineer);
    m.set_resource_kind("Existing", ResourceType::Team);
    plan_mut(&mut m, plan_id).set_row_name(None, 0, "Old".to_string());

    commit_row_name(&mut m, &mut SaveRequest::default(), plan_id, None, 0, "Existing");

    assert!(m.resource_by_name("Old").is_some(), "Old entry untouched");
    assert_eq!(m.resource_kind("Existing"), Some(ResourceType::Team), "Existing keeps its own registration");
}

#[test]
fn commit_row_name_merges_blocks_onto_existing_row() {
    let mut m = Model::default();
    let plan_id = m.create_plan("main", None);
    let scope: Option<WorkBlockId> = None;
    plan_mut(&mut m, plan_id).set_row_name(scope, 3, "Backend".to_string());
    let block = m.create_work_block("Task");
    set_duration(&mut m, block, 5);
    plan_mut(&mut m, plan_id).root_blocks.push(block);
    m.set_block_row(plan_id, block, 7);

    commit_row_name(&mut m, &mut SaveRequest::default(), plan_id, scope, 7, "Backend");

    assert_eq!(m.block_row(plan_id, block), 3, "block should move to the target row");
    assert_eq!(plan(&m, plan_id).row_name(scope, 7), None, "source row name cleared");
}

#[test]
fn commit_row_name_merges_onto_row_beyond_old_64_cap() {
    let mut m = Model::default();
    let plan_id = m.create_plan("main", None);
    let scope: Option<WorkBlockId> = None;
    plan_mut(&mut m, plan_id).set_row_name(scope, 100, "Infra".to_string());
    let block = m.create_work_block("Deploy");
    set_duration(&mut m, block, 3);
    plan_mut(&mut m, plan_id).root_blocks.push(block);
    m.set_block_row(plan_id, block, 1);

    commit_row_name(&mut m, &mut SaveRequest::default(), plan_id, scope, 1, "Infra");

    assert_eq!(m.block_row(plan_id, block), 100, "block must merge onto the high-numbered row, not duplicate");
    assert_eq!(plan(&m, plan_id).row_name(scope, 1), None, "source row name cleared");
}

#[test]
fn commit_row_name_trims_and_clears() {
    let mut m = Model::default();
    let plan_id = m.create_plan("main", None);
    commit_row_name(&mut m, &mut SaveRequest::default(), plan_id, None, 2, "  Ops \t");
    assert_eq!(plan(&m, plan_id).row_name(None, 2).as_deref(), Some("Ops"));
    commit_row_name(&mut m, &mut SaveRequest::default(), plan_id, None, 2, "   ");
    assert_eq!(plan(&m, plan_id).row_name(None, 2), None);
}

#[test]
fn commit_row_name_merge_ignores_ascii_case() {
    let mut m = Model::default();
    let plan_id = m.create_plan("main", None);
    plan_mut(&mut m, plan_id).set_row_name(None, 0, "backend".to_string());
    let block = m.add_block_to_plan(plan_id, "Task", 0, 4, 2);
    commit_row_name(&mut m, &mut SaveRequest::default(), plan_id, None, 2, "BACKEND");
    assert_eq!(m.block_row(plan_id, block), 0);
}

#[test]
fn reordered_row_insert_semantics() {
    assert_eq!(reordered_row(0, 0, 2), 2);
    assert_eq!(reordered_row(1, 0, 2), 0);
    assert_eq!(reordered_row(2, 0, 2), 1);
    assert_eq!(reordered_row(3, 0, 2), 3);
    assert_eq!(reordered_row(3, 3, 1), 1);
    assert_eq!(reordered_row(1, 3, 1), 2);
    assert_eq!(reordered_row(2, 3, 1), 3);
    assert_eq!(reordered_row(0, 3, 1), 0);
    assert_eq!(reordered_row(4, 3, 1), 4);
    assert_eq!(reordered_row(5, 2, 2), 5);
    assert_eq!(reordered_row(2, 2, 2), 2);
}

#[test]
fn reordered_row_drag_back_restores_every_row() {
    for row in -3..10 {
        assert_eq!(reordered_row(reordered_row(row, 1, 6), 6, 1), row);
    }
}

#[test]
fn reorder_row_names_moves_grows_and_trims() {
    let names = |v: &[&str]| v.iter().map(|s| s.to_string()).collect::<Vec<_>>();
    let mut v = names(&["A", "B", "C"]);
    reorder_row_names(&mut v, 0, 2);
    assert_eq!(v, names(&["B", "C", "A"]));
    let mut v = names(&["A", "B", "C"]);
    reorder_row_names(&mut v, 2, 0);
    assert_eq!(v, names(&["C", "A", "B"]));
    let mut v = names(&["A"]);
    reorder_row_names(&mut v, 0, 2);
    assert_eq!(v, names(&["", "", "A"]));
    let mut v = names(&["A", "B"]);
    reorder_row_names(&mut v, 3, 0);
    assert_eq!(v, names(&["", "A", "B"]));
}

#[test]
fn reorder_row_names_ignores_negative_rows() {
    let mut v = vec!["A".to_string()];
    reorder_row_names(&mut v, -1, 0);
    assert_eq!(v, vec!["A".to_string()]);
}

#[test]
fn apply_row_reorder_moves_blocks_and_names_together() {
    let mut m = Model::default();
    let plan_id = m.create_plan("main", None);
    let scope: Option<WorkBlockId> = None;

    let block_on_row = |m: &mut Model, name: &str, row: i32| {
        let id = m.create_work_block(name);
        set_duration(m, id, 5);
        plan_mut(m, plan_id).root_blocks.push(id);
        m.set_block_row(plan_id, id, row);
        id
    };
    let a = block_on_row(&mut m, "A", 0);
    let b = block_on_row(&mut m, "B", 1);
    let c = block_on_row(&mut m, "C", 2);
    for (row, name) in [(0, "Ann"), (1, "Bob"), (2, "Cat")] {
        plan_mut(&mut m, plan_id).set_row_name(scope, row, name.to_string());
    }
    let child = m.create_work_block("A.1");
    set_duration(&mut m, child, 2);
    let ci = m.block_position(child).unwrap();
    m.work_blocks[ci].parent = Some(a);
    m.set_block_row(plan_id, child, 1);

    let mut save = SaveRequest::default();
    apply_row_reorder(&mut m, &mut save, plan_id, scope, 0, 2);
    assert!(save.0, "reorder marks the deferred save");

    assert_eq!(m.block_row(plan_id, a), 2, "dragged row's block lands at 2");
    assert_eq!(m.block_row(plan_id, b), 0, "rows between shift up");
    assert_eq!(m.block_row(plan_id, c), 1, "rows between shift up");
    assert_eq!(m.block_row(plan_id, child), 1, "drilled-scope block is not visible at top level and stays put");
    assert_eq!(plan(&m, plan_id).row_name(scope, 0).as_deref(), Some("Bob"));
    assert_eq!(plan(&m, plan_id).row_name(scope, 1).as_deref(), Some("Cat"));
    assert_eq!(plan(&m, plan_id).row_name(scope, 2).as_deref(), Some("Ann"));
}

#[test]
fn visible_blocks_at_top_level_and_inside_a_block() {
    let mut m = Model::default();
    let p = m.create_plan("main", None);
    let a = m.add_block_to_plan(p, "A", 0, 5, 0);
    let _event = m.add_block_to_plan(p, "E", 0, 0, 1);
    let c = m.add_child_block(p, a, "c", 0, 2, 0);
    assert_eq!(visible_blocks(&m, p, None), vec![a]);
    assert_eq!(visible_blocks(&m, p, Some(a)), vec![c]);
    assert!(visible_blocks(&m, PlanId(77), None).is_empty());
}

#[test]
fn branch_rows_show_main_names() {
    let mut m = Model::default();
    let main = m.create_plan("main", None);
    let branch = m.create_plan("alt", Some(10));
    plan_mut(&mut m, main).set_row_name(None, 0, "Ann".to_string());
    assert_eq!(m.resolved_row_name(branch, None, 0).as_deref(), Some("Ann"));
    plan_mut(&mut m, branch).set_row_name(None, 0, "Bea".to_string());
    assert_eq!(m.resolved_row_name(branch, None, 0).as_deref(), Some("Bea"));
    assert_eq!(m.resolved_row_name(main, None, 1), None);
}

#[test]
fn reorder_onto_the_same_row_requests_no_save() {
    let mut m = Model::default();
    let plan_id = m.create_plan("main", None);
    m.add_block_to_plan(plan_id, "A", 0, 5, 0);
    let mut save = SaveRequest::default();
    apply_row_reorder(&mut m, &mut save, plan_id, None, 1, 1);
    assert!(!save.0);
}
