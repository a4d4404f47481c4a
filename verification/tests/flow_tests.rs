use brick_road::flow::{default_row_label, flow_layout};
use brick_road::model::{Day, Model, PlanId, ResourceType, WorkBlockId, EVENTS_ROW};

fn placed(m: &mut Model, plan: PlanId, name: &str, start: Day, dur: Day) -> WorkBlockId {
    m.add_block_to_plan(plan, name, start, dur, 0)
}

#[test]
fn single_leaf_root_is_one_ribbon() {
    let mut m = Model::default();
    let plan = m.create_plan("main", None);
    let a = placed(&mut m, plan, "A", 2, 5);
    let fl = flow_layout(&m, plan);
    assert_eq!(fl.lanes.len(), 1);
    assert_eq!(fl.lanes[0].root, a);
    assert_eq!(fl.lanes[0].height, 1);
    assert_eq!(fl.runs.len(), 1);
    let r = &fl.runs[0];
    assert_eq!((r.day0, r.day1, r.lane, r.level), (2, 7, 0, 0));
    assert_eq!(fl.resources[r.resource], "Resource 1");
}

#[test]
fn overlapping_children_thicken_the_stream() {
    let mut m = Model::default();
    let plan = m.create_plan("main", None);
    let root = placed(&mut m, plan, "P1", 0, 10);
    let a = m.add_child_block(plan, root, "a", 0, 10, 0);
    let b = m.add_child_block(plan, root, "b", 2, 4, 1);
    let fl = flow_layout(&m, plan);
    assert_eq!(fl.lanes.len(), 1, "the container is the stream, not a leaf");
    assert_eq!(fl.lanes[0].height, 2, "two concurrent leaves = 2 units");
    let runs_of = |id: WorkBlockId| -> Vec<(Day, Day, i32)> {
        let mut v: Vec<_> = fl.runs.iter().filter(|r| r.leaf == id).map(|r| (r.day0, r.day1, r.level)).collect();
        v.sort();
        v
    };
    assert_eq!(runs_of(a), vec![(0, 10, 0)]);
    assert_eq!(runs_of(b), vec![(2, 6, 1)]);
}

#[test]
fn ribbon_packs_upward_when_neighbour_finishes() {
    let mut m = Model::default();
    let plan = m.create_plan("main", None);
    let root = placed(&mut m, plan, "P1", 0, 8);
    let _a = m.add_child_block(plan, root, "a", 0, 4, 0);
    let b = m.add_child_block(plan, root, "b", 2, 6, 1);
    let fl = flow_layout(&m, plan);
    let mut b_runs: Vec<_> = fl.runs.iter().filter(|r| r.leaf == b).map(|r| (r.day0, r.day1, r.level)).collect();
    b_runs.sort();
    assert_eq!(b_runs, vec![(2, 4, 1), (4, 8, 0)]);
}

#[test]
fn lanes_stack_in_plan_row_order_and_events_are_excluded() {
    let mut m = Model::default();
    let plan = m.create_plan("main", None);
    let p2 = m.add_block_to_plan(plan, "P2", 0, 5, 1);
    let p1 = m.add_block_to_plan(plan, "P1", 0, 5, 0);
    let _ev = m.add_block_to_plan(plan, "GA", 3, 1, EVENTS_ROW);
    let _c1 = m.add_child_block(plan, p1, "c1", 0, 5, 0);
    let _c2 = m.add_child_block(plan, p1, "c2", 0, 5, 1);
    let fl = flow_layout(&m, plan);
    assert_eq!(fl.lanes.len(), 2, "the event is not a stream");
    assert_eq!(fl.lanes[0].root, p1, "row 0 stream first");
    assert_eq!(fl.lanes[0].base_unit, 0);
    assert_eq!(fl.lanes[0].height, 2);
    assert_eq!(fl.lanes[1].root, p2);
    assert_eq!(fl.lanes[1].base_unit, 2, "later streams start below the previous stream's units");
}

#[test]
fn ribbon_colours_index_sorted_resources() {
    let mut m = Model::default();
    let plan = m.create_plan("main", None);
    let root = placed(&mut m, plan, "P1", 0, 8);
    m.set_resource_kind("Zara", ResourceType::Engineer);
    m.set_resource_kind("Alice", ResourceType::Engineer);
    let a = m.add_child_block(plan, root, "a", 0, 4, 0);
    let b = m.add_child_block(plan, root, "b", 4, 4, 1);
    {
        let i = m.plan_position(plan).unwrap();
        let p = &mut m.plans[i];
        p.set_row_name(Some(root), 0, "Zara".to_string());
        p.set_row_name(Some(root), 1, "Alice".to_string());
    }
    let fl = flow_layout(&m, plan);
    assert_eq!(fl.resources, vec!["Alice".to_string(), "Zara".to_string()]);
    let res_of = |id: WorkBlockId| fl.runs.iter().find(|r| r.leaf == id).map(|r| fl.resources[r.resource].clone());
    assert_eq!(res_of(a).as_deref(), Some("Zara"));
    assert_eq!(res_of(b).as_deref(), Some("Alice"));
}

#[test]
fn unknown_plan_has_an_empty_flow() {
    let m = Model::default();
    let fl = flow_layout(&m, PlanId(5));
    assert!(fl.lanes.is_empty() && fl.runs.is_empty() && fl.resources.is_empty());
}

#[test]
fn resources_sort_ignoring_case() {
    let mut m = Model::default();
    let plan = m.create_plan("main", None);
    let root = placed(&mut m, plan, "P1", 0, 8);
    m.add_child_block(plan, root, "a", 0, 4, 0);
    m.add_child_block(plan, root, "b", 0, 4, 1);
    m.add_child_block(plan, root, "c", 0, 4, 2);
    {
        let i = m.plan_position(plan).unwrap();
        let p = &mut m.plans[i];
        p.set_row_name(Some(root), 0, "bob".to_string());
        p.set_row_name(Some(root), 1, "Amy".to_string());
        p.set_row_name(Some(root), 2, "bob".to_string());
    }
    let fl = flow_layout(&m, plan);
    assert_eq!(fl.resources, vec!["Amy".to_string(), "bob".to_string()]);
    assert_eq!(fl.lanes[0].height, 3);
}

#[test]
fn default_row_label_counts_from_one() {
    assert_eq!(default_row_label(0), "Resource 1");
    assert_eq!(default_row_label(4), "Resource 5");
}
