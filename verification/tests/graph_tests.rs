use brick_road::analysis::analyze_dependencies;
use brick_road::graph::{build_graph, topological_sort, CycleError};
use brick_road::model::{Day, DependencyType, Model, PlanId, WorkBlockId};

fn placed(model: &mut Model, name: &str, start: Day, dur: Day) -> WorkBlockId {
    let id = model.create_work_block(name);
    let i = model.block_position(id).unwrap();
    model.work_blocks[i].start_day = start;
    model.work_blocks[i].duration_days = dur;
    id
}

fn set_roots(model: &mut Model, plan_id: PlanId, roots: Vec<WorkBlockId>) -> usize {
    let i = model.plan_position(plan_id).unwrap();
    model.plans[i].root_blocks = roots;
    i
}

#[test]
fn fs_no_violation() {
    let mut m = Model::default();
    let a = placed(&mut m, "A", 0, 5);
    let b = placed(&mut m, "B", 5, 3);
    m.create_dependency(a, b, DependencyType::FinishToStart);
    assert!(analyze_dependencies(&m).is_empty());
}

#[test]
fn fs_violation() {
    let mut m = Model::default();
    let a = placed(&mut m, "A", 0, 5);
    let b = placed(&mut m, "B", 3, 3);
    m.create_dependency(a, b, DependencyType::FinishToStart);
    let v = &analyze_dependencies(&m);
    assert_eq!(v.len(), 1);
    assert_eq!(v[0].predecessor, a);
    assert_eq!(v[0].successor, b);
    assert_eq!(v[0].violation_days, 2);
}

#[test]
fn ss_no_violation() {
    let mut m = Model::default();
    let a = placed(&mut m, "A", 2, 4);
    let b = placed(&mut m, "B", 2, 3);
    m.create_dependency(a, b, DependencyType::StartToStart);
    assert!(analyze_dependencies(&m).is_empty());
}

#[test]
fn ss_violation() {
    let mut m = Model::default();
    let a = placed(&mut m, "A", 3, 4);
    let b = placed(&mut m, "B", 2, 3);
    m.create_dependency(a, b, DependencyType::StartToStart);
    let v = &analyze_dependencies(&m);
    assert_eq!(v.len(), 1);
    assert_eq!(v[0].violation_days, 1);
}

#[test]
fn ff_no_violation() {
    let mut m = Model::default();
    let a = placed(&mut m, "A", 0, 5);
    let b = placed(&mut m, "B", 1, 4);
    m.create_dependency(a, b, DependencyType::FinishToFinish);
    assert!(analyze_dependencies(&m).is_empty());
}

#[test]
fn ff_violation() {
    let mut m = Model::default();
    let a = placed(&mut m, "A", 0, 6);
    let b = placed(&mut m, "B", 1, 4);
    m.create_dependency(a, b, DependencyType::FinishToFinish);
    let v = &analyze_dependencies(&m);
    assert_eq!(v.len(), 1);
    assert_eq!(v[0].violation_days, 1);
}

#[test]
fn sf_no_violation() {
    let mut m = Model::default();
    let a = placed(&mut m, "A", 4, 2);
    let b = placed(&mut m, "B", 0, 5);
    m.create_dependency(a, b, DependencyType::StartToFinish);
    assert!(analyze_dependencies(&m).is_empty());
}

#[test]
fn sf_violation() {
    let mut m = Model::default();
    let a = placed(&mut m, "A", 5, 2);
    let b = placed(&mut m, "B", 0, 4);
    m.create_dependency(a, b, DependencyType::StartToFinish);
    let v = &analyze_dependencies(&m);
    assert_eq!(v.len(), 1);
    assert_eq!(v[0].violation_days, 1);
}

#[test]
fn no_violations_clean_schedule() {
    let mut m = Model::default();
    let a = placed(&mut m, "A", 0, 5);
    let b = placed(&mut m, "B", 5, 8);
    let c = placed(&mut m, "C", 13, 4);
    m.create_dependency(a, b, DependencyType::FinishToStart);
    m.create_dependency(b, c, DependencyType::FinishToStart);
    assert!(analyze_dependencies(&m).is_empty());
}

#[test]
fn missing_block_skipped() {
    let mut m = Model::default();
    let a = placed(&mut m, "A", 0, 3);
    let b = placed(&mut m, "B", 5, 2);
    m.create_dependency(a, b, DependencyType::FinishToStart);
    let i = m.block_position(b).unwrap();
    m.work_blocks.remove(i);
    assert!(analyze_dependencies(&m).is_empty());
}

#[test]
fn empty_graph_sorts_to_empty() {
    let mut model = Model::default();
    let plan_id = model.create_plan("p", None);
    let i = model.plan_position(plan_id).unwrap();
    let graph = build_graph(&model, &model.plans[i]);
    let order = topological_sort(&graph).unwrap();
    assert!(order.is_empty());
}

#[test]
fn linear_chain() {
    let mut model = Model::default();
    let plan_id = model.create_plan("p", None);
    let a = model.create_work_block("A");
    let b = model.create_work_block("B");
    let c = model.create_work_block("C");
    model.create_dependency(a, b, DependencyType::FinishToStart);
    model.create_dependency(b, c, DependencyType::FinishToStart);
    let i = set_roots(&mut model, plan_id, vec![a, b, c]);
    let graph = build_graph(&model, &model.plans[i]);
    let order = topological_sort(&graph).unwrap();
    assert_eq!(order, vec![a, b, c]);
}

#[test]
fn diamond() {
    let mut model = Model::default();
    let plan_id = model.create_plan("p", None);
    let a = model.create_work_block("A");
    let b = model.create_work_block("B");
    let c = model.create_work_block("C");
    let d = model.create_work_block("D");
    model.create_dependency(a, b, DependencyType::FinishToStart);
    model.create_dependency(a, c, DependencyType::FinishToStart);
    model.create_dependency(b, d, DependencyType::FinishToStart);
    model.create_dependency(c, d, DependencyType::FinishToStart);
    let i = set_roots(&mut model, plan_id, vec![a, b, c, d]);
    let graph = build_graph(&model, &model.plans[i]);
    let order = topological_sort(&graph).unwrap();
    assert_eq!(order[0], a);
    assert_eq!(*order.last().unwrap(), d);
    let pos = |id| order.iter().position(|&x| x == id).unwrap();
    assert!(pos(b) < pos(d));
    assert!(pos(c) < pos(d));
}

#[test]
fn cycle_detected() {
    let mut model = Model::default();
    let plan_id = model.create_plan("p", None);
    let a = model.create_work_block("A");
    let b = model.create_work_block("B");
    let c = model.create_work_block("C");
    model.create_dependency(a, b, DependencyType::FinishToStart);
    model.create_dependency(b, c, DependencyType::FinishToStart);
    model.create_dependency(c, a, DependencyType::FinishToStart);
    let i = set_roots(&mut model, plan_id, vec![a, b, c]);
    let graph = build_graph(&model, &model.plans[i]);
    let result = topological_sort(&graph);
    assert!(result.is_err());
    let err = result.unwrap_err();
    assert_eq!(err.nodes.len(), 3);
}

#[test]
fn inactive_blocks_excluded() {
    let mut model = Model::default();
    let plan_id = model.create_plan("p", None);
    let a = model.create_work_block("A");
    let b = model.create_work_block("B");
    model.create_dependency(a, b, DependencyType::FinishToStart);
    let i = set_roots(&mut model, plan_id, vec![a]);
    let graph = build_graph(&model, &model.plans[i]);
    assert!(graph.nodes.contains(&a));
    assert!(!graph.nodes.contains(&b));
    let order = topological_sort(&graph).unwrap();
    assert_eq!(order, vec![a]);
}

#[test]
fn dependencies_are_branch_local() {
    let mut model = Model::default();
    let main = model.create_plan("main", None);
    let branch = model.create_plan("branch", Some(0));
    let a = model.create_work_block("A");
    let b = model.create_work_block("B");
    let mi = set_roots(&mut model, main, vec![a, b]);
    let bi = set_roots(&mut model, branch, vec![a, b]);
    model.create_dependency_in(branch, a, b, DependencyType::FinishToStart);
    let in_degree_of = |g: &brick_road::graph::DependencyGraph, id: WorkBlockId| {
        g.nodes.iter().position(|&n| n == id).map(|k| g.in_degree[k])
    };
    let main_graph = build_graph(&model, &model.plans[mi]);
    assert_eq!(in_degree_of(&main_graph, b), Some(0), "branch dep must not appear in main's graph");
    let branch_graph = build_graph(&model, &model.plans[bi]);
    assert_eq!(in_degree_of(&branch_graph, b), Some(1), "the dep shapes the branch's own graph");
}

#[test]
fn cycle_error_lists_only_blocked_nodes() {
    let mut model = Model::default();
    let plan_id = model.create_plan("p", None);
    let a = model.create_work_block("A");
    let b = model.create_work_block("B");
    let c = model.create_work_block("C");
    model.create_dependency(b, c, DependencyType::FinishToStart);
    model.create_dependency(c, b, DependencyType::FinishToStart);
    let i = set_roots(&mut model, plan_id, vec![a, b, c]);
    let graph = build_graph(&model, &model.plans[i]);
    let err = topological_sort(&graph).unwrap_err();
    assert!(!err.nodes.contains(&a));
    assert!(err.nodes.contains(&b) && err.nodes.contains(&c));
}

#[test]
fn cycle_error_message_lists_the_blocks() {
    let err = CycleError { nodes: vec![WorkBlockId(4), WorkBlockId(7)] };
    assert_eq!(err.message(), "dependency cycle among 2 block(s): [4, 7]");
    let empty = CycleError { nodes: vec![] };
    assert_eq!(empty.message(), "dependency cycle among 0 block(s): []");
}

#[test]
fn freed_blocks_follow_the_block_that_freed_them() {
    let mut model = Model::default();
    let plan_id = model.create_plan("p", None);
    let a = model.create_work_block("A");
    let b = model.create_work_block("B");
    let c = model.create_work_block("C");
    let d = model.create_work_block("D");
    // C (smaller id) is freed by B, D by A: D comes before C.
    model.create_dependency(a, d, DependencyType::FinishToStart);
    model.create_dependency(b, c, DependencyType::FinishToStart);
    let i = set_roots(&mut model, plan_id, vec![d, c, b, a]);
    let graph = build_graph(&model, &model.plans[i]);
    let order = topological_sort(&graph).unwrap();
    assert_eq!(order, vec![a, b, d, c]);
}

#[test]
fn a_recorded_in_degree_above_the_edges_holds_blocks_back() {
    let mut model = Model::default();
    let plan_id = model.create_plan("p", None);
    let a = model.create_work_block("A");
    let b = model.create_work_block("B");
    let c = model.create_work_block("C");
    model.create_dependency(a, b, DependencyType::FinishToStart);
    let i = set_roots(&mut model, plan_id, vec![a, b, c]);
    let mut graph = build_graph(&model, &model.plans[i]);
    let ia = graph.nodes.iter().position(|x| *x == a).unwrap();
    graph.in_degree[ia] += 1;
    let err = topological_sort(&graph).unwrap_err();
    let mut held = err.nodes.clone();
    held.sort_by_key(|x| x.0);
    assert_eq!(held, vec![a, b]);
}
