use brick_road::model::{DependencyType, Model, ResourceAllocation, ResourceBlockId, ResourceType, WorkBlockId};
use brick_road::store::{
    dependency_type_str, loaded_priority, loaded_working_days, next_id_after, parse_dependency_type,
    parse_resource_type, resource_type_str, validate_model, IntegrityError,
};

#[test]
fn type_names_round_trip() {
    for rt in [ResourceType::Person, ResourceType::Team, ResourceType::Equipment, ResourceType::Budget, ResourceType::Engineer] {
        assert_eq!(parse_resource_type(resource_type_str(rt)), Ok(rt));
    }
    for dt in [
        DependencyType::FinishToStart,
        DependencyType::StartToStart,
        DependencyType::FinishToFinish,
        DependencyType::StartToFinish,
    ] {
        assert_eq!(parse_dependency_type(dependency_type_str(dt)), Ok(dt));
    }
    assert_eq!(resource_type_str(ResourceType::Equipment), "Equipment");
    assert_eq!(dependency_type_str(DependencyType::StartToFinish), "StartToFinish");
}

#[test]
fn unknown_type_names_are_errors() {
    assert_eq!(parse_resource_type("Robot"), Err("Unknown resource_type: Robot".to_string()));
    assert_eq!(parse_dependency_type("finishtostart"), Err("Unknown dependency_type: finishtostart".to_string()));
}

#[test]
fn validate_accepts_valid_model() {
    let mut m = Model::default();
    let wb_a = m.create_work_block("a");
    let wb_b = m.create_work_block("b");
    m.create_dependency(wb_a, wb_b, DependencyType::FinishToStart);
    m.set_resource_kind("Alice", ResourceType::Person);
    let rb = m.resource_by_name("Alice").unwrap().id;
    let plan_id = m.create_plan("p", None);
    let i = m.plan_position(plan_id).unwrap();
    m.plans[i].root_blocks.push(wb_a);
    m.plans[i].allocations.push(ResourceAllocation {
        resource_id: rb,
        work_block_id: wb_a,
        allocation_factor_bits: 1.0f32.to_bits(),
    });
    assert!(validate_model(&m).is_ok());
}

#[test]
fn validate_catches_dangling_allocations() {
    let mut m = Model::default();
    let a = m.create_work_block("a");
    let plan_id = m.create_plan("p", None);
    let i = m.plan_position(plan_id).unwrap();
    m.plans[i].allocations.push(ResourceAllocation {
        resource_id: ResourceBlockId(900),
        work_block_id: a,
        allocation_factor_bits: 0.5f32.to_bits(),
    });
    m.plans[i].allocations.push(ResourceAllocation {
        resource_id: ResourceBlockId(901),
        work_block_id: WorkBlockId(902),
        allocation_factor_bits: 1.0f32.to_bits(),
    });
    let err = validate_model(&m).unwrap_err();
    assert_eq!(
        err,
        vec![
            IntegrityError::MissingAllocationResource { plan: plan_id, resource: ResourceBlockId(900) },
            IntegrityError::MissingAllocationResource { plan: plan_id, resource: ResourceBlockId(901) },
            IntegrityError::MissingAllocationBlock { plan: plan_id, block: WorkBlockId(902) },
        ]
    );
    assert_eq!(err[0].message(), format!("Plan {} allocation ResourceBlock 900 does not exist", plan_id.0));
    assert_eq!(err[2].message(), format!("Plan {} allocation WorkBlock 902 does not exist", plan_id.0));
}

#[test]
fn validate_catches_orphan_parent() {
    let mut m = Model::default();
    let child = m.create_work_block("child");
    let i = m.block_position(child).unwrap();
    m.work_blocks[i].parent = Some(WorkBlockId(888));
    let err = validate_model(&m).unwrap_err();
    let text: Vec<String> = err.iter().map(|e| e.message()).collect();
    assert!(text.join("; ").contains("888"), "expected missing parent ID 888 in: {text:?}");
}

#[test]
fn validate_lists_every_dangling_reference() {
    let mut m = Model::default();
    let a = m.create_work_block("a");
    let d = m.create_dependency(a, WorkBlockId(77), DependencyType::StartToStart);
    let plan_id = m.create_plan("p", None);
    let i = m.plan_position(plan_id).unwrap();
    m.plans[i].root_blocks.push(WorkBlockId(55));
    let err = validate_model(&m).unwrap_err();
    assert_eq!(
        err,
        vec![
            IntegrityError::MissingSuccessor { dependency: d, block: WorkBlockId(77) },
            IntegrityError::MissingRootBlock { plan: plan_id, block: WorkBlockId(55) },
        ]
    );
    assert_eq!(err[0].message(), format!("Dependency {} successor WorkBlock 77 does not exist", d.0));
}

#[test]
fn loaded_values_are_clamped() {
    assert_eq!(loaded_priority(-4), 0);
    assert_eq!(loaded_priority(2), 2);
    assert_eq!(loaded_priority(9), 3);
    assert_eq!(loaded_working_days(0), 1);
    assert_eq!(loaded_working_days(5), 5);
    assert_eq!(loaded_working_days(12), 7);
}

#[test]
fn next_id_is_one_past_the_largest() {
    assert_eq!(next_id_after(&vec![]), 0);
    assert_eq!(next_id_after(&vec![3, 9, 4]), 10);
    assert_eq!(next_id_after(&vec![0]), 1);
}

#[test]
fn well_formed_models_have_distinct_ids() {
    let mut m = Model::default();
    let p = m.create_plan("main", None);
    let a = m.add_block_to_plan(p, "A", 0, 3, 0);
    m.add_block_to_plan(p, "B", 3, 3, 1);
    assert!(m.ids_are_distinct());
    assert!(m.is_well_formed());
    let copy = m.work_blocks[0].clone();
    assert_eq!(copy.id, a);
    m.work_blocks.push(copy);
    assert!(m.ids_below_next());
    assert!(!m.ids_are_distinct());
    assert!(!m.is_well_formed());
}
