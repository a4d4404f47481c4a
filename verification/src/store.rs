//! What the document store checks and spells: the stored names of the
//! enumerations, reading them back, and the model's referential integrity.

use vstd::prelude::*;
use crate::model::{block_index, Dependency, DependencyId, DependencyType, Model, Plan, PlanId, ResourceAllocation, ResourceBlock, ResourceBlockId, ResourceType, WorkBlock, WorkBlockId};
use crate::text::{chars_of, decimal_text, push_text, u64_text};

verus! {

/// Whether two strings hold the same characters.
pub fn same_text(a: &str, b: &str) -> (r: bool)
    ensures
        r == (a@ == b@),
{
    let x = chars_of(a);
    let y = chars_of(b);
    if x.len() != y.len() {
        return false;
    }
    let mut i: usize = 0;
    while i < x.len()
        invariant
            i <= x@.len(),
            x@.len() == y@.len(),
            x@ == a@,
            y@ == b@,
            forall|j: int| 0 <= j < i ==> x@[j] == y@[j],
        decreases x.len() - i,
    {
        if x[i] != y[i] {
            return false;
        }
        i += 1;
    }
    assert(x@ =~= y@);
    true
}

/// The stored name of a resource type.
pub open spec fn resource_type_text(rt: ResourceType) -> Seq<char> {
    match rt {
        ResourceType::Person => "Person"@,
        ResourceType::Team => "Team"@,
        ResourceType::Equipment => "Equipment"@,
        ResourceType::Budget => "Budget"@,
        ResourceType::Engineer => "Engineer"@,
    }
}

/// The stored name of a dependency type.
pub open spec fn dependency_type_text(dt: DependencyType) -> Seq<char> {
    match dt {
        DependencyType::FinishToStart => "FinishToStart"@,
        DependencyType::StartToStart => "StartToStart"@,
        DependencyType::FinishToFinish => "FinishToFinish"@,
        DependencyType::StartToFinish => "StartToFinish"@,
    }
}

/// The stored name of a resource type.
pub fn resource_type_str(rt: ResourceType) -> (r: &'static str)
    ensures
        r@ == resource_type_text(rt),
{
    match rt {
        ResourceType::Person => "Person",
        ResourceType::Team => "Team",
        ResourceType::Equipment => "Equipment",
        ResourceType::Budget => "Budget",
        ResourceType::Engineer => "Engineer",
    }
}

/// The stored name of a dependency type.
pub fn dependency_type_str(dt: DependencyType) -> (r: &'static str)
    ensures
        r@ == dependency_type_text(dt),
{
    match dt {
        DependencyType::FinishToStart => "FinishToStart",
        DependencyType::StartToStart => "StartToStart",
        DependencyType::FinishToFinish => "FinishToFinish",
        DependencyType::StartToFinish => "StartToFinish",
    }
}

/// Reads a stored resource type; `Err` carries "Unknown resource_type: …".
pub fn parse_resource_type(s: &str) -> (r: Result<ResourceType, String>)
    ensures
        match r {
            Ok(rt) => resource_type_text(rt) == s@,
            Err(m) => (forall|rt: ResourceType| resource_type_text(rt) != s@)
                && m@ == "Unknown resource_type: "@ + s@,
        },
{
    if same_text(s, "Person") {
        return Ok(ResourceType::Person);
    }
    if same_text(s, "Team") {
        return Ok(ResourceType::Team);
    }
    if same_text(s, "Equipment") {
        return Ok(ResourceType::Equipment);
    }
    if same_text(s, "Budget") {
        return Ok(ResourceType::Budget);
    }
    if same_text(s, "Engineer") {
        return Ok(ResourceType::Engineer);
    }
    let mut m = String::new();
    push_text(&mut m, "Unknown resource_type: ");
    push_text(&mut m, s);
    proof {
        assert forall|rt: ResourceType| resource_type_text(rt) != s@ by {
            match rt {
                ResourceType::Person => {},
                ResourceType::Team => {},
                ResourceType::Equipment => {},
                ResourceType::Budget => {},
                ResourceType::Engineer => {},
            }
        }
    }
    Err(m)
}

/// Reads a stored dependency type; `Err` carries "Unknown dependency_type: …".
pub fn parse_dependency_type(s: &str) -> (r: Result<DependencyType, String>)
    ensures
        match r {
            Ok(dt) => dependency_type_text(dt) == s@,
            Err(m) => (forall|dt: DependencyType| dependency_type_text(dt) != s@)
                && m@ == "Unknown dependency_type: "@ + s@,
        },
{
    if same_text(s, "FinishToStart") {
        return Ok(DependencyType::FinishToStart);
    }
    if same_text(s, "StartToStart") {
        return Ok(DependencyType::StartToStart);
    }
    if same_text(s, "FinishToFinish") {
        return Ok(DependencyType::FinishToFinish);
    }
    if same_text(s, "StartToFinish") {
        return Ok(DependencyType::StartToFinish);
    }
    let mut m = String::new();
    push_text(&mut m, "Unknown dependency_type: ");
    push_text(&mut m, s);
    proof {
        assert forall|dt: DependencyType| dependency_type_text(dt) != s@ by {
            match dt {
                DependencyType::FinishToStart => {},
                DependencyType::StartToStart => {},
                DependencyType::FinishToFinish => {},
                DependencyType::StartToFinish => {},
            }
        }
    }
    Err(m)
}

/// The stored names of the resource types are told apart.
pub proof fn lemma_resource_type_text_injective(a: ResourceType, b: ResourceType)
    requires
        resource_type_text(a) == resource_type_text(b),
    ensures
        a == b,
{
    reveal_strlit("Person");
    reveal_strlit("Team");
    reveal_strlit("Equipment");
    reveal_strlit("Budget");
    reveal_strlit("Engineer");
    assert("Person"@.len() == 6 && "Team"@.len() == 4 && "Equipment"@.len() == 9 && "Budget"@.len() == 6);
    assert("Engineer"@.len() == 8);
    assert("Person"@[0] == 'P' && "Budget"@[0] == 'B');
}

/// The stored names of the dependency types are told apart.
pub proof fn lemma_dependency_type_text_injective(a: DependencyType, b: DependencyType)
    requires
        dependency_type_text(a) == dependency_type_text(b),
    ensures
        a == b,
{
    reveal_strlit("FinishToStart");
    reveal_strlit("StartToStart");
    reveal_strlit("FinishToFinish");
    reveal_strlit("StartToFinish");
    assert("FinishToStart"@[0] == 'F' && "FinishToFinish"@[0] == 'F');
    assert("StartToStart"@[0] == 'S' && "StartToFinish"@[0] == 'S');
    assert("FinishToStart"@.len() == 13 && "FinishToFinish"@.len() == 14);
    assert("StartToStart"@.len() == 12 && "StartToFinish"@.len() == 13);
}

/// Reading back a stored resource type name gives the type.
pub proof fn lemma_resource_type_round_trip(rt: ResourceType, r: Result<ResourceType, Seq<char>>)
    requires
        match r {
            Ok(x) => resource_type_text(x) == resource_type_text(rt),
            Err(_) => forall|x: ResourceType| resource_type_text(x) != resource_type_text(rt),
        },
    ensures
        r == Ok::<ResourceType, Seq<char>>(rt),
{
    match r {
        Ok(x) => lemma_resource_type_text_injective(x, rt),
        Err(_) => {
            assert(resource_type_text(rt) == resource_type_text(rt));
            assert(false);
        },
    }
}

/// Reading back a stored dependency type name gives the type.
pub proof fn lemma_dependency_type_round_trip(dt: DependencyType, r: Result<DependencyType, Seq<char>>)
    requires
        match r {
            Ok(x) => dependency_type_text(x) == dependency_type_text(dt),
            Err(_) => forall|x: DependencyType| dependency_type_text(x) != dependency_type_text(dt),
        },
    ensures
        r == Ok::<DependencyType, Seq<char>>(dt),
{
    match r {
        Ok(x) => lemma_dependency_type_text_injective(x, dt),
        Err(_) => {
            assert(dependency_type_text(dt) == dependency_type_text(dt));
            assert(false);
        },
    }
}

// ── referential integrity ───────────────────────────────────────────────────

/// A reference in the model to a block that does not exist.
#[derive(Debug, Clone, Copy, PartialEq, Eq)]
pub enum IntegrityError {
    /// A block's parent is missing.
    MissingParent { block: WorkBlockId, parent: WorkBlockId },
    /// A dependency's predecessor is missing.
    MissingPredecessor { dependency: DependencyId, block: WorkBlockId },
    /// A dependency's successor is missing.
    MissingSuccessor { dependency: DependencyId, block: WorkBlockId },
    /// A plan lists a top-level block that is missing.
    MissingRootBlock { plan: PlanId, block: WorkBlockId },
    /// A plan allocates a resource that is missing.
    MissingAllocationResource { plan: PlanId, resource: ResourceBlockId },
    /// A plan allocates a resource to a block that is missing.
    MissingAllocationBlock { plan: PlanId, block: WorkBlockId },
}

/// Some resource in `rs` has id `id`.
pub open spec fn has_resource(rs: Seq<ResourceBlock>, id: ResourceBlockId) -> bool {
    exists|i: int| 0 <= i < rs.len() && #[trigger] rs[i].id == id
}

/// Missing resources and blocks of one plan's allocations, in order
/// (resource first).
pub open spec fn allocation_errors(blocks: Seq<WorkBlock>, rs: Seq<ResourceBlock>, plan: PlanId, allocs: Seq<ResourceAllocation>) -> Seq<IntegrityError>
    decreases allocs.len(),
{
    if allocs.len() == 0 {
        Seq::empty()
    } else {
        let a = allocs.last();
        allocation_errors(blocks, rs, plan, allocs.drop_last()) + (if has_resource(rs, a.resource_id) {
            Seq::empty()
        } else {
            seq![IntegrityError::MissingAllocationResource { plan, resource: a.resource_id }]
        }) + (if has_block(blocks, a.work_block_id) {
            Seq::empty()
        } else {
            seq![IntegrityError::MissingAllocationBlock { plan, block: a.work_block_id }]
        })
    }
}

pub open spec fn has_block(blocks: Seq<WorkBlock>, id: WorkBlockId) -> bool {
    block_index(blocks, id) is Some
}

/// Missing parents, in block order.
pub open spec fn parent_errors(blocks: Seq<WorkBlock>, upto: int) -> Seq<IntegrityError>
    decreases upto,
{
    if upto <= 0 {
        Seq::empty()
    } else {
        let b = blocks[upto - 1];
        parent_errors(blocks, upto - 1) + match b.parent {
            Some(p) => if has_block(blocks, p) {
                Seq::empty()
            } else {
                seq![IntegrityError::MissingParent { block: b.id, parent: p }]
            },
            None => Seq::empty(),
        }
    }
}

/// Missing dependency ends, in dependency order (predecessor first).
pub open spec fn dependency_errors(blocks: Seq<WorkBlock>, deps: Seq<Dependency>) -> Seq<IntegrityError>
    decreases deps.len(),
{
    if deps.len() == 0 {
        Seq::empty()
    } else {
        let d = deps.last();
        dependency_errors(blocks, deps.drop_last()) + (if has_block(blocks, d.predecessor) {
            Seq::empty()
        } else {
            seq![IntegrityError::MissingPredecessor { dependency: d.id, block: d.predecessor }]
        }) + (if has_block(blocks, d.successor) {
            Seq::empty()
        } else {
            seq![IntegrityError::MissingSuccessor { dependency: d.id, block: d.successor }]
        })
    }
}

/// Missing top-level blocks of one plan, in order.
pub open spec fn root_errors(blocks: Seq<WorkBlock>, plan: PlanId, roots: Seq<WorkBlockId>) -> Seq<IntegrityError>
    decreases roots.len(),
{
    if roots.len() == 0 {
        Seq::empty()
    } else {
        root_errors(blocks, plan, roots.drop_last()) + if has_block(blocks, roots.last()) {
            Seq::empty()
        } else {
            seq![IntegrityError::MissingRootBlock { plan, block: roots.last() }]
        }
    }
}

/// Missing references of one plan: its top-level blocks, then its
/// allocations.
pub open spec fn one_plan_errors(blocks: Seq<WorkBlock>, rs: Seq<ResourceBlock>, plan: Plan) -> Seq<IntegrityError> {
    root_errors(blocks, plan.id, plan.root_blocks@) + allocation_errors(blocks, rs, plan.id, plan.allocations@)
}

/// Missing references of all plans, in plan order.
pub open spec fn plan_errors(blocks: Seq<WorkBlock>, rs: Seq<ResourceBlock>, plans: Seq<Plan>) -> Seq<IntegrityError>
    decreases plans.len(),
{
    if plans.len() == 0 {
        Seq::empty()
    } else {
        plan_errors(blocks, rs, plans.drop_last()) + one_plan_errors(blocks, rs, plans.last())
    }
}

/// Every dangling reference of the model, in the order they are checked.
pub open spec fn integrity_errors(m: Model) -> Seq<IntegrityError> {
    parent_errors(m.work_blocks@, m.work_blocks@.len() as int)
        + dependency_errors(m.work_blocks@, m.dependencies@)
        + root_errors_all(m)
}

pub open spec fn root_errors_all(m: Model) -> Seq<IntegrityError> {
    plan_errors(m.work_blocks@, m.resource_blocks@, m.plans@)
}

/// Whether some resource of the model has id `id`.
fn has_resource_id(model: &Model, id: ResourceBlockId) -> (r: bool)
    ensures
        r == has_resource(model.resource_blocks@, id),
{
    let mut i: usize = 0;
    while i < model.resource_blocks.len()
        invariant
            i <= model.resource_blocks@.len(),
            forall|j: int| 0 <= j < i ==> model.resource_blocks@[j].id != id,
        decreases model.resource_blocks.len() - i,
    {
        if model.resource_blocks[i].id == id {
            return true;
        }
        i += 1;
    }
    false
}

/// Appends the dangling references of `plan`: top-level blocks, then
/// allocations.
fn push_plan_errors(model: &Model, plan: &Plan, errors: &mut Vec<IntegrityError>)
    ensures
        final(errors)@ == old(errors)@ + one_plan_errors(model.work_blocks@, model.resource_blocks@, *plan),
{
    let ghost e0 = errors@;
    let mut j: usize = 0;
    assert(plan.root_blocks@.take(0) =~= Seq::<WorkBlockId>::empty());
    while j < plan.root_blocks.len()
        invariant
            j <= plan.root_blocks@.len(),
            errors@ == e0 + root_errors(model.work_blocks@, plan.id, plan.root_blocks@.take(j as int)),
        decreases plan.root_blocks.len() - j,
    {
        let b = plan.root_blocks[j];
        assert(plan.root_blocks@.take(j + 1).drop_last() =~= plan.root_blocks@.take(j as int));
        if model.block_position(b).is_none() {
            errors.push(IntegrityError::MissingRootBlock { plan: plan.id, block: b });
        }
        assert(errors@ =~= e0 + root_errors(model.work_blocks@, plan.id, plan.root_blocks@.take(j + 1)));
        j += 1;
    }
    assert(plan.root_blocks@.take(j as int) =~= plan.root_blocks@);
    let ghost e1 = errors@;
    let mut a: usize = 0;
    assert(plan.allocations@.take(0) =~= Seq::<ResourceAllocation>::empty());
    while a < plan.allocations.len()
        invariant
            a <= plan.allocations@.len(),
            errors@ == e1 + allocation_errors(model.work_blocks@, model.resource_blocks@, plan.id, plan.allocations@.take(a as int)),
        decreases plan.allocations.len() - a,
    {
        let al = plan.allocations[a];
        assert(plan.allocations@.take(a + 1).drop_last() =~= plan.allocations@.take(a as int));
        if !has_resource_id(model, al.resource_id) {
            errors.push(IntegrityError::MissingAllocationResource { plan: plan.id, resource: al.resource_id });
        }
        if model.block_position(al.work_block_id).is_none() {
            errors.push(IntegrityError::MissingAllocationBlock { plan: plan.id, block: al.work_block_id });
        }
        assert(errors@ =~= e1 + allocation_errors(model.work_blocks@, model.resource_blocks@, plan.id, plan.allocations@.take(a + 1)));
        a += 1;
    }
    assert(plan.allocations@.take(a as int) =~= plan.allocations@);
    assert(errors@ =~= e0 + one_plan_errors(model.work_blocks@, model.resource_blocks@, *plan));
}

/// Checks that every parent, dependency end, plan top-level block and
/// allocated resource and block the model names exists; `Err` lists each
/// dangling reference.
pub fn validate_model(model: &Model) -> (r: Result<(), Vec<IntegrityError>>)
    ensures
        match r {
            Ok(()) => integrity_errors(*model).len() == 0,
            Err(e) => e@ == integrity_errors(*model) && e@.len() > 0,
        },
{
    let mut errors: Vec<IntegrityError> = Vec::new();
    let mut i: usize = 0;
    while i < model.work_blocks.len()
        invariant
            i <= model.work_blocks@.len(),
            errors@ == parent_errors(model.work_blocks@, i as int),
        decreases model.work_blocks.len() - i,
    {
        if let Some(p) = model.work_blocks[i].parent {
            if model.block_position(p).is_none() {
                errors.push(IntegrityError::MissingParent { block: model.work_blocks[i].id, parent: p });
            }
        }
        i += 1;
    }
    let mut k: usize = 0;
    let ghost before_deps = errors@;
    assert(model.dependencies@.take(0) =~= Seq::<Dependency>::empty());
    while k < model.dependencies.len()
        invariant
            k <= model.dependencies@.len(),
            errors@ == before_deps + dependency_errors(model.work_blocks@, model.dependencies@.take(k as int)),
        decreases model.dependencies.len() - k,
    {
        let d = &model.dependencies[k];
        assert(model.dependencies@.take(k + 1).drop_last() =~= model.dependencies@.take(k as int));
        let ghost e0 = errors@;
        if model.block_position(d.predecessor).is_none() {
            errors.push(IntegrityError::MissingPredecessor { dependency: d.id, block: d.predecessor });
        }
        if model.block_position(d.successor).is_none() {
            errors.push(IntegrityError::MissingSuccessor { dependency: d.id, block: d.successor });
        }
        assert(errors@ =~= before_deps + dependency_errors(model.work_blocks@, model.dependencies@.take(k + 1)));
        k += 1;
    }
    assert(model.dependencies@.take(k as int) =~= model.dependencies@);
    let ghost before_plans = errors@;
    let mut p: usize = 0;
    assert(model.plans@.take(0) =~= Seq::<Plan>::empty());
    while p < model.plans.len()
        invariant
            p <= model.plans@.len(),
            errors@ == before_plans + plan_errors(model.work_blocks@, model.resource_blocks@, model.plans@.take(p as int)),
        decreases model.plans.len() - p,
    {
        assert(model.plans@.take(p + 1).drop_last() =~= model.plans@.take(p as int));
        let ghost e0 = errors@;
        push_plan_errors(model, &model.plans[p], &mut errors);
        assert(errors@ =~= before_plans + plan_errors(model.work_blocks@, model.resource_blocks@, model.plans@.take(p + 1)));
        p += 1;
    }
    assert(model.plans@.take(p as int) =~= model.plans@);
    if errors.len() == 0 {
        Ok(())
    } else {
        Err(errors)
    }
}

/// The text of one integrity error.
pub open spec fn integrity_message(e: IntegrityError) -> Seq<char> {
    match e {
        IntegrityError::MissingParent { block, parent } => "WorkBlock "@ + decimal_text(block.0 as nat)
            + " has parent WorkBlock "@ + decimal_text(parent.0 as nat) + " which does not exist"@,
        IntegrityError::MissingPredecessor { dependency, block } => "Dependency "@ + decimal_text(dependency.0 as nat)
            + " predecessor WorkBlock "@ + decimal_text(block.0 as nat) + " does not exist"@,
        IntegrityError::MissingSuccessor { dependency, block } => "Dependency "@ + decimal_text(dependency.0 as nat)
            + " successor WorkBlock "@ + decimal_text(block.0 as nat) + " does not exist"@,
        IntegrityError::MissingRootBlock { plan, block } => "Plan "@ + decimal_text(plan.0 as nat)
            + " root_block WorkBlock "@ + decimal_text(block.0 as nat) + " does not exist"@,
        IntegrityError::MissingAllocationResource { plan, resource } => "Plan "@ + decimal_text(plan.0 as nat)
            + " allocation ResourceBlock "@ + decimal_text(resource.0 as nat) + " does not exist"@,
        IntegrityError::MissingAllocationBlock { plan, block } => "Plan "@ + decimal_text(plan.0 as nat)
            + " allocation WorkBlock "@ + decimal_text(block.0 as nat) + " does not exist"@,
    }
}

impl IntegrityError {
    /// The error as one line of text.
    pub fn message(&self) -> (r: String)
        ensures
            r@ == integrity_message(*self),
    {
        let mut m = String::new();
        match self {
            IntegrityError::MissingParent { block, parent } => {
                push_text(&mut m, "WorkBlock ");
                push_text(&mut m, u64_text(block.0).as_str());
                push_text(&mut m, " has parent WorkBlock ");
                push_text(&mut m, u64_text(parent.0).as_str());
                push_text(&mut m, " which does not exist");
            },
            IntegrityError::MissingPredecessor { dependency, block } => {
                push_text(&mut m, "Dependency ");
                push_text(&mut m, u64_text(dependency.0).as_str());
                push_text(&mut m, " predecessor WorkBlock ");
                push_text(&mut m, u64_text(block.0).as_str());
                push_text(&mut m, " does not exist");
            },
            IntegrityError::MissingSuccessor { dependency, block } => {
                push_text(&mut m, "Dependency ");
                push_text(&mut m, u64_text(dependency.0).as_str());
                push_text(&mut m, " successor WorkBlock ");
                push_text(&mut m, u64_text(block.0).as_str());
                push_text(&mut m, " does not exist");
            },
            IntegrityError::MissingRootBlock { plan, block } => {
                push_text(&mut m, "Plan ");
                push_text(&mut m, u64_text(plan.0).as_str());
                push_text(&mut m, " root_block WorkBlock ");
                push_text(&mut m, u64_text(block.0).as_str());
                push_text(&mut m, " does not exist");
            },
            IntegrityError::MissingAllocationResource { plan, resource } => {
                push_text(&mut m, "Plan ");
                push_text(&mut m, u64_text(plan.0).as_str());
                push_text(&mut m, " allocation ResourceBlock ");
                push_text(&mut m, u64_text(resource.0).as_str());
                push_text(&mut m, " does not exist");
            },
            IntegrityError::MissingAllocationBlock { plan, block } => {
                push_text(&mut m, "Plan ");
                push_text(&mut m, u64_text(plan.0).as_str());
                push_text(&mut m, " allocation WorkBlock ");
                push_text(&mut m, u64_text(block.0).as_str());
                push_text(&mut m, " does not exist");
            },
        }
        assert(m@ =~= integrity_message(*self));
        m
    }
}

// ── reading a stored model ──────────────────────────────────────────────────

/// A stored priority as the model holds it: clamped to 0–3.
pub fn loaded_priority(p: i64) -> (r: u8)
    ensures
        r == if p < 0 { 0 } else if p > 3 { 3 } else { p },
{
    if p < 0 {
        0
    } else if p > 3 {
        3
    } else {
        p as u8
    }
}

/// Stored working days per week as the model holds them: clamped to 1–7.
pub fn loaded_working_days(w: i64) -> (r: u8)
    ensures
        r == if w < 1 { 1 } else if w > 7 { 7 } else { w },
{
    if w < 1 {
        1
    } else if w > 7 {
        7
    } else {
        w as u8
    }
}

/// One past the largest id (0 when there is none).
pub open spec fn id_bound(ids: Seq<u64>) -> int
    decreases ids.len(),
{
    if ids.len() == 0 {
        0
    } else {
        let b = id_bound(ids.drop_last());
        if ids.last() + 1 > b { ids.last() + 1 } else { b }
    }
}

proof fn lemma_id_bound(ids: Seq<u64>)
    ensures
        forall|i: int| 0 <= i < ids.len() ==> ids[i] < id_bound(ids),
        0 <= id_bound(ids),
        ids.len() > 0 ==> exists|i: int| 0 <= i < ids.len() && id_bound(ids) == ids[i] + 1,
    decreases ids.len(),
{
    if ids.len() > 0 {
        lemma_id_bound(ids.drop_last());
        assert forall|i: int| 0 <= i < ids.len() - 1 implies ids.drop_last()[i] == ids[i] by {}
        if ids.last() + 1 <= id_bound(ids.drop_last()) {
            let w = choose|i: int| 0 <= i < ids.len() - 1 && id_bound(ids.drop_last()) == ids.drop_last()[i] + 1;
            assert(id_bound(ids) == ids[w] + 1);
        } else {
            assert(id_bound(ids) == ids[ids.len() - 1] + 1);
        }
    }
}

/// The first id a loaded model hands out: one past every stored id.
pub fn next_id_after(ids: &Vec<u64>) -> (r: u64)
    requires
        forall|i: int| 0 <= i < ids@.len() ==> ids@[i] < u64::MAX,
    ensures
        r == id_bound(ids@),
        forall|i: int| 0 <= i < ids@.len() ==> ids@[i] < r,
{
    let mut b: u64 = 0;
    let mut i: usize = 0;
    assert(ids@.take(0) =~= Seq::<u64>::empty());
    while i < ids.len()
        invariant
            i <= ids@.len(),
            forall|j: int| 0 <= j < ids@.len() ==> ids@[j] < u64::MAX,
            b == id_bound(ids@.take(i as int)),
        decreases ids.len() - i,
    {
        assert(ids@.take(i + 1).drop_last() =~= ids@.take(i as int));
        if ids[i] >= b {
            b = ids[i] + 1;
        }
        i += 1;
    }
    assert(ids@.take(i as int) =~= ids@);
    proof {
        lemma_id_bound(ids@);
    }
    b
}

} // verus!
