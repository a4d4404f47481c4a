//! Editing blocks: deleting a block and undoing the deletion, moving a
//! group of blocks, and the small decisions the editor makes along the way.

use vstd::prelude::*;
use crate::model::{
    block_index, lemma_block_index, lemma_plan_index, lemma_plan_index_same_ids, plan_index, Dependency, DependencyId,
    DependencyType, Model, Plan, PlanId, WorkBlock, WorkBlockId,
};

verus! {

/// The dependency type of a link between a predecessor edge and a successor
/// edge (`true` for a finish edge, `false` for a start edge).
pub open spec fn edge_dependency_type(predecessor_finish: bool, successor_finish: bool) -> DependencyType {
    match (predecessor_finish, successor_finish) {
        (true, false) => DependencyType::FinishToStart,
        (true, true) => DependencyType::FinishToFinish,
        (false, false) => DependencyType::StartToStart,
        (false, true) => DependencyType::StartToFinish,
    }
}

/// Whether `deps` holds a dependency of `successor` on `predecessor` of type `t`.
pub open spec fn has_link(deps: Seq<Dependency>, predecessor: WorkBlockId, successor: WorkBlockId, t: DependencyType) -> bool {
    exists|i: int| 0 <= i < deps.len() && (#[trigger] deps[i]).predecessor == predecessor
        && deps[i].successor == successor && deps[i].dependency_type == t
}

/// Finishes a dependency drag that began on an edge of `successor` (its
/// finish edge when `successor_finish`) and was dropped on `predecessor`
/// (on its finish half when `predecessor_finish`). Creates the implied
/// dependency in the main plan, unless the drop is on the block itself or
/// the same dependency already exists; returns the new dependency's id.
pub fn link_blocks(
    model: &mut Model,
    predecessor: WorkBlockId,
    successor: WorkBlockId,
    predecessor_finish: bool,
    successor_finish: bool,
) -> (r: Option<DependencyId>)
    requires
        old(model).wf(),
        old(model).next_id < u64::MAX,
    ensures
        ({
            let t = edge_dependency_type(predecessor_finish, successor_finish);
            if predecessor == successor || has_link(old(model).dependencies@, predecessor, successor, t) {
                &&& r is None
                &&& *final(model) == *old(model)
            } else {
                &&& r == Some(DependencyId(old(model).next_id))
                &&& final(model).wf()
                &&& final(model).next_id == old(model).next_id + 1
                &&& final(model).dependencies@.drop_last() == old(model).dependencies@
                &&& final(model).dependencies@.len() == old(model).dependencies@.len() + 1
                &&& final(model).dependencies@.last().id == DependencyId(old(model).next_id)
                &&& final(model).dependencies@.last().predecessor == predecessor
                &&& final(model).dependencies@.last().successor == successor
                &&& final(model).dependencies@.last().dependency_type == t
                &&& final(model).dependencies@.last().lag == 0
                &&& final(model).work_blocks == old(model).work_blocks
                &&& final(model).plans == old(model).plans
                &&& final(model).resource_blocks == old(model).resource_blocks
                &&& final(model).calendar == old(model).calendar
                &&& final(model).t_shirt_sizes == old(model).t_shirt_sizes
            }
        }),
{
    let t = dep_type_from_edges(predecessor_finish, successor_finish);
    if predecessor == successor || holds_link(&model.dependencies, predecessor, successor, t) {
        return None;
    }
    Some(model.create_dependency(predecessor, successor, t))
}

/// Whether `deps` holds a dependency of `successor` on `predecessor` of type `t`.
fn holds_link(deps: &Vec<Dependency>, predecessor: WorkBlockId, successor: WorkBlockId, t: DependencyType) -> (r: bool)
    ensures
        r == has_link(deps@, predecessor, successor, t),
{
    let mut i: usize = 0;
    while i < deps.len()
        invariant
            i <= deps@.len(),
            forall|j: int| 0 <= j < i ==> !((#[trigger] deps@[j]).predecessor == predecessor
                && deps@[j].successor == successor && deps@[j].dependency_type == t),
        decreases deps.len() - i,
    {
        let d = &deps[i];
        if d.predecessor == predecessor && d.successor == successor && d.dependency_type == t {
            assert(deps@[i as int] == *d);
            return true;
        }
        i += 1;
    }
    false
}

/// Dependency type implied by which edge a drag starts from and which edge
/// it drops on (`true` for the finish edge, `false` for the start edge). The
/// drag source is the predecessor, the drop target the successor.
pub fn dep_type_from_edges(source_finish: bool, target_finish: bool) -> (r: DependencyType)
    ensures
        r == edge_dependency_type(source_finish, target_finish),
{
    match (source_finish, target_finish) {
        (true, false) => DependencyType::FinishToStart,
        (true, true) => DependencyType::FinishToFinish,
        (false, false) => DependencyType::StartToStart,
        (false, true) => DependencyType::StartToFinish,
    }
}

/// The block the inspector shows: the main selection, else the lane
/// selection's block.
pub fn effective_inspector_id(selected: Option<WorkBlockId>, lane: Option<(WorkBlockId, PlanId)>) -> (r: Option<WorkBlockId>)
    ensures
        r == match selected {
            Some(id) => Some(id),
            None => match lane {
                Some((id, _)) => Some(id),
                None => None,
            },
        },
{
    match selected {
        Some(id) => Some(id),
        None => match lane {
            Some((id, _)) => Some(id),
            None => None,
        },
    }
}

// ── deleting and undoing ────────────────────────────────────────────────────

/// Ids other than `id`.
pub open spec fn not_id(id: WorkBlockId) -> spec_fn(WorkBlockId) -> bool {
    |x: WorkBlockId| x != id
}

/// Row entries of blocks other than `id`.
pub open spec fn entry_not_id(id: WorkBlockId) -> spec_fn((WorkBlockId, i32)) -> bool {
    |e: (WorkBlockId, i32)| e.0 != id
}

/// `b` with its parent link cleared when it pointed at `id`.
pub open spec fn detach(b: WorkBlock, id: WorkBlockId) -> WorkBlock {
    if b.parent == Some(id) {
        WorkBlock { parent: None, ..b }
    } else {
        b
    }
}

/// The blocks left after deleting `id`, children detached.
pub open spec fn blocks_after_delete(blocks: Seq<WorkBlock>, id: WorkBlockId) -> Seq<WorkBlock> {
    blocks.filter(|b: WorkBlock| b.id != id).map_values(|b: WorkBlock| detach(b, id))
}

/// The dependencies left after deleting `id`.
pub open spec fn deps_after_delete(deps: Seq<Dependency>, id: WorkBlockId) -> Seq<Dependency> {
    deps.filter(|d: Dependency| d.predecessor != id && d.successor != id)
}

/// Plan `b` is plan `a` with block `id` taken off its top level and rows;
/// its allocations stay as they were.
pub open spec fn plan_without(a: Plan, b: Plan, id: WorkBlockId) -> bool {
    &&& b.id == a.id
    &&& b.name == a.name
    &&& b.row_names == a.row_names
    &&& b.branch_start_day == a.branch_start_day
    &&& b.root_blocks@ == a.root_blocks@.filter(not_id(id))
    &&& b.block_rows@ == a.block_rows@.filter(entry_not_id(id))
    &&& b.allocations == a.allocations
}

fn without_id(v: &Vec<WorkBlockId>, id: WorkBlockId) -> (r: Vec<WorkBlockId>)
    ensures
        r@ == v@.filter(not_id(id)),
{
    let mut out: Vec<WorkBlockId> = Vec::new();
    let mut i: usize = 0;
    while i < v.len()
        invariant
            i <= v@.len(),
            out@ == v@.take(i as int).filter(not_id(id)),
        decreases v.len() - i,
    {
        proof {
            assert(v@.take(i + 1) =~= v@.take(i as int).push(v@[i as int]));
            v@.take(i as int).lemma_filter_push(v@[i as int], not_id(id));
        }
        if v[i] != id {
            out.push(v[i]);
        }
        i += 1;
    }
    assert(v@.take(i as int) =~= v@);
    out
}

fn rows_without_id(v: &Vec<(WorkBlockId, i32)>, id: WorkBlockId) -> (r: Vec<(WorkBlockId, i32)>)
    ensures
        r@ == v@.filter(entry_not_id(id)),
{
    let mut out: Vec<(WorkBlockId, i32)> = Vec::new();
    let mut i: usize = 0;
    while i < v.len()
        invariant
            i <= v@.len(),
            out@ == v@.take(i as int).filter(entry_not_id(id)),
        decreases v.len() - i,
    {
        proof {
            assert(v@.take(i + 1) =~= v@.take(i as int).push(v@[i as int]));
            v@.take(i as int).lemma_filter_push(v@[i as int], entry_not_id(id));
        }
        if v[i].0 != id {
            out.push(v[i]);
        }
        i += 1;
    }
    assert(v@.take(i as int) =~= v@);
    out
}

/// Deletes block `id`: the block, every dependency touching it, and its
/// place in every plan's top level and rows. Blocks whose parent was `id`
/// lose their parent link.
pub fn delete_work_block(model: &mut Model, id: WorkBlockId)
    ensures
        final(model).work_blocks@ == blocks_after_delete(old(model).work_blocks@, id),
        final(model).dependencies@ == deps_after_delete(old(model).dependencies@, id),
        final(model).plans@.len() == old(model).plans@.len(),
        forall|p: int| 0 <= p < old(model).plans@.len() ==>
            plan_without(old(model).plans@[p], #[trigger] final(model).plans@[p], id),
        final(model).resource_blocks == old(model).resource_blocks,
        final(model).calendar == old(model).calendar,
        final(model).t_shirt_sizes == old(model).t_shirt_sizes,
        final(model).next_id == old(model).next_id,
{
    let ghost keep = |b: WorkBlock| b.id != id;
    let ghost fix = |b: WorkBlock| detach(b, id);
    let mut blocks: Vec<WorkBlock> = Vec::new();
    let mut i: usize = 0;
    while i < model.work_blocks.len()
        invariant
            i <= model.work_blocks@.len(),
            keep == (|b: WorkBlock| b.id != id),
            fix == (|b: WorkBlock| detach(b, id)),
            blocks@ == model.work_blocks@.take(i as int).filter(keep).map_values(fix),
        decreases model.work_blocks.len() - i,
    {
        let ghost pre = model.work_blocks@.take(i as int);
        proof {
            assert(model.work_blocks@.take(i + 1) =~= pre.push(model.work_blocks@[i as int]));
            pre.lemma_filter_push(model.work_blocks@[i as int], keep);
        }
        if model.work_blocks[i].id != id {
            let mut b = model.work_blocks[i].clone();
            if b.parent == Some(id) {
                b.parent = None;
            }
            let ghost before = blocks@;
            blocks.push(b);
            assert(blocks@ =~= model.work_blocks@.take(i + 1).filter(keep).map_values(fix));
        }
        i += 1;
    }
    assert(model.work_blocks@.take(i as int) =~= model.work_blocks@);
    let ghost keep_dep = |d: Dependency| d.predecessor != id && d.successor != id;
    let mut deps: Vec<Dependency> = Vec::new();
    let mut k: usize = 0;
    while k < model.dependencies.len()
        invariant
            k <= model.dependencies@.len(),
            keep_dep == (|d: Dependency| d.predecessor != id && d.successor != id),
            deps@ == model.dependencies@.take(k as int).filter(keep_dep),
        decreases model.dependencies.len() - k,
    {
        proof {
            assert(model.dependencies@.take(k + 1) =~= model.dependencies@.take(k as int).push(model.dependencies@[k as int]));
            model.dependencies@.take(k as int).lemma_filter_push(model.dependencies@[k as int], keep_dep);
        }
        let d = &model.dependencies[k];
        if d.predecessor != id && d.successor != id {
            deps.push(d.clone());
        }
        k += 1;
    }
    assert(model.dependencies@.take(k as int) =~= model.dependencies@);
    model.work_blocks = blocks;
    model.dependencies = deps;
    let ghost plans0 = model.plans@;
    let ghost m1 = *model;
    let mut p: usize = 0;
    while p < model.plans.len()
        invariant
            model.work_blocks == m1.work_blocks,
            model.dependencies == m1.dependencies,
            model.resource_blocks == m1.resource_blocks,
            model.calendar == m1.calendar,
            model.t_shirt_sizes == m1.t_shirt_sizes,
            model.next_id == m1.next_id,
            p <= model.plans@.len(),
            model.plans@.len() == plans0.len(),
            forall|q: int| 0 <= q < p ==> plan_without(plans0[q], #[trigger] model.plans@[q], id),
            forall|q: int| p <= q < plans0.len() ==> #[trigger] model.plans@[q] == plans0[q],
        decreases model.plans.len() - p,
    {
        let ghost before = model.plans@;
        let mut plan = model.plans.remove(p);
        let ghost orig = plan;
        assert(orig == plans0[p as int]);
        plan.root_blocks = without_id(&plan.root_blocks, id);
        plan.block_rows = rows_without_id(&plan.block_rows, id);
        assert(plan_without(orig, plan, id));
        model.plans.insert(p, plan);
        assert(model.plans@ =~= before.update(p as int, plan));
        assert(plan_without(plans0[p as int], model.plans@[p as int], id));
        p += 1;
    }
}

/// Everything one block deletion removes, so that it can be undone.
#[derive(Debug)]
pub struct DeletedBlockSnapshot {
    pub blocks: Vec<WorkBlock>,
    pub dependencies: Vec<Dependency>,
    /// `(plan, top-level blocks)` of each plan that held the block at its top level.
    pub plan_roots: Vec<(PlanId, Vec<WorkBlockId>)>,
    /// Blocks whose parent was the deleted block.
    pub reparented_children: Vec<WorkBlockId>,
}

pub open spec fn touches(d: Dependency, id: WorkBlockId) -> bool {
    d.predecessor == id || d.successor == id
}

pub open spec fn roots_view(v: Seq<(PlanId, Vec<WorkBlockId>)>) -> Seq<(PlanId, Seq<WorkBlockId>)> {
    v.map_values(|e: (PlanId, Vec<WorkBlockId>)| (e.0, e.1@))
}

/// The snapshot of deleting `id` from a model with these blocks, dependencies and plans.
pub open spec fn snapshot_of(m: Model, id: WorkBlockId, s: DeletedBlockSnapshot) -> bool {
    &&& s.blocks@ == match block_index(m.work_blocks@, id) {
        Some(i) => seq![m.work_blocks@[i]],
        None => Seq::empty(),
    }
    &&& s.dependencies@ == m.dependencies@.filter(|d: Dependency| touches(d, id))
    &&& roots_view(s.plan_roots@) == m.plans@.filter(|p: Plan| p.root_blocks@.contains(id)).map_values(|p: Plan| (p.id, seq![id]))
    &&& s.reparented_children@ == m.work_blocks@.filter(|b: WorkBlock| b.parent == Some(id)).map_values(|b: WorkBlock| b.id)
}

/// Records what deleting block `id` would remove.
pub fn build_deletion_snapshot(model: &Model, id: WorkBlockId) -> (r: DeletedBlockSnapshot)
    ensures
        snapshot_of(*model, id, r),
{
    let mut blocks: Vec<WorkBlock> = Vec::new();
    match model.block_position(id) {
        Some(i) => {
            blocks.push(model.work_blocks[i].clone());
            assert(blocks@ =~= seq![model.work_blocks@[i as int]]);
        },
        None => {},
    }
    let ghost touch = |d: Dependency| touches(d, id);
    let mut deps: Vec<Dependency> = Vec::new();
    let mut k: usize = 0;
    while k < model.dependencies.len()
        invariant
            k <= model.dependencies@.len(),
            touch == (|d: Dependency| touches(d, id)),
            deps@ == model.dependencies@.take(k as int).filter(touch),
        decreases model.dependencies.len() - k,
    {
        proof {
            assert(model.dependencies@.take(k + 1) =~= model.dependencies@.take(k as int).push(model.dependencies@[k as int]));
            model.dependencies@.take(k as int).lemma_filter_push(model.dependencies@[k as int], touch);
        }
        let d = &model.dependencies[k];
        if d.predecessor == id || d.successor == id {
            deps.push(d.clone());
        }
        k += 1;
    }
    assert(model.dependencies@.take(k as int) =~= model.dependencies@);
    let ghost holds = |p: Plan| p.root_blocks@.contains(id);
    let ghost entry = |p: Plan| (p.id, seq![id]);
    let mut plan_roots: Vec<(PlanId, Vec<WorkBlockId>)> = Vec::new();
    let mut p: usize = 0;
    while p < model.plans.len()
        invariant
            p <= model.plans@.len(),
            holds == (|p: Plan| p.root_blocks@.contains(id)),
            entry == (|p: Plan| (p.id, seq![id])),
            roots_view(plan_roots@) == model.plans@.take(p as int).filter(holds).map_values(entry),
        decreases model.plans.len() - p,
    {
        let ghost pre = model.plans@.take(p as int);
        proof {
            assert(model.plans@.take(p + 1) =~= pre.push(model.plans@[p as int]));
            pre.lemma_filter_push(model.plans@[p as int], holds);
        }
        let plan = &model.plans[p];
        let mut found = false;
        let mut j: usize = 0;
        while j < plan.root_blocks.len()
            invariant
                j <= plan.root_blocks@.len(),
                found <==> exists|q: int| 0 <= q < j && plan.root_blocks@[q] == id,
            decreases plan.root_blocks.len() - j,
        {
            if plan.root_blocks[j] == id {
                found = true;
            }
            j += 1;
        }
        if found {
            let ghost before = roots_view(plan_roots@);
            let mut one: Vec<WorkBlockId> = Vec::new();
            one.push(id);
            plan_roots.push((plan.id, one));
            assert(one@ =~= seq![id]);
            assert(roots_view(plan_roots@) =~= before.push((plan.id, seq![id])));
        }
        p += 1;
    }
    assert(model.plans@.take(p as int) =~= model.plans@);
    let ghost child = |b: WorkBlock| b.parent == Some(id);
    let ghost bid = |b: WorkBlock| b.id;
    let mut kids: Vec<WorkBlockId> = Vec::new();
    let mut i: usize = 0;
    while i < model.work_blocks.len()
        invariant
            i <= model.work_blocks@.len(),
            child == (|b: WorkBlock| b.parent == Some(id)),
            bid == (|b: WorkBlock| b.id),
            kids@ == model.work_blocks@.take(i as int).filter(child).map_values(bid),
        decreases model.work_blocks.len() - i,
    {
        proof {
            assert(model.work_blocks@.take(i + 1) =~= model.work_blocks@.take(i as int).push(model.work_blocks@[i as int]));
            model.work_blocks@.take(i as int).lemma_filter_push(model.work_blocks@[i as int], child);
        }
        if model.work_blocks[i].parent == Some(id) {
            kids.push(model.work_blocks[i].id);
            assert(kids@ =~= model.work_blocks@.take(i + 1).filter(child).map_values(bid));
        }
        i += 1;
    }
    assert(model.work_blocks@.take(i as int) =~= model.work_blocks@);
    DeletedBlockSnapshot { blocks, dependencies: deps, plan_roots, reparented_children: kids }
}

// ── the model as maps ───────────────────────────────────────────────────────

proof fn lemma_push_contains_any<A>(q: Seq<A>, x: A, n: A)
    ensures
        q.push(x).contains(n) <==> (q.contains(n) || n == x),
{
    if q.contains(n) {
        let j = choose|j: int| 0 <= j < q.len() && q[j] == n;
        assert(q.push(x)[j] == n);
    }
    if n == x {
        assert(q.push(x)[q.len() as int] == n);
    }
    if q.push(x).contains(n) {
        let j = choose|j: int| 0 <= j < q.len() + 1 && q.push(x)[j] == n;
        if j < q.len() {
            assert(q[j] == n);
        }
    }
}

/// Each block id of `bs` mapped to its (first) block.
pub open spec fn block_map(bs: Seq<WorkBlock>) -> Map<WorkBlockId, WorkBlock> {
    Map::new(|x: WorkBlockId| block_index(bs, x) is Some, |x: WorkBlockId| bs[block_index(bs, x).unwrap()])
}

/// Index of the first dependency with id `id`.
pub open spec fn dep_index(ds: Seq<Dependency>, id: DependencyId) -> Option<int>
    decreases ds.len(),
{
    if ds.len() == 0 {
        None
    } else if ds[0].id == id {
        Some(0)
    } else {
        match dep_index(ds.drop_first(), id) {
            Some(i) => Some(i + 1),
            None => None,
        }
    }
}

/// Each dependency id of `ds` mapped to its (first) dependency.
pub open spec fn dep_map(ds: Seq<Dependency>) -> Map<DependencyId, Dependency> {
    Map::new(|x: DependencyId| dep_index(ds, x) is Some, |x: DependencyId| ds[dep_index(ds, x).unwrap()])
}

pub proof fn lemma_dep_index(ds: Seq<Dependency>, id: DependencyId)
    ensures
        match dep_index(ds, id) {
            Some(i) => 0 <= i < ds.len() && ds[i].id == id && forall|j: int| 0 <= j < i ==> ds[j].id != id,
            None => forall|j: int| 0 <= j < ds.len() ==> ds[j].id != id,
        },
    decreases ds.len(),
{
    if ds.len() > 0 && ds[0].id != id {
        lemma_dep_index(ds.drop_first(), id);
        assert forall|j: int| 1 <= j < ds.len() implies ds[j] == ds.drop_first()[j - 1] by {}
    }
}

/// The first index with a given id is the one a search finds.
proof fn lemma_block_index_at(bs: Seq<WorkBlock>, x: WorkBlockId, i: int)
    requires
        0 <= i < bs.len(),
        bs[i].id == x,
        forall|j: int| 0 <= j < i ==> bs[j].id != x,
    ensures
        block_index(bs, x) == Some(i),
{
    lemma_block_index(bs, x);
}

proof fn lemma_dep_index_at(ds: Seq<Dependency>, x: DependencyId, i: int)
    requires
        0 <= i < ds.len(),
        ds[i].id == x,
        forall|j: int| 0 <= j < i ==> ds[j].id != x,
    ensures
        dep_index(ds, x) == Some(i),
{
    lemma_dep_index(ds, x);
}

/// Replacing the block at the first index of its id, or appending a block
/// with a new id, sets that id in the map.
proof fn lemma_block_map_upsert(bs: Seq<WorkBlock>, b: WorkBlock, nbs: Seq<WorkBlock>)
    requires
        match block_index(bs, b.id) {
            Some(i) => nbs == bs.update(i, b),
            None => nbs == bs.push(b),
        },
    ensures
        block_map(nbs) == block_map(bs).insert(b.id, b),
{
    lemma_block_index(bs, b.id);
    assert forall|x: WorkBlockId| #![trigger block_index(nbs, x)] block_index(nbs, x) == (if x == b.id {
        match block_index(bs, b.id) { Some(i) => Some(i), None => Some(bs.len() as int) }
    } else {
        block_index(bs, x)
    }) by {
        lemma_block_index(bs, x);
        match block_index(bs, b.id) {
            Some(i) => {
                assert forall|j: int| 0 <= j < nbs.len() implies #[trigger] nbs[j].id == bs[j].id by {}
                match block_index(bs, x) {
                    Some(k) => lemma_block_index_at(nbs, x, k),
                    None => {
                        lemma_block_index(nbs, x);
                    },
                }
            },
            None => {
                if x == b.id {
                    lemma_block_index_at(nbs, x, bs.len() as int);
                } else {
                    match block_index(bs, x) {
                        Some(k) => lemma_block_index_at(nbs, x, k),
                        None => {
                            lemma_block_index(nbs, x);
                        },
                    }
                }
            },
        }
    }
    assert forall|x: WorkBlockId| #![trigger block_map(nbs).contains_key(x)]
        block_map(nbs).contains_key(x) == block_map(bs).insert(b.id, b).contains_key(x)
        && (block_map(nbs).contains_key(x) ==> block_map(nbs)[x] == block_map(bs).insert(b.id, b)[x]) by {
        lemma_block_index(bs, x);
        assert(block_index(nbs, x) == (if x == b.id {
            match block_index(bs, b.id) { Some(i) => Some(i), None => Some(bs.len() as int) }
        } else {
            block_index(bs, x)
        }));
        if x != b.id {
            match block_index(bs, x) {
                Some(k) => {
                    match block_index(bs, b.id) {
                        Some(i) => {
                            assert(k != i);
                            assert(nbs[k] == bs[k]);
                        },
                        None => {
                            assert(nbs[k] == bs[k]);
                        },
                    }
                },
                None => {},
            }
        }
    }
    assert(block_map(nbs) =~= block_map(bs).insert(b.id, b));
}

proof fn lemma_dep_map_upsert(ds: Seq<Dependency>, d: Dependency, nds: Seq<Dependency>)
    requires
        match dep_index(ds, d.id) {
            Some(i) => nds == ds.update(i, d),
            None => nds == ds.push(d),
        },
    ensures
        dep_map(nds) == dep_map(ds).insert(d.id, d),
{
    lemma_dep_index(ds, d.id);
    assert forall|x: DependencyId| #![trigger dep_index(nds, x)] dep_index(nds, x) == (if x == d.id {
        match dep_index(ds, d.id) { Some(i) => Some(i), None => Some(ds.len() as int) }
    } else {
        dep_index(ds, x)
    }) by {
        lemma_dep_index(ds, x);
        match dep_index(ds, d.id) {
            Some(i) => {
                assert forall|j: int| 0 <= j < nds.len() implies #[trigger] nds[j].id == ds[j].id by {}
                match dep_index(ds, x) {
                    Some(k) => lemma_dep_index_at(nds, x, k),
                    None => {
                        lemma_dep_index(nds, x);
                    },
                }
            },
            None => {
                if x == d.id {
                    lemma_dep_index_at(nds, x, ds.len() as int);
                } else {
                    match dep_index(ds, x) {
                        Some(k) => lemma_dep_index_at(nds, x, k),
                        None => {
                            lemma_dep_index(nds, x);
                        },
                    }
                }
            },
        }
    }
    assert forall|x: DependencyId| #![trigger dep_map(nds).contains_key(x)]
        dep_map(nds).contains_key(x) == dep_map(ds).insert(d.id, d).contains_key(x)
        && (dep_map(nds).contains_key(x) ==> dep_map(nds)[x] == dep_map(ds).insert(d.id, d)[x]) by {
        lemma_dep_index(ds, x);
        assert(dep_index(nds, x) == (if x == d.id {
            match dep_index(ds, d.id) { Some(i) => Some(i), None => Some(ds.len() as int) }
        } else {
            dep_index(ds, x)
        }));
        if x != d.id {
            match dep_index(ds, x) {
                Some(k) => {
                    match dep_index(ds, d.id) {
                        Some(i) => {
                            assert(k != i);
                            assert(nds[k] == ds[k]);
                        },
                        None => {
                            assert(nds[k] == ds[k]);
                        },
                    }
                },
                None => {},
            }
        }
    }
    assert(dep_map(nds) =~= dep_map(ds).insert(d.id, d));
}

/// Changing a block's parent at the first index of its id changes the map there.
proof fn lemma_block_map_set_parent(bs: Seq<WorkBlock>, i: int, pid: WorkBlockId)
    requires
        0 <= i < bs.len(),
        block_index(bs, bs[i].id) == Some(i),
    ensures
        block_map(bs.update(i, WorkBlock { parent: Some(pid), ..bs[i] }))
            == block_map(bs).insert(bs[i].id, WorkBlock { parent: Some(pid), ..bs[i] }),
{
    lemma_block_map_upsert(bs, WorkBlock { parent: Some(pid), ..bs[i] }, bs.update(i, WorkBlock { parent: Some(pid), ..bs[i] }));
}

/// Plan `b` is plan `a` but for its top-level blocks.
pub open spec fn same_but_roots(a: Plan, b: Plan) -> bool {
    &&& b.id == a.id
    &&& b.name == a.name
    &&& b.row_names == a.row_names
    &&& b.branch_start_day == a.branch_start_day
    &&& b.block_rows == a.block_rows
    &&& b.allocations == a.allocations
}

/// Puts the deleted block, its dependencies, its top-level places and its
/// children's parent links back.
pub fn restore_deletion_snapshot(model: &mut Model, snap: DeletedBlockSnapshot)
    ensures
        block_map(final(model).work_blocks@) == restored_blocks(block_map(old(model).work_blocks@), snap.blocks@, snap.reparented_children@),
        dep_map(final(model).dependencies@) == inserted_deps(dep_map(old(model).dependencies@), snap.dependencies@),
        final(model).plans@.len() == old(model).plans@.len(),
        forall|p: int| 0 <= p < old(model).plans@.len() ==> (#[trigger] final(model).plans@[p]).id == old(model).plans@[p].id,
        forall|p: int, x: WorkBlockId| 0 <= p < old(model).plans@.len() ==> (#[trigger] final(model).plans@[p].root_blocks@.contains(x)
            <==> (old(model).plans@[p].root_blocks@.contains(x)
                || root_added(snap.plan_roots@, old(model).plans@, snap.plan_roots@.len() as int, p, x))),
        forall|p: int| 0 <= p < old(model).plans@.len() ==> (#[trigger] final(model).plans@[p]).root_blocks@
            == roots_after_restore(snap.plan_roots@, old(model).plans@, snap.plan_roots@.len() as int, p),
        forall|p: int| 0 <= p < old(model).plans@.len() ==> same_but_roots(old(model).plans@[p], #[trigger] final(model).plans@[p]),
        final(model).resource_blocks == old(model).resource_blocks,
        final(model).calendar == old(model).calendar,
        final(model).t_shirt_sizes == old(model).t_shirt_sizes,
        final(model).next_id == old(model).next_id,
{
    // Blocks.
    let ghost b0 = block_map(model.work_blocks@);
    let mut i: usize = 0;
    while i < snap.blocks.len()
        invariant
            i <= snap.blocks@.len(),
            block_map(model.work_blocks@) == inserted_blocks(b0, snap.blocks@.take(i as int)),
            model.plans == old(model).plans,
            model.dependencies == old(model).dependencies,
            model.resource_blocks == old(model).resource_blocks,
            model.calendar == old(model).calendar,
            model.t_shirt_sizes == old(model).t_shirt_sizes,
            model.next_id == old(model).next_id,
        decreases snap.blocks.len() - i,
    {
        let b = snap.blocks[i].clone();
        let ghost before = model.work_blocks@;
        match model.block_position(b.id) {
            Some(k) => {
                model.work_blocks.set(k, b);
            },
            None => {
                model.work_blocks.push(b);
            },
        }
        proof {
            lemma_block_map_upsert(before, b, model.work_blocks@);
            assert(snap.blocks@.take(i + 1).drop_last() =~= snap.blocks@.take(i as int));
        }
        i += 1;
    }
    assert(snap.blocks@.take(i as int) =~= snap.blocks@);
    // Dependencies.
    let ghost d0 = dep_map(model.dependencies@);
    let mut k: usize = 0;
    while k < snap.dependencies.len()
        invariant
            k <= snap.dependencies@.len(),
            dep_map(model.dependencies@) == inserted_deps(d0, snap.dependencies@.take(k as int)),
            block_map(model.work_blocks@) == inserted_blocks(b0, snap.blocks@),
            model.plans == old(model).plans,
            model.resource_blocks == old(model).resource_blocks,
            model.calendar == old(model).calendar,
            model.t_shirt_sizes == old(model).t_shirt_sizes,
            model.next_id == old(model).next_id,
        decreases snap.dependencies.len() - k,
    {
        let d = snap.dependencies[k].clone();
        let ghost before = model.dependencies@;
        let mut pos: Option<usize> = None;
        let mut j: usize = 0;
        proof {
            lemma_dep_index(before, d.id);
        }
        while j < model.dependencies.len()
            invariant
                j <= model.dependencies@.len(),
                model.dependencies@ == before,
                pos is None ==> forall|q: int| 0 <= q < j ==> before[q].id != d.id,
                pos matches Some(x) ==> dep_index(before, d.id) == Some(x as int),
            decreases model.dependencies.len() - j,
        {
            if pos.is_none() && model.dependencies[j].id == d.id {
                proof {
                    lemma_dep_index_at(before, d.id, j as int);
                }
                pos = Some(j);
            }
            j += 1;
        }
        match pos {
            Some(x) => {
                model.dependencies.set(x, d);
            },
            None => {
                model.dependencies.push(d);
            },
        }
        proof {
            lemma_dep_map_upsert(before, d, model.dependencies@);
            assert(snap.dependencies@.take(k + 1).drop_last() =~= snap.dependencies@.take(k as int));
        }
        k += 1;
    }
    assert(snap.dependencies@.take(k as int) =~= snap.dependencies@);
    // Top-level places.
    let ghost plans0 = model.plans@;
    let ghost entries = snap.plan_roots@;
    let mut e: usize = 0;
    while e < snap.plan_roots.len()
        invariant
            e <= snap.plan_roots@.len(),
            entries == snap.plan_roots@,
            plans0 == old(model).plans@,
            model.plans@.len() == plans0.len(),
            forall|p: int| 0 <= p < plans0.len() ==> (#[trigger] model.plans@[p]).id == plans0[p].id,
            forall|p: int, x: WorkBlockId| 0 <= p < plans0.len() ==> (#[trigger] model.plans@[p].root_blocks@.contains(x)
                <==> (plans0[p].root_blocks@.contains(x) || root_added(entries, plans0, e as int, p, x))),
            forall|p: int| 0 <= p < plans0.len() ==> (#[trigger] model.plans@[p]).root_blocks@
                == roots_after_restore(entries, plans0, e as int, p),
            dep_map(model.dependencies@) == inserted_deps(d0, snap.dependencies@),
            block_map(model.work_blocks@) == inserted_blocks(b0, snap.blocks@),
            forall|p: int| 0 <= p < plans0.len() ==> same_but_roots(plans0[p], #[trigger] model.plans@[p]),
            model.resource_blocks == old(model).resource_blocks,
            model.calendar == old(model).calendar,
            model.t_shirt_sizes == old(model).t_shirt_sizes,
            model.next_id == old(model).next_id,
        decreases snap.plan_roots.len() - e,
    {
        let pid = snap.plan_roots[e].0;
        let ghost before = model.plans@;
        proof {
            lemma_plan_index_same_ids(plans0, model.plans@, pid);
        }
        match model.plan_position(pid) {
            Some(p) => {
                let mut plan = model.plans.remove(p);
                let roots = &snap.plan_roots[e].1;
                let ghost r0 = plan.root_blocks@;
                let mut t: usize = 0;
                while t < roots.len()
                    invariant
                        t <= roots@.len(),
                        plan.id == before[p as int].id,
                        plan.name == before[p as int].name,
                        plan.row_names == before[p as int].row_names,
                        plan.branch_start_day == before[p as int].branch_start_day,
                        plan.block_rows == before[p as int].block_rows,
                        plan.allocations == before[p as int].allocations,
                        forall|x: WorkBlockId| #[trigger] plan.root_blocks@.contains(x) <==> (r0.contains(x) || roots@.take(t as int).contains(x)),
                        plan.root_blocks@ == push_missing(r0, roots@.take(t as int)),
                    decreases roots.len() - t,
                {
                    let bid = roots[t];
                    let ghost rb = plan.root_blocks@;
                    push_unique(&mut plan.root_blocks, bid);
                    proof {
                        assert(roots@.take(t + 1) =~= roots@.take(t as int).push(bid));
                        assert(roots@.take(t + 1).drop_last() =~= roots@.take(t as int));
                        assert forall|x: WorkBlockId| #[trigger] plan.root_blocks@.contains(x) <==> (r0.contains(x) || roots@.take(t + 1).contains(x)) by {
                            lemma_push_contains_any(roots@.take(t as int), bid, x);
                        }
                    }
                    t += 1;
                }
                assert(roots@.take(t as int) =~= roots@);
                model.plans.insert(p, plan);
                assert(model.plans@ =~= before.update(p as int, plan));
                proof {
                    assert forall|pp: int, x: WorkBlockId| 0 <= pp < plans0.len() implies (#[trigger] model.plans@[pp].root_blocks@.contains(x)
                        <==> (plans0[pp].root_blocks@.contains(x) || root_added(entries, plans0, e + 1, pp, x))) by {
                        lemma_root_added_step(entries, plans0, e as int, pp, x);
                        if pp != p {
                            assert(model.plans@[pp] == before[pp]);
                        }
                    }
                    assert forall|pp: int| 0 <= pp < plans0.len() implies same_but_roots(plans0[pp], #[trigger] model.plans@[pp]) by {
                        if pp != p {
                            assert(model.plans@[pp] == before[pp]);
                        }
                    }
                    assert(plan_index(plans0, pid) == Some(p as int));
                    assert forall|pp: int| 0 <= pp < plans0.len() implies (#[trigger] model.plans@[pp]).root_blocks@
                        == roots_after_restore(entries, plans0, e + 1, pp) by {
                        if pp != p {
                            assert(model.plans@[pp] == before[pp]);
                        }
                    }
                }
            },
            None => {
                proof {
                    assert(plan_index(plans0, pid) is None);
                    assert forall|pp: int| 0 <= pp < plans0.len() implies (#[trigger] model.plans@[pp]).root_blocks@
                        == roots_after_restore(entries, plans0, e + 1, pp) by {}
                    assert forall|pp: int, x: WorkBlockId| 0 <= pp < plans0.len() implies (#[trigger] model.plans@[pp].root_blocks@.contains(x)
                        <==> (plans0[pp].root_blocks@.contains(x) || root_added(entries, plans0, e + 1, pp, x))) by {
                        lemma_root_added_step(entries, plans0, e as int, pp, x);
                    }
                }
            },
        }
        e += 1;
    }
    // Children point at the restored block again.
    if snap.blocks.len() > 0 {
        let parent_id = snap.blocks[0].id;
        let ghost m0 = block_map(model.work_blocks@);
        let mut c: usize = 0;
        while c < snap.reparented_children.len()
            invariant
                c <= snap.reparented_children@.len(),
                parent_id == snap.blocks@[0].id,
                block_map(model.work_blocks@) == reparented(m0, snap.reparented_children@.take(c as int), parent_id),
                model.plans@.len() == plans0.len(),
                forall|p: int| 0 <= p < plans0.len() ==> (#[trigger] model.plans@[p]).id == plans0[p].id,
                entries == snap.plan_roots@,
                forall|p: int, x: WorkBlockId| 0 <= p < plans0.len() ==> (#[trigger] model.plans@[p].root_blocks@.contains(x)
                    <==> (plans0[p].root_blocks@.contains(x) || root_added(entries, plans0, entries.len() as int, p, x))),
                forall|p: int| 0 <= p < plans0.len() ==> (#[trigger] model.plans@[p]).root_blocks@
                    == roots_after_restore(entries, plans0, entries.len() as int, p),
                dep_map(model.dependencies@) == inserted_deps(d0, snap.dependencies@),
                forall|p: int| 0 <= p < plans0.len() ==> same_but_roots(plans0[p], #[trigger] model.plans@[p]),
                model.resource_blocks == old(model).resource_blocks,
                model.calendar == old(model).calendar,
                model.t_shirt_sizes == old(model).t_shirt_sizes,
                model.next_id == old(model).next_id,
            decreases snap.reparented_children.len() - c,
        {
            let child = snap.reparented_children[c];
            let ghost before = model.work_blocks@;
            match model.block_position(child) {
                Some(i) => {
                    let mut b = model.work_blocks[i].clone();
                    b.parent = Some(parent_id);
                    model.work_blocks.set(i, b);
                    proof {
                        lemma_block_map_set_parent(before, i as int, parent_id);
                        assert(b == WorkBlock { parent: Some(parent_id), ..before[i as int] });
                    }
                },
                None => {},
            }
            proof {
                assert(snap.reparented_children@.take(c + 1).drop_last() =~= snap.reparented_children@.take(c as int));
            }
            c += 1;
        }
        assert(snap.reparented_children@.take(c as int) =~= snap.reparented_children@);
    }
}

/// `roots` with each of `add` appended in turn unless already present.
pub open spec fn push_missing(roots: Seq<WorkBlockId>, add: Seq<WorkBlockId>) -> Seq<WorkBlockId>
    decreases add.len(),
{
    if add.len() == 0 {
        roots
    } else {
        let r = push_missing(roots, add.drop_last());
        if r.contains(add.last()) { r } else { r.push(add.last()) }
    }
}

/// Plan `p`'s top-level blocks once the first `n` entries have put theirs
/// back: each missing block is appended at the end, entry by entry.
pub open spec fn roots_after_restore(entries: Seq<(PlanId, Vec<WorkBlockId>)>, plans: Seq<Plan>, n: int, p: int) -> Seq<WorkBlockId>
    decreases n,
{
    if n <= 0 {
        plans[p].root_blocks@
    } else {
        let r = roots_after_restore(entries, plans, n - 1, p);
        if plan_index(plans, entries[n - 1].0) == Some(p) { push_missing(r, entries[n - 1].1@) } else { r }
    }
}

/// Some of the first `n` entries adds `x` to plan `p`'s top level.
pub open spec fn root_added(entries: Seq<(PlanId, Vec<WorkBlockId>)>, plans: Seq<Plan>, n: int, p: int, x: WorkBlockId) -> bool {
    exists|q: int| 0 <= q < n && plan_index(plans, entries[q].0) == Some(p) && (#[trigger] entries[q].1@).contains(x)
}

proof fn lemma_root_added_step(entries: Seq<(PlanId, Vec<WorkBlockId>)>, plans: Seq<Plan>, n: int, p: int, x: WorkBlockId)
    requires
        0 <= n < entries.len(),
    ensures
        root_added(entries, plans, n + 1, p, x) <==> (root_added(entries, plans, n, p, x)
            || (plan_index(plans, entries[n].0) == Some(p) && entries[n].1@.contains(x))),
{
    if root_added(entries, plans, n + 1, p, x) {
        let q = choose|q: int| 0 <= q < n + 1 && plan_index(plans, entries[q].0) == Some(p) && (#[trigger] entries[q].1@).contains(x);
        if q < n {
            assert(root_added(entries, plans, n, p, x));
        }
    }
    if root_added(entries, plans, n, p, x) {
        let q = choose|q: int| 0 <= q < n && plan_index(plans, entries[q].0) == Some(p) && (#[trigger] entries[q].1@).contains(x);
        assert(0 <= q < n + 1);
    }
    if plan_index(plans, entries[n].0) == Some(p) && entries[n].1@.contains(x) {
        assert(0 <= n < n + 1 && (entries[n].1@).contains(x));
    }
}

/// Adds `x` to `v` unless it is there already.
/// Appends `x` to `v` unless `v` already holds it.
pub(crate) fn push_unique(v: &mut Vec<WorkBlockId>, x: WorkBlockId)
    ensures
        final(v)@ == if old(v)@.contains(x) { old(v)@ } else { old(v)@.push(x) },
        forall|y: WorkBlockId| #[trigger] final(v)@.contains(y) <==> (old(v)@.contains(y) || y == x),
{
    let mut i: usize = 0;
    while i < v.len()
        invariant
            i <= v@.len(),
            forall|q: int| 0 <= q < i ==> v@[q] != x,
        decreases v.len() - i,
    {
        if v[i] == x {
            assert(v@.contains(x)) by {
                assert(v@[i as int] == x);
            }
            assert forall|y: WorkBlockId| #[trigger] v@.contains(y) <==> (v@.contains(y) || y == x) by {
                if y == x {
                    assert(v@[i as int] == x);
                }
            }
            return;
        }
        i += 1;
    }
    let ghost before = v@;
    assert(!before.contains(x));
    v.push(x);
    assert forall|y: WorkBlockId| #[trigger] v@.contains(y) <==> (before.contains(y) || y == x) by {
        lemma_push_contains_any(before, x, y);
    }
}

/// `m` with the blocks of `list` set, in order.
pub open spec fn inserted_blocks(m: Map<WorkBlockId, WorkBlock>, list: Seq<WorkBlock>) -> Map<WorkBlockId, WorkBlock>
    decreases list.len(),
{
    if list.len() == 0 {
        m
    } else {
        inserted_blocks(m, list.drop_last()).insert(list.last().id, list.last())
    }
}

/// `m` with the dependencies of `list` set, in order.
pub open spec fn inserted_deps(m: Map<DependencyId, Dependency>, list: Seq<Dependency>) -> Map<DependencyId, Dependency>
    decreases list.len(),
{
    if list.len() == 0 {
        m
    } else {
        inserted_deps(m, list.drop_last()).insert(list.last().id, list.last())
    }
}

/// `m` with the blocks named in `children` (those present) given parent `pid`.
pub open spec fn reparented(m: Map<WorkBlockId, WorkBlock>, children: Seq<WorkBlockId>, pid: WorkBlockId) -> Map<WorkBlockId, WorkBlock>
    decreases children.len(),
{
    if children.len() == 0 {
        m
    } else {
        let prev = reparented(m, children.drop_last(), pid);
        let c = children.last();
        if prev.contains_key(c) {
            prev.insert(c, WorkBlock { parent: Some(pid), ..prev[c] })
        } else {
            prev
        }
    }
}

/// What restoring a snapshot does to the block map.
pub open spec fn restored_blocks(m: Map<WorkBlockId, WorkBlock>, blocks: Seq<WorkBlock>, children: Seq<WorkBlockId>) -> Map<WorkBlockId, WorkBlock> {
    if blocks.len() > 0 {
        reparented(inserted_blocks(m, blocks), children, blocks[0].id)
    } else {
        inserted_blocks(m, blocks)
    }
}

// ── undoing a deletion ──────────────────────────────────────────────────────

/// No two blocks share an id.
pub open spec fn unique_block_ids(bs: Seq<WorkBlock>) -> bool {
    forall|i: int, j: int| 0 <= i < bs.len() && 0 <= j < bs.len() && bs[i].id == bs[j].id ==> i == j
}

/// A well-formed model's blocks, dependencies and plans have distinct ids.
pub proof fn lemma_wf_unique_ids(m: Model)
    requires
        m.wf(),
    ensures
        unique_block_ids(m.work_blocks@),
        unique_dep_ids(m.dependencies@),
        unique_plan_ids(m.plans@),
{
    let bs = m.work_blocks@;
    assert forall|i: int, j: int| 0 <= i < bs.len() && 0 <= j < bs.len() && bs[i].id == bs[j].id implies i == j by {
        if i < j {
            assert(bs[i].id != bs[j].id);
        } else if j < i {
            assert(bs[j].id != bs[i].id);
        }
    }
    let ds = m.dependencies@;
    assert forall|i: int, j: int| 0 <= i < ds.len() && 0 <= j < ds.len() && ds[i].id == ds[j].id implies i == j by {
        if i < j {
            assert(ds[i].id != ds[j].id);
        } else if j < i {
            assert(ds[j].id != ds[i].id);
        }
    }
    let ps = m.plans@;
    assert forall|i: int, j: int| 0 <= i < ps.len() && 0 <= j < ps.len() && ps[i].id == ps[j].id implies i == j by {
        if i < j {
            assert(ps[i].id != ps[j].id);
        } else if j < i {
            assert(ps[j].id != ps[i].id);
        }
    }
}

/// No two dependencies share an id.
pub open spec fn unique_dep_ids(ds: Seq<Dependency>) -> bool {
    forall|i: int, j: int| 0 <= i < ds.len() && 0 <= j < ds.len() && ds[i].id == ds[j].id ==> i == j
}

/// No two plans share an id.
pub open spec fn unique_plan_ids(ps: Seq<Plan>) -> bool {
    forall|i: int, j: int| 0 <= i < ps.len() && 0 <= j < ps.len() && ps[i].id == ps[j].id ==> i == j
}

proof fn lemma_block_map_at(bs: Seq<WorkBlock>, j: int)
    requires
        0 <= j < bs.len(),
        unique_block_ids(bs),
    ensures
        block_map(bs).contains_key(bs[j].id),
        block_map(bs)[bs[j].id] == bs[j],
{
    lemma_block_index(bs, bs[j].id);
}

proof fn lemma_dep_map_at(ds: Seq<Dependency>, j: int)
    requires
        0 <= j < ds.len(),
        unique_dep_ids(ds),
    ensures
        dep_map(ds).contains_key(ds[j].id),
        dep_map(ds)[ds[j].id] == ds[j],
{
    lemma_dep_index(ds, ds[j].id);
}

/// The block map after deleting `id`: the other blocks, detached.
proof fn lemma_block_map_after_delete(bs: Seq<WorkBlock>, id: WorkBlockId, x: WorkBlockId)
    requires
        unique_block_ids(bs),
    ensures
        block_map(blocks_after_delete(bs, id)).contains_key(x) <==> (x != id && block_map(bs).contains_key(x)),
        x != id && block_map(bs).contains_key(x) ==> block_map(blocks_after_delete(bs, id))[x] == detach(block_map(bs)[x], id),
{
    broadcast use vstd::seq_lib::group_filter_ensures;
    let keep = |b: WorkBlock| b.id != id;
    let f = bs.filter(keep);
    let nb = blocks_after_delete(bs, id);
    assert(nb == f.map_values(|b: WorkBlock| detach(b, id)));
    lemma_block_index(bs, x);
    lemma_block_index(nb, x);
    if block_index(nb, x) is Some {
        let k = block_index(nb, x).unwrap();
        assert(nb[k] == detach(f[k], id));
        lemma_filter_in(bs, keep, k);
        let j = choose|j: int| 0 <= j < bs.len() && bs[j] == f[k];
        lemma_block_map_at(bs, j);
        assert(f[k].id == x);
    }
    if x != id && block_index(bs, x) is Some {
        let j = block_index(bs, x).unwrap();
        assert(keep(bs[j]));
        assert(f.contains(bs[j]));
        let k = choose|k: int| 0 <= k < f.len() && f[k] == bs[j];
        assert(nb[k].id == x);
        assert(block_index(nb, x) is Some);
    }
}

/// Setting parents back over a list of children that are all present.
proof fn lemma_reparented(
    m: Map<WorkBlockId, WorkBlock>,
    target: Map<WorkBlockId, WorkBlock>,
    cs: Seq<WorkBlockId>,
    pid: WorkBlockId,
)
    requires
        m.dom() == target.dom(),
        forall|c: WorkBlockId| #[trigger] cs.contains(c) ==> m.contains_key(c)
            && (WorkBlock { parent: Some(pid), ..m[c] }) == target[c] && target[c].parent == Some(pid),
        forall|x: WorkBlockId| m.contains_key(x) && !(#[trigger] cs.contains(x)) ==> m[x] == target[x],
    ensures
        reparented(m, cs, pid) == target,
    decreases cs.len(),
{
    if cs.len() == 0 {
        assert forall|x: WorkBlockId| m.contains_key(x) implies m[x] == target[x] by {
            assert(!cs.contains(x));
        }
        assert(reparented(m, cs, pid) =~= target);
    } else {
        let c = cs.last();
        let prev_cs = cs.drop_last();
        assert(cs.contains(c)) by {
            assert(cs[cs.len() - 1] == c);
        }
        // The map with prefix children fixed, and `c` fixed too when it already appears before.
        let mid = if prev_cs.contains(c) { target } else { target.insert(c, m[c]) };
        assert forall|y: WorkBlockId| #[trigger] prev_cs.contains(y) implies cs.contains(y) by {
            let q = choose|q: int| 0 <= q < prev_cs.len() && prev_cs[q] == y;
            assert(cs[q] == y);
        }
        assert forall|x: WorkBlockId| m.contains_key(x) && !(#[trigger] prev_cs.contains(x)) implies m[x] == mid[x] by {
            if x != c {
                if cs.contains(x) {
                    let q = choose|q: int| 0 <= q < cs.len() && cs[q] == x;
                    assert(q != cs.len() - 1);
                    assert(prev_cs[q] == x);
                }
            }
        }
        assert forall|y: WorkBlockId| #[trigger] prev_cs.contains(y) implies m.contains_key(y)
            && WorkBlock { parent: Some(pid), ..m[y] } == mid[y] && mid[y].parent == Some(pid) by {
            assert(cs.contains(y));
        }
        assert(m.dom() =~= mid.dom());
        lemma_reparented(m, mid, prev_cs, pid);
        assert(cs.drop_last() == prev_cs);
        assert(reparented(m, prev_cs, pid) == mid);
        assert(mid.contains_key(c));
        assert(reparented(m, cs, pid) == mid.insert(c, WorkBlock { parent: Some(pid), ..mid[c] }));
        assert((WorkBlock { parent: Some(pid), ..mid[c] }) == target[c]);
        assert(reparented(m, cs, pid) =~= target);
    }
}

/// Undoing a deletion with the snapshot taken before it gives back every
/// block (with its parent link) and every dependency, and puts the block
/// back on the top level of each plan that held it — for any well-formed
/// model, deleting a block it holds.
pub proof fn lemma_undo_delete_restores(m: Model, id: WorkBlockId, snap: DeletedBlockSnapshot)
    requires
        snapshot_of(m, id, snap),
        block_index(m.work_blocks@, id) is Some,
        m.wf(),
    ensures
        restored_blocks(block_map(blocks_after_delete(m.work_blocks@, id)), snap.blocks@, snap.reparented_children@)
            == block_map(m.work_blocks@),
        inserted_deps(dep_map(deps_after_delete(m.dependencies@, id)), snap.dependencies@) == dep_map(m.dependencies@),
        forall|p: int, x: WorkBlockId| 0 <= p < m.plans@.len() ==> ((m.plans@[p].root_blocks@.filter(not_id(id)).contains(x)
            || root_added(snap.plan_roots@, m.plans@, snap.plan_roots@.len() as int, p, x))
            <==> #[trigger] m.plans@[p].root_blocks@.contains(x)),
{
    broadcast use vstd::seq_lib::group_filter_ensures;
    lemma_wf_unique_ids(m);
    let bs = m.work_blocks@;
    let j0 = block_index(bs, id).unwrap();
    lemma_block_index(bs, id);
    let orig = block_map(bs);
    let after = block_map(blocks_after_delete(bs, id));
    assert(snap.blocks@ =~= seq![bs[j0]]);
    assert(inserted_blocks(after, snap.blocks@) == after.insert(id, bs[j0])) by {
        assert(snap.blocks@.drop_last() =~= Seq::<WorkBlock>::empty());
        assert(snap.blocks@.last() == bs[j0]);
        assert(inserted_blocks(after, snap.blocks@.drop_last()) == after);
    }
    let ins = after.insert(id, bs[j0]);
    // `ins` agrees with `orig` up to the children's parent links.
    assert forall|x: WorkBlockId| #[trigger] ins.contains_key(x) <==> orig.contains_key(x) by {
        lemma_block_map_after_delete(bs, id, x);
        lemma_block_map_at(bs, j0);
    }
    assert(ins.dom() =~= orig.dom());
    let cs = snap.reparented_children@;
    assert forall|c: WorkBlockId| #[trigger] cs.contains(c) implies ins.contains_key(c)
        && WorkBlock { parent: Some(id), ..ins[c] } == orig[c] && orig[c].parent == Some(id) by {
        let q = choose|q: int| 0 <= q < cs.len() && cs[q] == c;
        let kids = bs.filter(|b: WorkBlock| b.parent == Some(id));
        assert(cs[q] == kids[q].id);
        lemma_filter_in(bs, |b: WorkBlock| b.parent == Some(id), q);
        let j = choose|j: int| 0 <= j < bs.len() && bs[j] == kids[q];
        lemma_block_map_at(bs, j);
        lemma_block_map_after_delete(bs, id, c);
        lemma_block_map_at(bs, j0);
    }
    assert forall|x: WorkBlockId| ins.contains_key(x) && !(#[trigger] cs.contains(x)) implies ins[x] == orig[x] by {
        lemma_block_map_after_delete(bs, id, x);
        lemma_block_map_at(bs, j0);
        if x != id {
            let j = block_index(bs, x).unwrap();
            lemma_block_index(bs, x);
            if bs[j].parent == Some(id) {
                let kids = bs.filter(|b: WorkBlock| b.parent == Some(id));
                assert(kids.contains(bs[j]));
                let q = choose|q: int| 0 <= q < kids.len() && kids[q] == bs[j];
                assert(cs[q] == x);
            }
        }
    }
    assert(snap.blocks@[0].id == id);
    lemma_reparented(ins, orig, cs, id);
    // Dependencies.
    let ds = m.dependencies@;
    let touching = snap.dependencies@;
    lemma_inserted_deps(dep_map(deps_after_delete(ds, id)), ds, touching, id);
    // Top-level places.
    assert forall|p: int, x: WorkBlockId| 0 <= p < m.plans@.len() implies ((m.plans@[p].root_blocks@.filter(not_id(id)).contains(x)
        || root_added(snap.plan_roots@, m.plans@, snap.plan_roots@.len() as int, p, x))
        <==> #[trigger] m.plans@[p].root_blocks@.contains(x)) by {
        let rs = m.plans@[p].root_blocks@;
        let holds = |pl: Plan| pl.root_blocks@.contains(id);
        let fp = m.plans@.filter(holds);
        let entries = snap.plan_roots@;
        assert(roots_view(entries) == fp.map_values(|pl: Plan| (pl.id, seq![id])));
        assert(entries.len() == fp.len()) by {
            assert(roots_view(entries).len() == entries.len());
        }
        if rs.filter(not_id(id)).contains(x) {
            let q = choose|q: int| 0 <= q < rs.filter(not_id(id)).len() && rs.filter(not_id(id))[q] == x;
            lemma_filter_in(rs, not_id(id), q);
        }
        if root_added(entries, m.plans@, entries.len() as int, p, x) {
            let q = choose|q: int| 0 <= q < entries.len() && plan_index(m.plans@, entries[q].0) == Some(p)
                && (#[trigger] entries[q].1@).contains(x);
            assert(roots_view(entries)[q] == (fp[q].id, seq![id]));
            assert(entries[q].1@ == seq![id]);
            assert(x == id);
            lemma_filter_in(m.plans@, holds, q);
            let r = choose|r: int| 0 <= r < m.plans@.len() && m.plans@[r] == fp[q];
            lemma_plan_index(m.plans@, fp[q].id);
            assert(r == p);
        }
        if rs.contains(x) {
            if x != id {
                let q = choose|q: int| 0 <= q < rs.len() && rs[q] == x;
                assert(not_id(id)(rs[q]));
                assert(rs.filter(not_id(id)).contains(x));
            } else {
                assert(holds(m.plans@[p]));
                assert(fp.contains(m.plans@[p]));
                let q = choose|q: int| 0 <= q < fp.len() && fp[q] == m.plans@[p];
                assert(roots_view(entries)[q] == (fp[q].id, seq![id]));
                assert(entries[q].1@ == seq![id]);
                assert(entries[q].1@[0] == id);
                lemma_plan_index(m.plans@, m.plans@[p].id);
                assert(plan_index(m.plans@, entries[q].0) == Some(p));
                assert(root_added(entries, m.plans@, entries.len() as int, p, x));
            }
        }
    }
}

/// The last position in `list` of a dependency with id `x`.
pub open spec fn last_with_id(list: Seq<Dependency>, x: DependencyId) -> Option<int>
    decreases list.len(),
{
    if list.len() == 0 {
        None
    } else if list.last().id == x {
        Some(list.len() - 1)
    } else {
        last_with_id(list.drop_last(), x)
    }
}

proof fn lemma_last_with_id(list: Seq<Dependency>, x: DependencyId)
    ensures
        match last_with_id(list, x) {
            Some(i) => 0 <= i < list.len() && list[i].id == x,
            None => forall|k: int| 0 <= k < list.len() ==> list[k].id != x,
        },
    decreases list.len(),
{
    if list.len() > 0 && list.last().id != x {
        lemma_last_with_id(list.drop_last(), x);
        assert forall|k: int| 0 <= k < list.len() - 1 implies list[k] == list.drop_last()[k] by {}
    }
}

proof fn lemma_inserted_deps_at(m: Map<DependencyId, Dependency>, list: Seq<Dependency>, x: DependencyId)
    ensures
        inserted_deps(m, list).contains_key(x) <==> (last_with_id(list, x) is Some || m.contains_key(x)),
        match last_with_id(list, x) {
            Some(i) => inserted_deps(m, list)[x] == list[i],
            None => m.contains_key(x) ==> inserted_deps(m, list)[x] == m[x],
        },
    decreases list.len(),
{
    if list.len() > 0 {
        lemma_inserted_deps_at(m, list.drop_last(), x);
        match last_with_id(list.drop_last(), x) {
            Some(i) => {
                lemma_last_with_id(list.drop_last(), x);
                assert(list.drop_last()[i] == list[i]);
            },
            None => {},
        }
    }
}

/// Every element of a filtered sequence comes from the sequence.
proof fn lemma_filter_in<A>(s: Seq<A>, pred: spec_fn(A) -> bool, k: int)
    requires
        0 <= k < s.filter(pred).len(),
    ensures
        s.contains(s.filter(pred)[k]),
    decreases s.len(),
{
    broadcast use vstd::seq_lib::group_filter_ensures;
    if s.len() > 0 {
        let p = s.drop_last();
        let l = s.last();
        assert(s =~= p.push(l));
        p.lemma_filter_push(l, pred);
        if pred(l) && k == s.filter(pred).len() - 1 {
            assert(s.filter(pred)[k] == l);
            assert(s[s.len() - 1] == l);
        } else {
            assert(s.filter(pred)[k] == p.filter(pred)[k]);
            lemma_filter_in(p, pred, k);
            let j = choose|j: int| 0 <= j < p.len() && p[j] == p.filter(pred)[k];
            assert(s[j] == p[j]);
        }
    }
}

/// The dependency map after deleting `id` and putting back the touching ones.
proof fn lemma_inserted_deps(after: Map<DependencyId, Dependency>, ds: Seq<Dependency>, touching: Seq<Dependency>, id: WorkBlockId)
    requires
        unique_dep_ids(ds),
        after == dep_map(deps_after_delete(ds, id)),
        touching == ds.filter(|d: Dependency| touches(d, id)),
    ensures
        inserted_deps(after, touching) == dep_map(ds),
{
    broadcast use vstd::seq_lib::group_filter_ensures;
    let res = inserted_deps(after, touching);
    let full = dep_map(ds);
    let keep = |d: Dependency| d.predecessor != id && d.successor != id;
    let kept = ds.filter(keep);
    assert(deps_after_delete(ds, id) == kept);
    assert forall|x: DependencyId| #[trigger] res.contains_key(x) == full.contains_key(x)
        && (res.contains_key(x) ==> res[x] == full[x]) by {
        lemma_dep_index(ds, x);
        lemma_dep_index(kept, x);
        lemma_inserted_deps_at(after, touching, x);
        lemma_last_with_id(touching, x);
        match last_with_id(touching, x) {
            Some(k) => {
                lemma_filter_in(ds, |d: Dependency| touches(d, id), k);
                let j = choose|j: int| 0 <= j < ds.len() && ds[j] == touching[k];
                lemma_dep_map_at(ds, j);
            },
            None => {
                if full.contains_key(x) {
                    let j = dep_index(ds, x).unwrap();
                    if touches(ds[j], id) {
                        assert(touching.contains(ds[j]));
                        let k = choose|k: int| 0 <= k < touching.len() && touching[k] == ds[j];
                        assert(touching[k].id == x);
                    } else {
                        assert(keep(ds[j]));
                        assert(kept.contains(ds[j]));
                        let k = choose|k: int| 0 <= k < kept.len() && kept[k] == ds[j];
                        assert(dep_index(kept, x) is Some);
                    }
                }
                if after.contains_key(x) {
                    let k2 = dep_index(kept, x).unwrap();
                    lemma_filter_in(ds, keep, k2);
                    let j2 = choose|j2: int| 0 <= j2 < ds.len() && ds[j2] == kept[k2];
                    lemma_dep_map_at(ds, j2);
                }
            },
        }
    }
    assert(res =~= full);
}

// ── moving a group ──────────────────────────────────────────────────────────

/// The smallest day offset of a group, the anchor's own 0 included.
pub open spec fn min_day_offset(offsets: Seq<(WorkBlockId, i32, i32)>) -> int
    decreases offsets.len(),
{
    if offsets.len() == 0 {
        0
    } else {
        let m = min_day_offset(offsets.drop_last());
        if offsets.last().1 < m { offsets.last().1 as int } else { m }
    }
}

/// How far the group moves: as far as the cursor asks, but never so far
/// that its leftmost member crosses `floor`.
pub open spec fn group_delta(anchor_pre_day: int, anchor_raw_day: int, offsets: Seq<(WorkBlockId, i32, i32)>, floor: int) -> int {
    let raw = anchor_raw_day - anchor_pre_day;
    let least = floor - anchor_pre_day - min_day_offset(offsets);
    if raw >= least { raw } else { least }
}

/// The group arithmetic stays within `i32`.
pub open spec fn group_fits(anchor_pre_day: int, anchor_raw_day: int, anchor_new_row: int, offsets: Seq<(WorkBlockId, i32, i32)>, floor: int) -> bool {
    let anchor = anchor_pre_day + group_delta(anchor_pre_day, anchor_raw_day, offsets, floor);
    &&& i32::MIN <= anchor_raw_day - anchor_pre_day <= i32::MAX
    &&& i32::MIN <= floor - anchor_pre_day <= i32::MAX
    &&& i32::MIN <= floor - anchor_pre_day - min_day_offset(offsets) <= i32::MAX
    &&& i32::MIN <= anchor <= i32::MAX
    &&& forall|i: int| 0 <= i < offsets.len() ==> i32::MIN <= anchor + (#[trigger] offsets[i]).1 <= i32::MAX
        && i32::MIN <= anchor_new_row + offsets[i].2 <= i32::MAX
}

proof fn lemma_min_day_offset(offsets: Seq<(WorkBlockId, i32, i32)>)
    ensures
        min_day_offset(offsets) <= 0,
        i32::MIN <= min_day_offset(offsets),
        forall|i: int| 0 <= i < offsets.len() ==> min_day_offset(offsets) <= (#[trigger] offsets[i]).1,
    decreases offsets.len(),
{
    if offsets.len() > 0 {
        lemma_min_day_offset(offsets.drop_last());
        assert forall|i: int| 0 <= i < offsets.len() - 1 implies offsets[i] == offsets.drop_last()[i] by {}
    }
}

/// Where a dragged group lands: the anchor's new day and, for each member
/// `(id, day offset, row offset)`, its new day and row. The move keeps the
/// members' offsets and stops at `floor`: no member lands before it, and
/// the group goes exactly where the cursor says when that crosses no floor.
pub fn group_targets(
    anchor_pre_day: i32,
    anchor_raw_day: i32,
    anchor_new_row: i32,
    offsets: &[(WorkBlockId, i32, i32)],
    floor: i32,
) -> (r: (i32, Vec<(WorkBlockId, i32, i32)>))
    requires
        group_fits(anchor_pre_day as int, anchor_raw_day as int, anchor_new_row as int, offsets@, floor as int),
    ensures
        r.0 == anchor_pre_day + group_delta(anchor_pre_day as int, anchor_raw_day as int, offsets@, floor as int),
        r.1@.len() == offsets@.len(),
        forall|i: int| 0 <= i < offsets@.len() ==> (#[trigger] r.1@[i]) == (offsets@[i].0, (r.0 + offsets@[i].1) as i32,
            (anchor_new_row + offsets@[i].2) as i32),
        r.0 >= floor,
        forall|i: int| 0 <= i < offsets@.len() ==> (#[trigger] r.1@[i]).1 >= floor,
        anchor_raw_day + min_day_offset(offsets@) >= floor ==> r.0 == anchor_raw_day,
{
    proof {
        lemma_min_day_offset(offsets@);
    }
    let mut min_off: i32 = 0;
    let mut i: usize = 0;
    assert(offsets@.take(0) =~= Seq::<(WorkBlockId, i32, i32)>::empty());
    while i < offsets.len()
        invariant
            i <= offsets@.len(),
            min_off == min_day_offset(offsets@.take(i as int)),
        decreases offsets.len() - i,
    {
        assert(offsets@.take(i + 1).drop_last() =~= offsets@.take(i as int));
        if offsets[i].1 < min_off {
            min_off = offsets[i].1;
        }
        i += 1;
    }
    assert(offsets@.take(i as int) =~= offsets@);
    let raw_delta = anchor_raw_day - anchor_pre_day;
    let least = floor - anchor_pre_day - min_off;
    let capped_delta = if raw_delta >= least { raw_delta } else { least };
    let anchor_day = anchor_pre_day + capped_delta;
    let mut peers: Vec<(WorkBlockId, i32, i32)> = Vec::new();
    let mut k: usize = 0;
    while k < offsets.len()
        invariant
            k <= offsets@.len(),
            anchor_day == anchor_pre_day + group_delta(anchor_pre_day as int, anchor_raw_day as int, offsets@, floor as int),
            group_fits(anchor_pre_day as int, anchor_raw_day as int, anchor_new_row as int, offsets@, floor as int),
            peers@.len() == k,
            forall|j: int| 0 <= j < k ==> (#[trigger] peers@[j]) == (offsets@[j].0, (anchor_day + offsets@[j].1) as i32,
                (anchor_new_row + offsets@[j].2) as i32),
        decreases offsets.len() - k,
    {
        let (id, d, r) = offsets[k];
        assert(i32::MIN <= anchor_day + offsets@[k as int].1 <= i32::MAX);
        peers.push((id, anchor_day + d, anchor_new_row + r));
        k += 1;
    }
    (anchor_day, peers)
}

// ── comparing against another plan ──────────────────────────────────────────

/// A list of `(block, value)` pairs read as a map (the first pair for a block counts).
pub open spec fn pairs_map(v: Seq<(WorkBlockId, i32)>) -> Map<WorkBlockId, i32>
    decreases v.len(),
{
    if v.len() == 0 {
        Map::empty()
    } else {
        let rest = pairs_map(v.drop_first());
        rest.insert(v[0].0, v[0].1)
    }
}

/// The value of `id` in `v` (the first pair for it).
fn pair_lookup(v: &Vec<(WorkBlockId, i32)>, id: WorkBlockId) -> (r: Option<i32>)
    ensures
        r matches Some(x) ==> pairs_map(v@).contains_key(id) && pairs_map(v@)[id] == x,
        r is None ==> !pairs_map(v@).contains_key(id),
{
    let mut i: usize = 0;
    assert(v@.skip(0) =~= v@);
    while i < v.len()
        invariant
            i <= v@.len(),
            forall|j: int| 0 <= j < i ==> v@[j].0 != id,
            forall|j: int| 0 <= j <= i ==> (pairs_map(v@).contains_key(id) <==> pairs_map(v@.skip(j)).contains_key(id))
                && (pairs_map(v@).contains_key(id) ==> pairs_map(v@)[id] == pairs_map(v@.skip(j))[id]),
        decreases v.len() - i,
    {
        assert(v@.skip(i as int).drop_first() =~= v@.skip(i + 1));
        assert(v@.skip(i as int)[0] == v@[i as int]);
        if v[i].0 == id {
            return Some(v[i].1);
        }
        i += 1;
    }
    assert(v@.skip(i as int) =~= Seq::<(WorkBlockId, i32)>::empty());
    None
}

/// Whether two pair lists are the same map.
fn same_pairs(a: &Vec<(WorkBlockId, i32)>, b: &Vec<(WorkBlockId, i32)>) -> (r: bool)
    ensures
        r <==> pairs_map(a@) == pairs_map(b@),
{
    let mut i: usize = 0;
    while i < a.len()
        invariant
            i <= a@.len(),
            forall|j: int| 0 <= j < i ==> pairs_map(b@).contains_key(#[trigger] a@[j].0)
                && pairs_map(b@)[a@[j].0] == pairs_map(a@)[a@[j].0],
        decreases a.len() - i,
    {
        proof {
            lemma_pairs_map_has(a@, i as int);
        }
        match pair_lookup(b, a[i].0) {
            Some(x) => {
                match pair_lookup(a, a[i].0) {
                    Some(y) => {
                        if x != y {
                            return false;
                        }
                    },
                    None => {},
                }
            },
            None => {
                return false;
            },
        }
        i += 1;
    }
    let mut k: usize = 0;
    while k < b.len()
        invariant
            k <= b@.len(),
            forall|j: int| 0 <= j < a@.len() ==> pairs_map(b@).contains_key(#[trigger] a@[j].0)
                && pairs_map(b@)[a@[j].0] == pairs_map(a@)[a@[j].0],
            forall|j: int| 0 <= j < k ==> pairs_map(a@).contains_key(#[trigger] b@[j].0),
        decreases b.len() - k,
    {
        proof {
            lemma_pairs_map_has(b@, k as int);
        }
        if pair_lookup(a, b[k].0).is_none() {
            return false;
        }
        k += 1;
    }
    proof {
        assert forall|x: WorkBlockId| #[trigger] pairs_map(a@).contains_key(x) == pairs_map(b@).contains_key(x)
            && (pairs_map(a@).contains_key(x) ==> pairs_map(b@)[x] == pairs_map(a@)[x]) by {
            if pairs_map(a@).contains_key(x) {
                lemma_pairs_map_key(a@, x);
            }
            if pairs_map(b@).contains_key(x) {
                lemma_pairs_map_key(b@, x);
            }
        }
        assert(pairs_map(a@) =~= pairs_map(b@));
    }
    true
}

proof fn lemma_pairs_map_has(v: Seq<(WorkBlockId, i32)>, i: int)
    requires
        0 <= i < v.len(),
    ensures
        pairs_map(v).contains_key(v[i].0),
    decreases v.len(),
{
    if i > 0 {
        lemma_pairs_map_has(v.drop_first(), i - 1);
    }
}

proof fn lemma_pairs_map_key(v: Seq<(WorkBlockId, i32)>, x: WorkBlockId)
    requires
        pairs_map(v).contains_key(x),
    ensures
        exists|i: int| 0 <= i < v.len() && (#[trigger] v[i]).0 == x,
    decreases v.len(),
{
    if v[0].0 != x {
        lemma_pairs_map_key(v.drop_first(), x);
        let i = choose|i: int| 0 <= i < v.drop_first().len() && (#[trigger] v.drop_first()[i]).0 == x;
        assert(v[i + 1] == v.drop_first()[i]);
    } else {
        assert(v[0].0 == x);
    }
}

/// What the last comparison schedule was computed from.
#[derive(Debug)]
pub struct CompareScheduleCache {
    pub plan_id: Option<PlanId>,
    /// `(block, duration_days)` of each active block.
    pub block_snapshot: Vec<(WorkBlockId, i32)>,
    /// Number of dependency edges of the compare plan.
    pub dep_count: usize,
    /// `(block, row)` of each active block.
    pub row_snapshot: Vec<(WorkBlockId, i32)>,
}

/// `(schedule stale, rows stale)`: the schedule is stale when the compare
/// plan, the block durations or the dependency count changed; the rows when
/// the row assignments changed.
pub fn compare_cache_is_stale(
    cache: &CompareScheduleCache,
    cmp_id: PlanId,
    block_snapshot: &Vec<(WorkBlockId, i32)>,
    dep_count: usize,
    id_to_row: &Vec<(WorkBlockId, i32)>,
) -> (r: (bool, bool))
    ensures
        r.0 <==> (cache.plan_id != Some(cmp_id) || pairs_map(cache.block_snapshot@) != pairs_map(block_snapshot@)
            || cache.dep_count != dep_count),
        r.1 <==> pairs_map(cache.row_snapshot@) != pairs_map(id_to_row@),
{
    let plan_changed = match cache.plan_id {
        Some(p) => p != cmp_id,
        None => true,
    };
    let sched_stale = plan_changed || !same_pairs(&cache.block_snapshot, block_snapshot) || cache.dep_count != dep_count;
    let row_stale = !same_pairs(&cache.row_snapshot, id_to_row);
    (sched_stale, row_stale)
}

/// `x` inserted into `s` before the first id greater than it.
pub open spec fn insert_by_id(x: WorkBlockId, s: Seq<WorkBlockId>) -> Seq<WorkBlockId>
    decreases s.len(),
{
    if s.len() == 0 {
        seq![x]
    } else if x.0 < s[0].0 {
        seq![x] + s
    } else {
        seq![s[0]] + insert_by_id(x, s.skip(1))
    }
}

/// `s` sorted by id, equal ids keeping their order.
pub open spec fn sort_by_id(s: Seq<WorkBlockId>) -> Seq<WorkBlockId>
    decreases s.len(),
{
    if s.len() == 0 {
        Seq::empty()
    } else {
        insert_by_id(s.last(), sort_by_id(s.drop_last()))
    }
}

proof fn lemma_insert_by_id_at(x: WorkBlockId, s: Seq<WorkBlockId>, p: int)
    requires
        0 <= p <= s.len(),
        forall|j: int| 0 <= j < p ==> !(x.0 < (#[trigger] s[j]).0),
        p < s.len() ==> x.0 < s[p].0,
    ensures
        insert_by_id(x, s) == s.take(p) + seq![x] + s.skip(p),
    decreases s.len(),
{
    if s.len() == 0 {
        assert(s.take(p) + seq![x] + s.skip(p) =~= seq![x]);
    } else if p == 0 {
        assert(s.take(0) + seq![x] + s.skip(0) =~= seq![x] + s);
    } else {
        assert forall|j: int| 0 <= j < p - 1 implies !(x.0 < (#[trigger] s.skip(1)[j]).0) by {
            assert(s.skip(1)[j] == s[j + 1]);
        }
        lemma_insert_by_id_at(x, s.skip(1), p - 1);
        assert(s.take(p) + seq![x] + s.skip(p) =~= seq![s[0]] + (s.skip(1).take(p - 1) + seq![x] + s.skip(1).skip(p - 1)));
    }
}

/// The largest row in use (0 when there is none).
pub open spec fn max_row(v: Seq<(WorkBlockId, i32)>) -> int
    decreases v.len(),
{
    if v.len() == 0 {
        0
    } else if v.len() == 1 {
        v[0].1 as int
    } else {
        let m = max_row(v.drop_last());
        if v.last().1 > m { v.last().1 as int } else { m }
    }
}

proof fn lemma_max_row_bounds(v: Seq<(WorkBlockId, i32)>)
    ensures
        i32::MIN <= max_row(v) <= i32::MAX,
    decreases v.len(),
{
    if v.len() > 1 {
        lemma_max_row_bounds(v.drop_last());
    }
}

/// Rows for the compared blocks that the active plan does not show: after
/// its last row, one each, in id order. Returns `(block, row)` pairs.
pub fn assign_compare_extra_rows(id_to_row: &Vec<(WorkBlockId, i32)>, compare_ids: &Vec<WorkBlockId>) -> (r: Vec<(WorkBlockId, i32)>)
    requires
        max_row(id_to_row@) + compare_ids@.len() < i32::MAX,
    ensures
        ({
            let extra = sort_by_id(compare_ids@.filter(|id: WorkBlockId| !pairs_map(id_to_row@).contains_key(id)));
            &&& r@.len() == extra.len()
            &&& forall|i: int| 0 <= i < extra.len() ==> (#[trigger] r@[i]) == (extra[i], (max_row(id_to_row@) + 1 + i) as i32)
        }),
{
    // The largest row.
    let mut top: i32 = 0;
    let mut i: usize = 0;
    proof {
        lemma_max_row_bounds(id_to_row@);
    }
    assert(id_to_row@.take(0) =~= Seq::<(WorkBlockId, i32)>::empty());
    while i < id_to_row.len()
        invariant
            i <= id_to_row@.len(),
            top == max_row(id_to_row@.take(i as int)),
        decreases id_to_row.len() - i,
    {
        assert(id_to_row@.take(i + 1).drop_last() =~= id_to_row@.take(i as int));
        if i == 0 || id_to_row[i].1 > top {
            top = id_to_row[i].1;
        }
        i += 1;
    }
    assert(id_to_row@.take(i as int) =~= id_to_row@);
    // The compared blocks without a row, sorted by id.
    let ghost missing = |id: WorkBlockId| !pairs_map(id_to_row@).contains_key(id);
    let mut extra: Vec<WorkBlockId> = Vec::new();
    let mut k: usize = 0;
    while k < compare_ids.len()
        invariant
            k <= compare_ids@.len(),
            missing == (|id: WorkBlockId| !pairs_map(id_to_row@).contains_key(id)),
            extra@ == sort_by_id(compare_ids@.take(k as int).filter(missing)),
            extra@.len() <= k,
        decreases compare_ids.len() - k,
    {
        let x = compare_ids[k];
        let ghost pre = compare_ids@.take(k as int);
        proof {
            assert(compare_ids@.take(k + 1) =~= pre.push(x));
            pre.lemma_filter_push(x, missing);
            pre.lemma_filter_len(missing);
        }
        if pair_lookup(id_to_row, x).is_none() {
            let mut p: usize = 0;
            while p < extra.len() && !(x.0 < extra[p].0)
                invariant
                    p <= extra@.len(),
                    forall|j: int| 0 <= j < p ==> !(x.0 < (#[trigger] extra@[j]).0),
                decreases extra.len() - p,
            {
                p += 1;
            }
            proof {
                lemma_insert_by_id_at(x, extra@, p as int);
                assert(pre.push(x).filter(missing) == pre.filter(missing).push(x));
                assert(pre.filter(missing).push(x).drop_last() =~= pre.filter(missing));
            }
            extra.insert(p, x);
        }
        k += 1;
    }
    assert(compare_ids@.take(k as int) =~= compare_ids@);
    let mut out: Vec<(WorkBlockId, i32)> = Vec::new();
    let mut j: usize = 0;
    while j < extra.len()
        invariant
            j <= extra@.len(),
            extra@.len() <= compare_ids@.len(),
            top == max_row(id_to_row@),
            max_row(id_to_row@) + compare_ids@.len() < i32::MAX,
            out@.len() == j,
            forall|q: int| 0 <= q < j ==> (#[trigger] out@[q]) == (extra@[q], (top + 1 + q) as i32),
        decreases extra.len() - j,
    {
        let row: i64 = top as i64 + 1 + j as i64;
        out.push((extra[j], row as i32));
        j += 1;
    }
    out
}

} // verus!
