//! Checks the user's placements against the dependency constraints.

use vstd::prelude::*;
use crate::model::{block_index, Day, Dependency, DependencyId, DependencyType, Model, WorkBlock, WorkBlockId};

verus! {

/// A single dependency whose constraint is not satisfied by the current
/// `WorkBlock` placements (`start_day` / `duration_days`).
#[derive(Debug, Clone, Copy, PartialEq, Eq, Structural)]
pub struct DependencyViolation {
    pub dependency_id: DependencyId,
    pub predecessor: WorkBlockId,
    pub successor: WorkBlockId,
    pub dependency_type: DependencyType,
    /// Days by which the constraint is violated (always > 0 when present).
    pub violation_days: Day,
}

/// The required bound minus the placed value (P = predecessor, S = successor):
///   FS: P.end − S.start,  SS: P.start − S.start,
///   FF: P.end − S.end,    SF: P.start − S.end.
pub open spec fn shortfall(pred: WorkBlock, succ: WorkBlock, t: DependencyType) -> int {
    let pred_end = pred.start_day + pred.duration_days;
    let succ_end = succ.start_day + succ.duration_days;
    match t {
        DependencyType::FinishToStart => pred_end - succ.start_day,
        DependencyType::StartToStart => pred.start_day - succ.start_day,
        DependencyType::FinishToFinish => pred_end - succ_end,
        DependencyType::StartToFinish => pred.start_day - succ_end,
    }
}

/// The day arithmetic for this pair stays within `i32`.
pub open spec fn shortfall_fits(pred: WorkBlock, succ: WorkBlock, t: DependencyType) -> bool {
    &&& i32::MIN <= pred.start_day + pred.duration_days <= i32::MAX
    &&& i32::MIN <= succ.start_day + succ.duration_days <= i32::MAX
    &&& i32::MIN <= shortfall(pred, succ, t) <= i32::MAX
}

/// Every dependency whose two blocks exist has in-range day arithmetic.
pub open spec fn dependency_arithmetic_fits(blocks: Seq<WorkBlock>, deps: Seq<Dependency>) -> bool {
    forall|k: int|
        0 <= k < deps.len() ==> match (
            block_index(blocks, #[trigger] deps[k].predecessor),
            block_index(blocks, deps[k].successor),
        ) {
            (Some(p), Some(s)) => shortfall_fits(blocks[p], blocks[s], deps[k].dependency_type),
            _ => true,
        }
}

/// The violations among `deps`, in order: those whose blocks both exist
/// and whose shortfall is positive.
pub open spec fn violations(blocks: Seq<WorkBlock>, deps: Seq<Dependency>) -> Seq<DependencyViolation>
    decreases deps.len(),
{
    if deps.len() == 0 {
        Seq::empty()
    } else {
        let rest = violations(blocks, deps.drop_last());
        let d = deps.last();
        match (block_index(blocks, d.predecessor), block_index(blocks, d.successor)) {
            (Some(p), Some(s)) => {
                let v = shortfall(blocks[p], blocks[s], d.dependency_type);
                if v > 0 {
                    rest.push(
                        DependencyViolation {
                            dependency_id: d.id,
                            predecessor: d.predecessor,
                            successor: d.successor,
                            dependency_type: d.dependency_type,
                            violation_days: v as i32,
                        },
                    )
                } else {
                    rest
                }
            },
            _ => rest,
        }
    }
}

/// Checks every dependency in `model` against the current placements of its
/// blocks and reports those whose constraint is unmet, with the size of the
/// shortfall. Dependencies whose blocks are missing are skipped.
pub fn analyze_dependencies(model: &Model) -> (r: Vec<DependencyViolation>)
    requires
        dependency_arithmetic_fits(model.work_blocks@, model.dependencies@),
    ensures
        r@ == violations(model.work_blocks@, model.dependencies@),
        forall|i: int| 0 <= i < r@.len() ==> exists|k: int| 0 <= k < model.dependencies@.len()
            && #[trigger] model.dependencies@[k].id == (#[trigger] r@[i]).dependency_id
            && model.dependencies@[k].predecessor == r@[i].predecessor
            && model.dependencies@[k].successor == r@[i].successor
            && model.dependencies@[k].dependency_type == r@[i].dependency_type,
{
    let ghost blocks = model.work_blocks@;
    let ghost deps = model.dependencies@;
    let mut out: Vec<DependencyViolation> = Vec::new();
    let mut k: usize = 0;
    while k < model.dependencies.len()
        invariant
            blocks == model.work_blocks@,
            deps == model.dependencies@,
            k <= deps.len(),
            dependency_arithmetic_fits(blocks, deps),
            out@ == violations(blocks, deps.take(k as int)),
        decreases deps.len() - k,
    {
        let dep = &model.dependencies[k];
        proof {
            assert(deps.take(k + 1).drop_last() =~= deps.take(k as int));
            assert(deps.take(k + 1).last() == deps[k as int]);
        }
        match (model.block_position(dep.predecessor), model.block_position(dep.successor)) {
            (Some(p), Some(s)) => {
                let pred = &model.work_blocks[p];
                let succ = &model.work_blocks[s];
                proof {
                    assert(shortfall_fits(blocks[p as int], blocks[s as int], deps[k as int].dependency_type));
                }
                let pred_end = pred.start_day + pred.duration_days;
                let succ_end = succ.start_day + succ.duration_days;
                let violation_days = match dep.dependency_type {
                    DependencyType::FinishToStart => pred_end - succ.start_day,
                    DependencyType::StartToStart => pred.start_day - succ.start_day,
                    DependencyType::FinishToFinish => pred_end - succ_end,
                    DependencyType::StartToFinish => pred.start_day - succ_end,
                };
                if violation_days > 0 {
                    out.push(
                        DependencyViolation {
                            dependency_id: dep.id,
                            predecessor: dep.predecessor,
                            successor: dep.successor,
                            dependency_type: dep.dependency_type,
                            violation_days,
                        },
                    );
                }
            },
            _ => {},
        }
        k += 1;
    }
    proof {
        assert(deps.take(deps.len() as int) =~= deps);
        assert forall|i: int| 0 <= i < out@.len() implies exists|k: int| 0 <= k < deps.len()
            && #[trigger] deps[k].id == (#[trigger] out@[i]).dependency_id
            && deps[k].predecessor == out@[i].predecessor
            && deps[k].successor == out@[i].successor
            && deps[k].dependency_type == out@[i].dependency_type by {
            lemma_violations_are_shortfalls(blocks, deps, i);
        }
    }
    out
}

/// Law: a reported violation is exactly a dependency whose constraint the
/// placements break, by the reported (positive) number of days, reported
/// with that dependency's blocks and type.
pub proof fn lemma_violations_are_shortfalls(blocks: Seq<WorkBlock>, deps: Seq<Dependency>, i: int)
    requires
        0 <= i < violations(blocks, deps).len(),
        dependency_arithmetic_fits(blocks, deps),
    ensures
        violations(blocks, deps)[i].violation_days > 0,
        exists|k: int|
            0 <= k < deps.len() && #[trigger] deps[k].id == violations(blocks, deps)[i].dependency_id
                && deps[k].predecessor == violations(blocks, deps)[i].predecessor
                && deps[k].successor == violations(blocks, deps)[i].successor
                && deps[k].dependency_type == violations(blocks, deps)[i].dependency_type
                && match (block_index(blocks, deps[k].predecessor), block_index(blocks, deps[k].successor)) {
                (Some(p), Some(s)) => shortfall(blocks[p], blocks[s], deps[k].dependency_type)
                    == violations(blocks, deps)[i].violation_days,
                _ => false,
            },
    decreases deps.len(),
{
    let rest = violations(blocks, deps.drop_last());
    assert forall|k: int| 0 <= k < deps.drop_last().len() implies #[trigger] deps.drop_last()[k] == deps[k] by {}
    assert(dependency_arithmetic_fits(blocks, deps.drop_last())) by {
        assert forall|k: int| 0 <= k < deps.drop_last().len() implies match (
            block_index(blocks, #[trigger] deps.drop_last()[k].predecessor),
            block_index(blocks, deps.drop_last()[k].successor),
        ) {
            (Some(p), Some(s)) => shortfall_fits(blocks[p], blocks[s], deps.drop_last()[k].dependency_type),
            _ => true,
        } by {
            assert(deps.drop_last()[k] == deps[k]);
        }
    }
    if i < rest.len() {
        lemma_violations_are_shortfalls(blocks, deps.drop_last(), i);
        let k = choose|k: int|
            0 <= k < deps.drop_last().len() && #[trigger] deps.drop_last()[k].id == rest[i].dependency_id
                && deps.drop_last()[k].predecessor == rest[i].predecessor
                && deps.drop_last()[k].successor == rest[i].successor
                && deps.drop_last()[k].dependency_type == rest[i].dependency_type
                && match (
                block_index(blocks, deps.drop_last()[k].predecessor),
                block_index(blocks, deps.drop_last()[k].successor),
            ) {
                (Some(p), Some(s)) => shortfall(blocks[p], blocks[s], deps.drop_last()[k].dependency_type)
                    == rest[i].violation_days,
                _ => false,
            };
        assert(deps[k] == deps.drop_last()[k]);
        assert(violations(blocks, deps)[i] == rest[i]);
    } else {
        let k = deps.len() - 1;
        assert(deps[k] == deps.last());
        assert(match (block_index(blocks, deps[k].predecessor), block_index(blocks, deps[k].successor)) {
            (Some(p), Some(s)) => shortfall_fits(blocks[p], blocks[s], deps[k].dependency_type),
            _ => true,
        });
    }
}

} // verus!
