//! The planning model: work blocks, dependencies between them, plans that
//! place blocks on rows, and the working-day calendar.

use vstd::prelude::*;
use crate::date::{in_date_range, Date};

verus! {

/// A position on the timeline, counted in working days from the calendar's
/// start date.
pub type Day = i32;

/// The fixed events row above the resource rows: external targets and
/// milestones live there.
pub const EVENTS_ROW: i32 = -1;

#[derive(Clone, Copy, Debug, PartialEq, Eq, Hash, Structural)]
pub struct WorkBlockId(pub u64);

#[derive(Clone, Copy, Debug, PartialEq, Eq, Hash, Structural)]
pub struct PlanId(pub u64);

#[derive(Clone, Copy, Debug, PartialEq, Eq, Hash, Structural)]
pub struct DependencyId(pub u64);

#[derive(Clone, Copy, Debug, PartialEq, Eq, Hash, Structural)]
pub struct ResourceBlockId(pub u64);

/// How a successor's placement is constrained by its predecessor.
#[derive(Clone, Copy, Debug, PartialEq, Eq, Hash, Structural)]
pub enum DependencyType {
    FinishToStart,
    StartToStart,
    FinishToFinish,
    StartToFinish,
}

#[derive(Clone, Copy, Debug, PartialEq, Eq, Hash, Structural)]
pub enum ResourceType {
    Person,
    Team,
    Equipment,
    Budget,
    Engineer,
}

/// A unit of work placed on the timeline.
#[derive(Debug)]
pub struct WorkBlock {
    pub id: WorkBlockId,
    pub name: String,
    pub parent: Option<WorkBlockId>,
    pub start_day: Day,
    pub duration_days: Day,
    pub row: i32,
    pub description: String,
    pub priority: u8,
    pub t_shirt_size: Option<String>,
    /// Whether the block's extent is rolled up from its children.
    pub rollup: bool,
}

/// A constraint between two blocks, owned by one plan.
#[derive(Debug)]
pub struct Dependency {
    pub id: DependencyId,
    pub plan_id: PlanId,
    pub predecessor: WorkBlockId,
    pub successor: WorkBlockId,
    pub dependency_type: DependencyType,
    /// Lag in days (positive = delay, negative = lead).
    pub lag: Day,
}

/// The row names of one drill scope (`None` = the plan's top level).
#[derive(Debug)]
pub struct RowNames {
    pub scope: Option<WorkBlockId>,
    pub names: Vec<String>,
}

/// A share of a resource given to a block within a plan. The share is a
/// 32-bit float kept by its bit pattern (`f32::to_bits`): the library only
/// carries it.
#[derive(Clone, Copy, Debug, PartialEq, Eq, Hash, Structural)]
pub struct ResourceAllocation {
    pub resource_id: ResourceBlockId,
    pub work_block_id: WorkBlockId,
    pub allocation_factor_bits: u32,
}

/// One plan (main or a branch): which blocks it holds and where they sit.
#[derive(Debug)]
pub struct Plan {
    pub id: PlanId,
    pub name: String,
    /// The plan's top-level blocks, in display order.
    pub root_blocks: Vec<WorkBlockId>,
    /// Row of each placed block (roots and children); the first entry for a
    /// block is the one that counts.
    pub block_rows: Vec<(WorkBlockId, i32)>,
    pub row_names: Vec<RowNames>,
    /// `Some(day)` for a branch forked at `day`; `None` for main.
    pub branch_start_day: Option<Day>,
    /// Which resources work on which blocks, and how much.
    pub allocations: Vec<ResourceAllocation>,
}

/// A project-wide day off.
#[derive(Debug)]
pub struct NonWorkingDate {
    pub date: Date,
    pub description: String,
}

/// The working-day calendar: day 0 of the timeline is `start_date`.
#[derive(Debug)]
pub struct CalendarConfig {
    pub start_date: Date,
    pub working_days_per_week: u8,
    pub non_working_dates: Vec<NonWorkingDate>,
}

#[derive(Debug)]
pub struct TShirtSize {
    pub label: String,
    pub days: i32,
}

#[derive(Debug)]
pub struct ResourceBlock {
    pub id: ResourceBlockId,
    pub name: String,
    pub resource_type: ResourceType,
    /// The resource's own days off.
    pub non_working_dates: Vec<NonWorkingDate>,
}

/// Everything a document holds.
#[derive(Debug)]
pub struct Model {
    pub work_blocks: Vec<WorkBlock>,
    pub dependencies: Vec<Dependency>,
    pub plans: Vec<Plan>,
    pub resource_blocks: Vec<ResourceBlock>,
    pub calendar: CalendarConfig,
    pub t_shirt_sizes: Vec<TShirtSize>,
    /// The next id handed out; ids are shared by all kinds of entities.
    pub next_id: u64,
}

// ── spec helpers ────────────────────────────────────────────────────────────

/// Index of the first block with id `id` in `blocks`.
pub open spec fn block_index(blocks: Seq<WorkBlock>, id: WorkBlockId) -> Option<int>
    decreases blocks.len(),
{
    if blocks.len() == 0 {
        None
    } else if blocks[0].id == id {
        Some(0)
    } else {
        match block_index(blocks.drop_first(), id) {
            Some(i) => Some(i + 1),
            None => None,
        }
    }
}

/// Index of the first plan with id `id` in `plans`.
pub open spec fn plan_index(plans: Seq<Plan>, id: PlanId) -> Option<int>
    decreases plans.len(),
{
    if plans.len() == 0 {
        None
    } else if plans[0].id == id {
        Some(0)
    } else {
        match plan_index(plans.drop_first(), id) {
            Some(i) => Some(i + 1),
            None => None,
        }
    }
}

pub proof fn lemma_block_index(blocks: Seq<WorkBlock>, id: WorkBlockId)
    ensures
        match block_index(blocks, id) {
            Some(i) => 0 <= i < blocks.len() && blocks[i].id == id
                && forall|j: int| 0 <= j < i ==> blocks[j].id != id,
            None => forall|j: int| 0 <= j < blocks.len() ==> blocks[j].id != id,
        },
    decreases blocks.len(),
{
    if blocks.len() > 0 && blocks[0].id != id {
        lemma_block_index(blocks.drop_first(), id);
        assert forall|j: int| 1 <= j < blocks.len() implies blocks[j] == blocks.drop_first()[j - 1] by {}
    }
}

pub proof fn lemma_plan_index(plans: Seq<Plan>, id: PlanId)
    ensures
        match plan_index(plans, id) {
            Some(i) => 0 <= i < plans.len() && plans[i].id == id
                && forall|j: int| 0 <= j < i ==> plans[j].id != id,
            None => forall|j: int| 0 <= j < plans.len() ==> plans[j].id != id,
        },
    decreases plans.len(),
{
    if plans.len() > 0 && plans[0].id != id {
        lemma_plan_index(plans.drop_first(), id);
        assert forall|j: int| 1 <= j < plans.len() implies plans[j] == plans.drop_first()[j - 1] by {}
    }
}

/// The row recorded for `id` in a plan's row table (first entry), if any.
pub open spec fn row_entry(rows: Seq<(WorkBlockId, i32)>, id: WorkBlockId) -> Option<i32>
    decreases rows.len(),
{
    if rows.len() == 0 {
        None
    } else if rows[0].0 == id {
        Some(rows[0].1)
    } else {
        row_entry(rows.drop_first(), id)
    }
}

impl Plan {
    /// The row `id` sits on in this plan; 0 when it has none.
    pub open spec fn spec_row_of(&self, id: WorkBlockId) -> i32 {
        match row_entry(self.block_rows@, id) {
            Some(r) => r,
            None => 0,
        }
    }

    /// Row of block `id` in this plan (0 when unassigned).
    pub fn row_of(&self, id: WorkBlockId) -> (r: i32)
        ensures
            r == self.spec_row_of(id),
    {
        let mut i: usize = 0;
        assert(self.block_rows@.skip(0) =~= self.block_rows@);
        while i < self.block_rows.len()
            invariant
                i <= self.block_rows@.len(),
                row_entry(self.block_rows@.skip(i as int), id) == row_entry(self.block_rows@, id),
            decreases self.block_rows.len() - i,
        {
            assert(self.block_rows@.skip(i as int).drop_first() =~= self.block_rows@.skip(i + 1));
            if self.block_rows[i].0 == id {
                return self.block_rows[i].1;
            }
            i += 1;
        }
        assert(self.block_rows@.skip(i as int) =~= Seq::<(WorkBlockId, i32)>::empty());
        0
    }
}

impl Model {
    /// Position of the block with id `id` in `work_blocks` (the first one).
    pub fn block_position(&self, id: WorkBlockId) -> (r: Option<usize>)
        ensures
            r matches Some(i) ==> block_index(self.work_blocks@, id) == Some(i as int)
                && i < self.work_blocks@.len() && self.work_blocks@[i as int].id == id,
            r is None ==> block_index(self.work_blocks@, id) is None,
    {
        proof {
            lemma_block_index(self.work_blocks@, id);
        }
        let mut i: usize = 0;
        while i < self.work_blocks.len()
            invariant
                i <= self.work_blocks@.len(),
                forall|j: int| 0 <= j < i ==> self.work_blocks@[j].id != id,
                match block_index(self.work_blocks@, id) {
                    Some(x) => 0 <= x < self.work_blocks@.len() && self.work_blocks@[x].id == id
                        && forall|j: int| 0 <= j < x ==> self.work_blocks@[j].id != id,
                    None => forall|j: int| 0 <= j < self.work_blocks@.len() ==> self.work_blocks@[j].id != id,
                },
            decreases self.work_blocks.len() - i,
        {
            if self.work_blocks[i].id == id {
                return Some(i);
            }
            i += 1;
        }
        None
    }

    /// Position of the plan with id `id` in `plans` (the first one).
    pub fn plan_position(&self, id: PlanId) -> (r: Option<usize>)
        ensures
            r matches Some(i) ==> plan_index(self.plans@, id) == Some(i as int)
                && i < self.plans@.len() && self.plans@[i as int].id == id,
            r is None ==> plan_index(self.plans@, id) is None,
    {
        proof {
            lemma_plan_index(self.plans@, id);
        }
        let mut i: usize = 0;
        while i < self.plans.len()
            invariant
                i <= self.plans@.len(),
                forall|j: int| 0 <= j < i ==> self.plans@[j].id != id,
                match plan_index(self.plans@, id) {
                    Some(x) => 0 <= x < self.plans@.len() && self.plans@[x].id == id
                        && forall|j: int| 0 <= j < x ==> self.plans@[j].id != id,
                    None => forall|j: int| 0 <= j < self.plans@.len() ==> self.plans@[j].id != id,
                },
            decreases self.plans.len() - i,
        {
            if self.plans[i].id == id {
                return Some(i);
            }
            i += 1;
        }
        None
    }
}

// ── row names ───────────────────────────────────────────────────────────────

/// The texts of a list of names.
pub open spec fn names_view(v: Seq<String>) -> Seq<Seq<char>> {
    v.map_values(|s: String| s@)
}

/// The row-name list of `scope` (the first entry for it), or none.
pub open spec fn scope_names(rn: Seq<RowNames>, scope: Option<WorkBlockId>) -> Seq<Seq<char>>
    decreases rn.len(),
{
    if rn.len() == 0 {
        Seq::empty()
    } else if rn[0].scope == scope {
        names_view(rn[0].names@)
    } else {
        scope_names(rn.drop_first(), scope)
    }
}

/// Index of the first entry for `scope`.
pub open spec fn scope_index(rn: Seq<RowNames>, scope: Option<WorkBlockId>) -> Option<int>
    decreases rn.len(),
{
    if rn.len() == 0 {
        None
    } else if rn[0].scope == scope {
        Some(0)
    } else {
        match scope_index(rn.drop_first(), scope) {
            Some(i) => Some(i + 1),
            None => None,
        }
    }
}

pub proof fn lemma_scope_index(rn: Seq<RowNames>, scope: Option<WorkBlockId>)
    ensures
        match scope_index(rn, scope) {
            Some(i) => 0 <= i < rn.len() && rn[i].scope == scope
                && forall|j: int| 0 <= j < i ==> rn[j].scope != scope,
            None => forall|j: int| 0 <= j < rn.len() ==> rn[j].scope != scope,
        },
        match scope_index(rn, scope) {
            Some(i) => scope_names(rn, scope) == names_view(rn[i].names@),
            None => scope_names(rn, scope) == Seq::<Seq<char>>::empty(),
        },
    decreases rn.len(),
{
    if rn.len() > 0 && rn[0].scope != scope {
        lemma_scope_index(rn.drop_first(), scope);
        assert forall|j: int| 1 <= j < rn.len() implies rn[j] == rn.drop_first()[j - 1] by {}
    }
}

/// The name of `row` in a names list: present and non-empty.
pub open spec fn name_at(names: Seq<Seq<char>>, row: int) -> Option<Seq<char>> {
    if 0 <= row < names.len() && names[row].len() > 0 {
        Some(names[row])
    } else {
        None
    }
}

impl Plan {
    /// The user-assigned name of `row` at drill scope `scope`, if any.
    pub open spec fn spec_row_name(&self, scope: Option<WorkBlockId>, row: int) -> Option<Seq<char>> {
        name_at(scope_names(self.row_names@, scope), row)
    }

    /// The name of `row` at scope `scope`; `None` when unnamed.
    pub fn row_name(&self, scope: Option<WorkBlockId>, row: i32) -> (r: Option<String>)
        ensures
            match r {
                Some(s) => self.spec_row_name(scope, row as int) == Some(s@),
                None => self.spec_row_name(scope, row as int) is None,
            },
    {
        proof {
            lemma_scope_index(self.row_names@, scope);
        }
        let mut i: usize = 0;
        while i < self.row_names.len()
            invariant
                i <= self.row_names@.len(),
                forall|j: int| 0 <= j < i ==> self.row_names@[j].scope != scope,
                match scope_index(self.row_names@, scope) {
                    Some(x) => 0 <= x < self.row_names@.len() && self.row_names@[x].scope == scope
                        && forall|j: int| 0 <= j < x ==> self.row_names@[j].scope != scope,
                    None => forall|j: int| 0 <= j < self.row_names@.len() ==> self.row_names@[j].scope != scope,
                },
                match scope_index(self.row_names@, scope) {
                    Some(x) => scope_names(self.row_names@, scope) == names_view(self.row_names@[x].names@),
                    None => scope_names(self.row_names@, scope) == Seq::<Seq<char>>::empty(),
                },
            decreases self.row_names.len() - i,
        {
            if self.row_names[i].scope == scope {
                let names = &self.row_names[i].names;
                if 0 <= row && (row as usize) < names.len() && !names[row as usize].as_str().is_empty() {
                    return Some(names[row as usize].clone());
                }
                return None;
            }
            i += 1;
        }
        None
    }
}

pub proof fn lemma_scope_names_update(rn: Seq<RowNames>, i: int, e: RowNames, sc: Option<WorkBlockId>)
    requires
        scope_index(rn, e.scope) == Some(i),
    ensures
        scope_names(rn.update(i, e), sc) == if sc == e.scope {
            names_view(e.names@)
        } else {
            scope_names(rn, sc)
        },
    decreases rn.len(),
{
    lemma_scope_index(rn, e.scope);
    if i > 0 {
        assert(rn[0].scope != e.scope);
        assert(scope_index(rn.drop_first(), e.scope) == Some(i - 1));
        assert(rn.update(i, e)[0] == rn[0]);
        assert(rn.update(i, e).drop_first() =~= rn.drop_first().update(i - 1, e));
        lemma_scope_names_update(rn.drop_first(), i - 1, e, sc);
    } else {
        assert(rn.update(0, e)[0] == e);
        assert(rn.update(0, e).drop_first() =~= rn.drop_first());
    }
}

pub proof fn lemma_scope_names_push(rn: Seq<RowNames>, e: RowNames, sc: Option<WorkBlockId>)
    requires
        scope_index(rn, e.scope) is None,
    ensures
        scope_names(rn.push(e), sc) == if sc == e.scope {
            names_view(e.names@)
        } else {
            scope_names(rn, sc)
        },
    decreases rn.len(),
{
    if rn.len() == 0 {
        assert(rn.push(e)[0] == e);
        assert(rn.push(e).drop_first() =~= rn);
    } else {
        assert(rn.push(e)[0] == rn[0]);
        assert(rn.push(e).drop_first() =~= rn.drop_first().push(e));
        assert(rn[0].scope != e.scope);
        assert(scope_index(rn.drop_first(), e.scope) is None);
        lemma_scope_names_push(rn.drop_first(), e, sc);
    }
}

/// Sets entry `row` of a names list to `name`, growing it with empty names
/// as needed.
fn set_name_in(names: &mut Vec<String>, row: usize, name: String)
    requires
        row < usize::MAX,
    ensures
        forall|r: int| #![trigger name_at(names_view(final(names)@), r)]
            name_at(names_view(final(names)@), r) == if r == row {
                if name@.len() > 0 { Some(name@) } else { None }
            } else {
                name_at(names_view(old(names)@), r)
            },
{
    let ghost before = names@;
    while names.len() <= row
        invariant
            row < usize::MAX,
            names@.len() >= before.len(),
            names@.subrange(0, before.len() as int) == before,
            forall|j: int| before.len() <= j < names@.len() ==> (#[trigger] names@[j])@.len() == 0,
        decreases row + 1 - names.len(),
    {
        let ghost prev = names@;
        names.push(String::new());
        assert(names@.subrange(0, before.len() as int) =~= prev.subrange(0, before.len() as int));
    }
    let ghost grown = names@;
    names[row] = name;
    proof {
        assert forall|r: int| #![trigger name_at(names_view(names@), r)]
            name_at(names_view(names@), r) == if r == row {
                if name@.len() > 0 { Some(name@) } else { None }
            } else {
                name_at(names_view(before), r)
            } by {
            if r != row && 0 <= r < names@.len() {
                assert(names@[r] == grown[r]);
                if r < before.len() {
                    assert(grown[r] == grown.subrange(0, before.len() as int)[r]);
                }
            }
        }
    }
}

impl Plan {
    /// Names `row` at drill scope `scope` (an empty name clears it); a
    /// negative row is left alone.
    pub fn set_row_name(&mut self, scope: Option<WorkBlockId>, row: i32, name: String)
        ensures
            final(self).id == old(self).id,
            final(self).name == old(self).name,
            final(self).root_blocks == old(self).root_blocks,
            final(self).block_rows == old(self).block_rows,
            final(self).branch_start_day == old(self).branch_start_day,
            final(self).allocations == old(self).allocations,
            forall|sc: Option<WorkBlockId>, r: int| #![trigger final(self).spec_row_name(sc, r)]
                final(self).spec_row_name(sc, r) == if sc == scope && r == row && row >= 0 {
                    if name@.len() > 0 { Some(name@) } else { None }
                } else {
                    old(self).spec_row_name(sc, r)
                },
    {
        if row < 0 {
            return;
        }
        proof {
            lemma_scope_index(self.row_names@, scope);
        }
        let mut i: usize = 0;
        while i < self.row_names.len()
            invariant
                row >= 0,
                *self == *old(self),
                i <= self.row_names@.len(),
                forall|j: int| 0 <= j < i ==> self.row_names@[j].scope != scope,
                match scope_index(self.row_names@, scope) {
                    Some(x) => 0 <= x < self.row_names@.len() && self.row_names@[x].scope == scope
                        && forall|j: int| 0 <= j < x ==> self.row_names@[j].scope != scope,
                    None => forall|j: int| 0 <= j < self.row_names@.len() ==> self.row_names@[j].scope != scope,
                },
            decreases self.row_names.len() - i,
        {
            if self.row_names[i].scope == scope {
                let ghost old_rn = self.row_names@;
                let ghost old_names = self.row_names@[i as int].names@;
                let mut entry = self.row_names.remove(i);
                set_name_in(&mut entry.names, row as usize, name);
                let ghost e = entry;
                self.row_names.insert(i, entry);
                proof {
                    assert(self.row_names@ =~= old_rn.update(i as int, e));
                    assert forall|sc: Option<WorkBlockId>, r: int| #![trigger self.spec_row_name(sc, r)]
                        self.spec_row_name(sc, r) == if sc == scope && r == row && row >= 0 {
                            if name@.len() > 0 { Some(name@) } else { None }
                        } else {
                            name_at(scope_names(old_rn, sc), r)
                        } by {
                        lemma_scope_names_update(old_rn, i as int, e, sc);
                        lemma_scope_index(old_rn, scope);
                    }
                }
                return;
            }
            i += 1;
        }
        let mut names: Vec<String> = Vec::new();
        set_name_in(&mut names, row as usize, name);
        let e = RowNames { scope, names };
        let ghost old_rn = self.row_names@;
        self.row_names.push(e);
        proof {
            assert forall|sc: Option<WorkBlockId>, r: int| #![trigger self.spec_row_name(sc, r)]
                self.spec_row_name(sc, r) == if sc == scope && r == row && row >= 0 {
                    if name@.len() > 0 { Some(name@) } else { None }
                } else {
                    name_at(scope_names(old_rn, sc), r)
                } by {
                lemma_scope_names_push(old_rn, e, sc);
                assert(name_at(names_view(Seq::<String>::empty()), r) is None);
            }
        }
    }
}

// ── block rows ──────────────────────────────────────────────────────────────

/// Index of the first row entry for `id`.
pub open spec fn row_entry_index(rows: Seq<(WorkBlockId, i32)>, id: WorkBlockId) -> Option<int>
    decreases rows.len(),
{
    if rows.len() == 0 {
        None
    } else if rows[0].0 == id {
        Some(0)
    } else {
        match row_entry_index(rows.drop_first(), id) {
            Some(i) => Some(i + 1),
            None => None,
        }
    }
}

proof fn lemma_row_entry_index(rows: Seq<(WorkBlockId, i32)>, id: WorkBlockId)
    ensures
        match row_entry_index(rows, id) {
            Some(i) => 0 <= i < rows.len() && rows[i].0 == id
                && forall|j: int| 0 <= j < i ==> rows[j].0 != id,
            None => forall|j: int| 0 <= j < rows.len() ==> rows[j].0 != id,
        },
    decreases rows.len(),
{
    if rows.len() > 0 && rows[0].0 != id {
        lemma_row_entry_index(rows.drop_first(), id);
        assert forall|j: int| 1 <= j < rows.len() implies rows[j] == rows.drop_first()[j - 1] by {}
    }
}

proof fn lemma_row_entry_update(rows: Seq<(WorkBlockId, i32)>, i: int, id: WorkBlockId, row: i32, x: WorkBlockId)
    requires
        row_entry_index(rows, id) == Some(i),
    ensures
        row_entry(rows.update(i, (id, row)), x) == if x == id { Some(row) } else { row_entry(rows, x) },
    decreases rows.len(),
{
    lemma_row_entry_index(rows, id);
    if i > 0 {
        assert(rows.update(i, (id, row))[0] == rows[0]);
        assert(rows.update(i, (id, row)).drop_first() =~= rows.drop_first().update(i - 1, (id, row)));
        assert(row_entry_index(rows.drop_first(), id) == Some(i - 1));
        lemma_row_entry_update(rows.drop_first(), i - 1, id, row, x);
    } else {
        assert(rows.update(0, (id, row))[0] == (id, row));
        assert(rows.update(0, (id, row)).drop_first() =~= rows.drop_first());
    }
}

proof fn lemma_row_entry_push(rows: Seq<(WorkBlockId, i32)>, id: WorkBlockId, row: i32, x: WorkBlockId)
    requires
        row_entry_index(rows, id) is None,
    ensures
        row_entry(rows.push((id, row)), x) == if x == id { Some(row) } else { row_entry(rows, x) },
    decreases rows.len(),
{
    if rows.len() == 0 {
        assert(rows.push((id, row))[0] == (id, row));
        assert(rows.push((id, row)).drop_first() =~= rows);
    } else {
        assert(rows.push((id, row))[0] == rows[0]);
        assert(rows.push((id, row)).drop_first() =~= rows.drop_first().push((id, row)));
        assert(row_entry_index(rows.drop_first(), id) is None);
        lemma_row_entry_push(rows.drop_first(), id, row, x);
    }
}

impl Plan {
    /// Places block `id` on row `row` in this plan.
    pub fn set_row_of(&mut self, id: WorkBlockId, row: i32)
        ensures
            final(self).id == old(self).id,
            final(self).name == old(self).name,
            final(self).root_blocks == old(self).root_blocks,
            final(self).row_names == old(self).row_names,
            final(self).branch_start_day == old(self).branch_start_day,
            final(self).allocations == old(self).allocations,
            forall|x: WorkBlockId| #![trigger final(self).spec_row_of(x)]
                final(self).spec_row_of(x) == if x == id { row } else { old(self).spec_row_of(x) },
            forall|x: WorkBlockId| #![trigger row_entry(final(self).block_rows@, x)]
                row_entry(final(self).block_rows@, x) == if x == id { Some(row) } else { row_entry(old(self).block_rows@, x) },
    {
        proof {
            lemma_row_entry_index(self.block_rows@, id);
        }
        let ghost before = self.block_rows@;
        let mut i: usize = 0;
        while i < self.block_rows.len()
            invariant
                *self == *old(self),
                before == self.block_rows@,
                i <= self.block_rows@.len(),
                forall|j: int| 0 <= j < i ==> self.block_rows@[j].0 != id,
                match row_entry_index(self.block_rows@, id) {
                    Some(x) => 0 <= x < self.block_rows@.len() && self.block_rows@[x].0 == id
                        && forall|j: int| 0 <= j < x ==> self.block_rows@[j].0 != id,
                    None => forall|j: int| 0 <= j < self.block_rows@.len() ==> self.block_rows@[j].0 != id,
                },
            decreases self.block_rows.len() - i,
        {
            if self.block_rows[i].0 == id {
                self.block_rows.set(i, (id, row));
                proof {
                    assert(self.block_rows@ =~= before.update(i as int, (id, row)));
                    assert forall|x: WorkBlockId| #![trigger row_entry(self.block_rows@, x)]
                        row_entry(self.block_rows@, x) == if x == id { Some(row) } else { row_entry(before, x) } by {
                        lemma_row_entry_update(before, i as int, id, row, x);
                    }
                }
                return;
            }
            i += 1;
        }
        self.block_rows.push((id, row));
        proof {
            assert forall|x: WorkBlockId| #![trigger row_entry(self.block_rows@, x)]
                row_entry(self.block_rows@, x) == if x == id { Some(row) } else { row_entry(before, x) } by {
                lemma_row_entry_push(before, id, row, x);
            }
        }
    }
}

// ── defaults and construction ───────────────────────────────────────────────

impl Default for CalendarConfig {
    /// A five-day week starting on 2025-01-01, with no holidays.
    fn default() -> (r: CalendarConfig)
        ensures
            r.start_date@ == 739252,
            r.working_days_per_week == 5,
            r.non_working_dates@.len() == 0,
    {
        CalendarConfig {
            start_date: Date::new_in_range(739252),
            working_days_per_week: 5,
            non_working_dates: Vec::new(),
        }
    }
}

impl Default for Model {
    /// An empty model with the default calendar; ids start at 1.
    fn default() -> (r: Model)
        ensures
            r.work_blocks@.len() == 0,
            r.dependencies@.len() == 0,
            r.plans@.len() == 0,
            r.resource_blocks@.len() == 0,
            r.t_shirt_sizes@.len() == 0,
            r.calendar.start_date@ == 739252,
            r.calendar.working_days_per_week == 5,
            r.calendar.non_working_dates@.len() == 0,
            r.next_id == 1,
            r.wf(),
    {
        Model {
            work_blocks: Vec::new(),
            dependencies: Vec::new(),
            plans: Vec::new(),
            resource_blocks: Vec::new(),
            calendar: CalendarConfig::default(),
            t_shirt_sizes: Vec::new(),
            next_id: 1,
        }
    }
}

impl Model {
    /// Every id handed out so far is below `next_id`.
    pub open spec fn ids_below(&self) -> bool {
        &&& forall|i: int| 0 <= i < self.work_blocks@.len() ==> (#[trigger] self.work_blocks@[i]).id.0 < self.next_id
        &&& forall|i: int| 0 <= i < self.plans@.len() ==> (#[trigger] self.plans@[i]).id.0 < self.next_id
        &&& forall|i: int| 0 <= i < self.dependencies@.len() ==> (#[trigger] self.dependencies@[i]).id.0 < self.next_id
        &&& forall|i: int| 0 <= i < self.resource_blocks@.len() ==> (#[trigger] self.resource_blocks@[i]).id.0 < self.next_id
    }

    /// No two blocks, plans, dependencies or resources share an id.
    pub open spec fn ids_distinct(&self) -> bool {
        &&& forall|i: int, j: int| 0 <= i < j < self.work_blocks@.len()
            ==> (#[trigger] self.work_blocks@[i]).id != (#[trigger] self.work_blocks@[j]).id
        &&& forall|i: int, j: int| 0 <= i < j < self.plans@.len()
            ==> (#[trigger] self.plans@[i]).id != (#[trigger] self.plans@[j]).id
        &&& forall|i: int, j: int| 0 <= i < j < self.dependencies@.len()
            ==> (#[trigger] self.dependencies@[i]).id != (#[trigger] self.dependencies@[j]).id
        &&& forall|i: int, j: int| 0 <= i < j < self.resource_blocks@.len()
            ==> (#[trigger] self.resource_blocks@[i]).id != (#[trigger] self.resource_blocks@[j]).id
    }

    /// Every id handed out so far is below `next_id`, and ids are distinct
    /// within each kind of entity.
    pub open spec fn wf(&self) -> bool {
        &&& self.ids_below()
        &&& self.ids_distinct()
    }

    /// Whether the model is well formed: ids below `next_id` and distinct.
    pub fn is_well_formed(&self) -> (r: bool)
        ensures
            r == self.wf(),
    {
        self.ids_below_next() && self.ids_are_distinct()
    }

    /// Whether no two blocks, plans, dependencies or resources share an id.
    pub fn ids_are_distinct(&self) -> (r: bool)
        ensures
            r == self.ids_distinct(),
    {
        let n = self.work_blocks.len();
        let mut i: usize = 0;
        while i < n
            invariant
                n == self.work_blocks@.len(),
                i <= n,
                forall|a: int, b: int| 0 <= a < b < n && a < i
                    ==> (#[trigger] self.work_blocks@[a]).id != (#[trigger] self.work_blocks@[b]).id,
            decreases n - i,
        {
            let mut j: usize = i + 1;
            while j < n
                invariant
                    n == self.work_blocks@.len(),
                    i < n,
                    i + 1 <= j <= n,
                    forall|b: int| i < b < j ==> self.work_blocks@[i as int].id != (#[trigger] self.work_blocks@[b]).id,
                decreases n - j,
            {
                if self.work_blocks[i].id == self.work_blocks[j].id {
                    return false;
                }
                j += 1;
            }
            i += 1;
        }
        let n = self.plans.len();
        let mut i: usize = 0;
        while i < n
            invariant
                n == self.plans@.len(),
                i <= n,
                forall|a: int, b: int| 0 <= a < b < n && a < i
                    ==> (#[trigger] self.plans@[a]).id != (#[trigger] self.plans@[b]).id,
            decreases n - i,
        {
            let mut j: usize = i + 1;
            while j < n
                invariant
                    n == self.plans@.len(),
                    i < n,
                    i + 1 <= j <= n,
                    forall|b: int| i < b < j ==> self.plans@[i as int].id != (#[trigger] self.plans@[b]).id,
                decreases n - j,
            {
                if self.plans[i].id == self.plans[j].id {
                    return false;
                }
                j += 1;
            }
            i += 1;
        }
        let n = self.dependencies.len();
        let mut i: usize = 0;
        while i < n
            invariant
                n == self.dependencies@.len(),
                i <= n,
                forall|a: int, b: int| 0 <= a < b < n && a < i
                    ==> (#[trigger] self.dependencies@[a]).id != (#[trigger] self.dependencies@[b]).id,
            decreases n - i,
        {
            let mut j: usize = i + 1;
            while j < n
                invariant
                    n == self.dependencies@.len(),
                    i < n,
                    i + 1 <= j <= n,
                    forall|b: int| i < b < j ==> self.dependencies@[i as int].id != (#[trigger] self.dependencies@[b]).id,
                decreases n - j,
            {
                if self.dependencies[i].id == self.dependencies[j].id {
                    return false;
                }
                j += 1;
            }
            i += 1;
        }
        let n = self.resource_blocks.len();
        let mut i: usize = 0;
        while i < n
            invariant
                n == self.resource_blocks@.len(),
                i <= n,
                forall|a: int, b: int| 0 <= a < b < n && a < i
                    ==> (#[trigger] self.resource_blocks@[a]).id != (#[trigger] self.resource_blocks@[b]).id,
            decreases n - i,
        {
            let mut j: usize = i + 1;
            while j < n
                invariant
                    n == self.resource_blocks@.len(),
                    i < n,
                    i + 1 <= j <= n,
                    forall|b: int| i < b < j ==> self.resource_blocks@[i as int].id != (#[trigger] self.resource_blocks@[b]).id,
                decreases n - j,
            {
                if self.resource_blocks[i].id == self.resource_blocks[j].id {
                    return false;
                }
                j += 1;
            }
            i += 1;
        }
        true
    }

    /// Whether every id handed out so far is below `next_id`.
    pub fn ids_below_next(&self) -> (r: bool)
        ensures
            r == self.ids_below(),
    {
        let mut i: usize = 0;
        while i < self.work_blocks.len()
            invariant
                i <= self.work_blocks@.len(),
                forall|j: int| 0 <= j < i ==> (#[trigger] self.work_blocks@[j]).id.0 < self.next_id,
            decreases self.work_blocks.len() - i,
        {
            if self.work_blocks[i].id.0 >= self.next_id {
                return false;
            }
            i += 1;
        }
        let mut i: usize = 0;
        while i < self.plans.len()
            invariant
                i <= self.plans@.len(),
                forall|j: int| 0 <= j < i ==> (#[trigger] self.plans@[j]).id.0 < self.next_id,
            decreases self.plans.len() - i,
        {
            if self.plans[i].id.0 >= self.next_id {
                return false;
            }
            i += 1;
        }
        let mut i: usize = 0;
        while i < self.dependencies.len()
            invariant
                i <= self.dependencies@.len(),
                forall|j: int| 0 <= j < i ==> (#[trigger] self.dependencies@[j]).id.0 < self.next_id,
            decreases self.dependencies.len() - i,
        {
            if self.dependencies[i].id.0 >= self.next_id {
                return false;
            }
            i += 1;
        }
        let mut i: usize = 0;
        while i < self.resource_blocks.len()
            invariant
                i <= self.resource_blocks@.len(),
                forall|j: int| 0 <= j < i ==> (#[trigger] self.resource_blocks@[j]).id.0 < self.next_id,
            decreases self.resource_blocks.len() - i,
        {
            if self.resource_blocks[i].id.0 >= self.next_id {
                return false;
            }
            i += 1;
        }
        true
    }

    /// The row of block `id` in plan `plan_id` (0 when either is unknown).
    pub open spec fn spec_block_row(&self, plan_id: PlanId, id: WorkBlockId) -> i32 {
        match plan_index(self.plans@, plan_id) {
            Some(p) => self.plans@[p].spec_row_of(id),
            None => 0,
        }
    }

    /// The row entry plan `plan_id` holds for block `id`: `None` when the
    /// plan is unknown or has placed no such block.
    pub open spec fn spec_block_row_entry(&self, plan_id: PlanId, id: WorkBlockId) -> Option<i32> {
        match plan_index(self.plans@, plan_id) {
            Some(p) => row_entry(self.plans@[p].block_rows@, id),
            None => None,
        }
    }

    /// The row of block `id` in plan `plan_id` (0 when either is unknown).
    pub fn block_row(&self, plan_id: PlanId, id: WorkBlockId) -> (r: i32)
        ensures
            r == self.spec_block_row(plan_id, id),
    {
        match self.plan_position(plan_id) {
            Some(p) => self.plans[p].row_of(id),
            None => 0,
        }
    }

    /// Places block `id` on row `row` of plan `plan_id` (nothing when the
    /// plan is unknown).
    pub fn set_block_row(&mut self, plan_id: PlanId, id: WorkBlockId, row: i32)
        ensures
            final(self).work_blocks == old(self).work_blocks,
            final(self).dependencies == old(self).dependencies,
            final(self).resource_blocks == old(self).resource_blocks,
            final(self).calendar == old(self).calendar,
            final(self).t_shirt_sizes == old(self).t_shirt_sizes,
            final(self).next_id == old(self).next_id,
            final(self).plans@.len() == old(self).plans@.len(),
            forall|p: int| 0 <= p < final(self).plans@.len() ==> same_but_rows(#[trigger] final(self).plans@[p], old(self).plans@[p])
                && (Some(p) != plan_index(old(self).plans@, plan_id) ==> final(self).plans@[p].block_rows == old(self).plans@[p].block_rows),
            forall|pid: PlanId, x: WorkBlockId| #![trigger final(self).spec_block_row(pid, x)]
                final(self).spec_block_row(pid, x) == if pid == plan_id && x == id && plan_index(old(self).plans@, plan_id) is Some {
                    row
                } else {
                    old(self).spec_block_row(pid, x)
                },
            forall|pid: PlanId, x: WorkBlockId| #![trigger final(self).spec_block_row_entry(pid, x)]
                final(self).spec_block_row_entry(pid, x) == if pid == plan_id && x == id && plan_index(old(self).plans@, plan_id) is Some {
                    Some(row)
                } else {
                    old(self).spec_block_row_entry(pid, x)
                },
    {
        match self.plan_position(plan_id) {
            Some(p) => {
                let ghost before = self.plans@;
                let mut plan = self.plans.remove(p);
                plan.set_row_of(id, row);
                self.plans.insert(p, plan);
                proof {
                    assert(self.plans@ =~= before.update(p as int, plan));
                    lemma_plan_index(before, plan_id);
                    assert forall|pid: PlanId| plan_index(self.plans@, pid) == plan_index(before, pid) by {
                        lemma_plan_index_same_ids(before, self.plans@, pid);
                    }
                    assert forall|pid: PlanId, x: WorkBlockId| #![trigger self.spec_block_row(pid, x)]
                        self.spec_block_row(pid, x) == if pid == plan_id && x == id && plan_index(before, plan_id) is Some {
                            row
                        } else {
                            old(self).spec_block_row(pid, x)
                        } by {
                        lemma_plan_index(before, pid);
                        lemma_plan_index_same_ids(before, self.plans@, pid);
                    }
                    assert forall|pid: PlanId, x: WorkBlockId| #![trigger self.spec_block_row_entry(pid, x)]
                        self.spec_block_row_entry(pid, x) == if pid == plan_id && x == id && plan_index(before, plan_id) is Some {
                            Some(row)
                        } else {
                            old(self).spec_block_row_entry(pid, x)
                        } by {
                        lemma_plan_index(before, pid);
                        lemma_plan_index_same_ids(before, self.plans@, pid);
                    }
                }
            },
            None => {},
        }
    }
}

/// Two plans agree on everything but their row table.
pub open spec fn same_but_rows(a: Plan, b: Plan) -> bool {
    &&& a.id == b.id
    &&& a.name == b.name
    &&& a.root_blocks == b.root_blocks
    &&& a.row_names == b.row_names
    &&& a.branch_start_day == b.branch_start_day
    &&& a.allocations == b.allocations
}

/// Plan positions depend only on the plans' ids.
pub proof fn lemma_plan_index_same_ids(a: Seq<Plan>, b: Seq<Plan>, pid: PlanId)
    requires
        a.len() == b.len(),
        forall|i: int| 0 <= i < a.len() ==> (#[trigger] a[i]).id == b[i].id,
    ensures
        plan_index(a, pid) == plan_index(b, pid),
    decreases a.len(),
{
    if a.len() > 0 {
        assert(a[0].id == b[0].id);
        assert forall|i: int| 0 <= i < a.len() - 1 implies (#[trigger] a.drop_first()[i]).id == b.drop_first()[i].id by {
            assert(a[i + 1].id == b[i + 1].id);
        }
        lemma_plan_index_same_ids(a.drop_first(), b.drop_first(), pid);
    }
}

/// A freshly created block: the given id and name, no parent, zero start
/// and length, top row, no description, priority 1, no t-shirt size, not
/// rolled up.
/// Block `b` has a new block's description, priority, size and roll-up:
/// none, 1, none and off.
pub open spec fn has_default_details(b: WorkBlock) -> bool {
    &&& b.description@.len() == 0
    &&& b.priority == 1
    &&& b.t_shirt_size is None
    &&& !b.rollup
}

pub open spec fn is_new_block(b: WorkBlock, id: WorkBlockId, name: Seq<char>) -> bool {
    &&& b.id == id
    &&& b.name@ == name
    &&& b.parent is None
    &&& b.start_day == 0
    &&& b.duration_days == 0
    &&& b.row == 0
    &&& b.description@.len() == 0
    &&& b.priority == 1
    &&& b.t_shirt_size is None
    &&& !b.rollup
}

impl Model {
    /// Hands out the next id.
    fn alloc_id(&mut self) -> (r: u64)
        requires
            old(self).next_id < u64::MAX,
        ensures
            r == old(self).next_id,
            final(self).next_id == old(self).next_id + 1,
            final(self).work_blocks == old(self).work_blocks,
            final(self).dependencies == old(self).dependencies,
            final(self).plans == old(self).plans,
            final(self).resource_blocks == old(self).resource_blocks,
            final(self).calendar == old(self).calendar,
            final(self).t_shirt_sizes == old(self).t_shirt_sizes,
    {
        let id = self.next_id;
        self.next_id = id + 1;
        id
    }

    /// Creates a block named `name` (not yet in any plan) and returns its id.
    pub fn create_work_block(&mut self, name: &str) -> (r: WorkBlockId)
        requires
            old(self).wf(),
            old(self).next_id < u64::MAX,
        ensures
            final(self).wf(),
            r.0 == old(self).next_id,
            final(self).next_id == old(self).next_id + 1,
            final(self).work_blocks@.len() == old(self).work_blocks@.len() + 1,
            final(self).work_blocks@.drop_last() == old(self).work_blocks@,
            is_new_block(final(self).work_blocks@.last(), r, name@),
            final(self).dependencies == old(self).dependencies,
            final(self).plans == old(self).plans,
            final(self).resource_blocks == old(self).resource_blocks,
            final(self).calendar == old(self).calendar,
            final(self).t_shirt_sizes == old(self).t_shirt_sizes,
    {
        let id = WorkBlockId(self.alloc_id());
        let ghost before = self.work_blocks@;
        self.work_blocks.push(WorkBlock {
            id,
            name: String::from_str(name),
            parent: None,
            start_day: 0,
            duration_days: 0,
            row: 0,
            description: String::new(),
            priority: 1,
            t_shirt_size: None,
            rollup: false,
        });
        assert(self.work_blocks@.drop_last() =~= before);
        id
    }

    /// Creates a plan named `name` (a branch forked at `branch_start_day`
    /// when that is `Some`) and returns its id.
    pub fn create_plan(&mut self, name: &str, branch_start_day: Option<Day>) -> (r: PlanId)
        requires
            old(self).wf(),
            old(self).next_id < u64::MAX,
        ensures
            final(self).wf(),
            r.0 == old(self).next_id,
            final(self).next_id == old(self).next_id + 1,
            final(self).plans@.len() == old(self).plans@.len() + 1,
            final(self).plans@.drop_last() == old(self).plans@,
            final(self).plans@.last().id == r,
            final(self).plans@.last().name@ == name@,
            final(self).plans@.last().root_blocks@.len() == 0,
            final(self).plans@.last().block_rows@.len() == 0,
            final(self).plans@.last().row_names@.len() == 0,
            final(self).plans@.last().branch_start_day == branch_start_day,
            final(self).plans@.last().allocations@.len() == 0,
            final(self).work_blocks == old(self).work_blocks,
            final(self).dependencies == old(self).dependencies,
            final(self).resource_blocks == old(self).resource_blocks,
            final(self).calendar == old(self).calendar,
            final(self).t_shirt_sizes == old(self).t_shirt_sizes,
    {
        let id = PlanId(self.alloc_id());
        let ghost before = self.plans@;
        self.plans.push(Plan {
            id,
            name: String::from_str(name),
            root_blocks: Vec::new(),
            block_rows: Vec::new(),
            row_names: Vec::new(),
            branch_start_day,
            allocations: Vec::new(),
        });
        assert(self.plans@.drop_last() =~= before);
        id
    }

    /// Position of the main plan (the first plan that is not a branch).
    pub fn main_plan_position(&self) -> (r: Option<usize>)
        ensures
            match r {
                Some(i) => first_main(self.plans@) == Some(i as int) && i < self.plans@.len()
                    && self.plans@[i as int].branch_start_day is None
                    && forall|j: int| 0 <= j < i ==> self.plans@[j].branch_start_day is Some,
                None => first_main(self.plans@) is None
                    && forall|i: int| 0 <= i < self.plans@.len() ==> self.plans@[i].branch_start_day is Some,
            },
    {
        proof {
            lemma_first_main(self.plans@);
        }
        let mut i: usize = 0;
        while i < self.plans.len()
            invariant
                i <= self.plans@.len(),
                forall|j: int| 0 <= j < i ==> self.plans@[j].branch_start_day is Some,
            decreases self.plans.len() - i,
        {
            if self.plans[i].branch_start_day.is_none() {
                proof {
                    lemma_first_main(self.plans@);
                }
                return Some(i);
            }
            i += 1;
        }
        proof {
            lemma_first_main(self.plans@);
        }
        None
    }

    /// The id of the main plan (the first plan that is not a branch).
    pub fn main_plan_id(&self) -> (r: Option<PlanId>)
        ensures
            match r {
                Some(id) => exists|i: int| 0 <= i < self.plans@.len() && self.plans@[i].id == id
                    && self.plans@[i].branch_start_day is None
                    && forall|j: int| 0 <= j < i ==> self.plans@[j].branch_start_day is Some,
                None => forall|i: int| 0 <= i < self.plans@.len() ==> self.plans@[i].branch_start_day is Some,
            },
            r == match first_main(self.plans@) {
                Some(i) => Some(self.plans@[i].id),
                None => None::<PlanId>,
            },
    {
        match self.main_plan_position() {
            Some(i) => Some(self.plans[i].id),
            None => None,
        }
    }
}

/// Index of the first plan that is not a branch.
pub open spec fn first_main(plans: Seq<Plan>) -> Option<int>
    decreases plans.len(),
{
    if plans.len() == 0 {
        None
    } else if plans[0].branch_start_day is None {
        Some(0)
    } else {
        match first_main(plans.drop_first()) {
            Some(i) => Some(i + 1),
            None => None,
        }
    }
}

pub proof fn lemma_first_main(plans: Seq<Plan>)
    ensures
        match first_main(plans) {
            Some(i) => 0 <= i < plans.len() && plans[i].branch_start_day is None
                && forall|j: int| 0 <= j < i ==> plans[j].branch_start_day is Some,
            None => forall|j: int| 0 <= j < plans.len() ==> plans[j].branch_start_day is Some,
        },
    decreases plans.len(),
{
    if plans.len() > 0 && plans[0].branch_start_day is Some {
        lemma_first_main(plans.drop_first());
        assert forall|j: int| 1 <= j < plans.len() implies plans[j] == plans.drop_first()[j - 1] by {}
    }
}

/// `after` is `before` with block `id` placed on `row` of plan `plan_id`:
/// the plan's row table gains (or updates) an entry for `id` holding `row`
/// and, when `root`, `id` is appended to its top-level blocks; other plans
/// are untouched, and nothing changes when the plan is unknown.
pub open spec fn placed_in_plan(before: Seq<Plan>, after: Seq<Plan>, plan_id: PlanId, id: WorkBlockId, row: i32, root: bool) -> bool {
    &&& after.len() == before.len()
    &&& match plan_index(before, plan_id) {
        Some(p) => {
            &&& forall|q: int| 0 <= q < before.len() && q != p ==> #[trigger] after[q] == before[q]
            &&& after[p].id == before[p].id
            &&& after[p].name == before[p].name
            &&& after[p].row_names == before[p].row_names
            &&& after[p].branch_start_day == before[p].branch_start_day
            &&& after[p].root_blocks@ == if root { before[p].root_blocks@.push(id) } else { before[p].root_blocks@ }
            &&& forall|x: WorkBlockId| #![trigger row_entry(after[p].block_rows@, x)]
                row_entry(after[p].block_rows@, x) == if x == id { Some(row) } else { row_entry(before[p].block_rows@, x) }
            &&& forall|x: WorkBlockId| #![trigger after[p].spec_row_of(x)]
                after[p].spec_row_of(x) == if x == id { row } else { before[p].spec_row_of(x) }
        },
        None => after == before,
    }
}

impl Model {
    fn place_in_plan(&mut self, plan_id: PlanId, id: WorkBlockId, row: i32, root: bool)
        requires
            old(self).wf(),
        ensures
            final(self).wf(),
            placed_in_plan(old(self).plans@, final(self).plans@, plan_id, id, row, root),
            final(self).work_blocks == old(self).work_blocks,
            final(self).dependencies == old(self).dependencies,
            final(self).resource_blocks == old(self).resource_blocks,
            final(self).calendar == old(self).calendar,
            final(self).t_shirt_sizes == old(self).t_shirt_sizes,
            final(self).next_id == old(self).next_id,
    {
        match self.plan_position(plan_id) {
            Some(p) => {
                let ghost before = self.plans@;
                let mut plan = self.plans.remove(p);
                if root {
                    plan.root_blocks.push(id);
                }
                plan.set_row_of(id, row);
                self.plans.insert(p, plan);
                assert(self.plans@ =~= before.update(p as int, plan));
                assert forall|q: int| 0 <= q < self.plans@.len() implies (#[trigger] self.plans@[q]).id.0 < self.next_id by {
                    if q != p {
                        assert(self.plans@[q] == before[q]);
                    }
                }
            },
            None => {},
        }
    }

    /// Creates a top-level block in plan `plan_id` at `start_day` for
    /// `duration_days`, on row `row` (the block's own row and its row in the
    /// plan), and returns its id.
    pub fn add_block_to_plan(&mut self, plan_id: PlanId, name: &str, start_day: Day, duration_days: Day, row: i32) -> (r: WorkBlockId)
        requires
            old(self).wf(),
            old(self).next_id < u64::MAX,
        ensures
            final(self).wf(),
            r.0 == old(self).next_id,
            final(self).next_id == old(self).next_id + 1,
            final(self).work_blocks@.len() == old(self).work_blocks@.len() + 1,
            final(self).work_blocks@.drop_last() == old(self).work_blocks@,
            final(self).work_blocks@.last().id == r,
            final(self).work_blocks@.last().name@ == name@,
            final(self).work_blocks@.last().parent is None,
            has_default_details(final(self).work_blocks@.last()),
            final(self).work_blocks@.last().start_day == start_day,
            final(self).work_blocks@.last().duration_days == duration_days,
            final(self).work_blocks@.last().row == row,
            placed_in_plan(old(self).plans@, final(self).plans@, plan_id, r, row, true),
            final(self).dependencies == old(self).dependencies,
            final(self).resource_blocks == old(self).resource_blocks,
            final(self).calendar == old(self).calendar,
            final(self).t_shirt_sizes == old(self).t_shirt_sizes,
    {
        let id = self.create_work_block(name);
        let last = self.work_blocks.len() - 1;
        self.work_blocks[last].start_day = start_day;
        self.work_blocks[last].duration_days = duration_days;
        self.work_blocks[last].row = row;
        assert(self.work_blocks@.drop_last() =~= old(self).work_blocks@);
        self.place_in_plan(plan_id, id, row, true);
        id
    }

    /// Creates a child of `parent` in plan `plan_id` at `start_day` for
    /// `duration_days`, on row `row` (the block's own row and its row in the
    /// plan), and returns its id.
    pub fn add_child_block(
        &mut self,
        plan_id: PlanId,
        parent: WorkBlockId,
        name: &str,
        start_day: Day,
        duration_days: Day,
        row: i32,
    ) -> (r: WorkBlockId)
        requires
            old(self).wf(),
            old(self).next_id < u64::MAX,
        ensures
            final(self).wf(),
            r.0 == old(self).next_id,
            final(self).next_id == old(self).next_id + 1,
            final(self).work_blocks@.len() == old(self).work_blocks@.len() + 1,
            final(self).work_blocks@.drop_last() == old(self).work_blocks@,
            final(self).work_blocks@.last().id == r,
            final(self).work_blocks@.last().name@ == name@,
            final(self).work_blocks@.last().parent == Some(parent),
            has_default_details(final(self).work_blocks@.last()),
            final(self).work_blocks@.last().start_day == start_day,
            final(self).work_blocks@.last().duration_days == duration_days,
            final(self).work_blocks@.last().row == row,
            placed_in_plan(old(self).plans@, final(self).plans@, plan_id, r, row, false),
            final(self).dependencies == old(self).dependencies,
            final(self).resource_blocks == old(self).resource_blocks,
            final(self).calendar == old(self).calendar,
            final(self).t_shirt_sizes == old(self).t_shirt_sizes,
    {
        let id = self.create_work_block(name);
        let last = self.work_blocks.len() - 1;
        self.work_blocks[last].start_day = start_day;
        self.work_blocks[last].duration_days = duration_days;
        self.work_blocks[last].parent = Some(parent);
        self.work_blocks[last].row = row;
        assert(self.work_blocks@.drop_last() =~= old(self).work_blocks@);
        self.place_in_plan(plan_id, id, row, false);
        id
    }

    /// Creates a dependency of `successor` on `predecessor` in plan
    /// `plan_id`, with no lag, and returns its id.
    pub fn create_dependency_in(
        &mut self,
        plan_id: PlanId,
        predecessor: WorkBlockId,
        successor: WorkBlockId,
        dependency_type: DependencyType,
    ) -> (r: DependencyId)
        requires
            old(self).wf(),
            old(self).next_id < u64::MAX,
        ensures
            final(self).wf(),
            r.0 == old(self).next_id,
            final(self).next_id == old(self).next_id + 1,
            final(self).dependencies@ == old(self).dependencies@.push(Dependency {
                id: r,
                plan_id,
                predecessor,
                successor,
                dependency_type,
                lag: 0,
            }),
            final(self).work_blocks == old(self).work_blocks,
            final(self).plans == old(self).plans,
            final(self).resource_blocks == old(self).resource_blocks,
            final(self).calendar == old(self).calendar,
            final(self).t_shirt_sizes == old(self).t_shirt_sizes,
    {
        let id = DependencyId(self.alloc_id());
        self.dependencies.push(Dependency { id, plan_id, predecessor, successor, dependency_type, lag: 0 });
        id
    }

    /// Creates a dependency in the main plan (plan id 0 when there is none).
    pub fn create_dependency(&mut self, predecessor: WorkBlockId, successor: WorkBlockId, dependency_type: DependencyType) -> (r: DependencyId)
        requires
            old(self).wf(),
            old(self).next_id < u64::MAX,
        ensures
            final(self).wf(),
            r.0 == old(self).next_id,
            final(self).next_id == old(self).next_id + 1,
            final(self).dependencies@.len() == old(self).dependencies@.len() + 1,
            final(self).dependencies@.drop_last() == old(self).dependencies@,
            final(self).dependencies@.last().id == r,
            final(self).dependencies@.last().predecessor == predecessor,
            final(self).dependencies@.last().successor == successor,
            final(self).dependencies@.last().dependency_type == dependency_type,
            final(self).dependencies@.last().lag == 0,
            final(self).work_blocks == old(self).work_blocks,
            final(self).plans == old(self).plans,
            final(self).resource_blocks == old(self).resource_blocks,
            final(self).calendar == old(self).calendar,
            final(self).t_shirt_sizes == old(self).t_shirt_sizes,
    {
        let plan_id = match self.main_plan_id() {
            Some(p) => p,
            None => PlanId(0),
        };
        let r = self.create_dependency_in(plan_id, predecessor, successor, dependency_type);
        assert(self.dependencies@.drop_last() =~= old(self).dependencies@);
        r
    }

    /// The direct children of block `id`, in block order.
    pub fn children(&self, id: WorkBlockId) -> (r: Vec<WorkBlockId>)
        ensures
            r@ == self.work_blocks@.filter(|b: WorkBlock| b.parent == Some(id)).map_values(|b: WorkBlock| b.id),
    {
        let mut out: Vec<WorkBlockId> = Vec::new();
        let mut i: usize = 0;
        while i < self.work_blocks.len()
            invariant
                i <= self.work_blocks@.len(),
                out@ == self.work_blocks@.take(i as int).filter(|b: WorkBlock| b.parent == Some(id)).map_values(|b: WorkBlock| b.id),
            decreases self.work_blocks.len() - i,
        {
            let ghost pre = self.work_blocks@.take(i as int);
            assert(self.work_blocks@.take(i + 1) =~= pre.push(self.work_blocks@[i as int]));
            proof {
                pre.lemma_filter_push(self.work_blocks@[i as int], |b: WorkBlock| b.parent == Some(id));
            }
            if self.work_blocks[i].parent == Some(id) {
                out.push(self.work_blocks[i].id);
            }
            proof {
                let f = |b: WorkBlock| b.parent == Some(id);
                let m = |b: WorkBlock| b.id;
                assert(out@ =~= self.work_blocks@.take(i + 1).filter(f).map_values(m));
            }
            i += 1;
        }
        assert(self.work_blocks@.take(i as int) =~= self.work_blocks@);
        out
    }
}

// ── resources ───────────────────────────────────────────────────────────────

/// Two characters equal up to ASCII case: the same, or one an ASCII
/// upper-case letter whose lower-case form is the other.
pub open spec fn chars_match_ignoring_case(x: char, y: char) -> bool {
    ||| x == y
    ||| ('A' <= x <= 'Z' && x as u32 + 32 == y as u32)
    ||| ('A' <= y <= 'Z' && y as u32 + 32 == x as u32)
}

/// Two texts equal up to ASCII case.
pub open spec fn same_ignoring_case(a: Seq<char>, b: Seq<char>) -> bool {
    &&& a.len() == b.len()
    &&& forall|i: int| 0 <= i < a.len() ==> #[trigger] chars_match_ignoring_case(a[i], b[i])
}

/// Whether `a` and `b` are equal up to ASCII case.
pub fn eq_ignore_ascii_case(a: &str, b: &str) -> (r: bool)
    ensures
        r == same_ignoring_case(a@, b@),
{
    let x = crate::text::chars_of(a);
    let y = crate::text::chars_of(b);
    if x.len() != y.len() {
        return false;
    }
    let mut i: usize = 0;
    while i < x.len()
        invariant
            x@ == a@,
            y@ == b@,
            x@.len() == y@.len(),
            i <= x@.len(),
            forall|j: int| 0 <= j < i ==> #[trigger] chars_match_ignoring_case(x@[j], y@[j]),
        decreases x.len() - i,
    {
        let c = x[i];
        let d = y[i];
        let m = c == d || ('A' <= c && c <= 'Z' && c as u32 + 32 == d as u32)
            || ('A' <= d && d <= 'Z' && d as u32 + 32 == c as u32);
        if !m {
            assert(!chars_match_ignoring_case(x@[i as int], y@[i as int]));
            return false;
        }
        i += 1;
    }
    true
}

/// Index of the first resource named `name` (ignoring ASCII case).
pub open spec fn resource_named(rs: Seq<ResourceBlock>, name: Seq<char>) -> Option<int>
    decreases rs.len(),
{
    if rs.len() == 0 {
        None
    } else if same_ignoring_case(rs[0].name@, name) {
        Some(0)
    } else {
        match resource_named(rs.drop_first(), name) {
            Some(i) => Some(i + 1),
            None => None,
        }
    }
}

pub proof fn lemma_resource_named(rs: Seq<ResourceBlock>, name: Seq<char>)
    ensures
        match resource_named(rs, name) {
            Some(i) => 0 <= i < rs.len() && same_ignoring_case(rs[i].name@, name)
                && forall|j: int| 0 <= j < i ==> !same_ignoring_case(#[trigger] rs[j].name@, name),
            None => forall|j: int| 0 <= j < rs.len() ==> !same_ignoring_case(#[trigger] rs[j].name@, name),
        },
    decreases rs.len(),
{
    if rs.len() > 0 && !same_ignoring_case(rs[0].name@, name) {
        lemma_resource_named(rs.drop_first(), name);
        assert forall|j: int| 1 <= j < rs.len() implies rs[j] == rs.drop_first()[j - 1] by {}
    }
}

/// How many row names, over every plan and scope, match `name` (ignoring
/// ASCII case).
pub open spec fn names_matching(names: Seq<Seq<char>>, name: Seq<char>) -> nat
    decreases names.len(),
{
    if names.len() == 0 {
        0
    } else {
        names_matching(names.drop_last(), name) + if same_ignoring_case(names.last(), name) { 1nat } else { 0nat }
    }
}

pub open spec fn entries_matching(rn: Seq<RowNames>, name: Seq<char>) -> nat
    decreases rn.len(),
{
    if rn.len() == 0 {
        0
    } else {
        entries_matching(rn.drop_last(), name) + names_matching(names_view(rn.last().names@), name)
    }
}

pub open spec fn plans_matching(ps: Seq<Plan>, name: Seq<char>) -> nat
    decreases ps.len(),
{
    if ps.len() == 0 {
        0
    } else {
        plans_matching(ps.drop_last(), name) + entries_matching(ps.last().row_names@, name)
    }
}

impl Model {
    /// Position of the resource named `name` (ignoring ASCII case).
    pub fn resource_position(&self, name: &str) -> (r: Option<usize>)
        ensures
            match r {
                Some(i) => resource_named(self.resource_blocks@, name@) == Some(i as int) && i < self.resource_blocks@.len(),
                None => resource_named(self.resource_blocks@, name@) is None,
            },
    {
        proof {
            lemma_resource_named(self.resource_blocks@, name@);
        }
        let mut i: usize = 0;
        while i < self.resource_blocks.len()
            invariant
                i <= self.resource_blocks@.len(),
                forall|j: int| 0 <= j < i ==> !same_ignoring_case(#[trigger] self.resource_blocks@[j].name@, name@),
                match resource_named(self.resource_blocks@, name@) {
                    Some(k) => 0 <= k < self.resource_blocks@.len() && same_ignoring_case(self.resource_blocks@[k].name@, name@)
                        && forall|j: int| 0 <= j < k ==> !same_ignoring_case(#[trigger] self.resource_blocks@[j].name@, name@),
                    None => forall|j: int| 0 <= j < self.resource_blocks@.len() ==> !same_ignoring_case(#[trigger] self.resource_blocks@[j].name@, name@),
                },
            decreases self.resource_blocks.len() - i,
        {
            if eq_ignore_ascii_case(self.resource_blocks[i].name.as_str(), name) {
                return Some(i);
            }
            i += 1;
        }
        None
    }

    /// The resource named `name` (ignoring ASCII case), if registered.
    pub fn resource_by_name(&self, name: &str) -> (r: Option<&ResourceBlock>)
        ensures
            match r {
                Some(rb) => resource_named(self.resource_blocks@, name@) matches Some(i) && *rb == self.resource_blocks@[i],
                None => resource_named(self.resource_blocks@, name@) is None,
            },
    {
        match self.resource_position(name) {
            Some(i) => Some(&self.resource_blocks[i]),
            None => None,
        }
    }

    /// The kind of the resource named `name`, if registered.
    pub fn resource_kind(&self, name: &str) -> (r: Option<ResourceType>)
        ensures
            r == match resource_named(self.resource_blocks@, name@) {
                Some(i) => Some(self.resource_blocks@[i].resource_type),
                None => None,
            },
    {
        match self.resource_position(name) {
            Some(i) => Some(self.resource_blocks[i].resource_type),
            None => None,
        }
    }

    /// Registers `name` as a resource of kind `kind`: an existing entry of
    /// that name (ignoring ASCII case) changes kind, otherwise a new entry
    /// with no days off is added.
    pub fn set_resource_kind(&mut self, name: &str, kind: ResourceType)
        requires
            old(self).wf(),
            old(self).next_id < u64::MAX,
        ensures
            final(self).wf(),
            final(self).work_blocks == old(self).work_blocks,
            final(self).dependencies == old(self).dependencies,
            final(self).plans == old(self).plans,
            final(self).calendar == old(self).calendar,
            final(self).t_shirt_sizes == old(self).t_shirt_sizes,
            match resource_named(old(self).resource_blocks@, name@) {
                Some(i) => final(self).next_id == old(self).next_id
                    && final(self).resource_blocks@ == old(self).resource_blocks@.update(i, ResourceBlock {
                        resource_type: kind,
                        ..old(self).resource_blocks@[i]
                    }),
                None => final(self).next_id == old(self).next_id + 1
                    && final(self).resource_blocks@.len() == old(self).resource_blocks@.len() + 1
                    && final(self).resource_blocks@.drop_last() == old(self).resource_blocks@
                    && final(self).resource_blocks@.last().id == ResourceBlockId(old(self).next_id)
                    && final(self).resource_blocks@.last().name@ == name@
                    && final(self).resource_blocks@.last().resource_type == kind
                    && final(self).resource_blocks@.last().non_working_dates@.len() == 0,
            },
    {
        match self.resource_position(name) {
            Some(i) => {
                let ghost before = self.resource_blocks@;
                self.resource_blocks[i].resource_type = kind;
                proof {
                    assert(self.resource_blocks@ =~= before.update(i as int, ResourceBlock { resource_type: kind, ..before[i as int] }));
                    assert forall|j: int| 0 <= j < self.resource_blocks@.len() implies (#[trigger] self.resource_blocks@[j]).id.0 < self.next_id by {
                        assert(self.resource_blocks@[j].id == before[j].id);
                    }
                }
            },
            None => {
                let id = self.next_id;
                self.next_id = id + 1;
                let ghost before = self.resource_blocks@;
                self.resource_blocks.push(ResourceBlock {
                    id: ResourceBlockId(id),
                    name: String::from_str(name),
                    resource_type: kind,
                    non_working_dates: Vec::new(),
                });
                assert(self.resource_blocks@.drop_last() =~= before);
            },
        }
    }

    /// Renames the resource named `old_name` (ignoring ASCII case) to
    /// `new_name`, keeping its kind and days off.
    pub fn rename_resource(&mut self, old_name: &str, new_name: &str)
        ensures
            final(self).work_blocks == old(self).work_blocks,
            final(self).dependencies == old(self).dependencies,
            final(self).plans == old(self).plans,
            final(self).calendar == old(self).calendar,
            final(self).t_shirt_sizes == old(self).t_shirt_sizes,
            final(self).next_id == old(self).next_id,
            final(self).resource_blocks@.len() == old(self).resource_blocks@.len(),
            forall|j: int| 0 <= j < old(self).resource_blocks@.len() && Some(j) != resource_named(old(self).resource_blocks@, old_name@)
                ==> #[trigger] final(self).resource_blocks@[j] == old(self).resource_blocks@[j],
            resource_named(old(self).resource_blocks@, old_name@) matches Some(i) ==> {
                &&& final(self).resource_blocks@[i].id == old(self).resource_blocks@[i].id
                &&& final(self).resource_blocks@[i].name@ == new_name@
                &&& final(self).resource_blocks@[i].resource_type == old(self).resource_blocks@[i].resource_type
                &&& final(self).resource_blocks@[i].non_working_dates == old(self).resource_blocks@[i].non_working_dates
            },
    {
        match self.resource_position(old_name) {
            Some(i) => {
                self.resource_blocks[i].name = String::from_str(new_name);
            },
            None => {},
        }
    }

    /// How many row names, over every plan and scope, match `name`
    /// (ignoring ASCII case); the count stops at `usize::MAX`.
    pub fn row_name_references(&self, name: &str) -> (r: usize)
        ensures
            r == if plans_matching(self.plans@, name@) <= usize::MAX {
                plans_matching(self.plans@, name@)
            } else {
                usize::MAX as nat
            },
    {
        let mut count: usize = 0;
        let mut p: usize = 0;
        assert(self.plans@.take(0) =~= Seq::<Plan>::empty());
        while p < self.plans.len()
            invariant
                p <= self.plans@.len(),
                count == if plans_matching(self.plans@.take(p as int), name@) <= usize::MAX {
                    plans_matching(self.plans@.take(p as int), name@)
                } else {
                    usize::MAX as nat
                },
            decreases self.plans.len() - p,
        {
            let ghost pre = self.plans@.take(p as int);
            assert(self.plans@.take(p + 1).drop_last() =~= pre);
            let rn = &self.plans[p].row_names;
            let mut e: usize = 0;
            let ghost base = plans_matching(pre, name@);
            assert(rn@.take(0) =~= Seq::<RowNames>::empty());
            while e < rn.len()
                invariant
                    e <= rn@.len(),
                    count == if base + entries_matching(rn@.take(e as int), name@) <= usize::MAX {
                        base + entries_matching(rn@.take(e as int), name@)
                    } else {
                        usize::MAX as nat
                    },
                decreases rn.len() - e,
            {
                let ghost pre_e = rn@.take(e as int);
                assert(rn@.take(e + 1).drop_last() =~= pre_e);
                let names = &rn[e].names;
                let ghost nv = names_view(names@);
                let ghost base_e = base + entries_matching(pre_e, name@);
                let mut k: usize = 0;
                assert(nv.take(0) =~= Seq::<Seq<char>>::empty());
                while k < names.len()
                    invariant
                        k <= names@.len(),
                        nv == names_view(names@),
                        count == if base_e + names_matching(nv.take(k as int), name@) <= usize::MAX {
                            base_e + names_matching(nv.take(k as int), name@)
                        } else {
                            usize::MAX as nat
                        },
                    decreases names.len() - k,
                {
                    assert(nv.take(k + 1).drop_last() =~= nv.take(k as int));
                    assert(nv.take(k + 1).last() == names@[k as int]@);
                    if eq_ignore_ascii_case(names[k].as_str(), name) {
                        count = count.saturating_add(1);
                    }
                    k += 1;
                }
                assert(nv.take(k as int) =~= nv);
                e += 1;
            }
            assert(rn@.take(e as int) =~= rn@);
            p += 1;
        }
        assert(self.plans@.take(p as int) =~= self.plans@);
        count
    }

    /// The name `row` shows in plan `plan_id` at scope `scope`: the plan's
    /// own name for it, or, for a branch without one, the main plan's name.
    pub open spec fn spec_resolved_row_name(&self, plan_id: PlanId, scope: Option<WorkBlockId>, row: int) -> Option<Seq<char>> {
        match plan_index(self.plans@, plan_id) {
            None => None,
            Some(p) => match self.plans@[p].spec_row_name(scope, row) {
                Some(n) => Some(n),
                None => if self.plans@[p].branch_start_day is Some {
                    match first_main(self.plans@) {
                        Some(q) => self.plans@[q].spec_row_name(scope, row),
                        None => None,
                    }
                } else {
                    None
                },
            },
        }
    }

    /// The name `row` shows in plan `plan_id` at scope `scope`: the plan's own
    /// name for it, or, for a branch without one, the main plan's name.
    pub fn resolved_row_name(&self, plan_id: PlanId, scope: Option<WorkBlockId>, row: i32) -> (r: Option<String>)
        ensures
            match r {
                Some(s) => self.spec_resolved_row_name(plan_id, scope, row as int) == Some(s@),
                None => self.spec_resolved_row_name(plan_id, scope, row as int) is None,
            },
    {
        let p = match self.plan_position(plan_id) {
            Some(p) => p,
            None => return None,
        };
        match self.plans[p].row_name(scope, row) {
            Some(n) => Some(n),
            None => {
                if self.plans[p].branch_start_day.is_none() {
                    return None;
                }
                match self.main_plan_position() {
                    Some(q) => self.plans[q].row_name(scope, row),
                    None => None,
                }
            },
        }
    }
}

// ── copies ──────────────────────────────────────────────────────────────────

impl Clone for NonWorkingDate {
    fn clone(&self) -> (r: Self)
        ensures
            r == *self,
    {
        NonWorkingDate { date: self.date, description: self.description.clone() }
    }
}

impl Clone for TShirtSize {
    fn clone(&self) -> (r: Self)
        ensures
            r == *self,
    {
        TShirtSize { label: self.label.clone(), days: self.days }
    }
}

impl Clone for CalendarConfig {
    fn clone(&self) -> (r: Self)
        ensures
            r.start_date == self.start_date,
            r.working_days_per_week == self.working_days_per_week,
            r.non_working_dates@ == self.non_working_dates@,
    {
        let mut dates: Vec<NonWorkingDate> = Vec::new();
        let mut i: usize = 0;
        while i < self.non_working_dates.len()
            invariant
                i <= self.non_working_dates@.len(),
                dates@ == self.non_working_dates@.take(i as int),
            decreases self.non_working_dates.len() - i,
        {
            dates.push(self.non_working_dates[i].clone());
            assert(dates@ =~= self.non_working_dates@.take(i + 1));
            i += 1;
        }
        assert(self.non_working_dates@.take(i as int) =~= self.non_working_dates@);
        let r = CalendarConfig {
            start_date: self.start_date,
            working_days_per_week: self.working_days_per_week,
            non_working_dates: dates,
        };
        r
    }
}

impl Clone for WorkBlock {
    fn clone(&self) -> (r: Self)
        ensures
            r == *self,
    {
        WorkBlock {
            id: self.id,
            name: self.name.clone(),
            parent: self.parent,
            start_day: self.start_day,
            duration_days: self.duration_days,
            row: self.row,
            description: self.description.clone(),
            priority: self.priority,
            t_shirt_size: match &self.t_shirt_size {
                Some(s) => Some(s.clone()),
                None => None,
            },
            rollup: self.rollup,
        }
    }
}

impl Clone for Dependency {
    fn clone(&self) -> (r: Self)
        ensures
            r == *self,
    {
        Dependency {
            id: self.id,
            plan_id: self.plan_id,
            predecessor: self.predecessor,
            successor: self.successor,
            dependency_type: self.dependency_type,
            lag: self.lag,
        }
    }
}

} // verus!
