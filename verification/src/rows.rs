//! Resource rows of a plan: reordering rows by dragging, and naming a row
//! (which can merge it into another row of the same name).

use vstd::prelude::*;
use crate::model::{
    block_index, eq_ignore_ascii_case, lemma_block_index, lemma_plan_index, lemma_plan_index_same_ids, lemma_scope_index,
    lemma_scope_names_update, name_at, names_view, plan_index, plans_matching, resource_named, same_ignoring_case,
    same_but_rows, scope_index, scope_names, Model, Plan, PlanId, RowNames, WorkBlock, WorkBlockId,
};
use crate::text::{chars_of, string_of, trim_chars, trim_spec};

verus! {

// ── reordering ──────────────────────────────────────────────────────────────

/// Where `row` lands when row `from` is dragged to `to`: the dragged row
/// takes `to`, the rows between shift one step toward `from`, the others
/// stay.
pub open spec fn reordered(row: int, from: int, to: int) -> int {
    if row == from {
        to
    } else if from < to && from < row && row <= to {
        row - 1
    } else if to < from && to <= row && row < from {
        row + 1
    } else {
        row
    }
}

/// New index for `row` after a drag that moves row `from` to `to`.
pub fn reordered_row(row: i32, from: i32, to: i32) -> (r: i32)
    ensures
        r == reordered(row as int, from as int, to as int),
{
    if row == from {
        to
    } else if from < to && row > from && row <= to {
        row - 1
    } else if to < from && row >= to && row < from {
        row + 1
    } else {
        row
    }
}

/// Dragging the row back undoes a drag: every row returns to where it was.
pub proof fn lemma_reordered_undo(row: int, from: int, to: int)
    ensures
        reordered(reordered(row, from, to), to, from) == row,
{
}

/// A drag sends different rows to different rows.
pub proof fn lemma_reordered_injective(a: int, b: int, from: int, to: int)
    requires
        reordered(a, from, to) == reordered(b, from, to),
    ensures
        a == b,
{
    lemma_reordered_undo(a, from, to);
    lemma_reordered_undo(b, from, to);
}

/// A drag between non-negative rows keeps non-negative rows non-negative.
pub proof fn lemma_reordered_nonnegative(row: int, from: int, to: int)
    requires
        row >= 0,
        from >= 0,
        to >= 0,
    ensures
        reordered(row, from, to) >= 0,
{
}

/// `s` grown with empty names to length `n`.
pub open spec fn padded(s: Seq<Seq<char>>, n: int) -> Seq<Seq<char>> {
    if s.len() >= n {
        s
    } else {
        s + Seq::new((n - s.len()) as nat, |i: int| Seq::<char>::empty())
    }
}

/// `s` without its trailing empty names.
pub open spec fn trim_empty_tail(s: Seq<Seq<char>>) -> Seq<Seq<char>>
    decreases s.len(),
{
    if s.len() > 0 && s.last().len() == 0 {
        trim_empty_tail(s.drop_last())
    } else {
        s
    }
}

/// A row-name list after row `from` is dragged to `to`: grown so both rows
/// exist, the dragged name moved to `to`, trailing empty names dropped.
/// Negative rows or a drag onto itself change nothing.
pub open spec fn names_reordered(s: Seq<Seq<char>>, from: int, to: int) -> Seq<Seq<char>> {
    if from < 0 || to < 0 || from == to {
        s
    } else {
        let g = padded(s, if from > to { from + 1 } else { to + 1 });
        trim_empty_tail(g.remove(from).insert(to, g[from]))
    }
}

proof fn lemma_trim_empty_tail(s: Seq<Seq<char>>)
    ensures
        trim_empty_tail(s).len() <= s.len(),
        forall|i: int| 0 <= i < trim_empty_tail(s).len() ==> #[trigger] trim_empty_tail(s)[i] == s[i],
        forall|i: int| trim_empty_tail(s).len() <= i < s.len() ==> (#[trigger] s[i]).len() == 0,
        trim_empty_tail(s).len() > 0 ==> trim_empty_tail(s).last().len() > 0,
    decreases s.len(),
{
    if s.len() > 0 && s.last().len() == 0 {
        lemma_trim_empty_tail(s.drop_last());
        assert forall|i: int| trim_empty_tail(s).len() <= i < s.len() implies (#[trigger] s[i]).len() == 0 by {
            if i < s.len() - 1 {
                assert(s.drop_last()[i] == s[i]);
            }
        }
    }
}

proof fn lemma_name_at_trim(s: Seq<Seq<char>>, r: int)
    ensures
        name_at(trim_empty_tail(s), r) == name_at(s, r),
{
    lemma_trim_empty_tail(s);
}

/// Row names follow their rows: after a drag, the row a name's row moved
/// to carries that name.
pub proof fn lemma_names_follow_rows(s: Seq<Seq<char>>, from: int, to: int, r: int)
    requires
        from >= 0,
        to >= 0,
        r >= 0,
    ensures
        name_at(names_reordered(s, from, to), reordered(r, from, to)) == name_at(s, r),
{
    if from != to {
        let n = if from > to { from + 1 } else { to + 1 };
        let g = padded(s, n);
        let m = g.remove(from).insert(to, g[from]);
        assert(g.len() >= n);
        assert forall|i: int| 0 <= i < g.len() implies #[trigger] name_at(g, i) == name_at(s, i) by {
            if i >= s.len() {
                assert(g[i] == Seq::<char>::empty());
            } else {
                assert(g[i] == s[i]);
            }
        }
        assert(m.len() == g.len());
        lemma_name_at_trim(m, reordered(r, from, to));
        let k = reordered(r, from, to);
        if r < g.len() {
            if r == from {
                assert(m[to] == g[from]);
            } else if from < to && from < r && r <= to {
                assert(m[r - 1] == g[r]);
            } else if to < from && to <= r && r < from {
                assert(m[r + 1] == g[r]);
            } else if r < from && r < to {
                assert(m[r] == g[r]);
            } else {
                assert(m[r] == g[r]);
            }
        } else {
            assert(k == r);
            assert(name_at(s, r) is None);
        }
    }
}

/// Permutes a scope's row-name list for a `from`→`to` drag, growing it with
/// empty names so both rows exist and dropping trailing empty names after.
pub fn reorder_row_names(names: &mut Vec<String>, from: i32, to: i32)
    requires
        (if from > to { from } else { to }) < usize::MAX,
    ensures
        names_view(final(names)@) == names_reordered(names_view(old(names)@), from as int, to as int),
{
    if from < 0 || to < 0 || from == to {
        return;
    }
    let f = from as usize;
    let t = to as usize;
    let need: usize = if f > t { f + 1 } else { t + 1 };
    let ghost before = names_view(names@);
    while names.len() < need
        invariant
            need >= 1,
            names@.len() >= before.len(),
            names@.len() == before.len() || names@.len() <= need,
            names_view(names@) == padded(before, names@.len() as int),
        decreases need - names.len(),
    {
        let ghost prev = names_view(names@);
        names.push(String::new());
        proof {
            assert(names_view(names@) =~= prev.push(Seq::<char>::empty()));
            assert(padded(before, names@.len() as int) =~= padded(before, prev.len() as int).push(Seq::<char>::empty()));
        }
    }
    let ghost g = names_view(names@);
    assert(g == padded(before, if from > to { from + 1 } else { to + 1 }));
    let moved = names.remove(f);
    names.insert(t, moved);
    assert(names_view(names@) =~= g.remove(f as int).insert(t as int, g[f as int]));
    let ghost m = names_view(names@);
    assert(m.take(m.len() as int) =~= m);
    while names.len() > 0 && names[names.len() - 1].as_str().is_empty()
        invariant
            names@.len() <= m.len(),
            names_view(names@) == m.take(names@.len() as int),
            trim_empty_tail(m) == trim_empty_tail(names_view(names@)),
        decreases names.len(),
    {
        let ghost cur = names_view(names@);
        names.pop();
        proof {
            assert(names_view(names@) =~= cur.drop_last());
            assert(cur.last().len() == 0);
        }
    }
    assert(trim_empty_tail(names_view(names@)) == names_view(names@));
}

// ── the blocks shown at a scope ─────────────────────────────────────────────

/// Whether block `id` exists and lasts at least a day.
pub open spec fn lasts(blocks: Seq<WorkBlock>, id: WorkBlockId) -> bool {
    match block_index(blocks, id) {
        Some(i) => blocks[i].duration_days > 0,
        None => false,
    }
}

/// The blocks plan `plan_id` shows at drill scope `scope`: at the top level
/// its top-level blocks, inside a block that block's children; only blocks
/// that exist and last at least a day. Nothing for an unknown plan.
pub open spec fn visible_ids(m: &Model, plan_id: PlanId, scope: Option<WorkBlockId>) -> Seq<WorkBlockId> {
    match plan_index(m.plans@, plan_id) {
        None => Seq::empty(),
        Some(p) => match scope {
            None => m.plans@[p].root_blocks@.filter(|id: WorkBlockId| lasts(m.work_blocks@, id)),
            Some(b) => m.work_blocks@.filter(|w: WorkBlock| w.parent == Some(b) && w.duration_days > 0).map_values(
                |w: WorkBlock| w.id,
            ),
        },
    }
}

/// The blocks plan `plan_id` shows at drill scope `scope`, in order.
pub fn visible_blocks(model: &Model, plan_id: PlanId, scope: Option<WorkBlockId>) -> (r: Vec<WorkBlockId>)
    ensures
        r@ == visible_ids(model, plan_id, scope),
{
    let p = match model.plan_position(plan_id) {
        Some(p) => p,
        None => return Vec::new(),
    };
    let mut out: Vec<WorkBlockId> = Vec::new();
    match scope {
        None => {
            let roots = &model.plans[p].root_blocks;
            let ghost keep = |id: WorkBlockId| lasts(model.work_blocks@, id);
            let mut i: usize = 0;
            assert(roots@.take(0) =~= Seq::<WorkBlockId>::empty());
            while i < roots.len()
                invariant
                    i <= roots@.len(),
                    roots@ == model.plans@[p as int].root_blocks@,
                    keep == (|id: WorkBlockId| lasts(model.work_blocks@, id)),
                    out@ == roots@.take(i as int).filter(keep),
                decreases roots.len() - i,
            {
                let id = roots[i];
                proof {
                    assert(roots@.take(i + 1) =~= roots@.take(i as int).push(id));
                    roots@.take(i as int).lemma_filter_push(id, keep);
                    lemma_block_index(model.work_blocks@, id);
                }
                match model.block_position(id) {
                    Some(k) => {
                        if model.work_blocks[k].duration_days > 0 {
                            out.push(id);
                        }
                    },
                    None => {},
                }
                i += 1;
            }
            assert(roots@.take(i as int) =~= roots@);
        },
        Some(b) => {
            let ghost keep = |w: WorkBlock| w.parent == Some(b) && w.duration_days > 0;
            let ghost id_of = |w: WorkBlock| w.id;
            let mut i: usize = 0;
            assert(model.work_blocks@.take(0) =~= Seq::<WorkBlock>::empty());
            while i < model.work_blocks.len()
                invariant
                    i <= model.work_blocks@.len(),
                    keep == (|w: WorkBlock| w.parent == Some(b) && w.duration_days > 0),
                    id_of == (|w: WorkBlock| w.id),
                    out@ == model.work_blocks@.take(i as int).filter(keep).map_values(id_of),
                decreases model.work_blocks.len() - i,
            {
                let w = &model.work_blocks[i];
                proof {
                    assert(model.work_blocks@.take(i + 1) =~= model.work_blocks@.take(i as int).push(*w));
                    model.work_blocks@.take(i as int).lemma_filter_push(*w, keep);
                }
                if w.parent == Some(b) && w.duration_days > 0 {
                    let ghost before = out@;
                    out.push(w.id);
                    proof {
                        let f = model.work_blocks@.take(i as int).filter(keep);
                        assert(f.push(*w).map_values(id_of) =~= f.map_values(id_of).push(w.id));
                    }
                }
                i += 1;
            }
            assert(model.work_blocks@.take(i as int) =~= model.work_blocks@);
        },
    }
    out
}

// ── applying a drag ─────────────────────────────────────────────────────────

proof fn lemma_index_same_but_rows(a: Seq<Plan>, b: Seq<Plan>, pid: PlanId)
    requires
        a.len() == b.len(),
        forall|q: int| 0 <= q < a.len() ==> #[trigger] same_but_rows(b[q], a[q]),
    ensures
        plan_index(a, pid) == plan_index(b, pid),
{
    assert forall|i: int| 0 <= i < a.len() implies (#[trigger] a[i]).id == b[i].id by {
        assert(same_but_rows(b[i], a[i]));
    }
    lemma_plan_index_same_ids(a, b, pid);
}

/// Applies a drag of row `from` to `to` to the row names of `scope` in `plan`.
fn reorder_scope_names(plan: &mut Plan, scope: Option<WorkBlockId>, from: i32, to: i32)
    ensures
        final(plan).id == old(plan).id,
        final(plan).name == old(plan).name,
        final(plan).root_blocks == old(plan).root_blocks,
        final(plan).block_rows == old(plan).block_rows,
        final(plan).branch_start_day == old(plan).branch_start_day,
        final(plan).allocations == old(plan).allocations,
        forall|sc: Option<WorkBlockId>| #![trigger scope_names(final(plan).row_names@, sc)]
            scope_names(final(plan).row_names@, sc) == if sc == scope && scope_index(old(plan).row_names@, scope) is Some {
                names_reordered(scope_names(old(plan).row_names@, scope), from as int, to as int)
            } else {
                scope_names(old(plan).row_names@, sc)
            },
{
    proof {
        lemma_scope_index(plan.row_names@, scope);
    }
    let mut i: usize = 0;
    while i < plan.row_names.len()
        invariant
            *plan == *old(plan),
            i <= plan.row_names@.len(),
            forall|j: int| 0 <= j < i ==> plan.row_names@[j].scope != scope,
            match scope_index(plan.row_names@, scope) {
                Some(x) => 0 <= x < plan.row_names@.len() && plan.row_names@[x].scope == scope
                    && forall|j: int| 0 <= j < x ==> plan.row_names@[j].scope != scope,
                None => forall|j: int| 0 <= j < plan.row_names@.len() ==> plan.row_names@[j].scope != scope,
            },
            match scope_index(plan.row_names@, scope) {
                Some(x) => scope_names(plan.row_names@, scope) == names_view(plan.row_names@[x].names@),
                None => scope_names(plan.row_names@, scope) == Seq::<Seq<char>>::empty(),
            },
        decreases plan.row_names.len() - i,
    {
        if plan.row_names[i].scope == scope {
            let ghost old_rn = plan.row_names@;
            let mut entry = plan.row_names.remove(i);
            reorder_row_names(&mut entry.names, from, to);
            let ghost e = entry;
            plan.row_names.insert(i, entry);
            proof {
                assert(plan.row_names@ =~= old_rn.update(i as int, e));
                assert forall|sc: Option<WorkBlockId>| #![trigger scope_names(plan.row_names@, sc)]
                    scope_names(plan.row_names@, sc) == if sc == scope {
                        names_reordered(scope_names(old_rn, scope), from as int, to as int)
                    } else {
                        scope_names(old_rn, sc)
                    } by {
                    lemma_scope_names_update(old_rn, i as int, e, sc);
                }
            }
            return;
        }
        i += 1;
    }
}

/// A pending request to save the document.
pub struct SaveRequest(pub bool);

impl Default for SaveRequest {
    /// No save pending.
    fn default() -> (r: SaveRequest)
        ensures
            !r.0,
    {
        SaveRequest(false)
    }
}

impl SaveRequest {
    /// Asks for the document to be saved.
    pub fn mark(&mut self)
        ensures
            final(self).0,
    {
        self.0 = true;
    }
}

/// Applies a drag of row `from` to `to` within `(plan_id, scope)`: the
/// blocks shown there follow their rows, the scope's row names are
/// permuted to match, and a save is requested. Nothing changes when
/// `from == to`.
pub fn apply_row_reorder(model: &mut Model, save: &mut SaveRequest, plan_id: PlanId, scope: Option<WorkBlockId>, from: i32, to: i32)
    requires
        old(model).wf(),
    ensures
        final(save).0 == (old(save).0 || from != to),
        final(model).wf(),
        final(model).work_blocks == old(model).work_blocks,
        final(model).dependencies == old(model).dependencies,
        final(model).resource_blocks == old(model).resource_blocks,
        final(model).calendar == old(model).calendar,
        final(model).t_shirt_sizes == old(model).t_shirt_sizes,
        final(model).next_id == old(model).next_id,
        final(model).plans@.len() == old(model).plans@.len(),
        forall|q: int| 0 <= q < old(model).plans@.len() && Some(q) != plan_index(old(model).plans@, plan_id)
            ==> #[trigger] final(model).plans@[q] == old(model).plans@[q],
        plan_index(old(model).plans@, plan_id) matches Some(p) ==> {
            &&& final(model).plans@[p].id == old(model).plans@[p].id
            &&& final(model).plans@[p].name == old(model).plans@[p].name
            &&& final(model).plans@[p].root_blocks == old(model).plans@[p].root_blocks
            &&& final(model).plans@[p].branch_start_day == old(model).plans@[p].branch_start_day
            &&& final(model).plans@[p].allocations == old(model).plans@[p].allocations
            &&& forall|sc: Option<WorkBlockId>| #![trigger scope_names(final(model).plans@[p].row_names@, sc)]
                scope_names(final(model).plans@[p].row_names@, sc) == if from != to && sc == scope
                    && scope_index(old(model).plans@[p].row_names@, scope) is Some {
                    names_reordered(scope_names(old(model).plans@[p].row_names@, scope), from as int, to as int)
                } else {
                    scope_names(old(model).plans@[p].row_names@, sc)
                }
        },
        forall|pid: PlanId, x: WorkBlockId| #![trigger final(model).spec_block_row(pid, x)]
            final(model).spec_block_row(pid, x) as int == if from != to && pid == plan_id
                && visible_ids(old(model), plan_id, scope).contains(x) {
                reordered(old(model).spec_block_row(plan_id, x) as int, from as int, to as int)
            } else {
                old(model).spec_block_row(pid, x) as int
            },
{
    if from == to {
        return;
    }
    save.mark();
    let vis = visible_blocks(model, plan_id, scope);
    // Each shown block with its row before the drag.
    let mut moves: Vec<(WorkBlockId, i32)> = Vec::new();
    let mut i: usize = 0;
    while i < vis.len()
        invariant
            i <= vis@.len(),
            moves@.len() == i,
            forall|j: int| 0 <= j < i ==> #[trigger] moves@[j] == (vis@[j], model.spec_block_row(plan_id, vis@[j])),
        decreases vis.len() - i,
    {
        moves.push((vis[i], model.block_row(plan_id, vis[i])));
        i += 1;
    }
    let ghost m0 = *model;
    let ghost plans0 = model.plans@;
    let mut k: usize = 0;
    assert(vis@.take(0) =~= Seq::<WorkBlockId>::empty());
    while k < moves.len()
        invariant
            k <= moves@.len(),
            moves@.len() == vis@.len(),
            vis@ == visible_ids(&m0, plan_id, scope),
            forall|j: int| 0 <= j < moves@.len() ==> #[trigger] moves@[j] == (vis@[j], m0.spec_block_row(plan_id, vis@[j])),
            model.wf(),
            model.work_blocks == m0.work_blocks,
            model.dependencies == m0.dependencies,
            model.resource_blocks == m0.resource_blocks,
            model.calendar == m0.calendar,
            model.t_shirt_sizes == m0.t_shirt_sizes,
            model.next_id == m0.next_id,
            model.plans@.len() == plans0.len(),
            plans0 == m0.plans@,
            forall|q: int| 0 <= q < plans0.len() ==> #[trigger] same_but_rows(model.plans@[q], plans0[q]),
            forall|q: int| 0 <= q < plans0.len() && Some(q) != plan_index(plans0, plan_id)
                ==> #[trigger] model.plans@[q].block_rows == plans0[q].block_rows,
            forall|pid: PlanId, x: WorkBlockId| #![trigger model.spec_block_row(pid, x)]
                model.spec_block_row(pid, x) as int == if pid == plan_id && vis@.take(k as int).contains(x) {
                    reordered(m0.spec_block_row(plan_id, x) as int, from as int, to as int)
                } else {
                    m0.spec_block_row(pid, x) as int
                },
        decreases moves.len() - k,
    {
        let (id, row) = moves[k];
        let new_row = reordered_row(row, from, to);
        let ghost mk = *model;
        proof {
            assert(vis@.take(k + 1) =~= vis@.take(k as int).push(id));
            lemma_index_same_but_rows(plans0, mk.plans@, plan_id);
        }
        if new_row != row {
            model.set_block_row(plan_id, id, new_row);
            proof {
                assert forall|q: int| 0 <= q < plans0.len() implies #[trigger] same_but_rows(model.plans@[q], plans0[q]) by {
                    assert(same_but_rows(model.plans@[q], mk.plans@[q]));
                    assert(same_but_rows(mk.plans@[q], plans0[q]));
                }
                assert forall|q: int| 0 <= q < plans0.len() && Some(q) != plan_index(plans0, plan_id)
                    implies #[trigger] model.plans@[q].block_rows == plans0[q].block_rows by {
                    assert(same_but_rows(model.plans@[q], mk.plans@[q]));
                    assert(mk.plans@[q].block_rows == plans0[q].block_rows);
                }
                assert forall|pid: PlanId, x: WorkBlockId| #![trigger model.spec_block_row(pid, x)]
                    model.spec_block_row(pid, x) as int == if pid == plan_id && vis@.take(k + 1).contains(x) {
                        reordered(m0.spec_block_row(plan_id, x) as int, from as int, to as int)
                    } else {
                        m0.spec_block_row(pid, x) as int
                    } by {
                    assert(mk.spec_block_row(pid, x) as int == if pid == plan_id && vis@.take(k as int).contains(x) {
                        reordered(m0.spec_block_row(plan_id, x) as int, from as int, to as int)
                    } else {
                        m0.spec_block_row(pid, x) as int
                    });
                    if pid == plan_id && x == id {
                        assert(vis@.take(k + 1).contains(x)) by {
                            assert(vis@.take(k + 1)[k as int] == id);
                        }
                        if plan_index(mk.plans@, plan_id) is None {
                            lemma_plan_index(plans0, plan_id);
                        }
                    }
                }
            }
        } else {
            proof {
                assert forall|pid: PlanId, x: WorkBlockId| #![trigger model.spec_block_row(pid, x)]
                    model.spec_block_row(pid, x) as int == if pid == plan_id && vis@.take(k + 1).contains(x) {
                        reordered(m0.spec_block_row(plan_id, x) as int, from as int, to as int)
                    } else {
                        m0.spec_block_row(pid, x) as int
                    } by {
                    if pid == plan_id && x == id {
                        assert(vis@.take(k + 1)[k as int] == id);
                    }
                }
            }
        }
        k += 1;
    }
    assert(vis@.take(k as int) =~= vis@);
    let ghost m1 = *model;
    match model.plan_position(plan_id) {
        Some(p) => {
            let ghost before = model.plans@;
            let mut plan = model.plans.remove(p);
            reorder_scope_names(&mut plan, scope, from, to);
            model.plans.insert(p, plan);
            proof {
                assert(model.plans@ =~= before.update(p as int, plan));
                lemma_plan_index(before, plan_id);
                lemma_index_same_but_rows(plans0, before, plan_id);
                assert(same_but_rows(before[p as int], plans0[p as int]));
                assert forall|q: int| 0 <= q < model.plans@.len() implies (#[trigger] model.plans@[q]).id.0 < model.next_id by {
                    if q != p {
                        assert(model.plans@[q] == before[q]);
                    } else {
                        assert(same_but_rows(before[q], plans0[q]));
                        assert(m0.wf());
                        assert(plans0[q].id.0 < m0.next_id);
                    }
                }
                assert forall|pid: PlanId, x: WorkBlockId| #[trigger] model.spec_block_row(pid, x) == m1.spec_block_row(pid, x) by {
                    lemma_plan_index_same_ids(before, model.plans@, pid);
                    lemma_plan_index(before, pid);
                }
                assert forall|q: int| 0 <= q < plans0.len() && Some(q) != plan_index(plans0, plan_id)
                    implies #[trigger] model.plans@[q] == plans0[q] by {
                    assert(model.plans@[q] == before[q]);
                    assert(same_but_rows(before[q], plans0[q]));
                    assert(before[q].block_rows == plans0[q].block_rows);
                }
            }
        },
        None => {
            proof {
                lemma_index_same_but_rows(plans0, model.plans@, plan_id);
                assert forall|q: int| 0 <= q < plans0.len() && Some(q) != plan_index(plans0, plan_id)
                    implies #[trigger] model.plans@[q] == plans0[q] by {
                    assert(same_but_rows(model.plans@[q], plans0[q]));
                    assert(model.plans@[q].block_rows == plans0[q].block_rows);
                }
            }
        },
    }
}

// ── naming a row ────────────────────────────────────────────────────────────

/// The length of the row-name list of `scope` in plan `plan_id`, as the
/// `i32` bound the name search runs to (0 for an unknown plan).
pub open spec fn named_row_count(m: &Model, plan_id: PlanId, scope: Option<WorkBlockId>) -> i32 {
    match plan_index(m.plans@, plan_id) {
        Some(p) => scope_names(m.plans@[p].row_names@, scope).len() as i32,
        None => 0,
    }
}

/// Row `t` is where row `row` merges when it is named `name`: another row
/// whose shown name matches `name` ignoring ASCII case.
pub open spec fn merges_onto(m: &Model, plan_id: PlanId, scope: Option<WorkBlockId>, row: int, name: Seq<char>, t: int) -> bool {
    t != row && (m.spec_resolved_row_name(plan_id, scope, t) matches Some(n) && same_ignoring_case(n, name))
}

/// The first row from `k` below `count` that row `row` merges onto.
pub open spec fn first_merge_from(
    m: &Model,
    plan_id: PlanId,
    scope: Option<WorkBlockId>,
    row: int,
    name: Seq<char>,
    k: int,
    count: int,
) -> Option<int>
    decreases count - k,
{
    if k >= count {
        None
    } else if merges_onto(m, plan_id, scope, row, name, k) {
        Some(k)
    } else {
        first_merge_from(m, plan_id, scope, row, name, k + 1, count)
    }
}

/// The row that naming row `row` `name` merges it onto, if any: the first
/// named row of the scope whose shown name matches; none for an empty name.
pub open spec fn merge_target(m: &Model, plan_id: PlanId, scope: Option<WorkBlockId>, row: int, name: Seq<char>) -> Option<int> {
    if name.len() == 0 {
        None
    } else {
        first_merge_from(m, plan_id, scope, row, name, 0, named_row_count(m, plan_id, scope) as int)
    }
}

/// Renaming a row from `old_name` to `name` renames the resource: the old
/// name is registered and used by this row alone, the new one is neither
/// empty, the same up to case, nor registered.
pub open spec fn carries_registration(m: &Model, old_name: Seq<char>, name: Seq<char>) -> bool {
    &&& name.len() > 0
    &&& !same_ignoring_case(old_name, name)
    &&& resource_named(m.resource_blocks@, name) is None
    &&& resource_named(m.resource_blocks@, old_name) is Some
    &&& plans_matching(m.plans@, old_name) == 1
}

/// The length of the row-name list of `scope` in plan `plan_id`, as `i32`.
fn scope_name_count(model: &Model, plan_id: PlanId, scope: Option<WorkBlockId>) -> (r: i32)
    ensures
        r == named_row_count(model, plan_id, scope),
{
    let p = match model.plan_position(plan_id) {
        Some(p) => p,
        None => return 0,
    };
    let rn = &model.plans[p].row_names;
    proof {
        lemma_scope_index(rn@, scope);
    }
    let mut i: usize = 0;
    while i < rn.len()
        invariant
            i <= rn@.len(),
            plan_index(model.plans@, plan_id) == Some(p as int),
            rn@ == model.plans@[p as int].row_names@,
            forall|j: int| 0 <= j < i ==> rn@[j].scope != scope,
            match scope_index(rn@, scope) {
                Some(x) => 0 <= x < rn@.len() && rn@[x].scope == scope && forall|j: int| 0 <= j < x ==> rn@[j].scope != scope,
                None => forall|j: int| 0 <= j < rn@.len() ==> rn@[j].scope != scope,
            },
            match scope_index(rn@, scope) {
                Some(x) => scope_names(rn@, scope) == names_view(rn@[x].names@),
                None => scope_names(rn@, scope) == Seq::<Seq<char>>::empty(),
            },
        decreases rn.len() - i,
    {
        if rn[i].scope == scope {
            proof {
                lemma_scope_index(rn@, scope);
                assert(scope_index(rn@, scope) == Some(i as int));
                assert(scope_names(rn@, scope).len() == rn@[i as int].names@.len());
            }
            #[verifier::truncate]
            let n = rn[i].names.len() as i32;
            return n;
        }
        i += 1;
    }
    0
}

/// Names row `row` of `scope` in plan `plan_id` (nothing for an unknown plan).
fn set_plan_row_name(model: &mut Model, plan_id: PlanId, scope: Option<WorkBlockId>, row: i32, name: String)
    requires
        old(model).wf(),
    ensures
        final(model).wf(),
        final(model).work_blocks == old(model).work_blocks,
        final(model).dependencies == old(model).dependencies,
        final(model).resource_blocks == old(model).resource_blocks,
        final(model).calendar == old(model).calendar,
        final(model).t_shirt_sizes == old(model).t_shirt_sizes,
        final(model).next_id == old(model).next_id,
        final(model).plans@.len() == old(model).plans@.len(),
        forall|q: int| 0 <= q < old(model).plans@.len() && Some(q) != plan_index(old(model).plans@, plan_id)
            ==> #[trigger] final(model).plans@[q] == old(model).plans@[q],
        plan_index(old(model).plans@, plan_id) matches Some(p) ==> {
            &&& final(model).plans@[p].id == old(model).plans@[p].id
            &&& final(model).plans@[p].name == old(model).plans@[p].name
            &&& final(model).plans@[p].root_blocks == old(model).plans@[p].root_blocks
            &&& final(model).plans@[p].block_rows == old(model).plans@[p].block_rows
            &&& final(model).plans@[p].branch_start_day == old(model).plans@[p].branch_start_day
            &&& final(model).plans@[p].allocations == old(model).plans@[p].allocations
            &&& forall|sc: Option<WorkBlockId>, r: int| #![trigger final(model).plans@[p].spec_row_name(sc, r)]
                final(model).plans@[p].spec_row_name(sc, r) == if sc == scope && r == row && row >= 0 {
                    if name@.len() > 0 { Some(name@) } else { None }
                } else {
                    old(model).plans@[p].spec_row_name(sc, r)
                }
        },
{
    match model.plan_position(plan_id) {
        Some(p) => {
            let ghost before = model.plans@;
            let mut plan = model.plans.remove(p);
            plan.set_row_name(scope, row, name);
            model.plans.insert(p, plan);
            proof {
                assert(model.plans@ =~= before.update(p as int, plan));
                lemma_plan_index(before, plan_id);
                assert forall|q: int| 0 <= q < model.plans@.len() implies (#[trigger] model.plans@[q]).id.0 < model.next_id by {
                    if q != p {
                        assert(model.plans@[q] == before[q]);
                    }
                }
            }
        },
        None => {},
    }
}

/// Moves the blocks shown at `scope` that sit on `row` to row `target`.
fn move_row_blocks(model: &mut Model, plan_id: PlanId, scope: Option<WorkBlockId>, row: i32, target: i32)
    requires
        old(model).wf(),
    ensures
        final(model).wf(),
        final(model).work_blocks == old(model).work_blocks,
        final(model).dependencies == old(model).dependencies,
        final(model).resource_blocks == old(model).resource_blocks,
        final(model).calendar == old(model).calendar,
        final(model).t_shirt_sizes == old(model).t_shirt_sizes,
        final(model).next_id == old(model).next_id,
        final(model).plans@.len() == old(model).plans@.len(),
        forall|q: int| 0 <= q < old(model).plans@.len() ==> #[trigger] same_but_rows(final(model).plans@[q], old(model).plans@[q]),
        forall|q: int| 0 <= q < old(model).plans@.len() && Some(q) != plan_index(old(model).plans@, plan_id)
            ==> #[trigger] final(model).plans@[q] == old(model).plans@[q],
        forall|pid: PlanId, x: WorkBlockId| #![trigger final(model).spec_block_row(pid, x)]
            final(model).spec_block_row(pid, x) == if pid == plan_id && visible_ids(old(model), plan_id, scope).contains(x)
                && old(model).spec_block_row(plan_id, x) == row {
                target
            } else {
                old(model).spec_block_row(pid, x)
            },
{
    let vis = visible_blocks(model, plan_id, scope);
    let mut ids: Vec<WorkBlockId> = Vec::new();
    let mut i: usize = 0;
    let ghost keep = |x: WorkBlockId| model.spec_block_row(plan_id, x) == row;
    assert(vis@.take(0) =~= Seq::<WorkBlockId>::empty());
    while i < vis.len()
        invariant
            i <= vis@.len(),
            keep == (|x: WorkBlockId| model.spec_block_row(plan_id, x) == row),
            ids@ == vis@.take(i as int).filter(keep),
        decreases vis.len() - i,
    {
        proof {
            assert(vis@.take(i + 1) =~= vis@.take(i as int).push(vis@[i as int]));
            vis@.take(i as int).lemma_filter_push(vis@[i as int], keep);
        }
        if model.block_row(plan_id, vis[i]) == row {
            ids.push(vis[i]);
        }
        i += 1;
    }
    assert(vis@.take(i as int) =~= vis@);
    let ghost m0 = *model;
    let ghost plans0 = model.plans@;
    let mut k: usize = 0;
    assert(ids@.take(0) =~= Seq::<WorkBlockId>::empty());
    while k < ids.len()
        invariant
            k <= ids@.len(),
            ids@ == visible_ids(&m0, plan_id, scope).filter(keep),
            keep == (|x: WorkBlockId| m0.spec_block_row(plan_id, x) == row),
            model.wf(),
            model.work_blocks == m0.work_blocks,
            model.dependencies == m0.dependencies,
            model.resource_blocks == m0.resource_blocks,
            model.calendar == m0.calendar,
            model.t_shirt_sizes == m0.t_shirt_sizes,
            model.next_id == m0.next_id,
            model.plans@.len() == plans0.len(),
            plans0 == m0.plans@,
            forall|q: int| 0 <= q < plans0.len() ==> #[trigger] same_but_rows(model.plans@[q], plans0[q]),
            forall|q: int| 0 <= q < plans0.len() && Some(q) != plan_index(plans0, plan_id)
                ==> #[trigger] model.plans@[q].block_rows == plans0[q].block_rows,
            forall|pid: PlanId, x: WorkBlockId| #![trigger model.spec_block_row(pid, x)]
                model.spec_block_row(pid, x) == if pid == plan_id && ids@.take(k as int).contains(x)
                    && plan_index(plans0, plan_id) is Some {
                    target
                } else {
                    m0.spec_block_row(pid, x)
                },
        decreases ids.len() - k,
    {
        let id = ids[k];
        let ghost mk = *model;
        proof {
            assert(ids@.take(k + 1) =~= ids@.take(k as int).push(id));
            lemma_index_same_but_rows(plans0, mk.plans@, plan_id);
        }
        model.set_block_row(plan_id, id, target);
        proof {
            assert forall|q: int| 0 <= q < plans0.len() implies #[trigger] same_but_rows(model.plans@[q], plans0[q]) by {
                assert(same_but_rows(model.plans@[q], mk.plans@[q]));
                assert(same_but_rows(mk.plans@[q], plans0[q]));
            }
            assert forall|q: int| 0 <= q < plans0.len() && Some(q) != plan_index(plans0, plan_id)
                implies #[trigger] model.plans@[q].block_rows == plans0[q].block_rows by {
                assert(same_but_rows(model.plans@[q], mk.plans@[q]));
                assert(mk.plans@[q].block_rows == plans0[q].block_rows);
            }
            assert forall|pid: PlanId, x: WorkBlockId| #![trigger model.spec_block_row(pid, x)]
                model.spec_block_row(pid, x) == if pid == plan_id && ids@.take(k + 1).contains(x)
                    && plan_index(plans0, plan_id) is Some {
                    target
                } else {
                    m0.spec_block_row(pid, x)
                } by {
                assert(mk.spec_block_row(pid, x) == if pid == plan_id && ids@.take(k as int).contains(x)
                    && plan_index(plans0, plan_id) is Some {
                    target
                } else {
                    m0.spec_block_row(pid, x)
                });
                if x == id {
                    assert(ids@.take(k + 1)[k as int] == id);
                }
            }
        }
        k += 1;
    }
    proof {
        assert(ids@.take(k as int) =~= ids@);
        lemma_index_same_but_rows(plans0, model.plans@, plan_id);
        assert forall|q: int| 0 <= q < plans0.len() && Some(q) != plan_index(plans0, plan_id)
            implies #[trigger] model.plans@[q] == plans0[q] by {
            assert(same_but_rows(model.plans@[q], plans0[q]));
            assert(model.plans@[q].block_rows == plans0[q].block_rows);
        }
        assert forall|pid: PlanId, x: WorkBlockId| #![trigger model.spec_block_row(pid, x)]
            model.spec_block_row(pid, x) == if pid == plan_id && visible_ids(&m0, plan_id, scope).contains(x)
                && m0.spec_block_row(plan_id, x) == row {
                target
            } else {
                m0.spec_block_row(pid, x)
            } by {
            let v = visible_ids(&m0, plan_id, scope);
            let f = v.filter(keep);
            if pid == plan_id && v.contains(x) && m0.spec_block_row(plan_id, x) == row {
                let j = choose|j: int| 0 <= j < v.len() && v[j] == x;
                v.lemma_filter_contains(keep, j);
                if plan_index(plans0, plan_id) is None {
                    assert(v.len() == 0);
                }
            }
            if f.contains(x) {
                let j = choose|j: int| 0 <= j < f.len() && f[j] == x;
                v.lemma_filter_pred(keep, j);
                v.lemma_filter_contains_rev(keep, x);
            }
        }
    }
}

/// `after` is `before` with resource `i` renamed to `name`.
pub open spec fn resource_renamed(before: Seq<crate::model::ResourceBlock>, after: Seq<crate::model::ResourceBlock>, i: int, name: Seq<char>) -> bool {
    &&& after.len() == before.len()
    &&& after[i].id == before[i].id
    &&& after[i].name@ == name
    &&& after[i].resource_type == before[i].resource_type
    &&& after[i].non_working_dates == before[i].non_working_dates
    &&& forall|j: int| 0 <= j < before.len() && j != i ==> #[trigger] after[j] == before[j]
}

/// Whether naming row `row` `name` renames a resource: the row has its own
/// name, and that name carries its registration over.
pub open spec fn renames_resource(m: &Model, plan_id: PlanId, scope: Option<WorkBlockId>, row: int, name: Seq<char>) -> bool {
    match plan_index(m.plans@, plan_id) {
        Some(p) => match m.plans@[p].spec_row_name(scope, row) {
            Some(o) => carries_registration(m, o, name),
            None => false,
        },
        None => false,
    }
}

/// Applies a row rename: `raw` trimmed is the new name. If another named row
/// of the scope shows that name (ignoring ASCII case), the row merges into
/// it: its blocks move there and its own name is cleared. Otherwise the name
/// is stored for the row (an empty name clears it), and when the row was the
/// only user of a registered resource name and the new name is unregistered,
/// the resource is renamed with it. Either way a save is requested.
pub fn commit_row_name(model: &mut Model, save: &mut SaveRequest, plan_id: PlanId, scope: Option<WorkBlockId>, row: i32, raw: &str)
    requires
        old(model).wf(),
    ensures
        final(save).0,
        ({
            let name = trim_spec(raw@);
            let pi = plan_index(old(model).plans@, plan_id);
            &&& final(model).wf()
            &&& final(model).work_blocks == old(model).work_blocks
            &&& final(model).dependencies == old(model).dependencies
            &&& final(model).calendar == old(model).calendar
            &&& final(model).t_shirt_sizes == old(model).t_shirt_sizes
            &&& final(model).next_id == old(model).next_id
            &&& final(model).plans@.len() == old(model).plans@.len()
            &&& forall|q: int| 0 <= q < old(model).plans@.len() && Some(q) != pi
                ==> #[trigger] final(model).plans@[q] == old(model).plans@[q]
            &&& pi matches Some(p) ==> {
                &&& final(model).plans@[p].id == old(model).plans@[p].id
                &&& final(model).plans@[p].name == old(model).plans@[p].name
                &&& final(model).plans@[p].root_blocks == old(model).plans@[p].root_blocks
                &&& final(model).plans@[p].branch_start_day == old(model).plans@[p].branch_start_day
                &&& final(model).plans@[p].allocations == old(model).plans@[p].allocations
            }
            &&& match merge_target(old(model), plan_id, scope, row as int, name) {
                Some(t) => {
                    &&& final(model).resource_blocks == old(model).resource_blocks
                    &&& forall|pid: PlanId, x: WorkBlockId| #![trigger final(model).spec_block_row(pid, x)]
                        final(model).spec_block_row(pid, x) as int == if pid == plan_id
                            && visible_ids(old(model), plan_id, scope).contains(x)
                            && old(model).spec_block_row(plan_id, x) == row {
                            t
                        } else {
                            old(model).spec_block_row(pid, x) as int
                        }
                    &&& pi matches Some(p) ==> forall|sc: Option<WorkBlockId>, r: int|
                        #![trigger final(model).plans@[p].spec_row_name(sc, r)]
                        final(model).plans@[p].spec_row_name(sc, r) == if sc == scope && r == row && row >= 0 {
                            None
                        } else {
                            old(model).plans@[p].spec_row_name(sc, r)
                        }
                },
                None => {
                    &&& pi matches Some(p) ==> final(model).plans@[p].block_rows == old(model).plans@[p].block_rows
                    &&& pi matches Some(p) ==> forall|sc: Option<WorkBlockId>, r: int|
                        #![trigger final(model).plans@[p].spec_row_name(sc, r)]
                        final(model).plans@[p].spec_row_name(sc, r) == if sc == scope && r == row && row >= 0 {
                            if name.len() > 0 { Some(name) } else { None }
                        } else {
                            old(model).plans@[p].spec_row_name(sc, r)
                        }
                    &&& if renames_resource(old(model), plan_id, scope, row as int, name) {
                        resource_renamed(old(model).resource_blocks@, final(model).resource_blocks@,
                            resource_named(old(model).resource_blocks@,
                                old(model).plans@[pi.unwrap()].spec_row_name(scope, row as int).unwrap()).unwrap(), name)
                    } else {
                        final(model).resource_blocks == old(model).resource_blocks
                    }
                },
            }
        }),
{
    save.mark();
    let raw_chars = chars_of(raw);
    let trimmed = trim_chars(raw_chars.as_slice());
    let name = string_of(trimmed.as_slice());
    let ghost nm = trim_spec(raw@);
    assert(name@ == nm);
    // The row this name merges onto, if any.
    let mut target: Option<i32> = None;
    if trimmed.len() > 0 {
        let count = scope_name_count(model, plan_id, scope);
        let mut other: i32 = 0;
        while other < count
            invariant_except_break
                target is None,
                first_merge_from(model, plan_id, scope, row as int, nm, 0, count as int)
                    == first_merge_from(model, plan_id, scope, row as int, nm, other as int, count as int),
            invariant
                0 <= other,
                count == named_row_count(model, plan_id, scope),
                name@ == nm,
                nm.len() > 0,
            ensures
                target matches Some(t) ==> merge_target(model, plan_id, scope, row as int, nm) == Some(t as int),
                target is None ==> merge_target(model, plan_id, scope, row as int, nm) is None,
            decreases count - other,
        {
            if other != row {
                match model.resolved_row_name(plan_id, scope, other) {
                    Some(n) => {
                        if eq_ignore_ascii_case(n.as_str(), name.as_str()) {
                            target = Some(other);
                            break;
                        }
                    },
                    None => {},
                }
            }
            other += 1;
        }
        assert(target matches Some(t) ==> merge_target(model, plan_id, scope, row as int, nm) == Some(t as int));
        assert(target is None ==> merge_target(model, plan_id, scope, row as int, nm) is None);
    }
    let ghost m0 = *model;
    proof {
        lemma_plan_index(model.plans@, plan_id);
    }
    match target {
        Some(t) => {
            move_row_blocks(model, plan_id, scope, row, t);
            let ghost m1 = *model;
            proof {
                lemma_index_same_but_rows(m0.plans@, m1.plans@, plan_id);
            }
            set_plan_row_name(model, plan_id, scope, row, String::new());
            proof {
                assert forall|pid: PlanId, x: WorkBlockId| #[trigger] model.spec_block_row(pid, x) == m1.spec_block_row(pid, x) by {
                    lemma_plan_index_same_ids(m1.plans@, model.plans@, pid);
                    lemma_plan_index(m1.plans@, pid);
                }
                match plan_index(m0.plans@, plan_id) {
                    Some(p) => {
                        assert(same_but_rows(m1.plans@[p], m0.plans@[p]));
                    },
                    None => {},
                }
                assert forall|q: int| 0 <= q < m0.plans@.len() && Some(q) != plan_index(m0.plans@, plan_id)
                    implies #[trigger] model.plans@[q] == m0.plans@[q] by {}
            }
        },
        None => {
            let old_name: Option<String> = match model.plan_position(plan_id) {
                Some(p) => model.plans[p].row_name(scope, row),
                None => None,
            };
            match old_name {
                Some(o) => {
                    if trimmed.len() > 0 && !eq_ignore_ascii_case(o.as_str(), name.as_str())
                        && model.resource_by_name(name.as_str()).is_none()
                        && model.resource_by_name(o.as_str()).is_some()
                        && model.row_name_references(o.as_str()) == 1 {
                        model.rename_resource(o.as_str(), name.as_str());
                    }
                },
                None => {},
            }
            let ghost m1 = *model;
            proof {
                assert(m1.plans == m0.plans);
            }
            set_plan_row_name(model, plan_id, scope, row, name);
        },
    }
}

} // verus!
