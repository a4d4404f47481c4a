//! Copying a selection: the selected blocks with every block below them,
//! their rows in the main plan, and the dependencies among them.

use vstd::prelude::*;
use crate::model::{block_index, first_main, lemma_block_index, Dependency, Model, PlanId, WorkBlock, WorkBlockId};

verus! {

/// Block id `c` is selected, or within `n` parent links below a selected
/// block: some block with id `c` has a parent that is.
pub open spec fn copied_within(blocks: Seq<WorkBlock>, sel: Seq<WorkBlockId>, c: WorkBlockId, n: nat) -> bool
    decreases n,
{
    sel.contains(c) || (n > 0 && exists|j: int| 0 <= j < blocks.len() && (#[trigger] blocks[j]).id == c
        && (blocks[j].parent matches Some(p) && copied_within(blocks, sel, p, (n - 1) as nat)))
}

/// Block id `c` belongs to the copy of `sel`: it is selected or below a
/// selected block.
pub open spec fn copied(blocks: Seq<WorkBlock>, sel: Seq<WorkBlockId>, c: WorkBlockId) -> bool {
    exists|n: nat| copied_within(blocks, sel, c, n)
}

/// The number of blocks whose id is not in `a`.
pub open spec fn outside(bs: Seq<WorkBlock>, a: Seq<WorkBlockId>) -> nat
    decreases bs.len(),
{
    if bs.len() == 0 {
        0
    } else {
        outside(bs.drop_last(), a) + if a.contains(bs.last().id) { 0nat } else { 1nat }
    }
}

proof fn lemma_outside_grow(bs: Seq<WorkBlock>, a: Seq<WorkBlockId>, x: WorkBlockId)
    ensures
        outside(bs, a.push(x)) <= outside(bs, a),
        (exists|j: int| 0 <= j < bs.len() && (#[trigger] bs[j]).id == x && !a.contains(x))
            ==> outside(bs, a.push(x)) < outside(bs, a),
    decreases bs.len(),
{
    if bs.len() > 0 {
        let pre = bs.drop_last();
        lemma_outside_grow(pre, a, x);
        let y = bs.last().id;
        assert(a.contains(y) ==> a.push(x).contains(y)) by {
            if a.contains(y) {
                let w = choose|w: int| 0 <= w < a.len() && a[w] == y;
                assert(a.push(x)[w] == y);
            }
        }
        assert(a.push(x)[a.len() as int] == x);
        if exists|j: int| 0 <= j < bs.len() && (#[trigger] bs[j]).id == x && !a.contains(x) {
            let j = choose|j: int| 0 <= j < bs.len() && (#[trigger] bs[j]).id == x && !a.contains(x);
            if j < pre.len() {
                assert(pre[j] == bs[j]);
            }
        }
    }
}

proof fn lemma_copied_step(blocks: Seq<WorkBlock>, sel: Seq<WorkBlockId>, j: int, p: WorkBlockId)
    requires
        0 <= j < blocks.len(),
        blocks[j].parent == Some(p),
        copied(blocks, sel, p),
    ensures
        copied(blocks, sel, blocks[j].id),
{
    let n = choose|n: nat| copied_within(blocks, sel, p, n);
    assert(copied_within(blocks, sel, blocks[j].id, n + 1));
}

/// Whether `id` is among `ids`.
fn holds(ids: &Vec<WorkBlockId>, id: WorkBlockId) -> (r: bool)
    ensures
        r == ids@.contains(id),
{
    let mut i: usize = 0;
    while i < ids.len()
        invariant
            i <= ids@.len(),
            forall|j: int| 0 <= j < i ==> ids@[j] != id,
        decreases ids.len() - i,
    {
        if ids[i] == id {
            assert(ids@[i as int] == id);
            return true;
        }
        i += 1;
    }
    false
}

/// The ids a copy of `sel` takes: the selected ids and, transitively, the
/// ids of blocks whose parent is among them; each once.
pub fn copy_ids(model: &Model, sel: &Vec<WorkBlockId>) -> (r: Vec<WorkBlockId>)
    ensures
        r@.no_duplicates(),
        forall|c: WorkBlockId| sel@.contains(c) ==> r@.contains(c),
        forall|j: int| 0 <= j < model.work_blocks@.len() && (#[trigger] model.work_blocks@[j]).parent is Some
            && r@.contains(model.work_blocks@[j].parent.unwrap()) ==> r@.contains(model.work_blocks@[j].id),
        forall|c: WorkBlockId| r@.contains(c) ==> copied(model.work_blocks@, sel@, c),
{
    let ghost blocks = model.work_blocks@;
    let mut all: Vec<WorkBlockId> = Vec::new();
    let mut i: usize = 0;
    while i < sel.len()
        invariant
            i <= sel@.len(),
            all@.no_duplicates(),
            forall|k: int| 0 <= k < i ==> all@.contains(#[trigger] sel@[k]),
            forall|c: WorkBlockId| all@.contains(c) ==> sel@.contains(c),
        decreases sel.len() - i,
    {
        let s = sel[i];
        if !holds(&all, s) {
            let ghost before = all@;
            all.push(s);
            proof {
                assert forall|c: WorkBlockId| all@.contains(c) implies before.contains(c) || c == s by {
                    let w = choose|w: int| 0 <= w < all@.len() && all@[w] == c;
                    if w < before.len() {
                        assert(before[w] == c);
                    }
                }
                assert forall|k: int| 0 <= k < i + 1 implies all@.contains(#[trigger] sel@[k]) by {
                    if k < i {
                        let w = choose|w: int| 0 <= w < before.len() && before[w] == sel@[k];
                        assert(all@[w] == sel@[k]);
                    } else {
                        assert(all@[before.len() as int] == s);
                    }
                }
            }
        }
        i += 1;
    }
    proof {
        assert forall|c: WorkBlockId| all@.contains(c) implies copied(blocks, sel@, c) by {
            assert(copied_within(blocks, sel@, c, 0));
        }
        assert forall|c: WorkBlockId| sel@.contains(c) implies all@.contains(c) by {
            let k = choose|k: int| 0 <= k < sel@.len() && sel@[k] == c;
        }
    }
    loop
        invariant
            blocks == model.work_blocks@,
            all@.no_duplicates(),
            forall|c: WorkBlockId| sel@.contains(c) ==> all@.contains(c),
            forall|c: WorkBlockId| all@.contains(c) ==> copied(blocks, sel@, c),
        ensures
            all@.no_duplicates(),
            forall|c: WorkBlockId| sel@.contains(c) ==> all@.contains(c),
            forall|c: WorkBlockId| all@.contains(c) ==> copied(blocks, sel@, c),
            forall|j: int| 0 <= j < blocks.len() && (#[trigger] blocks[j]).parent is Some
                && all@.contains(blocks[j].parent.unwrap()) ==> all@.contains(blocks[j].id),
        decreases outside(blocks, all@),
    {
        let ghost start = all@;
        let mut grew = false;
        let mut j: usize = 0;
        while j < model.work_blocks.len()
            invariant
                blocks == model.work_blocks@,
                j <= blocks.len(),
                all@.no_duplicates(),
                forall|c: WorkBlockId| start.contains(c) ==> all@.contains(c),
                forall|c: WorkBlockId| sel@.contains(c) ==> all@.contains(c),
                forall|c: WorkBlockId| all@.contains(c) ==> copied(blocks, sel@, c),
                outside(blocks, all@) <= outside(blocks, start),
                grew ==> outside(blocks, all@) < outside(blocks, start),
                !grew ==> all@ == start,
                !grew ==> forall|q: int| 0 <= q < j && (#[trigger] blocks[q]).parent is Some
                    && all@.contains(blocks[q].parent.unwrap()) ==> all@.contains(blocks[q].id),
            decreases blocks.len() - j,
        {
            let wb = &model.work_blocks[j];
            match wb.parent {
                Some(p) => {
                    if holds(&all, p) && !holds(&all, wb.id) {
                        let ghost before = all@;
                        let id = wb.id;
                        all.push(id);
                        proof {
                            assert(before.contains(p));
                            assert(copied(blocks, sel@, p));
                            assert(blocks[j as int].parent == Some(p));
                            lemma_copied_step(blocks, sel@, j as int, p);
                            lemma_outside_grow(blocks, before, id);
                            assert(blocks[j as int].id == id);
                            assert(copied(blocks, sel@, id));
                            assert forall|c: WorkBlockId| all@.contains(c) implies before.contains(c) || c == id by {
                                let w = choose|w: int| 0 <= w < all@.len() && all@[w] == c;
                                if w < before.len() {
                                    assert(before[w] == c);
                                }
                            }
                            assert forall|c: WorkBlockId| before.contains(c) implies all@.contains(c) by {
                                let w = choose|w: int| 0 <= w < before.len() && before[w] == c;
                                assert(all@[w] == c);
                            }
                            assert forall|c: WorkBlockId| all@.contains(c) implies copied(blocks, sel@, c) by {
                                if c != id {
                                    assert(before.contains(c));
                                }
                            }
                        }
                        grew = true;
                    }
                },
                None => {},
            }
            j += 1;
        }
        if !grew {
            break;
        }
    }
    all
}

/// The row of block `id` in plan `plan` when there is one, else 0.
pub open spec fn copy_row(model: Model, plan: Option<PlanId>, id: WorkBlockId) -> i32 {
    match plan {
        Some(p) => model.spec_block_row(p, id),
        None => 0,
    }
}

/// Entries ordered by start day.
pub open spec fn by_start(v: Seq<(WorkBlock, i32)>) -> bool {
    forall|a: int, b: int| 0 <= a < b < v.len() ==> v[a].0.start_day <= v[b].0.start_day
}

/// Entry `e` copies the block one of the first `k` of `ids` names, with
/// its row in plan `main`.
pub open spec fn in_copy(model: Model, blocks: Seq<WorkBlock>, main: Option<PlanId>, ids: Seq<WorkBlockId>, k: int, e: (WorkBlock, i32)) -> bool {
    &&& exists|t: int| 0 <= t < k && ids[t] == e.0.id
    &&& block_index(blocks, e.0.id) matches Some(i) && e.0 == blocks[i]
    &&& e.1 == copy_row(model, main, e.0.id)
}

/// Inserts `item` after the entries that start no later than it; returns
/// its position.
fn insert_by_start(v: &mut Vec<(WorkBlock, i32)>, item: (WorkBlock, i32)) -> (q: usize)
    requires
        by_start(old(v)@),
    ensures
        q <= old(v)@.len(),
        final(v)@ == old(v)@.insert(q as int, item),
        by_start(final(v)@),
{
    let mut q: usize = 0;
    while q < v.len() && v[q].0.start_day <= item.0.start_day
        invariant
            q <= v@.len(),
            forall|a: int| 0 <= a < q ==> v@[a].0.start_day <= item.0.start_day,
        decreases v.len() - q,
    {
        q += 1;
    }
    let ghost before = v@;
    v.insert(q, item);
    proof {
        assert forall|a: int, b: int| 0 <= a < b < v@.len() implies v@[a].0.start_day <= v@[b].0.start_day by {
            let oa = if a < q { a } else { a - 1 };
            let ob = if b < q { b } else { b - 1 };
            if a == q {
                if q < before.len() {
                    assert(before[q as int].0.start_day > item.0.start_day);
                    assert(before[q as int].0.start_day <= before[ob].0.start_day || ob == q);
                }
            } else if b == q {
                assert(v@[a] == before[a]);
            } else {
                assert(v@[a] == before[oa] && v@[b] == before[ob]);
            }
        }
    }
    q
}

/// Copies the selection: every block it takes (see `copy_ids`) with its
/// row in the main plan (0 without one), ordered by start day, and the
/// dependencies whose both ends it takes.
pub fn copy_selection(model: &Model, sel: &Vec<WorkBlockId>) -> (r: (Vec<(WorkBlock, i32)>, Vec<Dependency>))
    ensures
        ({
            let main = match first_main(model.plans@) {
                Some(i) => Some(model.plans@[i].id),
                None => None::<PlanId>,
            };
            let blocks = model.work_blocks@;
            let taken = |c: WorkBlockId| copied(blocks, sel@, c);
            &&& forall|k: int| 0 <= k < r.0@.len() ==> {
                let id = (#[trigger] r.0@[k]).0.id;
                &&& taken(id)
                &&& block_index(blocks, id) matches Some(i) && r.0@[k].0 == blocks[i]
                &&& r.0@[k].1 == copy_row(*model, main, id)
            }
            &&& forall|j: int| 0 <= j < blocks.len() && taken(#[trigger] blocks[j].id)
                ==> exists|k: int| 0 <= k < r.0@.len() && r.0@[k].0.id == blocks[j].id
            &&& forall|a: int, b: int| 0 <= a < b < r.0@.len() ==> r.0@[a].0.id != r.0@[b].0.id
            &&& forall|a: int, b: int| 0 <= a < b < r.0@.len() ==> r.0@[a].0.start_day <= r.0@[b].0.start_day
            &&& r.1@ == model.dependencies@.filter(|d: Dependency| taken(d.predecessor) && taken(d.successor))
        }),
{
    let ids = copy_ids(model, sel);
    let main = model.main_plan_id();
    let ghost blocks = model.work_blocks@;
    let ghost taken = |c: WorkBlockId| copied(blocks, sel@, c);
    proof {
        assert forall|c: WorkBlockId| taken(c) implies ids@.contains(c) by {
            let n = choose|n: nat| copied_within(blocks, sel@, c, n);
            lemma_closed_has_copied(blocks, sel@, ids@, c, n);
        }
    }
    // Blocks, kept ordered by start day as they are inserted.
    let mut out: Vec<(WorkBlock, i32)> = Vec::new();
    let mut k: usize = 0;
    while k < ids.len()
        invariant
            k <= ids@.len(),
            blocks == model.work_blocks@,
            ids@.no_duplicates(),
            forall|c: WorkBlockId| ids@.contains(c) <==> taken(c),
            main == match first_main(model.plans@) {
                Some(i) => Some(model.plans@[i].id),
                None => None::<PlanId>,
            },
            forall|q: int| 0 <= q < out@.len() ==> in_copy(*model, blocks, main, ids@, k as int, #[trigger] out@[q]),
            forall|t: int| 0 <= t < k && block_index(blocks, #[trigger] ids@[t]) is Some
                ==> exists|q: int| 0 <= q < out@.len() && out@[q].0.id == ids@[t],
            forall|a: int, b: int| 0 <= a < b < out@.len() ==> out@[a].0.id != out@[b].0.id,
            by_start(out@),
        decreases ids.len() - k,
    {
        let id = ids[k];
        match model.block_position(id) {
            Some(i) => {
                let wb = model.work_blocks[i].clone();
                let row = match main {
                    Some(p) => model.block_row(p, id),
                    None => 0,
                };
                let ghost before = out@;
                let ghost item = (wb, row);
                proof {
                    assert(ids@.contains(id));
                    assert forall|a: int| 0 <= a < before.len() implies before[a].0.id != id by {
                        assert(in_copy(*model, blocks, main, ids@, k as int, before[a]));
                        let t = choose|t: int| 0 <= t < k && ids@[t] == before[a].0.id;
                        assert(ids@[t] != ids@[k as int]);
                    }
                    assert(in_copy(*model, blocks, main, ids@, k + 1, item)) by {
                        assert(ids@[k as int] == id);
                    }
                    assert forall|q: int| 0 <= q < before.len() implies in_copy(*model, blocks, main, ids@, k + 1, #[trigger] before[q]) by {
                        assert(in_copy(*model, blocks, main, ids@, k as int, before[q]));
                        let t = choose|t: int| 0 <= t < k && ids@[t] == before[q].0.id;
                        assert(0 <= t < k + 1 && ids@[t] == before[q].0.id);
                    }
                }
                let q = insert_by_start(&mut out, (wb, row));
                proof {
                    assert forall|a: int| 0 <= a < out@.len() implies in_copy(*model, blocks, main, ids@, k + 1, #[trigger] out@[a]) by {
                        if a < q {
                            assert(out@[a] == before[a]);
                        } else if a > q {
                            assert(out@[a] == before[a - 1]);
                        }
                    }
                    assert forall|a: int, b: int| 0 <= a < b < out@.len() implies out@[a].0.id != out@[b].0.id by {
                        let oa = if a < q { a } else if a == q { -1 } else { a - 1 };
                        let ob = if b < q { b } else if b == q { -1 } else { b - 1 };
                        if oa >= 0 && ob >= 0 {
                            assert(out@[a] == before[oa] && out@[b] == before[ob]);
                        } else if oa >= 0 {
                            assert(out@[a] == before[oa]);
                        } else if ob >= 0 {
                            assert(out@[b] == before[ob]);
                        }
                    }
                    assert forall|t: int| 0 <= t < k + 1 && block_index(blocks, #[trigger] ids@[t]) is Some
                        implies exists|x: int| 0 <= x < out@.len() && out@[x].0.id == ids@[t] by {
                        if t == k {
                            assert(out@[q as int].0.id == ids@[t]);
                        } else {
                            let x = choose|x: int| 0 <= x < before.len() && before[x].0.id == ids@[t];
                            if x < q {
                                assert(out@[x].0.id == ids@[t]);
                            } else {
                                assert(out@[x + 1].0.id == ids@[t]);
                            }
                        }
                    }
                }
            },
            None => {
                proof {
                    assert forall|q: int| 0 <= q < out@.len() implies in_copy(*model, blocks, main, ids@, k + 1, #[trigger] out@[q]) by {
                        assert(in_copy(*model, blocks, main, ids@, k as int, out@[q]));
                        let t = choose|t: int| 0 <= t < k && ids@[t] == out@[q].0.id;
                        assert(0 <= t < k + 1 && ids@[t] == out@[q].0.id);
                    }
                }
            },
        }
        k += 1;
    }
    proof {
        assert forall|j: int| 0 <= j < blocks.len() && taken(#[trigger] blocks[j].id)
            implies exists|x: int| 0 <= x < out@.len() && out@[x].0.id == blocks[j].id by {
            let c = blocks[j].id;
            assert(ids@.contains(c));
            let t = choose|t: int| 0 <= t < ids@.len() && ids@[t] == c;
            lemma_block_index(blocks, c);
            assert(block_index(blocks, ids@[t]) is Some);
        }
    }
    // Dependencies with both ends taken.
    let ghost keep = |d: Dependency| taken(d.predecessor) && taken(d.successor);
    let mut deps: Vec<Dependency> = Vec::new();
    let mut e: usize = 0;
    assert(model.dependencies@.take(0) =~= Seq::<Dependency>::empty());
    while e < model.dependencies.len()
        invariant
            e <= model.dependencies@.len(),
            blocks == model.work_blocks@,
            forall|c: WorkBlockId| ids@.contains(c) <==> taken(c),
            keep == (|d: Dependency| taken(d.predecessor) && taken(d.successor)),
            deps@ == model.dependencies@.take(e as int).filter(keep),
        decreases model.dependencies.len() - e,
    {
        let d = &model.dependencies[e];
        proof {
            assert(model.dependencies@.take(e + 1) =~= model.dependencies@.take(e as int).push(*d));
            model.dependencies@.take(e as int).lemma_filter_push(*d, keep);
        }
        if holds(&ids, d.predecessor) && holds(&ids, d.successor) {
            deps.push(d.clone());
        }
        e += 1;
    }
    assert(model.dependencies@.take(e as int) =~= model.dependencies@);
    proof {
        assert forall|q: int| 0 <= q < out@.len() implies {
            let id = (#[trigger] out@[q]).0.id;
            &&& taken(id)
            &&& block_index(blocks, id) matches Some(i) && out@[q].0 == blocks[i]
            &&& out@[q].1 == copy_row(*model, main, id)
        } by {
            assert(in_copy(*model, blocks, main, ids@, ids@.len() as int, out@[q]));
            let t = choose|t: int| 0 <= t < ids@.len() && ids@[t] == out@[q].0.id;
            assert(ids@.contains(out@[q].0.id));
        }
    }
    (out, deps)
}

/// A set holding the selection and closed under parent links holds every
/// block of the copy.
proof fn lemma_closed_has_copied(blocks: Seq<WorkBlock>, sel: Seq<WorkBlockId>, all: Seq<WorkBlockId>, c: WorkBlockId, n: nat)
    requires
        forall|x: WorkBlockId| sel.contains(x) ==> all.contains(x),
        forall|j: int| 0 <= j < blocks.len() && (#[trigger] blocks[j]).parent is Some
            && all.contains(blocks[j].parent.unwrap()) ==> all.contains(blocks[j].id),
        copied_within(blocks, sel, c, n),
    ensures
        all.contains(c),
    decreases n,
{
    if !sel.contains(c) {
        let j = choose|j: int| 0 <= j < blocks.len() && (#[trigger] blocks[j]).id == c
            && (blocks[j].parent matches Some(p) && copied_within(blocks, sel, p, (n - 1) as nat));
        let p = blocks[j].parent.unwrap();
        lemma_closed_has_copied(blocks, sel, all, p, (n - 1) as nat);
    }
}

} // verus!
