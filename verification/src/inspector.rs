//! The block inspector's edits: committing the name and description
//! buffers, batch edits of priority and size over a selection, what a
//! selection shares, and undoing a batch edit.

use vstd::prelude::*;
use crate::model::{block_index, lemma_block_index, Day, Model, WorkBlock, WorkBlockId};
use crate::store::same_text;
use crate::text::{chars_of, string_of, trim_chars, trim_spec};

verus! {

// ── name and description ────────────────────────────────────────────────────

/// The inspector's buffers committed to block `b`: a name that is not blank
/// once trimmed replaces the block's (trimmed); the description is taken as
/// it stands.
pub open spec fn committed(b: WorkBlock, name_buf: Seq<char>, desc_buf: Seq<char>) -> (Seq<char>, Seq<char>) {
    let t = trim_spec(name_buf);
    (if t.len() > 0 { t } else { b.name@ }, desc_buf)
}

/// Commits the inspector's name and description buffers to block `id`. A
/// name that is blank once trimmed is ignored (a block keeps a name).
/// Returns whether anything changed, so the caller knows to save.
pub fn flush_inspector_buffers(model: &mut Model, id: WorkBlockId, name_buf: &str, desc_buf: &str) -> (changed: bool)
    ensures
        match block_index(old(model).work_blocks@, id) {
            None => !changed && *final(model) == *old(model),
            Some(i) => {
                let b = old(model).work_blocks@[i];
                let (name, desc) = committed(b, name_buf@, desc_buf@);
                &&& changed == (name != b.name@ || desc != b.description@)
                &&& final(model).work_blocks@.len() == old(model).work_blocks@.len()
                &&& forall|j: int| 0 <= j < old(model).work_blocks@.len() && j != i
                    ==> #[trigger] final(model).work_blocks@[j] == old(model).work_blocks@[j]
                &&& final(model).work_blocks@[i].name@ == name
                &&& final(model).work_blocks@[i].description@ == desc
                &&& final(model).work_blocks@[i].id == b.id
                &&& final(model).work_blocks@[i].parent == b.parent
                &&& final(model).work_blocks@[i].start_day == b.start_day
                &&& final(model).work_blocks@[i].duration_days == b.duration_days
                &&& final(model).work_blocks@[i].row == b.row
                &&& final(model).work_blocks@[i].priority == b.priority
                &&& final(model).work_blocks@[i].t_shirt_size == b.t_shirt_size
                &&& final(model).work_blocks@[i].rollup == b.rollup
                &&& final(model).dependencies == old(model).dependencies
                &&& final(model).plans == old(model).plans
                &&& final(model).resource_blocks == old(model).resource_blocks
                &&& final(model).calendar == old(model).calendar
                &&& final(model).t_shirt_sizes == old(model).t_shirt_sizes
                &&& final(model).next_id == old(model).next_id
            },
        },
{
    let i = match model.block_position(id) {
        Some(i) => i,
        None => return false,
    };
    let mut changed = false;
    let cs = chars_of(name_buf);
    let trimmed = trim_chars(cs.as_slice());
    if trimmed.len() > 0 {
        let t = string_of(trimmed.as_slice());
        if !same_text(model.work_blocks[i].name.as_str(), t.as_str()) {
            model.work_blocks[i].name = t;
            changed = true;
        }
    }
    if !same_text(model.work_blocks[i].description.as_str(), desc_buf) {
        model.work_blocks[i].description = String::from_str(desc_buf);
        changed = true;
    }
    changed
}

// ── batch edits ─────────────────────────────────────────────────────────────

/// Block `j` of `blocks` is the block its id names (its first entry).
pub open spec fn first_entry(blocks: Seq<WorkBlock>, j: int) -> bool {
    block_index(blocks, blocks[j].id) == Some(j)
}

/// `b` with a batch edit applied: a chosen size sets its duration and size
/// label; a chosen priority sets its priority.
pub open spec fn batch_edit_block(b: WorkBlock, size: Option<(String, Day)>, priority: Option<u8>) -> WorkBlock {
    let sized = match size {
        Some((label, days)) => WorkBlock { duration_days: days, t_shirt_size: Some(label), ..b },
        None => b,
    };
    match priority {
        Some(p) => WorkBlock { priority: p, ..sized },
        None => sized,
    }
}

/// The blocks after a batch edit of the blocks that `ids` name.
pub open spec fn batch_edited(blocks: Seq<WorkBlock>, ids: Seq<WorkBlockId>, size: Option<(String, Day)>, priority: Option<u8>) -> Seq<WorkBlock> {
    Seq::new(blocks.len(), |j: int| if first_entry(blocks, j) && ids.contains(blocks[j].id) {
        batch_edit_block(blocks[j], size, priority)
    } else {
        blocks[j]
    })
}

/// A block's fields that a batch edit changes, kept to undo it.
#[derive(Debug)]
pub struct BatchEditSnapshot {
    pub id: WorkBlockId,
    pub priority: u8,
    pub t_shirt_size: Option<String>,
    pub duration_days: Day,
}

pub open spec fn snapshot_of(b: WorkBlock) -> BatchEditSnapshot {
    BatchEditSnapshot { id: b.id, priority: b.priority, t_shirt_size: b.t_shirt_size, duration_days: b.duration_days }
}

/// The snapshots a batch edit of `ids` keeps: one per id that names a block.
pub open spec fn batch_snapshots(blocks: Seq<WorkBlock>, ids: Seq<WorkBlockId>) -> Seq<BatchEditSnapshot> {
    ids.filter(|id: WorkBlockId| block_index(blocks, id) is Some)
        .map_values(|id: WorkBlockId| snapshot_of(blocks[block_index(blocks, id).unwrap()]))
}

/// Index of the last snapshot of block `id` among the first `n`.
pub open spec fn last_snapshot(snaps: Seq<BatchEditSnapshot>, id: WorkBlockId, n: int) -> Option<int>
    decreases n,
{
    if n <= 0 {
        None
    } else if snaps[n - 1].id == id {
        Some(n - 1)
    } else {
        last_snapshot(snaps, id, n - 1)
    }
}

/// `b` with a snapshot's fields put back.
pub open spec fn restored_block(b: WorkBlock, s: BatchEditSnapshot) -> WorkBlock {
    WorkBlock { priority: s.priority, t_shirt_size: s.t_shirt_size, duration_days: s.duration_days, ..b }
}

/// The blocks with the snapshots put back, the last snapshot of a block
/// winning.
pub open spec fn batch_restored(blocks: Seq<WorkBlock>, snaps: Seq<BatchEditSnapshot>) -> Seq<WorkBlock> {
    Seq::new(blocks.len(), |j: int| if first_entry(blocks, j) {
        match last_snapshot(snaps, blocks[j].id, snaps.len() as int) {
            Some(k) => restored_block(blocks[j], snaps[k]),
            None => blocks[j],
        }
    } else {
        blocks[j]
    })
}

/// Whether `id` is among `ids`.
fn lists_id(ids: &Vec<WorkBlockId>, id: WorkBlockId) -> (r: bool)
    ensures
        r == ids@.contains(id),
{
    let mut i: usize = 0;
    while i < ids.len()
        invariant
            i <= ids@.len(),
            forall|j: int| 0 <= j < i ==> ids@[j] != id,
        decreases ids.len() - i,
    {
        if ids[i] == id {
            assert(ids@[i as int] == id);
            return true;
        }
        i += 1;
    }
    false
}

/// Whether block `j` is the first entry for its id.
fn is_first_entry(blocks: &Vec<WorkBlock>, j: usize) -> (r: bool)
    requires
        j < blocks@.len(),
    ensures
        r == first_entry(blocks@, j as int),
{
    proof {
        lemma_block_index(blocks@, blocks@[j as int].id);
    }
    let id = blocks[j].id;
    let mut i: usize = 0;
    while i < j
        invariant
            i <= j < blocks@.len(),
            id == blocks@[j as int].id,
            forall|k: int| 0 <= k < i ==> blocks@[k].id != id,
        decreases j - i,
    {
        if blocks[i].id == id {
            proof {
                lemma_block_index(blocks@, id);
                assert(blocks@[i as int].id == id);
            }
            return false;
        }
        i += 1;
    }
    true
}

/// The snapshots to keep before a batch edit of the blocks `ids` names.
pub fn batch_snapshot(model: &Model, ids: &Vec<WorkBlockId>) -> (r: Vec<BatchEditSnapshot>)
    ensures
        r@ == batch_snapshots(model.work_blocks@, ids@),
{
    let ghost blocks = model.work_blocks@;
    let ghost keep = |id: WorkBlockId| block_index(blocks, id) is Some;
    let ghost snap = |id: WorkBlockId| snapshot_of(blocks[block_index(blocks, id).unwrap()]);
    let mut out: Vec<BatchEditSnapshot> = Vec::new();
    let mut i: usize = 0;
    assert(ids@.take(0) =~= Seq::<WorkBlockId>::empty());
    while i < ids.len()
        invariant
            i <= ids@.len(),
            blocks == model.work_blocks@,
            keep == (|id: WorkBlockId| block_index(blocks, id) is Some),
            snap == (|id: WorkBlockId| snapshot_of(blocks[block_index(blocks, id).unwrap()])),
            out@ == ids@.take(i as int).filter(keep).map_values(snap),
        decreases ids.len() - i,
    {
        let id = ids[i];
        let ghost pre = ids@.take(i as int);
        proof {
            assert(ids@.take(i + 1) =~= pre.push(id));
            pre.lemma_filter_push(id, keep);
        }
        match model.block_position(id) {
            Some(b) => {
                let wb = &model.work_blocks[b];
                let size = match &wb.t_shirt_size {
                    Some(s) => Some(s.clone()),
                    None => None,
                };
                out.push(BatchEditSnapshot { id, priority: wb.priority, t_shirt_size: size, duration_days: wb.duration_days });
                assert(pre.filter(keep).push(id).map_values(snap) =~= pre.filter(keep).map_values(snap).push(snap(id)));
            },
            None => {},
        }
        i += 1;
    }
    assert(ids@.take(i as int) =~= ids@);
    out
}

/// Applies a batch edit to the blocks `ids` names: a chosen size (label and
/// days) sets each one's size and duration, a chosen priority its priority.
pub fn apply_batch_edit(model: &mut Model, ids: &Vec<WorkBlockId>, size: Option<(String, Day)>, priority: Option<u8>)
    ensures
        final(model).work_blocks@ == batch_edited(old(model).work_blocks@, ids@, size, priority),
        final(model).dependencies == old(model).dependencies,
        final(model).plans == old(model).plans,
        final(model).resource_blocks == old(model).resource_blocks,
        final(model).calendar == old(model).calendar,
        final(model).t_shirt_sizes == old(model).t_shirt_sizes,
        final(model).next_id == old(model).next_id,
{
    let ghost b0 = model.work_blocks@;
    let mut j: usize = 0;
    while j < model.work_blocks.len()
        invariant
            j <= model.work_blocks@.len(),
            model.work_blocks@.len() == b0.len(),
            forall|k: int| 0 <= k < b0.len() ==> (#[trigger] model.work_blocks@[k]).id == b0[k].id,
            forall|k: int| 0 <= k < j ==> #[trigger] model.work_blocks@[k] == batch_edited(b0, ids@, size, priority)[k],
            forall|k: int| j <= k < b0.len() ==> #[trigger] model.work_blocks@[k] == b0[k],
            model.dependencies == old(model).dependencies,
            model.plans == old(model).plans,
            model.resource_blocks == old(model).resource_blocks,
            model.calendar == old(model).calendar,
            model.t_shirt_sizes == old(model).t_shirt_sizes,
            model.next_id == old(model).next_id,
        decreases b0.len() - j,
    {
        let first = is_first_entry(&model.work_blocks, j);
        proof {
            assert(first == first_entry(b0, j as int)) by {
                assert forall|k: int| 0 <= k < b0.len() implies model.work_blocks@[k].id == b0[k].id by {}
                lemma_block_index(b0, b0[j as int].id);
                lemma_block_index(model.work_blocks@, b0[j as int].id);
            }
        }
        if first && lists_id(ids, model.work_blocks[j].id) {
            match &size {
                Some((label, days)) => {
                    model.work_blocks[j].duration_days = *days;
                    model.work_blocks[j].t_shirt_size = Some(label.clone());
                },
                None => {},
            }
            match priority {
                Some(p) => {
                    model.work_blocks[j].priority = p;
                },
                None => {},
            }
        }
        j += 1;
    }
    assert(model.work_blocks@ =~= batch_edited(b0, ids@, size, priority));
}

/// Undoes a batch edit: puts each snapshot's priority, size and duration
/// back on the block it was taken from.
pub fn restore_batch_edit(model: &mut Model, snaps: &Vec<BatchEditSnapshot>)
    ensures
        final(model).work_blocks@ == batch_restored(old(model).work_blocks@, snaps@),
        final(model).dependencies == old(model).dependencies,
        final(model).plans == old(model).plans,
        final(model).resource_blocks == old(model).resource_blocks,
        final(model).calendar == old(model).calendar,
        final(model).t_shirt_sizes == old(model).t_shirt_sizes,
        final(model).next_id == old(model).next_id,
{
    let ghost b0 = model.work_blocks@;
    let mut j: usize = 0;
    while j < model.work_blocks.len()
        invariant
            j <= model.work_blocks@.len(),
            model.work_blocks@.len() == b0.len(),
            forall|k: int| 0 <= k < b0.len() ==> (#[trigger] model.work_blocks@[k]).id == b0[k].id,
            forall|k: int| 0 <= k < j ==> #[trigger] model.work_blocks@[k] == batch_restored(b0, snaps@)[k],
            forall|k: int| j <= k < b0.len() ==> #[trigger] model.work_blocks@[k] == b0[k],
            model.dependencies == old(model).dependencies,
            model.plans == old(model).plans,
            model.resource_blocks == old(model).resource_blocks,
            model.calendar == old(model).calendar,
            model.t_shirt_sizes == old(model).t_shirt_sizes,
            model.next_id == old(model).next_id,
        decreases b0.len() - j,
    {
        let first = is_first_entry(&model.work_blocks, j);
        proof {
            assert(first == first_entry(b0, j as int)) by {
                assert forall|k: int| 0 <= k < b0.len() implies model.work_blocks@[k].id == b0[k].id by {}
                lemma_block_index(b0, b0[j as int].id);
                lemma_block_index(model.work_blocks@, b0[j as int].id);
            }
        }
        if first {
            let id = model.work_blocks[j].id;
            // The last snapshot of this block wins.
            let mut k: usize = snaps.len();
            let mut found: Option<usize> = None;
            while k > 0 && found.is_none()
                invariant
                    k <= snaps@.len(),
                    found is None ==> last_snapshot(snaps@, id, snaps@.len() as int) == last_snapshot(snaps@, id, k as int),
                    found matches Some(f) ==> last_snapshot(snaps@, id, snaps@.len() as int) == Some(f as int) && f < snaps@.len(),
                decreases k,
            {
                if snaps[k - 1].id == id {
                    found = Some(k - 1);
                }
                k -= 1;
            }
            proof {
                if found is None {
                    assert(k == 0);
                }
            }
            match found {
                Some(f) => {
                    let s = &snaps[f];
                    model.work_blocks[j].priority = s.priority;
                    model.work_blocks[j].t_shirt_size = match &s.t_shirt_size {
                        Some(t) => Some(t.clone()),
                        None => None,
                    };
                    model.work_blocks[j].duration_days = s.duration_days;
                },
                None => {},
            }
        }
        j += 1;
    }
    assert(model.work_blocks@ =~= batch_restored(b0, snaps@));
}

/// Undoing a batch edit with the snapshots taken before it gives back the
/// blocks as they were.
pub proof fn lemma_batch_undo_restores(
    blocks: Seq<WorkBlock>,
    ids: Seq<WorkBlockId>,
    size: Option<(String, Day)>,
    priority: Option<u8>,
)
    ensures
        batch_restored(batch_edited(blocks, ids, size, priority), batch_snapshots(blocks, ids)) == blocks,
{
    let edited = batch_edited(blocks, ids, size, priority);
    let snaps = batch_snapshots(blocks, ids);
    let keep = |id: WorkBlockId| block_index(blocks, id) is Some;
    let snap = |id: WorkBlockId| snapshot_of(blocks[block_index(blocks, id).unwrap()]);
    assert forall|k: int| 0 <= k < edited.len() implies (#[trigger] edited[k]).id == blocks[k].id by {}
    assert forall|x: WorkBlockId| block_index(edited, x) == block_index(blocks, x) by {
        lemma_same_ids_same_index(blocks, edited, x);
    }
    assert forall|j: int| 0 <= j < blocks.len() implies #[trigger] batch_restored(edited, snaps)[j] == blocks[j] by {
        let b = blocks[j];
        assert(first_entry(edited, j) == first_entry(blocks, j));
        if first_entry(blocks, j) {
            lemma_last_snapshot(blocks, ids, b.id);
            match last_snapshot(snaps, b.id, snaps.len() as int) {
                Some(k) => {
                    assert(snaps[k] == snapshot_of(b));
                    assert(ids.contains(b.id));
                },
                None => {
                    assert(!ids.contains(b.id));
                },
            }
        }
    }
    assert(batch_restored(edited, snaps) =~= blocks);
}

/// Blocks with the same ids at each position have the same first entries.
pub proof fn lemma_same_ids_same_index(a: Seq<WorkBlock>, b: Seq<WorkBlock>, x: WorkBlockId)
    requires
        a.len() == b.len(),
        forall|k: int| 0 <= k < a.len() ==> (#[trigger] b[k]).id == a[k].id,
    ensures
        block_index(a, x) == block_index(b, x),
    decreases a.len(),
{
    if a.len() > 0 {
        assert(b[0].id == a[0].id);
        assert forall|k: int| 0 <= k < a.drop_first().len() implies (#[trigger] b.drop_first()[k]).id == a.drop_first()[k].id by {
            assert(b.drop_first()[k] == b[k + 1]);
            assert(a.drop_first()[k] == a[k + 1]);
        }
        lemma_same_ids_same_index(a.drop_first(), b.drop_first(), x);
    }
}

/// The last snapshot of an existing block is the block's own snapshot, and
/// there is one exactly when the edit named the block.
proof fn lemma_last_snapshot(blocks: Seq<WorkBlock>, ids: Seq<WorkBlockId>, id: WorkBlockId)
    requires
        block_index(blocks, id) is Some,
    ensures
        ({
            let snaps = batch_snapshots(blocks, ids);
            match last_snapshot(snaps, id, snaps.len() as int) {
                Some(k) => 0 <= k < snaps.len() && snaps[k] == snapshot_of(blocks[block_index(blocks, id).unwrap()])
                    && ids.contains(id),
                None => !ids.contains(id),
            }
        }),
    decreases ids.len(),
{
    let keep = |x: WorkBlockId| block_index(blocks, x) is Some;
    let snap = |x: WorkBlockId| snapshot_of(blocks[block_index(blocks, x).unwrap()]);
    lemma_block_index(blocks, id);
    if ids.len() == 0 {
        assert(ids.filter(keep) =~= Seq::<WorkBlockId>::empty());
    } else {
        let pre = ids.drop_last();
        let x = ids.last();
        assert(ids =~= pre.push(x));
        pre.lemma_filter_push(x, keep);
        lemma_last_snapshot(blocks, pre, id);
        let before = batch_snapshots(blocks, pre);
        let snaps = batch_snapshots(blocks, ids);
        if keep(x) {
            assert(snaps =~= before.push(snap(x)));
            lemma_block_index(blocks, x);
            if x == id {
                assert(snaps[snaps.len() - 1] == snap(id));
            } else {
                assert(snaps[snaps.len() - 1].id == x) by {
                    assert(blocks[block_index(blocks, x).unwrap()].id == x);
                }
                assert(snaps.drop_last() =~= before);
                lemma_last_snapshot_prefix(before, snap(x), id);
            }
        } else {
            assert(snaps =~= before);
            assert(x != id);
        }
        if ids.contains(id) && !pre.contains(id) {
            assert(x == id) by {
                let w = choose|w: int| 0 <= w < ids.len() && ids[w] == id;
                if w < pre.len() {
                    assert(pre[w] == id);
                }
            }
        }
        if pre.contains(id) {
            let w = choose|w: int| 0 <= w < pre.len() && pre[w] == id;
            assert(ids[w] == id);
        }
    }
}

/// A snapshot of another block added last leaves a block's last snapshot
/// where it was.
proof fn lemma_last_snapshot_prefix(snaps: Seq<BatchEditSnapshot>, s: BatchEditSnapshot, id: WorkBlockId)
    requires
        s.id != id,
    ensures
        last_snapshot(snaps.push(s), id, snaps.len() + 1int) == last_snapshot(snaps, id, snaps.len() as int),
{
    lemma_last_snapshot_same(snaps.push(s), snaps, id, snaps.len() as int);
}

proof fn lemma_last_snapshot_same(a: Seq<BatchEditSnapshot>, b: Seq<BatchEditSnapshot>, id: WorkBlockId, n: int)
    requires
        0 <= n <= a.len(),
        n <= b.len(),
        forall|k: int| 0 <= k < n ==> a[k] == b[k],
    ensures
        last_snapshot(a, id, n) == last_snapshot(b, id, n),
    decreases n,
{
    if n > 0 {
        lemma_last_snapshot_same(a, b, id, n - 1);
    }
}

// ── what a selection shares ─────────────────────────────────────────────────

/// `Some(v)` when every value is `v`; `None` when they differ or there are none.
pub open spec fn unanimous_value<A>(values: Seq<A>) -> Option<A> {
    if values.len() > 0 && forall|k: int| 0 <= k < values.len() ==> #[trigger] values[k] == values[0] {
        Some(values[0])
    } else {
        None
    }
}

/// The priority every value shares, if any (none for no values).
pub fn unanimous_priority(values: &[u8]) -> (r: Option<u8>)
    ensures
        r == unanimous_value(values@),
{
    if values.len() == 0 {
        return None;
    }
    let first = values[0];
    let mut i: usize = 1;
    while i < values.len()
        invariant
            1 <= i <= values@.len(),
            first == values@[0],
            forall|k: int| 0 <= k < i ==> #[trigger] values@[k] == first,
        decreases values.len() - i,
    {
        if values[i] != first {
            return None;
        }
        i += 1;
    }
    Some(first)
}

/// A size label as text.
pub open spec fn size_view(s: Option<String>) -> Option<Seq<char>> {
    match s {
        Some(t) => Some(t@),
        None => None,
    }
}

/// The size label every value shares (which may be no label), if any
/// (none for no values).
pub fn unanimous_size(values: &[Option<String>]) -> (r: Option<Option<String>>)
    ensures
        match r {
            Some(v) => unanimous_value(values@.map_values(|s: Option<String>| size_view(s))) == Some(size_view(v)),
            None => unanimous_value(values@.map_values(|s: Option<String>| size_view(s))) is None,
        },
{
    let ghost vs = values@.map_values(|s: Option<String>| size_view(s));
    if values.len() == 0 {
        return None;
    }
    let mut i: usize = 1;
    while i < values.len()
        invariant
            1 <= i <= values@.len(),
            vs == values@.map_values(|s: Option<String>| size_view(s)),
            forall|k: int| 0 <= k < i ==> #[trigger] vs[k] == vs[0],
        decreases values.len() - i,
    {
        let same = match (&values[i], &values[0]) {
            (Some(a), Some(b)) => same_text(a.as_str(), b.as_str()),
            (None, None) => true,
            _ => false,
        };
        if !same {
            assert(vs[i as int] != vs[0]);
            return None;
        }
        i += 1;
    }
    match &values[0] {
        Some(t) => Some(Some(t.clone())),
        None => Some(None),
    }
}

} // verus!
