//! The flow view of a plan: one stream per top-level block, as thick on a
//! day as the number of its leaf blocks active that day. Each leaf is a
//! ribbon coloured by its resource; ribbons pack upward as neighbours finish.
//! Everything here is in days and levels; drawing maps them to pixels.

use vstd::prelude::*;
use crate::model::{
    block_index, lemma_block_index, lemma_plan_index, plan_index, Day, Model, PlanId, WorkBlock, WorkBlockId,
    EVENTS_ROW,
};
use crate::rows::lasts;
use crate::sorting::{insert_sorted_by, lemma_filter_sorted, lemma_insert_sorted_at, lemma_sort_by_sorted, sort_by, strict_order};
use crate::store::same_text;
use crate::text::{chars_of, i64_text, push_text, signed_decimal_text};

verus! {

/// One stream: a top-level block and the band of units it takes.
#[derive(Debug, PartialEq)]
pub struct FlowLane {
    pub root: WorkBlockId,
    pub name: String,
    /// First unit of this lane in the stacked layout.
    pub base_unit: i32,
    /// Height in units: the stream's largest number of concurrent leaves (at least 1).
    pub height: i32,
}

/// One ribbon piece: `leaf` drawn at `level` of lane `lane` over the days
/// `[day0, day1)`.
#[derive(Debug, PartialEq)]
pub struct FlowRun {
    pub leaf: WorkBlockId,
    /// Index of the leaf's resource in `FlowLayout::resources`.
    pub resource: usize,
    pub day0: Day,
    pub day1: Day,
    pub lane: usize,
    pub level: i32,
}

/// The flow layout of one plan.
#[derive(Debug)]
pub struct FlowLayout {
    pub lanes: Vec<FlowLane>,
    pub runs: Vec<FlowRun>,
    /// Distinct resource names, sorted ignoring case; a ribbon's colour is
    /// its resource's index here.
    pub resources: Vec<String>,
}

impl Default for FlowLayout {
    fn default() -> (r: Self)
        ensures
            r.lanes@.len() == 0,
            r.runs@.len() == 0,
            r.resources@.len() == 0,
    {
        FlowLayout { lanes: Vec::new(), runs: Vec::new(), resources: Vec::new() }
    }
}

// ── streams ─────────────────────────────────────────────────────────────────

/// The start day of block `id` (0 when it does not exist).
pub open spec fn start_of(blocks: Seq<WorkBlock>, id: WorkBlockId) -> int {
    match block_index(blocks, id) {
        Some(i) => blocks[i].start_day as int,
        None => 0,
    }
}

/// Streams are ordered like the plan view: by row, then start day, then id.
pub open spec fn stream_before(m: &Model, plan_id: PlanId) -> spec_fn(WorkBlockId, WorkBlockId) -> bool {
    |a: WorkBlockId, b: WorkBlockId| {
        let (ra, rb) = (m.spec_block_row(plan_id, a) as int, m.spec_block_row(plan_id, b) as int);
        let (sa, sb) = (start_of(m.work_blocks@, a), start_of(m.work_blocks@, b));
        ra < rb || (ra == rb && (sa < sb || (sa == sb && a.0 < b.0)))
    }
}

/// The plan's streams: its top-level blocks not on the events row, in
/// plan-view order.
pub open spec fn stream_roots(m: &Model, plan_id: PlanId) -> Seq<WorkBlockId> {
    match plan_index(m.plans@, plan_id) {
        Some(p) => sort_by(
            stream_before(m, plan_id),
            m.plans@[p].root_blocks@.filter(|id: WorkBlockId| m.spec_block_row(plan_id, id) != EVENTS_ROW),
        ),
        None => Seq::empty(),
    }
}

/// The start day of block `id` (0 when it does not exist).
fn block_start(model: &Model, id: WorkBlockId) -> (r: i32)
    ensures
        r == start_of(model.work_blocks@, id),
{
    match model.block_position(id) {
        Some(i) => model.work_blocks[i].start_day,
        None => 0,
    }
}

/// Whether stream `a` comes before stream `b`.
fn comes_before(model: &Model, plan_id: PlanId, a: WorkBlockId, b: WorkBlockId) -> (r: bool)
    ensures
        r == (stream_before(model, plan_id))(a, b),
{
    let ra = model.block_row(plan_id, a);
    let rb = model.block_row(plan_id, b);
    let sa = block_start(model, a);
    let sb = block_start(model, b);
    ra < rb || (ra == rb && (sa < sb || (sa == sb && a.0 < b.0)))
}

/// The plan's streams in plan-view order.
fn streams_of(model: &Model, plan_id: PlanId) -> (r: Vec<WorkBlockId>)
    ensures
        r@ == stream_roots(model, plan_id),
{
    let p = match model.plan_position(plan_id) {
        Some(p) => p,
        None => return Vec::new(),
    };
    let roots = &model.plans[p].root_blocks;
    let ghost keep = |id: WorkBlockId| model.spec_block_row(plan_id, id) != EVENTS_ROW;
    let ghost lt = stream_before(model, plan_id);
    let mut sorted: Vec<WorkBlockId> = Vec::new();
    let mut i: usize = 0;
    assert(roots@.take(0) =~= Seq::<WorkBlockId>::empty());
    while i < roots.len()
        invariant
            i <= roots@.len(),
            roots@ == model.plans@[p as int].root_blocks@,
            keep == (|id: WorkBlockId| model.spec_block_row(plan_id, id) != EVENTS_ROW),
            lt == stream_before(model, plan_id),
            sorted@ == sort_by(lt, roots@.take(i as int).filter(keep)),
        decreases roots.len() - i,
    {
        let x = roots[i];
        let ghost pre = roots@.take(i as int);
        proof {
            assert(roots@.take(i + 1) =~= pre.push(x));
            pre.lemma_filter_push(x, keep);
        }
        if model.block_row(plan_id, x) != EVENTS_ROW {
            let mut q: usize = 0;
            while q < sorted.len() && !comes_before(model, plan_id, x, sorted[q])
                invariant
                    q <= sorted@.len(),
                    lt == stream_before(model, plan_id),
                    forall|j: int| 0 <= j < q ==> !lt(x, #[trigger] sorted@[j]),
                decreases sorted.len() - q,
            {
                q += 1;
            }
            proof {
                lemma_insert_sorted_at(lt, x, sorted@, q as int);
                assert(pre.push(x).filter(keep) == pre.filter(keep).push(x));
                assert(pre.filter(keep).push(x).drop_last() =~= pre.filter(keep));
            }
            sorted.insert(q, x);
            assert(sorted@ =~= insert_sorted_by(lt, x, sort_by(lt, pre.filter(keep))));
        }
        i += 1;
    }
    assert(roots@.take(i as int) =~= roots@);
    sorted
}

// ── leaves ──────────────────────────────────────────────────────────────────

/// The children of block `id`, in block order.
pub open spec fn kids(blocks: Seq<WorkBlock>, id: WorkBlockId) -> Seq<WorkBlockId> {
    blocks.filter(|b: WorkBlock| b.parent == Some(id)).map_values(|b: WorkBlock| b.id)
}

/// The leaves under block `id` that last at least a day, depth first in
/// block order: the block itself when it has no children. `fuel` bounds the
/// depth (the number of blocks is always enough for a forest).
pub open spec fn leaves_under(blocks: Seq<WorkBlock>, id: WorkBlockId, fuel: nat) -> Seq<WorkBlockId>
    decreases fuel, 0nat,
{
    let k = kids(blocks, id);
    if k.len() == 0 {
        if lasts(blocks, id) { seq![id] } else { Seq::empty() }
    } else if fuel == 0 {
        Seq::empty()
    } else {
        leaves_of_list(blocks, k, (fuel - 1) as nat)
    }
}

/// The leaves under each block of `ids`, in order.
pub open spec fn leaves_of_list(blocks: Seq<WorkBlock>, ids: Seq<WorkBlockId>, fuel: nat) -> Seq<WorkBlockId>
    decreases fuel, ids.len() + 1,
{
    if ids.len() == 0 {
        Seq::empty()
    } else {
        leaves_of_list(blocks, ids.drop_last(), fuel) + leaves_under(blocks, ids.last(), fuel)
    }
}

/// Appends the leaves under block `id` to `out`.
fn collect_leaves(model: &Model, id: WorkBlockId, fuel: usize, out: &mut Vec<WorkBlockId>)
    ensures
        final(out)@ == old(out)@ + leaves_under(model.work_blocks@, id, fuel as nat),
    decreases fuel,
{
    let k = model.children(id);
    assert(k@ == kids(model.work_blocks@, id));
    if k.len() == 0 {
        proof {
            lemma_block_index(model.work_blocks@, id);
        }
        match model.block_position(id) {
            Some(i) => {
                if model.work_blocks[i].duration_days > 0 {
                    out.push(id);
                }
            },
            None => {},
        }
        assert(out@ =~= old(out)@ + leaves_under(model.work_blocks@, id, fuel as nat));
        return;
    }
    if fuel == 0 {
        assert(out@ =~= old(out)@ + leaves_under(model.work_blocks@, id, fuel as nat));
        return;
    }
    let mut j: usize = 0;
    assert(k@.take(0) =~= Seq::<WorkBlockId>::empty());
    assert(out@ =~= old(out)@ + leaves_of_list(model.work_blocks@, k@.take(0), (fuel - 1) as nat));
    while j < k.len()
        invariant
            j <= k@.len(),
            fuel > 0,
            out@ == old(out)@ + leaves_of_list(model.work_blocks@, k@.take(j as int), (fuel - 1) as nat),
        decreases k.len() - j,
    {
        let ghost before = out@;
        collect_leaves(model, k[j], fuel - 1, out);
        proof {
            assert(k@.take(j + 1).drop_last() =~= k@.take(j as int));
            assert(k@.take(j + 1).last() == k@[j as int]);
            assert(out@ =~= old(out)@ + leaves_of_list(model.work_blocks@, k@.take(j + 1), (fuel - 1) as nat));
        }
        j += 1;
    }
    assert(k@.take(j as int) =~= k@);
}

// ── spans, slots and levels ─────────────────────────────────────────────────

/// A leaf's span: its id and its days `[start, end)`.
pub type Span = (WorkBlockId, i32, i32);

/// Every block that lasts ends on a day an `i32` holds.
pub open spec fn ends_fit(blocks: Seq<WorkBlock>) -> bool {
    forall|i: int| 0 <= i < blocks.len() && (#[trigger] blocks[i]).duration_days > 0
        ==> blocks[i].start_day + blocks[i].duration_days <= i32::MAX
}

/// The span of block `id`.
pub open spec fn span_of(blocks: Seq<WorkBlock>, id: WorkBlockId) -> Span {
    let b = blocks[block_index(blocks, id).unwrap()];
    (id, b.start_day, (b.start_day + b.duration_days) as i32)
}

/// Spans are taken by start day, then id.
pub open spec fn span_before() -> spec_fn(Span, Span) -> bool {
    |a: Span, b: Span| a.1 < b.1 || (a.1 == b.1 && a.0.0 < b.0.0)
}

/// The spans of the leaves under `root`, by start day then id.
pub open spec fn lane_spans(blocks: Seq<WorkBlock>, root: WorkBlockId) -> Seq<Span> {
    sort_by(span_before(), leaves_under(blocks, root, blocks.len()).map_values(|id: WorkBlockId| span_of(blocks, id)))
}

/// The spans of the leaves under `root`, by start day then id.
fn spans_of(model: &Model, root: WorkBlockId) -> (r: Vec<Span>)
    requires
        ends_fit(model.work_blocks@),
    ensures
        r@ == lane_spans(model.work_blocks@, root),
        forall|i: int| 0 <= i < r@.len() ==> (#[trigger] r@[i]).1 < r@[i].2,
{
    let mut leaves: Vec<WorkBlockId> = Vec::new();
    collect_leaves(model, root, model.work_blocks.len(), &mut leaves);
    assert(leaves@ =~= leaves_under(model.work_blocks@, root, model.work_blocks@.len()));
    proof {
        lemma_leaves_last(model.work_blocks@, root, model.work_blocks@.len());
    }
    let ghost f = |id: WorkBlockId| span_of(model.work_blocks@, id);
    let ghost lt = span_before();
    let ghost all = leaves@.map_values(f);
    let mut sorted: Vec<Span> = Vec::new();
    let mut i: usize = 0;
    assert(all.take(0) =~= Seq::<Span>::empty());
    while i < leaves.len()
        invariant
            i <= leaves@.len(),
            all == leaves@.map_values(f),
            f == (|id: WorkBlockId| span_of(model.work_blocks@, id)),
            lt == span_before(),
            ends_fit(model.work_blocks@),
            forall|j: int| 0 <= j < leaves@.len() ==> #[trigger] lasts(model.work_blocks@, leaves@[j]),
            sorted@ == sort_by(lt, all.take(i as int)),
            forall|j: int| 0 <= j < sorted@.len() ==> (#[trigger] sorted@[j]).1 < sorted@[j].2,
        decreases leaves.len() - i,
    {
        let id = leaves[i];
        proof {
            lemma_block_index(model.work_blocks@, id);
            assert(lasts(model.work_blocks@, leaves@[i as int]));
        }
        let k = model.block_position(id).unwrap();
        let start = model.work_blocks[k].start_day;
        let end = start + model.work_blocks[k].duration_days;
        let x: Span = (id, start, end);
        assert(x == f(id));
        let mut q: usize = 0;
        while q < sorted.len() && !(x.1 < sorted[q].1 || (x.1 == sorted[q].1 && x.0.0 < sorted[q].0.0))
            invariant
                q <= sorted@.len(),
                lt == span_before(),
                forall|j: int| 0 <= j < q ==> !lt(x, #[trigger] sorted@[j]),
            decreases sorted.len() - q,
        {
            q += 1;
        }
        proof {
            lemma_insert_sorted_at(lt, x, sorted@, q as int);
            assert(all.take(i + 1).drop_last() =~= all.take(i as int));
            assert(all.take(i + 1).last() == x);
        }
        sorted.insert(q, x);
        i += 1;
    }
    assert(all.take(i as int) =~= all);
    sorted
}

proof fn lemma_leaves_last(blocks: Seq<WorkBlock>, id: WorkBlockId, fuel: nat)
    ensures
        forall|j: int| 0 <= j < leaves_under(blocks, id, fuel).len() ==> #[trigger] lasts(blocks, leaves_under(blocks, id, fuel)[j]),
    decreases fuel, 0nat,
{
    let k = kids(blocks, id);
    if k.len() == 0 {
        if lasts(blocks, id) {
            assert(leaves_under(blocks, id, fuel) =~= seq![id]);
        } else {
            assert(leaves_under(blocks, id, fuel) =~= Seq::<WorkBlockId>::empty());
        }
    } else if fuel == 0 {
        assert(leaves_under(blocks, id, fuel) =~= Seq::<WorkBlockId>::empty());
    } else {
        lemma_list_leaves_last(blocks, k, (fuel - 1) as nat);
        assert(leaves_under(blocks, id, fuel) == leaves_of_list(blocks, k, (fuel - 1) as nat));
    }
}

proof fn lemma_list_leaves_last(blocks: Seq<WorkBlock>, ids: Seq<WorkBlockId>, fuel: nat)
    ensures
        forall|j: int| 0 <= j < leaves_of_list(blocks, ids, fuel).len() ==> #[trigger] lasts(blocks, leaves_of_list(blocks, ids, fuel)[j]),
    decreases fuel, ids.len() + 1,
{
    if ids.len() > 0 {
        lemma_list_leaves_last(blocks, ids.drop_last(), fuel);
        lemma_leaves_last(blocks, ids.last(), fuel);
        let a = leaves_of_list(blocks, ids.drop_last(), fuel);
        let b = leaves_under(blocks, ids.last(), fuel);
        assert forall|j: int| 0 <= j < (a + b).len() implies #[trigger] lasts(blocks, (a + b)[j]) by {
            if j < a.len() {
                assert((a + b)[j] == a[j]);
            } else {
                assert((a + b)[j] == b[j - a.len()]);
            }
        }
    }
}

/// The first slot free at `start`: the first whose last span has ended by
/// then, or a new slot after the others.
pub open spec fn first_free(ends: Seq<i32>, start: int) -> int
    decreases ends.len(),
{
    if ends.len() == 0 {
        0
    } else if ends[0] <= start {
        0
    } else {
        1 + first_free(ends.drop_first(), start)
    }
}

/// The end of the last span in each slot once the first `n` spans are placed.
pub open spec fn slot_ends(spans: Seq<Span>, n: int) -> Seq<i32>
    decreases n,
{
    if n <= 0 {
        Seq::empty()
    } else {
        let e = slot_ends(spans, n - 1);
        let s = first_free(e, spans[n - 1].1 as int);
        if s < e.len() {
            e.update(s, spans[n - 1].2)
        } else {
            e.push(spans[n - 1].2)
        }
    }
}

/// The slot of span `i`: the first slot free when it starts (first fit in
/// start order).
pub open spec fn slot_of(spans: Seq<Span>, i: int) -> int {
    first_free(slot_ends(spans, i), spans[i].1 as int)
}

proof fn lemma_first_free(ends: Seq<i32>, start: int, s: int)
    requires
        0 <= s <= ends.len(),
        forall|j: int| 0 <= j < s ==> (#[trigger] ends[j]) > start,
        s < ends.len() ==> ends[s] <= start,
    ensures
        first_free(ends, start) == s,
    decreases ends.len(),
{
    if ends.len() > 0 && s > 0 {
        assert forall|j: int| 0 <= j < s - 1 implies (#[trigger] ends.drop_first()[j]) > start by {
            assert(ends.drop_first()[j] == ends[j + 1]);
        }
        lemma_first_free(ends.drop_first(), start, s - 1);
    }
}

proof fn lemma_first_free_le(ends: Seq<i32>, start: int)
    ensures
        0 <= first_free(ends, start) <= ends.len(),
    decreases ends.len(),
{
    if ends.len() > 0 && ends[0] > start {
        lemma_first_free_le(ends.drop_first(), start);
    }
}

/// The slot of every span, in order.
fn first_fit_slots(spans: &Vec<Span>) -> (r: Vec<usize>)
    ensures
        r@.len() == spans@.len(),
        forall|j: int| 0 <= j < spans@.len() ==> #[trigger] r@[j] == slot_of(spans@, j),
        forall|j: int| 0 <= j < spans@.len() ==> #[trigger] r@[j] <= j,
{
    let mut ends: Vec<i32> = Vec::new();
    let mut slots: Vec<usize> = Vec::new();
    let mut i: usize = 0;
    while i < spans.len()
        invariant
            i <= spans@.len(),
            ends@ == slot_ends(spans@, i as int),
            ends@.len() <= i,
            slots@.len() == i,
            forall|j: int| 0 <= j < i ==> #[trigger] slots@[j] == slot_of(spans@, j),
            forall|j: int| 0 <= j < i ==> #[trigger] slots@[j] <= j,
        decreases spans.len() - i,
    {
        let st = spans[i].1;
        let mut s: usize = 0;
        while s < ends.len() && ends[s] > st
            invariant
                s <= ends@.len(),
                forall|j: int| 0 <= j < s ==> (#[trigger] ends@[j]) > st,
            decreases ends.len() - s,
        {
            s += 1;
        }
        proof {
            lemma_first_free(ends@, st as int, s as int);
        }
        if s < ends.len() {
            ends.set(s, spans[i].2);
        } else {
            ends.push(spans[i].2);
        }
        slots.push(s);
        i += 1;
    }
    slots
}

/// Whether span `sp` is active on day `d`.
pub open spec fn active_at(sp: Span, d: int) -> bool {
    sp.1 <= d < sp.2
}

/// Span `j` sits below span `i` when both are active: a lower slot, or the
/// same slot and a smaller id.
pub open spec fn below(spans: Seq<Span>, i: int, j: int) -> bool {
    slot_of(spans, j) < slot_of(spans, i) || (slot_of(spans, j) == slot_of(spans, i) && spans[j].0.0 < spans[i].0.0)
}

/// Among the first `n` spans, those active on day `d` below span `i`.
pub open spec fn count_below(spans: Seq<Span>, i: int, d: int, n: int) -> nat
    decreases n,
{
    if n <= 0 {
        0
    } else {
        count_below(spans, i, d, n - 1) + if active_at(spans[n - 1], d) && below(spans, i, n - 1) { 1nat } else { 0nat }
    }
}

/// The level of span `i` on day `d`: the number of active spans below it.
pub open spec fn level_at(spans: Seq<Span>, i: int, d: int) -> nat {
    count_below(spans, i, d, spans.len() as int)
}

/// Among the first `n` spans, those active on day `d`.
pub open spec fn count_active(spans: Seq<Span>, d: int, n: int) -> nat
    decreases n,
{
    if n <= 0 {
        0
    } else {
        count_active(spans, d, n - 1) + if active_at(spans[n - 1], d) { 1nat } else { 0nat }
    }
}

/// The number of spans active on day `d`.
pub open spec fn active_count(spans: Seq<Span>, d: int) -> nat {
    count_active(spans, d, spans.len() as int)
}

/// The largest number of spans active on a start day of the first `n` spans.
pub open spec fn max_active(spans: Seq<Span>, n: int) -> nat
    decreases n,
{
    if n <= 0 {
        0
    } else {
        let m = max_active(spans, n - 1);
        let c = active_count(spans, spans[n - 1].1 as int);
        if c > m { c } else { m }
    }
}

/// A lane's height: its largest number of concurrent leaves, at least 1.
pub open spec fn lane_height(spans: Seq<Span>) -> nat {
    let m = max_active(spans, spans.len() as int);
    if m > 1 { m } else { 1 }
}

proof fn lemma_count_below_le(spans: Seq<Span>, i: int, d: int, n: int)
    ensures
        count_below(spans, i, d, n) <= if n > 0 { n } else { 0 },
    decreases n,
{
    if n > 0 {
        lemma_count_below_le(spans, i, d, n - 1);
    }
}

proof fn lemma_count_active_le(spans: Seq<Span>, d: int, n: int)
    ensures
        count_active(spans, d, n) <= if n > 0 { n } else { 0 },
    decreases n,
{
    if n > 0 {
        lemma_count_active_le(spans, d, n - 1);
    }
}

proof fn lemma_max_active_le(spans: Seq<Span>, n: int)
    requires
        n <= spans.len(),
    ensures
        max_active(spans, n) <= spans.len(),
    decreases n,
{
    if n > 0 {
        lemma_max_active_le(spans, n - 1);
        lemma_count_active_le(spans, spans[n - 1].1 as int, spans.len() as int);
    }
}

/// The level of span `i` on day `d`.
fn level_of(spans: &Vec<Span>, slots: &Vec<usize>, i: usize, d: i32) -> (r: usize)
    requires
        i < spans@.len(),
        slots@.len() == spans@.len(),
        forall|j: int| 0 <= j < spans@.len() ==> #[trigger] slots@[j] == slot_of(spans@, j),
    ensures
        r == level_at(spans@, i as int, d as int),
        r <= spans@.len(),
{
    let mut c: usize = 0;
    let mut j: usize = 0;
    while j < spans.len()
        invariant
            j <= spans@.len(),
            i < spans@.len(),
            slots@.len() == spans@.len(),
            forall|k: int| 0 <= k < spans@.len() ==> #[trigger] slots@[k] == slot_of(spans@, k),
            c == count_below(spans@, i as int, d as int, j as int),
            c <= j,
        decreases spans.len() - j,
    {
        let (id, a, b) = spans[j];
        if a <= d && d < b && (slots[j] < slots[i] || (slots[j] == slots[i] && id.0 < spans[i].0.0)) {
            c += 1;
        }
        j += 1;
    }
    c
}

/// The number of spans active on day `d`.
fn active_on(spans: &Vec<Span>, d: i32) -> (r: usize)
    ensures
        r == active_count(spans@, d as int),
        r <= spans@.len(),
{
    let mut c: usize = 0;
    let mut j: usize = 0;
    while j < spans.len()
        invariant
            j <= spans@.len(),
            c == count_active(spans@, d as int, j as int),
            c <= j,
        decreases spans.len() - j,
    {
        if spans[j].1 <= d && d < spans[j].2 {
            c += 1;
        }
        j += 1;
    }
    c
}

/// A lane's height.
fn height_of(spans: &Vec<Span>) -> (r: usize)
    ensures
        r == lane_height(spans@),
        r <= if spans@.len() > 1 { spans@.len() } else { 1 },
{
    let mut m: usize = 0;
    let mut j: usize = 0;
    while j < spans.len()
        invariant
            j <= spans@.len(),
            m == max_active(spans@, j as int),
            m <= spans@.len(),
        decreases spans.len() - j,
    {
        let c = active_on(spans, spans[j].1);
        if c > m {
            m = c;
        }
        j += 1;
    }
    if m > 1 { m } else { 1 }
}

// ── runs ────────────────────────────────────────────────────────────────────

/// The runs of span `i` from day `d` on, the current run having started on
/// day `from` at level `lv`: a run ends, and the next begins, on each day
/// the level changes; the last run ends with the span.
pub open spec fn runs_from(spans: Seq<Span>, i: int, from: int, d: int, lv: nat) -> Seq<(int, int, nat)>
    decreases spans[i].2 - d,
{
    if d >= spans[i].2 {
        seq![(from, spans[i].2 as int, lv)]
    } else if level_at(spans, i, d) != lv {
        seq![(from, d, lv)] + runs_from(spans, i, d, d + 1, level_at(spans, i, d))
    } else {
        runs_from(spans, i, from, d + 1, lv)
    }
}

/// The runs of span `i`: its days cut where its level changes, each piece
/// with its level.
pub open spec fn leaf_runs(spans: Seq<Span>, i: int) -> Seq<(int, int, nat)> {
    runs_from(spans, i, spans[i].1 as int, spans[i].1 + 1, level_at(spans, i, spans[i].1 as int))
}

/// A run as plain values: leaf, resource index, first day, end day, lane, level.
pub type RunView = (WorkBlockId, int, int, int, int, int);

pub open spec fn run_view(r: FlowRun) -> RunView {
    (r.leaf, r.resource as int, r.day0 as int, r.day1 as int, r.lane as int, r.level as int)
}

pub open spec fn runs_view(v: Seq<FlowRun>) -> Seq<RunView> {
    v.map_values(|r: FlowRun| run_view(r))
}

/// Run `r` of `leaf` as plain values, drawn in `lane` with `resource`.
pub open spec fn placed(leaf: WorkBlockId, resource: int, lane: int, r: (int, int, nat)) -> RunView {
    (leaf, resource, r.0, r.1, lane, r.2 as int)
}

/// The runs of span `i` as plain values, drawn in `lane` with `resource`.
pub open spec fn placed_runs(spans: Seq<Span>, i: int, lane: int, resource: int) -> Seq<RunView> {
    leaf_runs(spans, i).map_values(|r: (int, int, nat)| placed(spans[i].0, resource, lane, r))
}

/// Whether `b` holds every start and end day of `spans`, increasing.
pub open spec fn bounds_ok(b: Seq<i32>, spans: Seq<Span>) -> bool {
    &&& forall|x: int, y: int| 0 <= x < y < b.len() ==> b[x] < b[y]
    &&& forall|j: int| 0 <= j < spans.len() ==> b.contains(#[trigger] spans[j].1) && b.contains(spans[j].2)
}

/// Span activity only changes on its start and end days.
proof fn lemma_active_same(sp: Span, b: Seq<i32>, y: int, x: int)
    requires
        y <= x,
        b.contains(sp.1),
        b.contains(sp.2),
        forall|k: int| 0 <= k < b.len() ==> !(y < #[trigger] b[k] <= x),
    ensures
        active_at(sp, x) == active_at(sp, y),
{
    let k1 = choose|k: int| 0 <= k < b.len() && b[k] == sp.1;
    let k2 = choose|k: int| 0 <= k < b.len() && b[k] == sp.2;
    assert(!(y < b[k1] <= x));
    assert(!(y < b[k2] <= x));
}

proof fn lemma_count_below_same(spans: Seq<Span>, b: Seq<i32>, i: int, y: int, x: int, n: int)
    requires
        y <= x,
        n <= spans.len(),
        forall|j: int| 0 <= j < spans.len() ==> b.contains(#[trigger] spans[j].1) && b.contains(spans[j].2),
        forall|k: int| 0 <= k < b.len() ==> !(y < #[trigger] b[k] <= x),
    ensures
        count_below(spans, i, x, n) == count_below(spans, i, y, n),
    decreases n,
{
    if n > 0 {
        lemma_count_below_same(spans, b, i, y, x, n - 1);
        assert(b.contains(spans[n - 1].1));
        lemma_active_same(spans[n - 1], b, y, x);
    }
}

/// No bound between two days: the level is the same on both.
proof fn lemma_level_same(spans: Seq<Span>, b: Seq<i32>, i: int, y: int, x: int)
    requires
        y <= x,
        forall|j: int| 0 <= j < spans.len() ==> b.contains(#[trigger] spans[j].1) && b.contains(spans[j].2),
        forall|k: int| 0 <= k < b.len() ==> !(y < #[trigger] b[k] <= x),
    ensures
        level_at(spans, i, x) == level_at(spans, i, y),
{
    lemma_count_below_same(spans, b, i, y, x, spans.len() as int);
}

/// Days on which the level stays put add nothing to the runs.
proof fn lemma_runs_skip(spans: Seq<Span>, i: int, from: int, d: int, e: int, lv: nat)
    requires
        d <= e <= spans[i].2,
        forall|x: int| d <= x < e ==> level_at(spans, i, x) == lv,
    ensures
        runs_from(spans, i, from, d, lv) == runs_from(spans, i, from, e, lv),
    decreases e - d,
{
    if d < e {
        assert(level_at(spans, i, d) == lv);
        lemma_runs_skip(spans, i, from, d + 1, e, lv);
    }
}

/// Adds `x` to the increasing list `v` unless it is there.
fn insert_bound(v: &mut Vec<i32>, x: i32)
    requires
        forall|a: int, b: int| 0 <= a < b < old(v)@.len() ==> old(v)@[a] < old(v)@[b],
    ensures
        forall|a: int, b: int| 0 <= a < b < final(v)@.len() ==> final(v)@[a] < final(v)@[b],
        final(v)@.contains(x),
        forall|y: i32| old(v)@.contains(y) ==> final(v)@.contains(y),
{
    let mut p: usize = 0;
    while p < v.len() && v[p] < x
        invariant
            p <= v@.len(),
            forall|j: int| 0 <= j < p ==> v@[j] < x,
        decreases v.len() - p,
    {
        p += 1;
    }
    if p < v.len() && v[p] == x {
        assert(v@[p as int] == x);
        return;
    }
    let ghost before = v@;
    v.insert(p, x);
    proof {
        assert(v@[p as int] == x);
        assert forall|y: i32| before.contains(y) implies v@.contains(y) by {
            let k = choose|k: int| 0 <= k < before.len() && before[k] == y;
            if k < p {
                assert(v@[k] == y);
            } else {
                assert(v@[k + 1] == y);
            }
        }
    }
}

/// Every start and end day of `spans`, increasing.
fn bounds_of(spans: &Vec<Span>) -> (r: Vec<i32>)
    ensures
        bounds_ok(r@, spans@),
{
    let mut b: Vec<i32> = Vec::new();
    let mut j: usize = 0;
    while j < spans.len()
        invariant
            j <= spans@.len(),
            forall|x: int, y: int| 0 <= x < y < b@.len() ==> b@[x] < b@[y],
            forall|k: int| 0 <= k < j ==> b@.contains(#[trigger] spans@[k].1) && b@.contains(spans@[k].2),
        decreases spans.len() - j,
    {
        insert_bound(&mut b, spans[j].1);
        insert_bound(&mut b, spans[j].2);
        j += 1;
    }
    b
}

/// Appends the runs of span `i`, drawn in `lane` with `resource`.
fn push_leaf_runs(
    spans: &Vec<Span>,
    slots: &Vec<usize>,
    bounds: &Vec<i32>,
    i: usize,
    lane: usize,
    resource: usize,
    runs: &mut Vec<FlowRun>,
)
    requires
        i < spans@.len(),
        spans@.len() <= i32::MAX,
        spans@[i as int].1 < spans@[i as int].2,
        slots@.len() == spans@.len(),
        forall|j: int| 0 <= j < spans@.len() ==> #[trigger] slots@[j] == slot_of(spans@, j),
        bounds_ok(bounds@, spans@),
    ensures
        runs_view(final(runs)@) == runs_view(old(runs)@) + placed_runs(spans@, i as int, lane as int, resource as int),
{
    let ghost sp = spans@;
    let ghost ii = i as int;
    let (id, s, e) = spans[i];
    let mut from: i32 = s;
    let mut lv: usize = level_of(spans, slots, i, s);
    let ghost mut cur: int = s + 1;
    let ghost mut done: Seq<(int, int, nat)> = Seq::empty();
    let mut t: usize = 0;
    while t < bounds.len() && bounds[t] <= s
        invariant
            t <= bounds@.len(),
            forall|k: int| 0 <= k < t ==> bounds@[k] <= s,
        decreases bounds.len() - t,
    {
        t += 1;
    }
    let ghost base = runs_view(runs@);
    assert(runs_view(runs@) =~= base + done.map_values(|r: (int, int, nat)| placed(id, resource as int, lane as int, r)));
    while t < bounds.len() && bounds[t] < e
        invariant
            i < spans@.len(),
            sp == spans@,
            ii == i,
            (id, s, e) == sp[ii],
            s < e,
            spans@.len() <= i32::MAX,
            slots@.len() == spans@.len(),
            forall|j: int| 0 <= j < spans@.len() ==> #[trigger] slots@[j] == slot_of(spans@, j),
            bounds_ok(bounds@, spans@),
            t <= bounds@.len(),
            s < cur <= e,
            forall|k: int| 0 <= k < t ==> bounds@[k] < cur,
            t < bounds@.len() ==> bounds@[t as int] >= cur,
            lv == level_at(sp, ii, cur - 1),
            lv <= spans@.len(),
            done + runs_from(sp, ii, from as int, cur, lv as nat) == leaf_runs(sp, ii),
            runs_view(runs@) == base + done.map_values(|r: (int, int, nat)| placed(id, resource as int, lane as int, r)),
        decreases bounds.len() - t,
    {
        let b = bounds[t];
        proof {
            assert forall|x: int| cur <= x < b implies level_at(sp, ii, x) == lv by {
                assert forall|k: int| 0 <= k < bounds@.len() implies !(cur - 1 < #[trigger] bounds@[k] <= x) by {
                    if k >= t {
                        assert(bounds@[k] >= bounds@[t as int]);
                    }
                }
                lemma_level_same(sp, bounds@, ii, cur - 1, x);
            }
            lemma_runs_skip(sp, ii, from as int, cur, b as int, lv as nat);
        }
        let l2 = level_of(spans, slots, i, b);
        if l2 != lv {
            proof {
                lemma_count_below_le(sp, ii, b as int, sp.len() as int);
            }
            let run = FlowRun { leaf: id, resource, day0: from, day1: b, lane, level: lv as i32 };
            let ghost prev_runs = runs@;
            runs.push(run);
            proof {
                let old_done = done;
                let x = (from as int, b as int, lv as nat);
                assert(runs_view(runs@) =~= runs_view(prev_runs).push(run_view(run)));
                assert(old_done.push(x).map_values(|r: (int, int, nat)| placed(id, resource as int, lane as int, r))
                    =~= old_done.map_values(|r: (int, int, nat)| placed(id, resource as int, lane as int, r)).push(placed(id, resource as int, lane as int, x)));
                done = done.push((from as int, b as int, lv as nat));
                assert(runs_view(runs@) =~= base + done.map_values(|r: (int, int, nat)| placed(id, resource as int, lane as int, r)));
                assert(done + runs_from(sp, ii, b as int, b + 1, l2 as nat) =~= old_done + runs_from(sp, ii, from as int, b as int, lv as nat));
            }
            from = b;
            lv = l2;
        }
        proof {
            cur = b + 1;
            if t + 1 < bounds@.len() {
                assert(bounds@[t as int] < bounds@[t + 1]);
            }
        }
        t += 1;
    }
    proof {
        assert forall|x: int| cur <= x < e implies level_at(sp, ii, x) == lv by {
            assert forall|k: int| 0 <= k < bounds@.len() implies !(cur - 1 < #[trigger] bounds@[k] <= x) by {
                if k >= t {
                    assert(bounds@[k] >= bounds@[t as int]);
                }
            }
            lemma_level_same(sp, bounds@, ii, cur - 1, x);
        }
        lemma_runs_skip(sp, ii, from as int, cur, e as int, lv as nat);
        lemma_count_below_le(sp, ii, cur - 1, sp.len() as int);
    }
    let run = FlowRun { leaf: id, resource, day0: from, day1: e, lane, level: lv as i32 };
    let ghost prev_runs = runs@;
    runs.push(run);
    proof {
        let old_done = done;
        let x = (from as int, e as int, lv as nat);
        assert(runs_view(runs@) =~= runs_view(prev_runs).push(run_view(run)));
        assert(old_done.push(x).map_values(|r: (int, int, nat)| placed(id, resource as int, lane as int, r))
            =~= old_done.map_values(|r: (int, int, nat)| placed(id, resource as int, lane as int, r)).push(placed(id, resource as int, lane as int, x)));
        done = done.push((from as int, e as int, lv as nat));
        assert(done =~= old_done + runs_from(sp, ii, from as int, e as int, lv as nat));
        assert(runs_view(runs@) =~= base + done.map_values(|r: (int, int, nat)| placed(id, resource as int, lane as int, r)));
    }
}

// ── resources ───────────────────────────────────────────────────────────────

/// The placeholder name of an unnamed row: "Resource 1" for row 0.
pub open spec fn default_row_label_text(row: int) -> Seq<char> {
    "Resource "@ + signed_decimal_text(row + 1)
}

/// The placeholder name of an unnamed row: "Resource 1" for row 0.
pub fn default_row_label(row: i32) -> (r: String)
    ensures
        r@ == default_row_label_text(row as int),
{
    let mut out = String::new();
    push_text(&mut out, "Resource ");
    let n = i64_text(row as i64 + 1);
    push_text(&mut out, n.as_str());
    out
}

/// The resource a leaf's time is booked to: the name its row shows at its
/// parent's scope, or the row's placeholder.
pub open spec fn leaf_resource(m: &Model, plan_id: PlanId, id: WorkBlockId) -> Seq<char> {
    let row = m.spec_block_row(plan_id, id) as int;
    let parent = match block_index(m.work_blocks@, id) {
        Some(i) => m.work_blocks@[i].parent,
        None => None,
    };
    match m.spec_resolved_row_name(plan_id, parent, row) {
        Some(n) => n,
        None => default_row_label_text(row),
    }
}

/// The resource a leaf's time is booked to.
pub fn leaf_resource_name(model: &Model, plan_id: PlanId, id: WorkBlockId) -> (r: String)
    ensures
        r@ == leaf_resource(model, plan_id, id),
{
    let row = model.block_row(plan_id, id);
    let parent = match model.block_position(id) {
        Some(i) => model.work_blocks[i].parent,
        None => None,
    };
    match model.resolved_row_name(plan_id, parent, row) {
        Some(n) => n,
        None => default_row_label(row),
    }
}

/// The text `str::to_lowercase` gives for `s` (Unicode lower-case mapping).
pub uninterp spec fn lowercase_text(s: Seq<char>) -> Seq<char>;

/// Calls `str::to_lowercase`; its result is named, not described.
#[verifier::external_body]
fn to_lowercase(s: &str) -> (r: String)
    ensures
        r@ == lowercase_text(s@),
{
    s.to_lowercase()
}

/// Text order: character by character, a prefix first.
pub open spec fn text_lt(a: Seq<char>, b: Seq<char>) -> bool
    decreases a.len(),
{
    if b.len() == 0 {
        false
    } else if a.len() == 0 {
        true
    } else if a[0] != b[0] {
        (a[0] as u32) < (b[0] as u32)
    } else {
        text_lt(a.drop_first(), b.drop_first())
    }
}

/// Whether `a` comes before `b` in text order.
fn text_less(a: &Vec<char>, b: &Vec<char>) -> (r: bool)
    ensures
        r == text_lt(a@, b@),
{
    let mut i: usize = 0;
    assert(a@.skip(0) =~= a@);
    assert(b@.skip(0) =~= b@);
    while i < a.len() && i < b.len() && a[i] == b[i]
        invariant
            i <= a@.len(),
            i <= b@.len(),
            text_lt(a@, b@) == text_lt(a@.skip(i as int), b@.skip(i as int)),
        decreases a.len() - i,
    {
        assert(a@.skip(i as int).drop_first() =~= a@.skip(i + 1));
        assert(b@.skip(i as int).drop_first() =~= b@.skip(i + 1));
        i += 1;
    }
    if i == b.len() {
        false
    } else if i == a.len() {
        true
    } else {
        (a[i] as u32) < (b[i] as u32)
    }
}

/// Resources are ordered by their lower-case names.
pub open spec fn resource_before() -> spec_fn(Seq<char>, Seq<char>) -> bool {
    |a: Seq<char>, b: Seq<char>| text_lt(lowercase_text(a), lowercase_text(b))
}

/// `s` without repeats of the element before.
pub open spec fn dedup_adjacent(s: Seq<Seq<char>>) -> Seq<Seq<char>>
    decreases s.len(),
{
    if s.len() == 0 {
        s
    } else if s.len() >= 2 && s.last() == s[s.len() - 2] {
        dedup_adjacent(s.drop_last())
    } else {
        dedup_adjacent(s.drop_last()).push(s.last())
    }
}

proof fn lemma_dedup_last(s: Seq<Seq<char>>)
    ensures
        s.len() > 0 ==> dedup_adjacent(s).len() > 0 && dedup_adjacent(s).last() == s.last(),
        dedup_adjacent(s).len() <= s.len(),
    decreases s.len(),
{
    if s.len() > 0 {
        lemma_dedup_last(s.drop_last());
    }
}

/// The resource list: the names sorted by lower-case name (equal ones
/// keeping their order), repeats next to each other dropped.
pub open spec fn resource_list(names: Seq<Seq<char>>) -> Seq<Seq<char>> {
    dedup_adjacent(sort_by(resource_before(), names))
}

/// The last index of `x` in `v` (0 when absent).
pub open spec fn last_index_of(v: Seq<Seq<char>>, x: Seq<char>) -> int
    decreases v.len(),
{
    if v.len() == 0 {
        0
    } else if v.last() == x {
        v.len() - 1
    } else {
        last_index_of(v.drop_last(), x)
    }
}

pub open spec fn texts(v: Seq<String>) -> Seq<Seq<char>> {
    v.map_values(|s: String| s@)
}

/// Sorts resource names and drops repeats.
fn sorted_resources(names: &Vec<String>) -> (r: Vec<String>)
    ensures
        texts(r@) == resource_list(texts(names@)),
{
    let ghost lt = resource_before();
    let ghost all = texts(names@);
    // Sort, keeping each name's lower-case key beside it.
    let mut sorted: Vec<String> = Vec::new();
    let mut keys: Vec<Vec<char>> = Vec::new();
    let mut i: usize = 0;
    assert(all.take(0) =~= Seq::<Seq<char>>::empty());
    while i < names.len()
        invariant
            i <= names@.len(),
            all == texts(names@),
            lt == resource_before(),
            texts(sorted@) == sort_by(lt, all.take(i as int)),
            keys@.len() == sorted@.len(),
            forall|j: int| 0 <= j < keys@.len() ==> (#[trigger] keys@[j])@ == lowercase_text(sorted@[j]@),
        decreases names.len() - i,
    {
        let low = to_lowercase(names[i].as_str());
        let key = chars_of(low.as_str());
        let mut q: usize = 0;
        while q < sorted.len() && !text_less(&key, &keys[q])
            invariant
                q <= sorted@.len(),
                keys@.len() == sorted@.len(),
                key@ == lowercase_text(names@[i as int]@),
                lt == resource_before(),
                forall|j: int| 0 <= j < keys@.len() ==> (#[trigger] keys@[j])@ == lowercase_text(sorted@[j]@),
                forall|j: int| 0 <= j < q ==> !lt(names@[i as int]@, #[trigger] texts(sorted@)[j]),
            decreases sorted.len() - q,
        {
            q += 1;
        }
        proof {
            lemma_insert_sorted_at(lt, names@[i as int]@, texts(sorted@), q as int);
            assert(all.take(i + 1).drop_last() =~= all.take(i as int));
            assert(all.take(i + 1).last() == names@[i as int]@);
        }
        let ghost before = sorted@;
        let ghost kbefore = keys@;
        let copy = names[i].clone();
        sorted.insert(q, copy);
        keys.insert(q, key);
        proof {
            assert(texts(sorted@) =~= texts(before).take(q as int) + seq![names@[i as int]@] + texts(before).skip(q as int));
            assert forall|j: int| 0 <= j < keys@.len() implies (#[trigger] keys@[j])@ == lowercase_text(sorted@[j]@) by {
                if j < q {
                    assert(keys@[j] == kbefore[j]);
                } else if j > q {
                    assert(keys@[j] == kbefore[j - 1]);
                }
            }
        }
        i += 1;
    }
    assert(all.take(i as int) =~= all);
    // Drop repeats of the name before.
    let ghost st = texts(sorted@);
    let mut out: Vec<String> = Vec::new();
    let mut k: usize = 0;
    assert(st.take(0) =~= Seq::<Seq<char>>::empty());
    while k < sorted.len()
        invariant
            k <= sorted@.len(),
            st == texts(sorted@),
            texts(out@) == dedup_adjacent(st.take(k as int)),
        decreases sorted.len() - k,
    {
        proof {
            assert(st.take(k + 1).drop_last() =~= st.take(k as int));
            lemma_dedup_last(st.take(k as int));
        }
        let repeat = k > 0 && same_text(sorted[k].as_str(), sorted[k - 1].as_str());
        if !repeat {
            let ghost before = out@;
            out.push(sorted[k].clone());
            assert(texts(out@) =~= texts(before).push(sorted@[k as int]@));
        }
        k += 1;
    }
    assert(st.take(k as int) =~= st);
    out
}

/// The last index of `x` in `v` (0 when absent).
fn last_index(v: &Vec<String>, x: &str) -> (r: usize)
    ensures
        r == last_index_of(texts(v@), x@),
{
    let mut k: usize = v.len();
    assert(texts(v@).take(k as int) =~= texts(v@));
    while k > 0
        invariant
            k <= v@.len(),
            last_index_of(texts(v@), x@) == last_index_of(texts(v@).take(k as int), x@),
        decreases k,
    {
        assert(texts(v@).take(k as int).drop_last() =~= texts(v@).take(k - 1));
        if same_text(v[k - 1].as_str(), x) {
            return k - 1;
        }
        k -= 1;
    }
    0
}

// ── the layout ──────────────────────────────────────────────────────────────

/// The streams that have leaves: the lanes, in order.
pub open spec fn lane_roots(m: &Model, plan_id: PlanId) -> Seq<WorkBlockId> {
    stream_roots(m, plan_id).filter(|r: WorkBlockId| leaves_under(m.work_blocks@, r, m.work_blocks@.len()).len() > 0)
}

/// The resources of the leaves of `roots`, root by root, leaves depth first.
pub open spec fn leaf_names(m: &Model, plan_id: PlanId, roots: Seq<WorkBlockId>) -> Seq<Seq<char>>
    decreases roots.len(),
{
    if roots.len() == 0 {
        Seq::empty()
    } else {
        leaf_names(m, plan_id, roots.drop_last()) + leaves_under(m.work_blocks@, roots.last(), m.work_blocks@.len()).map_values(
            |id: WorkBlockId| leaf_resource(m, plan_id, id),
        )
    }
}

/// The layout's resource list.
pub open spec fn layout_resources(m: &Model, plan_id: PlanId) -> Seq<Seq<char>> {
    resource_list(leaf_names(m, plan_id, lane_roots(m, plan_id)))
}

/// The plan-view order of streams is a strict order.
proof fn lemma_stream_before_strict(m: &Model, plan_id: PlanId)
    ensures
        strict_order(stream_before(m, plan_id)),
{
}

/// The lanes of the flow view come in plan-view order: by row, then start
/// day, then id.
pub proof fn lemma_lanes_in_plan_view_order(m: &Model, plan_id: PlanId)
    ensures
        forall|i: int, j: int| 0 <= i < j < lane_roots(m, plan_id).len() ==> {
            let (a, b) = (#[trigger] lane_roots(m, plan_id)[i], #[trigger] lane_roots(m, plan_id)[j]);
            let (ra, rb) = (m.spec_block_row(plan_id, a) as int, m.spec_block_row(plan_id, b) as int);
            let (sa, sb) = (start_of(m.work_blocks@, a), start_of(m.work_blocks@, b));
            ra < rb || (ra == rb && (sa < sb || (sa == sb && a.0 <= b.0)))
        },
{
    let lt = stream_before(m, plan_id);
    lemma_stream_before_strict(m, plan_id);
    match plan_index(m.plans@, plan_id) {
        Some(p) => {
            let base = m.plans@[p].root_blocks@.filter(|id: WorkBlockId| m.spec_block_row(plan_id, id) != EVENTS_ROW);
            lemma_sort_by_sorted(lt, base);
        },
        None => {
            assert(stream_roots(m, plan_id) =~= Seq::<WorkBlockId>::empty());
        },
    }
    let keep = |r: WorkBlockId| leaves_under(m.work_blocks@, r, m.work_blocks@.len()).len() > 0;
    lemma_filter_sorted(lt, stream_roots(m, plan_id), keep);
    let lr = lane_roots(m, plan_id);
    assert(lr == stream_roots(m, plan_id).filter(keep));
    assert forall|i: int, j: int| 0 <= i < j < lr.len() implies {
        let (a, b) = (#[trigger] lr[i], #[trigger] lr[j]);
        let (ra, rb) = (m.spec_block_row(plan_id, a) as int, m.spec_block_row(plan_id, b) as int);
        let (sa, sb) = (start_of(m.work_blocks@, a), start_of(m.work_blocks@, b));
        ra < rb || (ra == rb && (sa < sb || (sa == sb && a.0 <= b.0)))
    } by {
        assert(!lt(lr[j], lr[i]));
    }
}

/// The name of block `id` (empty when it does not exist).
pub open spec fn name_of(blocks: Seq<WorkBlock>, id: WorkBlockId) -> Seq<char> {
    match block_index(blocks, id) {
        Some(i) => blocks[i].name@,
        None => Seq::empty(),
    }
}

/// The units taken by the first `k` lanes.
pub open spec fn units_before(blocks: Seq<WorkBlock>, roots: Seq<WorkBlockId>, k: int) -> int
    decreases k,
{
    if k <= 0 {
        0
    } else {
        units_before(blocks, roots, k - 1) + lane_height(lane_spans(blocks, roots[k - 1]))
    }
}

/// The number of leaves of the first `k` lanes.
pub open spec fn spans_before(blocks: Seq<WorkBlock>, roots: Seq<WorkBlockId>, k: int) -> int
    decreases k,
{
    if k <= 0 {
        0
    } else {
        spans_before(blocks, roots, k - 1) + lane_spans(blocks, roots[k - 1]).len()
    }
}

/// The runs of the first `n` spans of lane `k`, span by span.
pub open spec fn lane_runs(m: &Model, plan_id: PlanId, spans: Seq<Span>, k: int, res: Seq<Seq<char>>, n: int) -> Seq<RunView>
    decreases n,
{
    if n <= 0 {
        Seq::empty()
    } else {
        lane_runs(m, plan_id, spans, k, res, n - 1)
            + placed_runs(spans, n - 1, k, last_index_of(res, leaf_resource(m, plan_id, spans[n - 1].0)))
    }
}

/// The runs of the first `k` lanes, lane by lane.
pub open spec fn all_runs(m: &Model, plan_id: PlanId, roots: Seq<WorkBlockId>, res: Seq<Seq<char>>, k: int) -> Seq<RunView>
    decreases k,
{
    if k <= 0 {
        Seq::empty()
    } else {
        let spans = lane_spans(m.work_blocks@, roots[k - 1]);
        all_runs(m, plan_id, roots, res, k - 1) + lane_runs(m, plan_id, spans, k - 1, res, spans.len() as int)
    }
}

/// Lane `k` of the layout: its root, the root's name, the units before it
/// and its height.
pub open spec fn lane_ok(m: &Model, lane: FlowLane, roots: Seq<WorkBlockId>, k: int) -> bool {
    &&& lane.root == roots[k]
    &&& lane.name@ == name_of(m.work_blocks@, roots[k])
    &&& lane.base_unit == units_before(m.work_blocks@, roots, k)
    &&& lane.height == lane_height(lane_spans(m.work_blocks@, roots[k]))
}

/// The layout's numbers fit an `i32`: the leaves of all lanes together.
pub open spec fn flow_fits(m: &Model, plan_id: PlanId) -> bool {
    let roots = lane_roots(m, plan_id);
    spans_before(m.work_blocks@, roots, roots.len() as int) <= i32::MAX
}

proof fn lemma_spans_before_mono(blocks: Seq<WorkBlock>, roots: Seq<WorkBlockId>, k: int, n: int)
    requires
        0 <= k <= n,
    ensures
        spans_before(blocks, roots, k) <= spans_before(blocks, roots, n),
        0 <= spans_before(blocks, roots, k),
    decreases n,
{
    if n > k {
        lemma_spans_before_mono(blocks, roots, k, n - 1);
    } else if k > 0 {
        lemma_spans_before_mono(blocks, roots, k - 1, k - 1);
    }
}

proof fn lemma_units_le(blocks: Seq<WorkBlock>, roots: Seq<WorkBlockId>, k: int)
    requires
        k <= roots.len(),
        forall|j: int| 0 <= j < roots.len() ==> #[trigger] lane_spans(blocks, roots[j]).len() > 0,
    ensures
        units_before(blocks, roots, k) <= spans_before(blocks, roots, k),
    decreases k,
{
    if k > 0 {
        lemma_units_le(blocks, roots, k - 1);
        let sp = lane_spans(blocks, roots[k - 1]);
        lemma_max_active_le(sp, sp.len() as int);
    }
}

proof fn lemma_lane_spans_len(blocks: Seq<WorkBlock>, root: WorkBlockId)
    ensures
        lane_spans(blocks, root).len() == leaves_under(blocks, root, blocks.len()).len(),
{
    let l = leaves_under(blocks, root, blocks.len()).map_values(|id: WorkBlockId| span_of(blocks, id));
    crate::sorting::lemma_sort_by_len(span_before(), l);
}

/// Lays out the flow view of plan `plan_id`: one lane per top-level block
/// (not on the events row) that has leaves, in plan-view order, stacked
/// unit by unit; each leaf's days cut into runs wherever its level (the
/// number of concurrent leaves in lower slots) changes; resources listed by
/// name ignoring case. An unknown plan gives an empty layout.
pub fn flow_layout(model: &Model, plan_id: PlanId) -> (r: FlowLayout)
    requires
        ends_fit(model.work_blocks@),
        flow_fits(model, plan_id),
    ensures
        r.lanes@.len() == lane_roots(model, plan_id).len(),
        forall|k: int| 0 <= k < r.lanes@.len() ==> lane_ok(model, #[trigger] r.lanes@[k], lane_roots(model, plan_id), k),
        texts(r.resources@) == layout_resources(model, plan_id),
        runs_view(r.runs@) == all_runs(model, plan_id, lane_roots(model, plan_id), layout_resources(model, plan_id),
            lane_roots(model, plan_id).len() as int),
        forall|i: int, j: int| 0 <= i < j < r.lanes@.len() ==> {
            let (a, b) = ((#[trigger] r.lanes@[i]).root, (#[trigger] r.lanes@[j]).root);
            let (ra, rb) = (model.spec_block_row(plan_id, a) as int, model.spec_block_row(plan_id, b) as int);
            let (sa, sb) = (start_of(model.work_blocks@, a), start_of(model.work_blocks@, b));
            ra < rb || (ra == rb && (sa < sb || (sa == sb && a.0 <= b.0)))
        },
{
    let blocks = Ghost(model.work_blocks@);
    let roots = streams_of(model, plan_id);
    let fuel = model.work_blocks.len();
    let ghost keep = |x: WorkBlockId| leaves_under(model.work_blocks@, x, model.work_blocks@.len()).len() > 0;
    // The lanes and the resources of their leaves.
    let mut lroots: Vec<WorkBlockId> = Vec::new();
    let mut names: Vec<String> = Vec::new();
    let mut i: usize = 0;
    assert(roots@.take(0) =~= Seq::<WorkBlockId>::empty());
    while i < roots.len()
        invariant
            i <= roots@.len(),
            roots@ == stream_roots(model, plan_id),
            fuel == model.work_blocks@.len(),
            keep == (|x: WorkBlockId| leaves_under(model.work_blocks@, x, model.work_blocks@.len()).len() > 0),
            lroots@ == roots@.take(i as int).filter(keep),
            texts(names@) == leaf_names(model, plan_id, lroots@),
        decreases roots.len() - i,
    {
        let r = roots[i];
        proof {
            assert(roots@.take(i + 1) =~= roots@.take(i as int).push(r));
            roots@.take(i as int).lemma_filter_push(r, keep);
        }
        let mut leaves: Vec<WorkBlockId> = Vec::new();
        collect_leaves(model, r, fuel, &mut leaves);
        assert(leaves@ =~= leaves_under(model.work_blocks@, r, fuel as nat));
        if leaves.len() > 0 {
            let ghost prev_roots = lroots@;
            let ghost base_names = texts(names@);
            lroots.push(r);
            let mut j: usize = 0;
            assert(leaves@.take(0).map_values(|id: WorkBlockId| leaf_resource(model, plan_id, id)) =~= Seq::<Seq<char>>::empty());
            while j < leaves.len()
                invariant
                    j <= leaves@.len(),
                    texts(names@) == base_names + leaves@.take(j as int).map_values(|id: WorkBlockId| leaf_resource(model, plan_id, id)),
                decreases leaves.len() - j,
            {
                let n = leaf_resource_name(model, plan_id, leaves[j]);
                let ghost before = texts(names@);
                names.push(n);
                proof {
                    assert(texts(names@) =~= before.push(leaf_resource(model, plan_id, leaves@[j as int])));
                    assert(leaves@.take(j + 1).map_values(|id: WorkBlockId| leaf_resource(model, plan_id, id))
                        =~= leaves@.take(j as int).map_values(|id: WorkBlockId| leaf_resource(model, plan_id, id)).push(
                        leaf_resource(model, plan_id, leaves@[j as int])));
                }
                j += 1;
            }
            proof {
                assert(leaves@.take(j as int) =~= leaves@);
                assert(lroots@.drop_last() =~= prev_roots);
            }
        }
        i += 1;
    }
    assert(roots@.take(i as int) =~= roots@);
    let ghost lr = lroots@;
    assert(lr == lane_roots(model, plan_id));
    let resources = sorted_resources(&names);
    let ghost res = texts(resources@);
    proof {
        assert forall|j: int| 0 <= j < lr.len() implies #[trigger] lane_spans(model.work_blocks@, lr[j]).len() > 0 by {
            roots@.lemma_filter_pred(keep, j);
            lemma_lane_spans_len(model.work_blocks@, lr[j]);
        }
        lemma_units_le(model.work_blocks@, lr, lr.len() as int);
    }
    // Each lane: its height, place and runs.
    let mut lanes: Vec<FlowLane> = Vec::new();
    let mut runs: Vec<FlowRun> = Vec::new();
    let mut base: i32 = 0;
    let mut k: usize = 0;
    while k < lroots.len()
        invariant
            k <= lr.len(),
            lr == lroots@,
            lr == lane_roots(model, plan_id),
            res == layout_resources(model, plan_id),
            res == texts(resources@),
            ends_fit(model.work_blocks@),
            flow_fits(model, plan_id),
            forall|j: int| 0 <= j < lr.len() ==> #[trigger] lane_spans(model.work_blocks@, lr[j]).len() > 0,
            units_before(model.work_blocks@, lr, lr.len() as int) <= spans_before(model.work_blocks@, lr, lr.len() as int),
            lanes@.len() == k,
            forall|j: int| 0 <= j < k ==> lane_ok(model, #[trigger] lanes@[j], lr, j),
            base == units_before(model.work_blocks@, lr, k as int),
            runs_view(runs@) == all_runs(model, plan_id, lr, res, k as int),
        decreases lr.len() - k,
    {
        let root = lroots[k];
        let spans = spans_of(model, root);
        proof {
            lemma_spans_before_mono(model.work_blocks@, lr, k + 1, lr.len() as int);
            lemma_units_le(model.work_blocks@, lr, k + 1);
            lemma_spans_before_mono(model.work_blocks@, lr, k as int, k as int);
        }
        let slots = first_fit_slots(&spans);
        let bounds = bounds_of(&spans);
        let height = height_of(&spans);
        let ghost before_runs = runs_view(runs@);
        let mut i: usize = 0;
        while i < spans.len()
            invariant
                i <= spans@.len(),
                spans@ == lane_spans(model.work_blocks@, lr[k as int]),
                spans@.len() <= i32::MAX,
                forall|j: int| 0 <= j < spans@.len() ==> (#[trigger] spans@[j]).1 < spans@[j].2,
                slots@.len() == spans@.len(),
                forall|j: int| 0 <= j < spans@.len() ==> #[trigger] slots@[j] == slot_of(spans@, j),
                bounds_ok(bounds@, spans@),
                res == texts(resources@),
                runs_view(runs@) == before_runs + lane_runs(model, plan_id, spans@, k as int, res, i as int),
            decreases spans.len() - i,
        {
            let name = leaf_resource_name(model, plan_id, spans[i].0);
            let resource = last_index(&resources, name.as_str());
            push_leaf_runs(&spans, &slots, &bounds, i, k, resource, &mut runs);
            i += 1;
        }
        let name = match model.block_position(root) {
            Some(p) => model.work_blocks[p].name.clone(),
            None => String::new(),
        };
        proof {
            lemma_block_index(model.work_blocks@, root);
        }
        lanes.push(FlowLane { root, name, base_unit: base, height: height as i32 });
        base = base + height as i32;
        k += 1;
    }
    proof {
        lemma_lanes_in_plan_view_order(model, plan_id);
        assert forall|i: int, j: int| 0 <= i < j < lanes@.len() implies {
            let (a, b) = ((#[trigger] lanes@[i]).root, (#[trigger] lanes@[j]).root);
            let (ra, rb) = (model.spec_block_row(plan_id, a) as int, model.spec_block_row(plan_id, b) as int);
            let (sa, sb) = (start_of(model.work_blocks@, a), start_of(model.work_blocks@, b));
            ra < rb || (ra == rb && (sa < sb || (sa == sb && a.0 <= b.0)))
        } by {
            assert(lane_ok(model, lanes@[i], lane_roots(model, plan_id), i));
            assert(lane_ok(model, lanes@[j], lane_roots(model, plan_id), j));
        }
    }
    FlowLayout { lanes, runs, resources }
}

} // verus!
