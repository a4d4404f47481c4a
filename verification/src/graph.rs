//! The dependency graph of one plan and its topological order (Kahn).

use vstd::prelude::*;
use crate::model::{Day, DependencyType, Model, Plan, WorkBlockId, Dependency};
use crate::text::{decimal_text, push_text, u64_text};

verus! {

/// One directed edge in the dependency graph.
#[derive(Debug)]
pub struct Edge {
    pub predecessor: WorkBlockId,
    pub successor: WorkBlockId,
    pub dependency_type: DependencyType,
    /// Lag in days (positive = delay, negative = lead).
    pub lag: Day,
}

/// Directed graph of the active work blocks of one plan: `nodes` holds each
/// block once, `edges` the plan's dependencies between them, and
/// `in_degree[i]` the number of edges into `nodes[i]`.
#[derive(Debug)]
pub struct DependencyGraph {
    pub nodes: Vec<WorkBlockId>,
    pub edges: Vec<Edge>,
    pub in_degree: Vec<usize>,
}

/// Error returned when a cycle is detected during topological sort.
#[derive(Debug)]
pub struct CycleError {
    /// Blocks that are part of (or depend on) the cycle and could not be sorted.
    pub nodes: Vec<WorkBlockId>,
}

/// The ids of `ids` in decimal, separated by ", ".
pub open spec fn id_list_text(ids: Seq<WorkBlockId>) -> Seq<char>
    decreases ids.len(),
{
    if ids.len() == 0 {
        Seq::empty()
    } else if ids.len() == 1 {
        decimal_text(ids[0].0 as nat)
    } else {
        id_list_text(ids.drop_last()) + ", "@ + decimal_text(ids.last().0 as nat)
    }
}

impl CycleError {
    /// The error as one line: "dependency cycle among 2 block(s): [4, 7]".
    pub fn message(&self) -> (r: String)
        ensures
            r@ == "dependency cycle among "@ + decimal_text(self.nodes@.len()) + " block(s): ["@
                + id_list_text(self.nodes@) + "]"@,
    {
        let mut out = String::new();
        push_text(&mut out, "dependency cycle among ");
        let n = u64_text(self.nodes.len() as u64);
        push_text(&mut out, n.as_str());
        push_text(&mut out, " block(s): [");
        let ghost head = out@;
        let mut i: usize = 0;
        assert(self.nodes@.take(0) =~= Seq::<WorkBlockId>::empty());
        assert(out@ =~= head + id_list_text(self.nodes@.take(0)));
        while i < self.nodes.len()
            invariant
                i <= self.nodes@.len(),
                out@ == head + id_list_text(self.nodes@.take(i as int)),
            decreases self.nodes.len() - i,
        {
            if i > 0 {
                push_text(&mut out, ", ");
            }
            let t = u64_text(self.nodes[i].0);
            push_text(&mut out, t.as_str());
            proof {
                let pre = self.nodes@.take(i as int);
                assert(self.nodes@.take(i + 1).drop_last() =~= pre);
                assert(self.nodes@.take(i + 1).last() == self.nodes@[i as int]);
                if i == 0 {
                    assert(id_list_text(self.nodes@.take(1)) == decimal_text(self.nodes@[0].0 as nat));
                    assert(id_list_text(pre) =~= Seq::<char>::empty());
                }
            }
            assert(out@ =~= head + id_list_text(self.nodes@.take(i + 1)));
            i += 1;
        }
        assert(self.nodes@.take(i as int) =~= self.nodes@);
        push_text(&mut out, "]");
        out
    }
}

/// Number of edges in `es` into `s` whose predecessor is not in `done`.
pub open spec fn in_count(es: Seq<Edge>, s: WorkBlockId, done: Set<WorkBlockId>) -> nat
    decreases es.len(),
{
    if es.len() == 0 {
        0
    } else {
        in_count(es.drop_last(), s, done) + if es.last().successor == s && !done.contains(
            es.last().predecessor,
        ) {
            1nat
        } else {
            0nat
        }
    }
}

/// Number of edges in `es` from `p` into `s`.
pub open spec fn in_from(es: Seq<Edge>, s: WorkBlockId, p: WorkBlockId) -> nat
    decreases es.len(),
{
    if es.len() == 0 {
        0
    } else {
        in_from(es.drop_last(), s, p) + if es.last().successor == s && es.last().predecessor
            == p {
            1nat
        } else {
            0nat
        }
    }
}

impl DependencyGraph {
    /// Each node once, every edge between nodes, and `in_degree` at least
    /// the number of edges into each node.
    pub open spec fn wf(&self) -> bool {
        &&& self.nodes@.no_duplicates()
        &&& self.in_degree@.len() == self.nodes@.len()
        &&& forall|k: int|
            0 <= k < self.edges@.len() ==> self.nodes@.contains(#[trigger] self.edges@[k].predecessor)
                && self.nodes@.contains(self.edges@[k].successor)
        &&& forall|i: int|
            0 <= i < self.nodes@.len() ==> #[trigger] self.in_degree@[i] >= in_count(
                self.edges@,
                self.nodes@[i],
                Set::empty(),
            )
    }

    /// How far node `i`'s recorded in-degree exceeds its edges.
    pub open spec fn extra(&self, i: int) -> int {
        self.in_degree@[i] - in_count(self.edges@, self.nodes@[i], Set::empty())
    }

    /// `in_degree` counts exactly the edges into each node.
    pub open spec fn counts_exact(&self) -> bool {
        forall|i: int| 0 <= i < self.nodes@.len() ==> #[trigger] self.extra(i) == 0
    }

    /// Every block of `s` has a recorded in-degree above its edges or an
    /// edge into it from `s`: blocks Kahn's algorithm can never place.
    pub open spec fn is_stuck(&self, s: Set<WorkBlockId>) -> bool {
        &&& s.subset_of(self.nodes@.to_set())
        &&& forall|x: WorkBlockId| #[trigger] s.contains(x) ==> (exists|i: int| 0 <= i < self.nodes@.len() && self.nodes@[i] == x && #[trigger] self.extra(i) > 0)
            || exists|k: int| 0 <= k < self.edges@.len() && #[trigger] self.edges@[k].successor == x
                && s.contains(self.edges@[k].predecessor)
    }

    /// Some nonempty set of blocks is stuck.
    pub open spec fn is_blocked(&self) -> bool {
        exists|s: Set<WorkBlockId>| s != Set::<WorkBlockId>::empty() && #[trigger] self.is_stuck(s)
    }

    /// `order` lists every node exactly once, each edge's predecessor before
    /// its successor.
    pub open spec fn is_topological_order(&self, order: Seq<WorkBlockId>) -> bool {
        &&& order.no_duplicates()
        &&& order.to_set() == self.nodes@.to_set()
        &&& forall|k: int, i: int, j: int|
            #![trigger order[i], order[j], self.edges@[k]]
            0 <= k < self.edges@.len() && 0 <= i < order.len() && 0 <= j < order.len()
                && order[i] == self.edges@[k].predecessor && order[j]
                == self.edges@[k].successor ==> i < j
    }

    /// `s` is a set of nodes each of which has an edge into it from `s`: the
    /// nodes on a cycle or downstream of one.
    pub open spec fn is_closed(&self, s: Set<WorkBlockId>) -> bool {
        &&& s.subset_of(self.nodes@.to_set())
        &&& forall|x: WorkBlockId|
            #[trigger] s.contains(x) ==> exists|k: int|
                0 <= k < self.edges@.len() && #[trigger] self.edges@[k].successor == x
                    && s.contains(self.edges@[k].predecessor)
    }

    /// Block `x` has no edge into it.
    pub open spec fn is_source(&self, x: WorkBlockId) -> bool {
        in_count(self.edges@, x, Set::empty()) == 0
    }

    /// `order` places the blocks without edges into them first, in id order.
    pub open spec fn sources_first_by_id(&self, order: Seq<WorkBlockId>) -> bool {
        forall|a: int, b: int| 0 <= a < b < order.len() && self.is_source(#[trigger] order[b])
            ==> self.is_source(#[trigger] order[a]) && order[a].0 <= order[b].0
    }

    /// Some edge runs from `a` to `b`.
    pub open spec fn feeds(&self, a: WorkBlockId, b: WorkBlockId) -> bool {
        exists|k: int| 0 <= k < self.edges@.len() && (#[trigger] self.edges@[k]).predecessor == a && self.edges@[k].successor == b
    }

    /// In `order`, block `i` is freed by block `h`: its last predecessor.
    pub open spec fn freed_at(&self, order: Seq<WorkBlockId>, i: int, h: int) -> bool {
        &&& 0 <= h < i < order.len()
        &&& self.feeds(order[h], order[i])
        &&& forall|j: int| h < j < i ==> !self.feeds(#[trigger] order[j], order[i])
    }

    /// `order` takes blocks in the order they are freed: a block freed by an
    /// earlier block comes first, and blocks freed by the same block come in
    /// id order.
    pub open spec fn freed_in_order_by_id(&self, order: Seq<WorkBlockId>) -> bool {
        forall|a: int, b: int, ha: int, hb: int|
            #![trigger self.freed_at(order, a, ha), self.freed_at(order, b, hb)]
            a < b && self.freed_at(order, a, ha) && self.freed_at(order, b, hb)
                ==> ha <= hb && (ha == hb ==> order[a].0 <= order[b].0)
    }

    /// The graph has a cycle: some nonempty set of nodes is closed.
    pub open spec fn has_cycle(&self) -> bool {
        exists|s: Set<WorkBlockId>| s != Set::<WorkBlockId>::empty() && #[trigger] self.is_closed(s)
    }
}

// ── counting lemmas ─────────────────────────────────────────────────────────

proof fn lemma_in_count_insert(es: Seq<Edge>, s: WorkBlockId, done: Set<WorkBlockId>, p: WorkBlockId)
    requires
        !done.contains(p),
    ensures
        in_count(es, s, done) == in_count(es, s, done.insert(p)) + in_from(es, s, p),
    decreases es.len(),
{
    if es.len() > 0 {
        lemma_in_count_insert(es.drop_last(), s, done, p);
    }
}

proof fn lemma_in_from_take(es: Seq<Edge>, s: WorkBlockId, p: WorkBlockId, k: int)
    requires
        0 <= k < es.len(),
    ensures
        in_from(es.take(k + 1), s, p) == in_from(es.take(k), s, p) + if es[k].successor == s
            && es[k].predecessor == p {
            1nat
        } else {
            0nat
        },
{
    assert(es.take(k + 1).drop_last() =~= es.take(k));
}

proof fn lemma_in_from_prefix(es: Seq<Edge>, s: WorkBlockId, p: WorkBlockId, k: int)
    requires
        0 <= k <= es.len(),
    ensures
        in_from(es.take(k), s, p) <= in_from(es, s, p),
    decreases es.len() - k,
{
    if k < es.len() {
        lemma_in_from_take(es, s, p, k);
        lemma_in_from_prefix(es, s, p, k + 1);
    } else {
        assert(es.take(k) =~= es);
    }
}

proof fn lemma_in_from_pos(es: Seq<Edge>, s: WorkBlockId, p: WorkBlockId) -> (k: int)
    requires
        in_from(es, s, p) > 0,
    ensures
        0 <= k < es.len(),
        es[k].successor == s,
        es[k].predecessor == p,
    decreases es.len(),
{
    if es.last().successor == s && es.last().predecessor == p {
        es.len() - 1
    } else {
        let k = lemma_in_from_pos(es.drop_last(), s, p);
        assert(es[k] == es.drop_last()[k]);
        k
    }
}

proof fn lemma_in_count_zero(es: Seq<Edge>, s: WorkBlockId, done: Set<WorkBlockId>)
    requires
        in_count(es, s, done) == 0,
    ensures
        forall|k: int|
            0 <= k < es.len() && #[trigger] es[k].successor == s ==> done.contains(es[k].predecessor),
    decreases es.len(),
{
    if es.len() > 0 {
        lemma_in_count_zero(es.drop_last(), s, done);
        assert forall|k: int|
            0 <= k < es.len() && #[trigger] es[k].successor == s implies done.contains(
            es[k].predecessor,
        ) by {
            if k < es.len() - 1 {
                assert(es[k] == es.drop_last()[k]);
            }
        }
    }
}

proof fn lemma_in_count_pos(es: Seq<Edge>, s: WorkBlockId, done: Set<WorkBlockId>) -> (k: int)
    requires
        in_count(es, s, done) > 0,
    ensures
        0 <= k < es.len(),
        es[k].successor == s,
        !done.contains(es[k].predecessor),
    decreases es.len(),
{
    if es.last().successor == s && !done.contains(es.last().predecessor) {
        es.len() - 1
    } else {
        let k = lemma_in_count_pos(es.drop_last(), s, done);
        assert(es[k] == es.drop_last()[k]);
        k
    }
}

proof fn lemma_in_count_empty_done(es: Seq<Edge>, s: WorkBlockId)
    ensures
        in_count(es, s, Set::empty()) <= es.len(),
    decreases es.len(),
{
    if es.len() > 0 {
        lemma_in_count_empty_done(es.drop_last(), s);
    }
}

/// A duplicate-free sequence of indices below `n` has at most `n` entries,
/// and holds every index below `n` exactly when it has `n` entries.
proof fn lemma_index_seq_bound(q: Seq<usize>, n: nat)
    requires
        n <= usize::MAX,
        q.no_duplicates(),
        forall|i: int| 0 <= i < q.len() ==> q[i] < n,
    ensures
        q.len() <= n,
        q.len() == n ==> forall|j: usize| j < n ==> q.contains(j),
        (forall|j: usize| j < n ==> q.contains(j)) ==> q.len() == n,
{
    let t = q.map_values(|x: usize| x as int);
    assert(t.no_duplicates()) by {
        assert forall|i: int, j: int| 0 <= i < t.len() && 0 <= j < t.len() && i != j implies t[i] != t[j] by {
            assert(q[i] != q[j]);
        }
    }
    t.unique_seq_to_set();
    vstd::set_lib::lemma_int_range(0, n as int);
    let r = vstd::set_lib::set_int_range(0, n as int);
    assert(t.to_set().subset_of(r)) by {
        assert forall|x: int| t.to_set().contains(x) implies r.contains(x) by {
            let i = choose|i: int| 0 <= i < t.len() && t[i] == x;
            assert(q[i] < n);
        }
    }
    vstd::set_lib::lemma_len_subset(t.to_set(), r);
    if q.len() == n {
        vstd::set_lib::lemma_subset_equality(t.to_set(), r);
        assert forall|j: usize| j < n implies q.contains(j) by {
            assert(r.contains(j as int));
            assert(t.to_set().contains(j as int));
            let i = choose|i: int| 0 <= i < t.len() && t[i] == j as int;
            assert(q[i] == j);
        }
    }
    if forall|j: usize| j < n ==> q.contains(j) {
        assert(r.subset_of(t.to_set())) by {
            assert forall|x: int| r.contains(x) implies t.to_set().contains(x) by {
                let j = x as usize;
                assert(j as int == x);
                assert(q.contains(j));
                let i = choose|i: int| 0 <= i < q.len() && q[i] == j;
                assert(t[i] == x);
            }
        }
        vstd::set_lib::lemma_len_subset(r, t.to_set());
    }
}

/// No closed set meets a sequence in which every edge into an entry comes
/// from an earlier entry.
proof fn lemma_closed_misses_prefix(g: &DependencyGraph, order: Seq<WorkBlockId>, s: Set<WorkBlockId>, p: int)
    requires
        g.is_closed(s),
        0 <= p < order.len(),
        forall|q: int, k: int|
            0 <= q < order.len() && 0 <= k < g.edges@.len() && #[trigger] g.edges@[k].successor
                == #[trigger] order[q] ==> order.take(q).contains(g.edges@[k].predecessor),
    ensures
        !s.contains(order[p]),
    decreases p,
{
    if s.contains(order[p]) {
        let k = choose|k: int|
            0 <= k < g.edges@.len() && #[trigger] g.edges@[k].successor == order[p]
                && s.contains(g.edges@[k].predecessor);
        assert(order.take(p).contains(g.edges@[k].predecessor));
        let q = choose|q: int| 0 <= q < p && order.take(p)[q] == g.edges@[k].predecessor;
        assert(order[q] == order.take(p)[q]);
        lemma_closed_misses_prefix(g, order, s, q);
    }
}

// ── executable helpers ──────────────────────────────────────────────────────

fn node_index(nodes: &Vec<WorkBlockId>, id: WorkBlockId) -> (r: usize)
    requires
        nodes@.contains(id),
    ensures
        r < nodes@.len(),
        nodes@[r as int] == id,
{
    let mut i: usize = 0;
    while i < nodes.len()
        invariant
            i <= nodes@.len(),
            forall|j: int| 0 <= j < i ==> nodes@[j] != id,
            nodes@.contains(id),
        decreases nodes.len() - i,
    {
        if nodes[i] == id {
            return i;
        }
        i += 1;
    }
    proof {
        let j = choose|j: int| 0 <= j < nodes@.len() && nodes@[j] == id;
    }
    0
}

/// The entries of `r` index nodes in order of their ids.
pub open spec fn sorted_by_node_id(r: Seq<usize>, nodes: Seq<WorkBlockId>) -> bool {
    forall|a: int, b: int| 0 <= a < b < r.len() ==> nodes[#[trigger] r[a] as int].0 <= nodes[#[trigger] r[b] as int].0
}

/// Entries of `r` whose nodes share an id stand in the order they have in `v`.
pub open spec fn keeps_tie_order(r: Seq<usize>, v: Seq<usize>, nodes: Seq<WorkBlockId>) -> bool {
    forall|a: int, b: int, i: int, j: int|
        0 <= a < b < r.len() && 0 <= i < v.len() && 0 <= j < v.len()
            && #[trigger] v[i] == #[trigger] r[a] && #[trigger] v[j] == #[trigger] r[b]
            && nodes[r[a] as int].0 == nodes[r[b] as int].0
            ==> i < j
}

/// `v` ordered by the ids of the nodes its entries index (insertion sort;
/// equal ids keep their order).
fn sort_by_node_id(v: Vec<usize>, nodes: &Vec<WorkBlockId>) -> (r: Vec<usize>)
    requires
        v@.no_duplicates(),
        forall|i: int| 0 <= i < v@.len() ==> v@[i] < nodes@.len(),
    ensures
        r@.no_duplicates(),
        r@.len() == v@.len(),
        forall|i: int| 0 <= i < r@.len() ==> r@[i] < nodes@.len(),
        forall|j: usize| #[trigger] r@.contains(j) <==> v@.contains(j),
        sorted_by_node_id(r@, nodes@),
        keeps_tie_order(r@, v@, nodes@),
{
    let mut out: Vec<usize> = Vec::new();
    let mut i: usize = 0;
    while i < v.len()
        invariant
            i <= v@.len(),
            out@.no_duplicates(),
            out@.len() == i,
            forall|t: int| 0 <= t < out@.len() ==> out@[t] < nodes@.len(),
            forall|j: usize| #[trigger] out@.contains(j) <==> v@.take(i as int).contains(j),
            v@.no_duplicates(),
            forall|t: int| 0 <= t < v@.len() ==> v@[t] < nodes@.len(),
            sorted_by_node_id(out@, nodes@),
            keeps_tie_order(out@, v@, nodes@),
        decreases v.len() - i,
    {
        let x = v[i];
        let key = nodes[x].0;
        let mut p: usize = 0;
        while p < out.len() && nodes[out[p]].0 <= key
            invariant
                p <= out@.len(),
                forall|t: int| 0 <= t < out@.len() ==> out@[t] < nodes@.len(),
                forall|t: int| 0 <= t < p ==> nodes@[#[trigger] out@[t] as int].0 <= key,
                key == nodes@[x as int].0,
            decreases out.len() - p,
        {
            p += 1;
        }
        proof {
            assert(!out@.contains(x)) by {
                if out@.contains(x) {
                    assert(v@.take(i as int).contains(x));
                    let t = choose|t: int| 0 <= t < i && v@.take(i as int)[t] == x;
                    assert(v@[t] == v@[i as int]);
                }
            }
        }
        let ghost old_out = out@;
        out.insert(p, x);
        proof {
            assert(out@ == old_out.insert(p as int, x));
            assert(v@.take(i + 1) =~= v@.take(i as int).push(x));
            assert forall|j: usize| #[trigger] out@.contains(j) implies v@.take(i + 1).contains(j) by {
                let t = choose|t: int| 0 <= t < out@.len() && out@[t] == j;
                if t == p {
                    assert(v@.take(i + 1)[i as int] == x);
                } else {
                    let ti = if t < p { t } else { t - 1 };
                    assert(old_out[ti] == j);
                    assert(old_out.contains(j));
                    assert(v@.take(i as int).contains(j));
                    let w = choose|w: int| 0 <= w < i && #[trigger] v@.take(i as int)[w] == j;
                    assert(v@.take(i + 1)[w] == j);
                }
            }
            assert forall|j: usize| v@.take(i + 1).contains(j) implies #[trigger] out@.contains(j) by {
                let w = choose|w: int| 0 <= w < i + 1 && #[trigger] v@.take(i + 1)[w] == j;
                if w == i {
                    assert(out@[p as int] == x);
                } else {
                    assert(v@.take(i as int)[w] == j);
                    assert(v@.take(i as int).contains(j));
                    assert(old_out.contains(j));
                    let t = choose|t: int| 0 <= t < old_out.len() && old_out[t] == j;
                    if t < p {
                        assert(out@[t] == j);
                    } else {
                        assert(out@[t + 1] == j);
                    }
                }
            }
            assert forall|a: int, b: int| 0 <= a < out@.len() && 0 <= b < out@.len() && a != b implies out@[a] != out@[b] by {
                if a == p || b == p {
                    let o = if a == p { b } else { a };
                    let oi = if o < p { o } else { o - 1 };
                    assert(out@[o] == old_out[oi]);
                } else {
                    let ai = if a < p { a } else { a - 1 };
                    let bi = if b < p { b } else { b - 1 };
                    assert(out@[a] == old_out[ai]);
                    assert(out@[b] == old_out[bi]);
                }
            }
            assert forall|t: int| 0 <= t < out@.len() implies out@[t] < nodes@.len() by {
                if t < p {
                    assert(out@[t] == old_out[t]);
                } else if t > p {
                    assert(out@[t] == old_out[t - 1]);
                }
            }
            // Entries from `p` on carry ids above `key`.
            assert forall|t: int| p <= t < old_out.len() implies nodes@[#[trigger] old_out[t] as int].0 > key by {
                assert(nodes@[old_out[p as int] as int].0 > key);
                if t > p {
                    assert(nodes@[old_out[p as int] as int].0 <= nodes@[old_out[t] as int].0);
                }
            }
            assert forall|a: int, b: int| 0 <= a < b < out@.len()
                implies nodes@[#[trigger] out@[a] as int].0 <= nodes@[#[trigger] out@[b] as int].0 by {
                if a == p {
                    assert(out@[b] == old_out[b - 1]);
                    assert(nodes@[old_out[b - 1] as int].0 > key);
                } else if b == p {
                    assert(out@[a] == old_out[a]);
                } else {
                    let ai = if a < p { a } else { a - 1 };
                    let bi = if b < p { b } else { b - 1 };
                    assert(out@[a] == old_out[ai]);
                    assert(out@[b] == old_out[bi]);
                    assert(nodes@[old_out[ai] as int].0 <= nodes@[old_out[bi] as int].0);
                }
            }
            assert forall|a: int, b: int, si: int, sj: int|
                0 <= a < b < out@.len() && 0 <= si < v@.len() && 0 <= sj < v@.len()
                    && #[trigger] v@[si] == #[trigger] out@[a] && #[trigger] v@[sj] == #[trigger] out@[b]
                    && nodes@[out@[a] as int].0 == nodes@[out@[b] as int].0
                implies si < sj by {
                if a == p {
                    assert(out@[b] == old_out[b - 1]);
                    assert(nodes@[old_out[b - 1] as int].0 > key);
                } else if b == p {
                    assert(out@[a] == old_out[a]);
                    assert(old_out.contains(old_out[a]));
                    assert(v@.take(i as int).contains(old_out[a]));
                    let w = choose|w: int| 0 <= w < i && #[trigger] v@.take(i as int)[w] == old_out[a];
                    assert(v@[w] == v@[si]);
                    assert(v@[sj] == v@[i as int]);
                } else {
                    let ai = if a < p { a } else { a - 1 };
                    let bi = if b < p { b } else { b - 1 };
                    assert(out@[a] == old_out[ai]);
                    assert(out@[b] == old_out[bi]);
                    assert(v@[si] == old_out[ai] && v@[sj] == old_out[bi]);
                }
            }
        }
        i += 1;
    }
    proof {
        assert(v@.take(v@.len() as int) =~= v@);
    }
    out
}

/// `s` without repeats, each value kept at its first position.
pub open spec fn dedup(s: Seq<WorkBlockId>) -> Seq<WorkBlockId>
    decreases s.len(),
{
    if s.len() == 0 {
        Seq::empty()
    } else {
        let r = dedup(s.drop_last());
        if r.contains(s.last()) {
            r
        } else {
            r.push(s.last())
        }
    }
}

/// The edges of the dependencies of `deps` that belong to `plan_id` and join
/// two of `nodes`, in the order of `deps`.
pub open spec fn plan_edges(deps: Seq<Dependency>, plan_id: crate::model::PlanId, nodes: Seq<WorkBlockId>) -> Seq<Edge>
    decreases deps.len(),
{
    if deps.len() == 0 {
        Seq::empty()
    } else {
        let rest = plan_edges(deps.drop_last(), plan_id, nodes);
        let d = deps.last();
        if d.plan_id == plan_id && nodes.contains(d.predecessor) && nodes.contains(d.successor) {
            rest.push(
                Edge {
                    predecessor: d.predecessor,
                    successor: d.successor,
                    dependency_type: d.dependency_type,
                    lag: d.lag,
                },
            )
        } else {
            rest
        }
    }
}

/// Law: each edge has the ends, type and lag of one of the plan's own
/// dependencies, between two nodes.
pub proof fn lemma_edges_are_plan_dependencies(deps: Seq<Dependency>, plan_id: crate::model::PlanId, nodes: Seq<WorkBlockId>)
    ensures
        forall|t: int| #![trigger plan_edges(deps, plan_id, nodes)[t]]
            0 <= t < plan_edges(deps, plan_id, nodes).len() ==> exists|k: int| #![trigger deps[k]]
            0 <= k < deps.len() && deps[k].plan_id == plan_id
                && nodes.contains(deps[k].predecessor) && nodes.contains(deps[k].successor)
                && plan_edges(deps, plan_id, nodes)[t] == (Edge {
                    predecessor: deps[k].predecessor,
                    successor: deps[k].successor,
                    dependency_type: deps[k].dependency_type,
                    lag: deps[k].lag,
                }),
    decreases deps.len(),
{
    if deps.len() > 0 {
        let dl = deps.drop_last();
        lemma_edges_are_plan_dependencies(dl, plan_id, nodes);
        let rest = plan_edges(dl, plan_id, nodes);
        let all = plan_edges(deps, plan_id, nodes);
        assert forall|t: int| #![trigger all[t]] 0 <= t < all.len() implies exists|k: int| #![trigger deps[k]]
            0 <= k < deps.len() && deps[k].plan_id == plan_id
                && nodes.contains(deps[k].predecessor) && nodes.contains(deps[k].successor)
                && all[t] == (Edge {
                    predecessor: deps[k].predecessor,
                    successor: deps[k].successor,
                    dependency_type: deps[k].dependency_type,
                    lag: deps[k].lag,
                }) by {
            if t < rest.len() {
                assert(all[t] == rest[t]);
                let k = choose|k: int| #![trigger dl[k]]
                    0 <= k < dl.len() && dl[k].plan_id == plan_id
                        && nodes.contains(dl[k].predecessor) && nodes.contains(dl[k].successor)
                        && rest[t] == (Edge {
                            predecessor: dl[k].predecessor,
                            successor: dl[k].successor,
                            dependency_type: dl[k].dependency_type,
                            lag: dl[k].lag,
                        });
                assert(deps[k] == dl[k]);
            } else {
                assert(deps[deps.len() - 1] == deps.last());
            }
        }
    }
}

/// Law: each of the plan's own dependencies between two nodes gives an edge
/// with its ends, type and lag.
pub proof fn lemma_plan_dependencies_are_edges(deps: Seq<Dependency>, plan_id: crate::model::PlanId, nodes: Seq<WorkBlockId>)
    ensures
        forall|k: int| #![trigger deps[k]]
            0 <= k < deps.len() && deps[k].plan_id == plan_id && nodes.contains(deps[k].predecessor)
                && nodes.contains(deps[k].successor) ==> plan_edges(deps, plan_id, nodes).contains(Edge {
                    predecessor: deps[k].predecessor,
                    successor: deps[k].successor,
                    dependency_type: deps[k].dependency_type,
                    lag: deps[k].lag,
                }),
    decreases deps.len(),
{
    if deps.len() > 0 {
        let dl = deps.drop_last();
        lemma_plan_dependencies_are_edges(dl, plan_id, nodes);
        let rest = plan_edges(dl, plan_id, nodes);
        let all = plan_edges(deps, plan_id, nodes);
        assert forall|k: int| #![trigger deps[k]]
            0 <= k < deps.len() && deps[k].plan_id == plan_id && nodes.contains(deps[k].predecessor)
                && nodes.contains(deps[k].successor) implies all.contains(Edge {
                    predecessor: deps[k].predecessor,
                    successor: deps[k].successor,
                    dependency_type: deps[k].dependency_type,
                    lag: deps[k].lag,
                }) by {
            let e = Edge {
                predecessor: deps[k].predecessor,
                successor: deps[k].successor,
                dependency_type: deps[k].dependency_type,
                lag: deps[k].lag,
            };
            if k < dl.len() {
                assert(dl[k] == deps[k]);
                assert(rest.contains(e));
                let t = choose|t: int| 0 <= t < rest.len() && rest[t] == e;
                assert(all[t] == rest[t]);
            } else {
                assert(all[rest.len() as int] == e);
            }
        }
    }
}

/// The graph's edges in terms of the plan's top-level blocks.
proof fn lemma_graph_edges_of_plan(deps: Seq<Dependency>, plan_id: crate::model::PlanId, roots: Seq<WorkBlockId>)
    ensures
        forall|t: int| #![trigger plan_edges(deps, plan_id, dedup(roots))[t]]
            0 <= t < plan_edges(deps, plan_id, dedup(roots)).len() ==> exists|k: int| #![trigger deps[k]]
            0 <= k < deps.len() && deps[k].plan_id == plan_id
                && roots.contains(deps[k].predecessor) && roots.contains(deps[k].successor)
                && plan_edges(deps, plan_id, dedup(roots))[t] == (Edge {
                    predecessor: deps[k].predecessor,
                    successor: deps[k].successor,
                    dependency_type: deps[k].dependency_type,
                    lag: deps[k].lag,
                }),
{
    lemma_edges_are_plan_dependencies(deps, plan_id, dedup(roots));
    lemma_dedup(roots);
}

proof fn lemma_dedup(s: Seq<WorkBlockId>)
    ensures
        dedup(s).no_duplicates(),
        forall|x: WorkBlockId| #[trigger] dedup(s).contains(x) <==> s.contains(x),
    decreases s.len(),
{
    if s.len() > 0 {
        lemma_dedup(s.drop_last());
        assert(s =~= s.drop_last().push(s.last()));
        let r = dedup(s.drop_last());
        assert forall|x: WorkBlockId| #[trigger] dedup(s).contains(x) <==> s.contains(x) by {
            if s.contains(x) && x != s.last() {
                let i = choose|i: int| 0 <= i < s.len() && s[i] == x;
                assert(s.drop_last()[i] == x);
            }
            if r.contains(x) {
                let i = choose|i: int| 0 <= i < s.drop_last().len() && s.drop_last()[i] == x;
                assert(s[i] == x);
            }
            if !r.contains(s.last()) {
                assert(r.push(s.last())[r.len() as int] == s.last());
                if r.push(s.last()).contains(x) && x != s.last() {
                    let i = choose|i: int| 0 <= i < r.len() + 1 && r.push(s.last())[i] == x;
                    assert(r[i] == x);
                }
                if r.contains(x) {
                    let i = choose|i: int| 0 <= i < r.len() && r[i] == x;
                    assert(r.push(s.last())[i] == x);
                }
            }
        }
    }
}

proof fn lemma_plan_edges_endpoints(deps: Seq<Dependency>, plan_id: crate::model::PlanId, nodes: Seq<WorkBlockId>)
    ensures
        forall|k: int|
            0 <= k < plan_edges(deps, plan_id, nodes).len() ==> nodes.contains(
                #[trigger] plan_edges(deps, plan_id, nodes)[k].predecessor,
            ) && nodes.contains(plan_edges(deps, plan_id, nodes)[k].successor),
        plan_edges(deps, plan_id, nodes).len() <= deps.len(),
    decreases deps.len(),
{
    if deps.len() > 0 {
        lemma_plan_edges_endpoints(deps.drop_last(), plan_id, nodes);
        let rest = plan_edges(deps.drop_last(), plan_id, nodes);
        let all = plan_edges(deps, plan_id, nodes);
        assert forall|k: int| 0 <= k < all.len() implies nodes.contains(#[trigger] all[k].predecessor)
            && nodes.contains(all[k].successor) by {
            let d = deps.last();
            if d.plan_id == plan_id && nodes.contains(d.predecessor) && nodes.contains(d.successor) {
                assert(all == rest.push(Edge {
                    predecessor: d.predecessor,
                    successor: d.successor,
                    dependency_type: d.dependency_type,
                    lag: d.lag,
                }));
                if k < rest.len() {
                    assert(all[k] == rest[k]);
                    assert(nodes.contains(rest[k].predecessor));
                } else {
                    assert(all[k].predecessor == d.predecessor);
                }
            } else {
                assert(all == rest);
                assert(nodes.contains(rest[k].predecessor));
            }
        }
    }
}

/// Builds the `DependencyGraph` of `plan`: its root blocks (each once) and
/// the plan's own dependencies between them. Dependencies of other plans,
/// or touching blocks outside the plan, are left out.
pub fn build_graph(model: &Model, plan: &Plan) -> (g: DependencyGraph)
    ensures
        g.wf(),
        g.counts_exact(),
        g.nodes@ == dedup(plan.root_blocks@),
        g.edges@ == plan_edges(model.dependencies@, plan.id, g.nodes@),
        forall|t: int| #![trigger g.edges@[t]] 0 <= t < g.edges@.len() ==> exists|k: int| #![trigger model.dependencies@[k]]
            0 <= k < model.dependencies@.len() && model.dependencies@[k].plan_id == plan.id
                && plan.root_blocks@.contains(model.dependencies@[k].predecessor)
                && plan.root_blocks@.contains(model.dependencies@[k].successor)
                && g.edges@[t] == (Edge {
                    predecessor: model.dependencies@[k].predecessor,
                    successor: model.dependencies@[k].successor,
                    dependency_type: model.dependencies@[k].dependency_type,
                    lag: model.dependencies@[k].lag,
                }),
{
    let nodes = collect_active_blocks(model, plan);
    let n = nodes.len();
    let mut in_degree: Vec<usize> = Vec::new();
    let mut i: usize = 0;
    while i < n
        invariant
            i <= n,
            n == nodes@.len(),
            in_degree@.len() == i,
            forall|t: int| 0 <= t < i ==> #[trigger] in_degree@[t] == 0,
        decreases n - i,
    {
        in_degree.push(0);
        i += 1;
    }
    let mut edges: Vec<Edge> = Vec::new();
    let mut k: usize = 0;
    while k < model.dependencies.len()
        invariant
            k <= model.dependencies@.len(),
            n == nodes@.len(),
            nodes@.no_duplicates(),
            in_degree@.len() == n,
            edges@ == plan_edges(model.dependencies@.take(k as int), plan.id, nodes@),
            forall|t: int|
                0 <= t < n ==> #[trigger] in_degree@[t] == in_count(edges@, nodes@[t], Set::empty()),
        decreases model.dependencies.len() - k,
    {
        let dep = &model.dependencies[k];
        proof {
            assert(model.dependencies@.take(k + 1).drop_last() =~= model.dependencies@.take(k as int));
            lemma_plan_edges_endpoints(model.dependencies@.take(k as int), plan.id, nodes@);
        }
        if dep.plan_id == plan.id && contains_id(&nodes, dep.predecessor) && contains_id(
            &nodes,
            dep.successor,
        ) {
            let j = node_index(&nodes, dep.successor);
            proof {
                lemma_in_count_empty_done(edges@, nodes@[j as int]);
            }
            let old_deg = in_degree[j];
            let ghost old_edges = edges@;
            let ghost old_deg_seq = in_degree@;
            edges.push(
                Edge {
                    predecessor: dep.predecessor,
                    successor: dep.successor,
                    dependency_type: dep.dependency_type,
                    lag: dep.lag,
                },
            );
            in_degree.set(j, old_deg + 1);
            proof {
                assert forall|t: int| 0 <= t < n implies #[trigger] in_degree@[t] == in_count(
                    edges@,
                    nodes@[t],
                    Set::empty(),
                ) by {
                    assert(edges@.drop_last() =~= old_edges);
                    if t != j {
                        assert(nodes@[t] != nodes@[j as int]);
                    }
                }
            }
        }
        k += 1;
    }
    proof {
        assert(model.dependencies@.take(model.dependencies@.len() as int) =~= model.dependencies@);
        lemma_plan_edges_endpoints(model.dependencies@, plan.id, nodes@);
        assert forall|k: int| 0 <= k < edges@.len() implies nodes@.contains(
            #[trigger] edges@[k].predecessor,
        ) && nodes@.contains(edges@[k].successor) by {
            assert(edges@[k] == plan_edges(model.dependencies@, plan.id, nodes@)[k]);
        }
        lemma_graph_edges_of_plan(model.dependencies@, plan.id, plan.root_blocks@);
    }
    DependencyGraph { nodes, edges, in_degree }
}

fn contains_id(v: &Vec<WorkBlockId>, id: WorkBlockId) -> (r: bool)
    ensures
        r == v@.contains(id),
{
    let mut i: usize = 0;
    while i < v.len()
        invariant
            i <= v@.len(),
            forall|t: int| 0 <= t < i ==> v@[t] != id,
        decreases v.len() - i,
    {
        if v[i] == id {
            return true;
        }
        i += 1;
    }
    false
}

/// Active blocks are exactly the plan's `root_blocks` (each once).
fn collect_active_blocks(_model: &Model, plan: &Plan) -> (r: Vec<WorkBlockId>)
    ensures
        r@ == dedup(plan.root_blocks@),
        r@.no_duplicates(),
{
    let mut out: Vec<WorkBlockId> = Vec::new();
    let mut i: usize = 0;
    while i < plan.root_blocks.len()
        invariant
            i <= plan.root_blocks@.len(),
            out@ == dedup(plan.root_blocks@.take(i as int)),
        decreases plan.root_blocks.len() - i,
    {
        let id = plan.root_blocks[i];
        proof {
            assert(plan.root_blocks@.take(i + 1).drop_last() =~= plan.root_blocks@.take(i as int));
        }
        if !contains_id(&out, id) {
            out.push(id);
        }
        i += 1;
    }
    proof {
        assert(plan.root_blocks@.take(plan.root_blocks@.len() as int) =~= plan.root_blocks@);
        lemma_dedup(plan.root_blocks@);
    }
    out
}

/// Removes the edges out of `uid` (newly placed) from the residual in-degrees
/// and returns, in edge order, the nodes whose in-degree dropped to zero.
fn release_successors(
    graph: &DependencyGraph,
    in_degree: &mut Vec<usize>,
    uid: WorkBlockId,
    Ghost(done): Ghost<Set<WorkBlockId>>,
    queue: &Vec<usize>,
) -> (r: Vec<usize>)
    requires
        graph.wf(),
        old(in_degree)@.len() == graph.nodes@.len(),
        !done.contains(uid),
        forall|j: int|
            0 <= j < graph.nodes@.len() ==> #[trigger] old(in_degree)@[j] == graph.extra(j) + in_count(
                graph.edges@,
                graph.nodes@[j],
                done,
            ),
        queue@.no_duplicates(),
        forall|t: int| 0 <= t < queue@.len() ==> queue@[t] < graph.nodes@.len(),
        forall|j: usize|
            j < graph.nodes@.len() ==> (#[trigger] queue@.contains(j) <==> old(in_degree)@[j as int]
                == 0),
    ensures
        final(in_degree)@.len() == graph.nodes@.len(),
        forall|j: int|
            0 <= j < graph.nodes@.len() ==> #[trigger] final(in_degree)@[j] == graph.extra(j) + in_count(
                graph.edges@,
                graph.nodes@[j],
                done.insert(uid),
            ),
        r@.no_duplicates(),
        forall|t: int| 0 <= t < r@.len() ==> r@[t] < graph.nodes@.len(),
        forall|j: usize| #[trigger] r@.contains(j) ==> !queue@.contains(j),
        forall|j: usize|
            j < graph.nodes@.len() ==> (queue@.contains(j) || r@.contains(j) <==> #[trigger] final(in_degree)@[j as int] == 0),
        forall|t: int|
            0 <= t < r@.len() ==> in_count(graph.edges@, graph.nodes@[#[trigger] r@[t] as int], done.insert(uid))
                == 0,
{
    let ghost es = graph.edges@;
    let ghost ns = graph.nodes@;
    let ghost start = in_degree@;
    let ghost done2 = done.insert(uid);
    proof {
        assert forall|j: int| 0 <= j < ns.len() implies in_count(es, #[trigger] ns[j], done) == in_count(
            es,
            ns[j],
            done2,
        ) + in_from(es, ns[j], uid) by {
            lemma_in_count_insert(es, ns[j], done, uid);
        }
        assert(es.take(0) =~= Seq::<Edge>::empty());
    }
    let mut zeros: Vec<usize> = Vec::new();
    let mut k: usize = 0;
    while k < graph.edges.len()
        invariant
            graph.wf(),
            es == graph.edges@,
            ns == graph.nodes@,
            done2 == done.insert(uid),
            k <= es.len(),
            in_degree@.len() == ns.len(),
            forall|j: int|
                0 <= j < ns.len() ==> #[trigger] in_degree@[j] + in_from(es.take(k as int), ns[j], uid)
                    == graph.extra(j) + in_count(es, ns[j], done),
            forall|j: int| 0 <= j < ns.len() ==> #[trigger] graph.extra(j) >= 0,
            forall|j: int|
                0 <= j < ns.len() ==> in_count(es, #[trigger] ns[j], done) == in_count(es, ns[j], done2)
                    + in_from(es, ns[j], uid),
            zeros@.no_duplicates(),
            forall|t: int| 0 <= t < zeros@.len() ==> zeros@[t] < ns.len(),
            forall|j: usize| #[trigger] zeros@.contains(j) ==> !queue@.contains(j),
            forall|j: usize|
                j < ns.len() ==> (queue@.contains(j) || zeros@.contains(j) <==> #[trigger] in_degree@[j as int]
                    == 0),
            forall|t: int|
                0 <= t < zeros@.len() ==> in_count(es, ns[#[trigger] zeros@[t] as int], done2) == 0,
            forall|j: usize|
                j < ns.len() ==> (#[trigger] queue@.contains(j) <==> start[j as int] == 0),
            forall|t: int| 0 <= t < queue@.len() ==> queue@[t] < ns.len(),
        decreases es.len() - k,
    {
        let ghost before = in_degree@;
        proof {
            assert forall|j: int| 0 <= j < ns.len() implies in_from(es.take(k + 1), #[trigger] ns[j], uid)
                == in_from(es.take(k as int), ns[j], uid) + if es[k as int].successor == ns[j]
                && es[k as int].predecessor == uid {
                1nat
            } else {
                0nat
            } by {
                lemma_in_from_take(es, ns[j], uid, k as int);
            }
        }
        if graph.edges[k].predecessor == uid {
            let j = node_index(&graph.nodes, graph.edges[k].successor);
            proof {
                lemma_in_from_prefix(es, ns[j as int], uid, k + 1);
            }
            let d = in_degree[j] - 1;
            in_degree.set(j, d);
            if d == 0 {
                proof {
                    assert(!zeros@.contains(j));
                    assert(!queue@.contains(j));
                }
                let ghost old_zeros = zeros@;
                zeros.push(j);
                proof {
                    assert forall|x: usize| #[trigger] zeros@.contains(x) <==> old_zeros.contains(x) || x == j by {
                        if zeros@.contains(x) && x != j {
                            let t = choose|t: int| 0 <= t < zeros@.len() && zeros@[t] == x;
                            assert(old_zeros[t] == x);
                        }
                        if old_zeros.contains(x) {
                            let t = choose|t: int| 0 <= t < old_zeros.len() && old_zeros[t] == x;
                            assert(zeros@[t] == x);
                        }
                        assert(zeros@[old_zeros.len() as int] == j);
                    }
                    assert forall|t: int| 0 <= t < zeros@.len() implies in_count(es, ns[#[trigger] zeros@[t] as int], done2)
                        == 0 by {
                        if t < old_zeros.len() {
                            assert(zeros@[t] == old_zeros[t]);
                        }
                    }
                }
            }
            proof {
                assert forall|x: int| 0 <= x < ns.len() && x != j implies ns[x] != ns[j as int] by {}
            }
        }
        k += 1;
    }
    proof {
        assert(es.take(es.len() as int) =~= es);
    }
    zeros
}

/// The state of Kahn's algorithm after placing `sorted` (= the first `head`
/// queue entries): residual in-degrees count only edges from unplaced
/// blocks, the queue holds exactly the blocks with residual in-degree zero,
/// every placed block's predecessors were placed before it, and every queued
/// block's predecessors are placed.
pub open spec fn kahn_state(
    graph: &DependencyGraph,
    in_degree: Seq<usize>,
    queue: Seq<usize>,
    head: int,
    sorted: Seq<WorkBlockId>,
) -> bool {
    let es = graph.edges@;
    let ns = graph.nodes@;
    let n = ns.len();
    &&& graph.wf()
    &&& in_degree.len() == n
    &&& queue.no_duplicates()
    &&& forall|t: int| 0 <= t < queue.len() ==> queue[t] < n
    &&& 0 <= head <= queue.len()
    &&& sorted.len() == head
    &&& forall|p: int| 0 <= p < head ==> #[trigger] sorted[p] == ns[queue[p] as int]
    &&& forall|j: int| 0 <= j < n ==> #[trigger] in_degree[j] == graph.extra(j) + in_count(es, ns[j], sorted.to_set())
    &&& forall|j: usize| j < n ==> (#[trigger] queue.contains(j) <==> in_degree[j as int] == 0)
    &&& forall|q: int, k: int|
        0 <= q < sorted.len() && 0 <= k < es.len() && #[trigger] es[k].successor == #[trigger] sorted[q]
            ==> sorted.take(q).contains(es[k].predecessor)
    &&& forall|p: int, k: int|
        head <= p < queue.len() && 0 <= k < es.len() && #[trigger] es[k].successor == ns[#[trigger] queue[p] as int]
            ==> sorted.contains(es[k].predecessor)
}

/// Copies the in-degrees and lists the blocks without predecessors, in id order.
fn kahn_start(graph: &DependencyGraph) -> (r: (Vec<usize>, Vec<usize>))
    requires
        graph.wf(),
    ensures
        kahn_state(graph, r.0@, r.1@, 0, Seq::empty()),
        sorted_by_node_id(r.1@, graph.nodes@),
{
    let ghost es = graph.edges@;
    let ghost ns = graph.nodes@;
    let n = graph.nodes.len();
    let mut in_degree: Vec<usize> = Vec::new();
    let mut first: Vec<usize> = Vec::new();
    let mut i: usize = 0;
    while i < n
        invariant
            n == ns.len(),
            ns == graph.nodes@,
            graph.wf(),
            i <= n,
            in_degree@ == graph.in_degree@.take(i as int),
            first@.no_duplicates(),
            forall|t: int| 0 <= t < first@.len() ==> first@[t] < i,
            forall|j: usize| j < i ==> (#[trigger] first@.contains(j) <==> graph.in_degree@[j as int] == 0),
            forall|j: usize| #[trigger] first@.contains(j) ==> j < i,
        decreases n - i,
    {
        let d = graph.in_degree[i];
        in_degree.push(d);
        if d == 0 {
            let ghost old_first = first@;
            first.push(i);
            proof {
                assert forall|x: usize| #[trigger] first@.contains(x) <==> old_first.contains(x) || x == i by {
                    if first@.contains(x) && x != i {
                        let t = choose|t: int| 0 <= t < first@.len() && first@[t] == x;
                        assert(old_first[t] == x);
                    }
                    if old_first.contains(x) {
                        let t = choose|t: int| 0 <= t < old_first.len() && old_first[t] == x;
                        assert(first@[t] == x);
                    }
                    assert(first@[old_first.len() as int] == i);
                }
            }
        }
        proof {
            assert(in_degree@ =~= graph.in_degree@.take(i + 1));
        }
        i += 1;
    }
    proof {
        assert(in_degree@ =~= graph.in_degree@);
    }
    let queue = sort_by_node_id(first, &graph.nodes);
    proof {
        let sorted = Seq::<WorkBlockId>::empty();
        assert(sorted.to_set() =~= Set::<WorkBlockId>::empty());
        assert forall|p: int, k: int| 0 <= p < queue@.len() && 0 <= k < es.len() && #[trigger] es[k].successor
            == ns[#[trigger] queue@[p] as int] implies sorted.contains(es[k].predecessor) by {
            assert(queue@.contains(queue@[p]));
            assert(in_degree@[queue@[p] as int] == 0);
            lemma_in_count_zero(es, ns[queue@[p] as int], Set::empty());
        }
    }
    (in_degree, queue)
}

/// Places the next queued block and queues the blocks it frees.
fn kahn_step(
    graph: &DependencyGraph,
    in_degree: &mut Vec<usize>,
    queue: &mut Vec<usize>,
    sorted: &mut Vec<WorkBlockId>,
    head: usize,
)
    requires
        kahn_state(graph, old(in_degree)@, old(queue)@, head as int, old(sorted)@),
        head < old(queue)@.len(),
    ensures
        kahn_state(graph, final(in_degree)@, final(queue)@, head + 1, final(sorted)@),
        final(queue)@.len() >= old(queue)@.len(),
        final(queue)@.take(old(queue)@.len() as int) == old(queue)@,
        sorted_by_node_id(final(queue)@.skip(old(queue)@.len() as int), graph.nodes@),
        forall|t: int| old(queue)@.len() <= t < final(queue)@.len() ==> graph.feeds(
            graph.nodes@[old(queue)@[head as int] as int], graph.nodes@[#[trigger] final(queue)@[t] as int]),
        forall|t: int, k: int| old(queue)@.len() <= t < final(queue)@.len() && 0 <= k < graph.edges@.len()
            && #[trigger] graph.edges@[k].successor == graph.nodes@[#[trigger] final(queue)@[t] as int]
            ==> final(sorted)@.contains(graph.edges@[k].predecessor),
{
    let ghost es = graph.edges@;
    let ghost ns = graph.nodes@;
    let n = graph.nodes.len();
    let u = queue[head];
    let uid = graph.nodes[u];
    let ghost done = sorted@.to_set();
    proof {
        assert(!done.contains(uid)) by {
            if sorted@.contains(uid) {
                let p = choose|p: int| 0 <= p < sorted@.len() && sorted@[p] == uid;
                assert(ns[queue@[p] as int] == ns[u as int]);
                assert(queue@[p] == u);
            }
        }
    }
    let ghost old_sorted = sorted@;
    let ghost old_queue = queue@;
    let ghost old_in = in_degree@;
    let zeros = release_successors(graph, in_degree, uid, Ghost(done), queue);
    sorted.push(uid);
    let ghost done2 = done.insert(uid);
    proof {
        assert(sorted@.to_set() =~= done2) by {
            assert forall|x: WorkBlockId| sorted@.to_set().contains(x) <==> done2.contains(x) by {
                if sorted@.contains(x) {
                    let p = choose|p: int| 0 <= p < sorted@.len() && sorted@[p] == x;
                    if p < old_sorted.len() {
                        assert(old_sorted[p] == x);
                    }
                }
                if old_sorted.contains(x) {
                    let p = choose|p: int| 0 <= p < old_sorted.len() && old_sorted[p] == x;
                    assert(sorted@[p] == x);
                }
                assert(sorted@[old_sorted.len() as int] == uid);
            }
        }
    }
    let nz = sort_by_node_id(zeros, &graph.nodes);
    let mut t: usize = 0;
    while t < nz.len()
        invariant
            t <= nz@.len(),
            queue@ == old_queue + nz@.take(t as int),
            nz@.no_duplicates(),
            forall|x: usize| #[trigger] nz@.contains(x) ==> !old_queue.contains(x),
        decreases nz.len() - t,
    {
        queue.push(nz[t]);
        proof {
            assert(nz@.take(t + 1) =~= nz@.take(t as int).push(nz@[t as int]));
        }
        t += 1;
    }
    proof {
        assert(nz@.take(nz@.len() as int) =~= nz@);
        assert(queue@.take(old_queue.len() as int) =~= old_queue);
        assert(queue@.skip(old_queue.len() as int) =~= nz@);
        assert forall|t: int| old_queue.len() <= t < queue@.len() implies graph.feeds(
            ns[old_queue[head as int] as int], ns[#[trigger] queue@[t] as int]) by {
            let z = queue@[t];
            assert(nz@[t - old_queue.len()] == z);
            assert(nz@.contains(z));
            assert(zeros@.contains(z));
            let w = choose|w: int| 0 <= w < zeros@.len() && zeros@[w] == z;
            assert(in_count(es, ns[z as int], done2) == 0);
            assert(!old_queue.contains(z));
            assert(old_in[z as int] != 0);
            assert(in_degree@[z as int] == 0);
            assert(graph.extra(z as int) >= 0);
            lemma_in_count_insert(es, ns[z as int], done, uid);
            let k = lemma_in_from_pos(es, ns[z as int], uid);
            assert(uid == ns[old_queue[head as int] as int]);
        }
        assert forall|t: int, k: int| old_queue.len() <= t < queue@.len() && 0 <= k < es.len()
            && #[trigger] es[k].successor == ns[#[trigger] queue@[t] as int]
            implies sorted@.contains(es[k].predecessor) by {
            let z = queue@[t];
            assert(nz@[t - old_queue.len()] == z);
            assert(nz@.contains(z));
            assert(zeros@.contains(z));
            let w = choose|w: int| 0 <= w < zeros@.len() && zeros@[w] == z;
            assert(in_count(es, ns[zeros@[w] as int], done2) == 0);
            lemma_in_count_zero(es, ns[z as int], done2);
            assert(sorted@.to_set().contains(es[k].predecessor));
        }
        assert forall|a: int, b: int| 0 <= a < queue@.len() && 0 <= b < queue@.len() && a != b implies queue@[a]
            != queue@[b] by {
            if a < old_queue.len() && b >= old_queue.len() {
                assert(nz@.contains(queue@[b]));
                assert(old_queue.contains(queue@[a]));
            } else if b < old_queue.len() && a >= old_queue.len() {
                assert(nz@.contains(queue@[a]));
                assert(old_queue.contains(queue@[b]));
            }
        }
        assert forall|x: int| 0 <= x < queue@.len() implies queue@[x] < n by {
            if x >= old_queue.len() {
                assert(queue@[x] == nz@[x - old_queue.len()]);
            }
        }
        assert forall|j: usize| j < n implies (#[trigger] queue@.contains(j) <==> in_degree@[j as int] == 0) by {
            if queue@.contains(j) {
                let x = choose|x: int| 0 <= x < queue@.len() && queue@[x] == j;
                if x >= old_queue.len() {
                    assert(nz@[x - old_queue.len()] == j);
                    assert(nz@.contains(j));
                } else {
                    assert(old_queue.contains(j));
                }
            }
            if nz@.contains(j) {
                let x = choose|x: int| 0 <= x < nz@.len() && nz@[x] == j;
                assert(queue@[old_queue.len() + x] == j);
            }
            if old_queue.contains(j) {
                let x = choose|x: int| 0 <= x < old_queue.len() && old_queue[x] == j;
                assert(queue@[x] == j);
            }
        }
        assert forall|p: int| 0 <= p < head + 1 implies #[trigger] sorted@[p] == ns[queue@[p] as int] by {
            if p < head {
                assert(sorted@[p] == old_sorted[p]);
            }
            assert(queue@[p] == old_queue[p]);
        }
        assert forall|j: int| 0 <= j < n implies #[trigger] in_degree@[j] == graph.extra(j) + in_count(es, ns[j], sorted@.to_set()) by {}
        assert forall|q: int, k: int|
            0 <= q < sorted@.len() && 0 <= k < es.len() && #[trigger] es[k].successor
                == #[trigger] sorted@[q] implies sorted@.take(q).contains(es[k].predecessor) by {
            if q < old_sorted.len() {
                assert(sorted@[q] == old_sorted[q]);
                assert(sorted@.take(q) =~= old_sorted.take(q));
            } else {
                assert(sorted@.take(q) =~= old_sorted);
                assert(es[k].successor == ns[old_queue[head as int] as int]);
            }
        }
        assert forall|p: int, k: int|
            head + 1 <= p < queue@.len() && 0 <= k < es.len() && #[trigger] es[k].successor
                == ns[#[trigger] queue@[p] as int] implies sorted@.contains(es[k].predecessor) by {
            if p < old_queue.len() {
                assert(queue@[p] == old_queue[p]);
                assert(old_sorted.contains(es[k].predecessor));
                let w = choose|w: int| 0 <= w < old_sorted.len() && old_sorted[w] == es[k].predecessor;
                assert(sorted@[w] == es[k].predecessor);
            } else {
                let z = queue@[p];
                assert(nz@[p - old_queue.len()] == z);
                assert(nz@.contains(z));
                assert(zeros@.contains(z));
                let t = choose|t: int| 0 <= t < zeros@.len() && zeros@[t] == z;
                assert(in_count(es, ns[zeros@[t] as int], done2) == 0);
                lemma_in_count_zero(es, ns[z as int], done2);
                assert(sorted@.to_set().contains(es[k].predecessor));
            }
        }
    }
}

/// Runs Kahn's algorithm until the queue is exhausted.
fn kahn(graph: &DependencyGraph) -> (r: (Vec<usize>, Vec<usize>, Vec<WorkBlockId>))
    requires
        graph.wf(),
    ensures
        kahn_state(graph, r.0@, r.1@, r.1@.len() as int, r.2@),
        graph.sources_first_by_id(r.2@),
        graph.freed_in_order_by_id(r.2@),
{
    let n = graph.nodes.len();
    let ghost ns = graph.nodes@;
    let (mut in_degree, mut queue) = kahn_start(graph);
    let ghost q0 = queue@;
    proof {
        assert(Seq::<WorkBlockId>::empty().to_set() =~= Set::<WorkBlockId>::empty());
        assert forall|j: usize| j < n implies (#[trigger] q0.contains(j) ==> graph.is_source(ns[j as int])) by {
            assert(in_degree@[j as int] == graph.extra(j as int) + in_count(graph.edges@, ns[j as int], Seq::<WorkBlockId>::empty().to_set()));
            assert(graph.extra(j as int) >= 0);
        }
    }
    let mut sorted: Vec<WorkBlockId> = Vec::new();
    let mut head: usize = 0;
    // For each block queued after the first ones: the position of the block
    // whose placing freed it.
    let ghost mut rel: Seq<int> = Seq::new(q0.len(), |t: int| 0int);
    while head < queue.len()
        invariant
            n == graph.nodes@.len(),
            ns == graph.nodes@,
            kahn_state(graph, in_degree@, queue@, head as int, sorted@),
            queue@.len() >= q0.len(),
            queue@.take(q0.len() as int) == q0,
            forall|j: usize| j < n ==> (#[trigger] q0.contains(j) ==> graph.is_source(ns[j as int])),
            forall|t: int| 0 <= t < q0.len() ==> q0[t] < n,
            freed_record(graph, queue@, q0.len() as int, head as int, rel),
        decreases n - head,
    {
        proof {
            lemma_index_seq_bound(queue@, n as nat);
        }
        let ghost qb = queue@;
        let ghost sb = sorted@;
        kahn_step(graph, &mut in_degree, &mut queue, &mut sorted, head);
        proof {
            assert forall|t: int| 0 <= t < q0.len() implies queue@.take(q0.len() as int)[t] == q0[t] by {
                assert(queue@.take(qb.len() as int)[t] == qb[t]);
                assert(qb.take(q0.len() as int)[t] == q0[t]);
            }
            assert(queue@.take(q0.len() as int) =~= q0);
            let rel2 = rel + Seq::new((queue@.len() - qb.len()) as nat, |t: int| head as int);
            lemma_freed_record_step(graph, qb, queue@, sorted@, q0.len() as int, head as int, rel, rel2);
            rel = rel2;
        }
        head += 1;
    }
    proof {
        let es = graph.edges@;
        // Blocks queued later were freed along an edge into them.
        assert forall|t: int| q0.len() <= t < queue@.len() implies !graph.is_source(ns[#[trigger] queue@[t] as int]) by {
            assert(graph.feeds(ns[queue@[rel[t]] as int], ns[queue@[t] as int]));
            let k = choose|k: int| 0 <= k < es.len() && (#[trigger] es[k]).predecessor == ns[queue@[rel[t]] as int]
                && es[k].successor == ns[queue@[t] as int];
            if graph.is_source(ns[queue@[t] as int]) {
                lemma_in_count_zero(es, ns[queue@[t] as int], Set::empty());
            }
        }
        assert forall|t: int| 0 <= t < q0.len() implies graph.is_source(ns[#[trigger] q0[t] as int]) by {
            assert(q0.contains(q0[t]));
            assert(q0[t] < n);
        }
        assert forall|a: int, b: int| 0 <= a < b < sorted@.len() && graph.is_source(#[trigger] sorted@[b])
            implies graph.is_source(#[trigger] sorted@[a]) && sorted@[a].0 <= sorted@[b].0 by {
            assert(sorted@[b] == ns[queue@[b] as int]);
            assert(sorted@[a] == ns[queue@[a] as int]);
            if b >= q0.len() {
                assert(!graph.is_source(ns[queue@[b] as int]));
            }
            assert(queue@[a] == queue@.take(q0.len() as int)[a]);
            assert(queue@[b] == queue@.take(q0.len() as int)[b]);
            assert(q0[a] == queue@[a] && q0[b] == queue@[b]);
            assert(graph.is_source(ns[q0[a] as int]));
            assert(ns[q0[a] as int].0 <= ns[q0[b] as int].0);
        }
        assert forall|t: int| 0 <= t < q0.len() implies graph.is_source(ns[#[trigger] queue@[t] as int]) by {
            assert(queue@[t] == queue@.take(q0.len() as int)[t]);
            assert(graph.is_source(ns[q0[t] as int]));
        }
        lemma_freed_order(graph, in_degree@, queue@, sorted@, q0.len() as int, rel);
    }
    (in_degree, queue, sorted)
}

/// Each block queued from position `start` on was freed by the block at
/// position `rel[t]` of the queue (already placed): an edge runs from it,
/// every edge into the block comes from a block at or before it, and the
/// blocks are queued in order of `rel`, then of id.
pub open spec fn freed_record(graph: &DependencyGraph, queue: Seq<usize>, start: int, head: int, rel: Seq<int>) -> bool {
    let ns = graph.nodes@;
    let es = graph.edges@;
    &&& rel.len() == queue.len()
    &&& forall|t: int| start <= t < queue.len() ==> 0 <= #[trigger] rel[t] < head && rel[t] < t
    &&& forall|t: int| start <= t < queue.len() ==> graph.feeds(ns[queue[rel[t]] as int], ns[#[trigger] queue[t] as int])
    &&& forall|t: int, k: int| start <= t < queue.len() && 0 <= k < es.len()
        && #[trigger] es[k].successor == ns[#[trigger] queue[t] as int]
        ==> exists|j: int| 0 <= j <= rel[t] && ns[queue[j] as int] == es[k].predecessor
    &&& forall|a: int, b: int| start <= a < b < queue.len() ==> #[trigger] rel[a] <= #[trigger] rel[b]
        && (rel[a] == rel[b] ==> ns[queue[a] as int].0 <= ns[queue[b] as int].0)
}

proof fn lemma_freed_record_step(
    graph: &DependencyGraph,
    qb: Seq<usize>,
    queue: Seq<usize>,
    sorted: Seq<WorkBlockId>,
    start: int,
    head: int,
    rel: Seq<int>,
    rel2: Seq<int>,
)
    requires
        freed_record(graph, qb, start, head, rel),
        0 <= start <= qb.len(),
        0 <= head < qb.len(),
        queue.len() >= qb.len(),
        queue.take(qb.len() as int) == qb,
        rel2 == rel + Seq::new((queue.len() - qb.len()) as nat, |t: int| head),
        sorted.len() == head + 1,
        forall|p: int| 0 <= p < head + 1 ==> #[trigger] sorted[p] == graph.nodes@[queue[p] as int],
        sorted_by_node_id(queue.skip(qb.len() as int), graph.nodes@),
        forall|t: int| qb.len() <= t < queue.len() ==> graph.feeds(
            graph.nodes@[qb[head] as int], graph.nodes@[#[trigger] queue[t] as int]),
        forall|t: int, k: int| qb.len() <= t < queue.len() && 0 <= k < graph.edges@.len()
            && #[trigger] graph.edges@[k].successor == graph.nodes@[#[trigger] queue[t] as int]
            ==> sorted.contains(graph.edges@[k].predecessor),
    ensures
        freed_record(graph, queue, start, head + 1, rel2),
{
    let ns = graph.nodes@;
    let es = graph.edges@;
    let m = qb.len() as int;
    assert forall|t: int| 0 <= t < m implies queue[t] == qb[t] by {
        assert(queue.take(m)[t] == qb[t]);
    }
    assert forall|t: int| start <= t < queue.len() implies graph.feeds(ns[queue[rel2[t]] as int], ns[#[trigger] queue[t] as int]) by {
        if t < m {
            assert(rel2[t] == rel[t]);
            assert(queue[rel[t]] == qb[rel[t]]);
            assert(graph.feeds(ns[qb[rel[t]] as int], ns[qb[t] as int]));
        } else {
            assert(rel2[t] == head);
            assert(queue[head] == qb[head]);
        }
    }
    assert forall|t: int, k: int| start <= t < queue.len() && 0 <= k < es.len()
        && #[trigger] es[k].successor == ns[#[trigger] queue[t] as int]
        implies exists|j: int| 0 <= j <= rel2[t] && ns[queue[j] as int] == es[k].predecessor by {
        if t < m {
            assert(rel2[t] == rel[t]);
            assert(es[k].successor == ns[qb[t] as int]);
            let j = choose|j: int| 0 <= j <= rel[t] && ns[qb[j] as int] == es[k].predecessor;
            assert(queue[j] == qb[j]);
        } else {
            assert(rel2[t] == head);
            assert(sorted.contains(es[k].predecessor));
            let p = choose|p: int| 0 <= p < sorted.len() && sorted[p] == es[k].predecessor;
            assert(sorted[p] == ns[queue[p] as int]);
        }
    }
    assert forall|a: int, b: int| start <= a < b < queue.len() implies #[trigger] rel2[a] <= #[trigger] rel2[b]
        && (rel2[a] == rel2[b] ==> ns[queue[a] as int].0 <= ns[queue[b] as int].0) by {
        if b < m {
            assert(rel2[a] == rel[a] && rel2[b] == rel[b]);
            assert(queue[a] == qb[a] && queue[b] == qb[b]);
            assert(rel[a] <= rel[b]);
        } else if a < m {
            assert(rel2[a] == rel[a]);
            assert(rel[a] < head);
        } else {
            assert(queue.skip(m)[a - m] == queue[a]);
            assert(queue.skip(m)[b - m] == queue[b]);
        }
    }
    assert forall|t: int| start <= t < queue.len() implies 0 <= #[trigger] rel2[t] < head + 1 && rel2[t] < t by {
        if t < m {
            assert(rel2[t] == rel[t]);
        }
    }
}

/// At the end, the blocks come in the order they were freed.
proof fn lemma_freed_order(
    graph: &DependencyGraph,
    in_degree: Seq<usize>,
    queue: Seq<usize>,
    sorted: Seq<WorkBlockId>,
    start: int,
    rel: Seq<int>,
)
    requires
        kahn_state(graph, in_degree, queue, queue.len() as int, sorted),
        0 <= start <= queue.len(),
        freed_record(graph, queue, start, queue.len() as int, rel),
        forall|t: int| 0 <= t < start ==> graph.is_source(graph.nodes@[#[trigger] queue[t] as int]),
    ensures
        graph.freed_in_order_by_id(sorted),
{
    let ns = graph.nodes@;
    let es = graph.edges@;
    assert forall|i: int, h: int| #[trigger] graph.freed_at(sorted, i, h) implies start <= i && h == rel[i] by {
        assert(sorted[i] == ns[queue[i] as int]);
        assert(sorted[h] == ns[queue[h] as int]);
        let k = choose|k: int| 0 <= k < es.len() && (#[trigger] es[k]).predecessor == sorted[h] && es[k].successor == sorted[i];
        if i < start {
            assert(graph.is_source(ns[queue[i] as int]));
            lemma_in_count_zero(es, ns[queue[i] as int], Set::empty());
            assert(false);
        }
        let r = rel[i];
        assert(graph.feeds(ns[queue[r] as int], ns[queue[i] as int]));
        assert(sorted[r] == ns[queue[r] as int]);
        if h < r {
            assert(!graph.feeds(sorted[r], sorted[i]));
        } else if h > r {
            assert(es[k].successor == ns[queue[i] as int]);
            let j = choose|j: int| 0 <= j <= rel[i] && ns[queue[j] as int] == es[k].predecessor;
            assert(ns[queue[j] as int] == ns[queue[h] as int]);
            assert(queue[j] < ns.len() && queue[h] < ns.len());
            assert(queue[j] == queue[h]);
            assert(j == h);
        }
    }
    assert forall|a: int, b: int, ha: int, hb: int|
        #![trigger graph.freed_at(sorted, a, ha), graph.freed_at(sorted, b, hb)]
        a < b && graph.freed_at(sorted, a, ha) && graph.freed_at(sorted, b, hb)
        implies ha <= hb && (ha == hb ==> sorted[a].0 <= sorted[b].0) by {
        assert(start <= a && ha == rel[a]);
        assert(start <= b && hb == rel[b]);
        assert(rel[a] <= rel[b]);
        assert(sorted[a] == ns[queue[a] as int]);
        assert(sorted[b] == ns[queue[b] as int]);
    }
}

/// No stuck set holds a placed block: a placed block has no recorded
/// in-degree beyond its edges, and its predecessors were placed before it.
proof fn lemma_stuck_misses_placed(
    graph: &DependencyGraph,
    in_degree: Seq<usize>,
    queue: Seq<usize>,
    sorted: Seq<WorkBlockId>,
    s: Set<WorkBlockId>,
    p: int,
)
    requires
        kahn_state(graph, in_degree, queue, queue.len() as int, sorted),
        graph.is_stuck(s),
        0 <= p < sorted.len(),
    ensures
        !s.contains(sorted[p]),
    decreases p,
{
    let ns = graph.nodes@;
    let es = graph.edges@;
    if s.contains(sorted[p]) {
        let j = queue[p];
        assert(sorted[p] == ns[j as int]);
        assert(queue.contains(j));
        assert(in_degree[j as int] == 0);
        assert(graph.extra(j as int) == 0);
        if exists|i: int| 0 <= i < ns.len() && ns[i] == sorted[p] && #[trigger] graph.extra(i) > 0 {
            let i = choose|i: int| 0 <= i < ns.len() && ns[i] == sorted[p] && #[trigger] graph.extra(i) > 0;
            assert(ns[i] == ns[j as int]);
            assert(i == j as int);
        } else {
            let k = choose|k: int| 0 <= k < es.len() && #[trigger] es[k].successor == sorted[p]
                && s.contains(es[k].predecessor);
            assert(sorted.take(p).contains(es[k].predecessor));
            let q = choose|q: int| 0 <= q < p && sorted.take(p)[q] == es[k].predecessor;
            assert(sorted[q] == sorted.take(p)[q]);
            lemma_stuck_misses_placed(graph, in_degree, queue, sorted, s, q);
        }
    }
}

/// A closed set is stuck.
proof fn lemma_closed_is_stuck(graph: &DependencyGraph, s: Set<WorkBlockId>)
    requires
        graph.is_closed(s),
    ensures
        graph.is_stuck(s),
{
}

/// Finished Kahn state: the placed blocks are exactly the queue's, in order,
/// and no closed set meets them.
proof fn lemma_kahn_done(
    graph: &DependencyGraph,
    in_degree: Seq<usize>,
    queue: Seq<usize>,
    sorted: Seq<WorkBlockId>,
)
    requires
        kahn_state(graph, in_degree, queue, queue.len() as int, sorted),
        graph.nodes@.len() <= usize::MAX,
    ensures
        sorted.no_duplicates(),
        forall|x: WorkBlockId| #[trigger] sorted.contains(x) ==> graph.nodes@.contains(x),
        forall|j: int| 0 <= j < graph.nodes@.len() ==> (sorted.contains(graph.nodes@[j]) <==> #[trigger] in_degree[j] == 0),
        forall|s: Set<WorkBlockId>, p: int| #[trigger] graph.is_closed(s) && 0 <= p < sorted.len() ==> !s.contains(
            #[trigger] sorted[p],
        ),
{
    let ns = graph.nodes@;
    let n = ns.len();
    assert forall|a: int, b: int| 0 <= a < sorted.len() && 0 <= b < sorted.len() && a != b implies sorted[a]
        != sorted[b] by {
        assert(queue[a] != queue[b]);
    }
    assert forall|x: WorkBlockId| #[trigger] sorted.contains(x) implies ns.contains(x) by {
        let p = choose|p: int| 0 <= p < sorted.len() && sorted[p] == x;
        assert(ns[queue[p] as int] == x);
    }
    assert forall|j: int| 0 <= j < n implies (sorted.contains(ns[j]) <==> #[trigger] in_degree[j] == 0) by {
        let ju = j as usize;
        assert(ju as int == j);
        if sorted.contains(ns[j]) {
            let p = choose|p: int| 0 <= p < sorted.len() && sorted[p] == ns[j];
            assert(ns[queue[p] as int] == ns[j]);
            assert(queue[p] == ju);
            assert(queue.contains(ju));
        }
        if in_degree[j] == 0 {
            assert(queue.contains(ju));
            let p = choose|p: int| 0 <= p < queue.len() && queue[p] == ju;
            assert(sorted[p] == ns[queue[p] as int]);
            assert(sorted[p] == ns[j]);
        }
    }
    assert forall|s: Set<WorkBlockId>, p: int| #[trigger] graph.is_closed(s) && 0 <= p < sorted.len() implies !s.contains(
        #[trigger] sorted[p],
    ) by {
        lemma_closed_misses_prefix(graph, sorted, s, p);
    }
}

/// Topological order of `graph` by Kahn's algorithm: every predecessor comes
/// before its successors; the blocks without predecessors come first in id
/// order, then each block right after the others freed by the same block,
/// in id order. When blocks cannot be placed, the error lists them: the
/// ones on a cycle or depending on one, and (when a recorded in-degree
/// exceeds a block's edges) the ones held back by that.
pub fn topological_sort(graph: &DependencyGraph) -> (r: Result<Vec<WorkBlockId>, CycleError>)
    requires
        graph.wf(),
    ensures
        (r is Ok) <==> !graph.is_blocked(),
        graph.counts_exact() ==> ((r is Ok) <==> !graph.has_cycle()),
        r matches Ok(order) ==> graph.is_topological_order(order@),
        r matches Ok(order) ==> graph.sources_first_by_id(order@),
        r matches Ok(order) ==> graph.freed_in_order_by_id(order@),
        r matches Err(e) ==> {
            &&& e.nodes@.no_duplicates()
            &&& e.nodes@.len() > 0
            &&& graph.is_stuck(e.nodes@.to_set())
            &&& forall|s: Set<WorkBlockId>| #[trigger] graph.is_stuck(s) ==> s.subset_of(e.nodes@.to_set())
            &&& forall|s: Set<WorkBlockId>| #[trigger] graph.is_closed(s) ==> s.subset_of(e.nodes@.to_set())
            &&& graph.counts_exact() ==> graph.is_closed(e.nodes@.to_set())
        },
{
    let ghost es = graph.edges@;
    let ghost ns = graph.nodes@;
    let n = graph.nodes.len();
    let (in_degree, queue, sorted) = kahn(graph);
    proof {
        lemma_kahn_done(graph, in_degree@, queue@, sorted@);
        lemma_index_seq_bound(queue@, n as nat);
    }
    if sorted.len() != n {
        let mut cyc: Vec<WorkBlockId> = Vec::new();
        let mut j: usize = 0;
        while j < n
            invariant
                j <= n,
                n == ns.len(),
                ns == graph.nodes@,
                ns.no_duplicates(),
                in_degree@.len() == n,
                cyc@.no_duplicates(),
                forall|x: WorkBlockId| #[trigger] cyc@.contains(x) <==> exists|t: int| 0 <= t < j && ns[t] == x
                    && in_degree@[t] > 0,
            decreases n - j,
        {
            if in_degree[j] > 0 {
                let ghost old_cyc = cyc@;
                proof {
                    assert(!cyc@.contains(ns[j as int])) by {
                        if cyc@.contains(ns[j as int]) {
                            let t = choose|t: int| 0 <= t < j && ns[t] == ns[j as int] && in_degree@[t] > 0;
                        }
                    }
                }
                cyc.push(graph.nodes[j]);
                proof {
                    assert forall|x: WorkBlockId| #[trigger] cyc@.contains(x) <==> exists|t: int| 0 <= t < j + 1 && ns[t]
                        == x && in_degree@[t] > 0 by {
                        if cyc@.contains(x) {
                            let w = choose|w: int| 0 <= w < cyc@.len() && cyc@[w] == x;
                            if w < old_cyc.len() {
                                assert(old_cyc[w] == x);
                                assert(old_cyc.contains(x));
                            } else {
                                assert(ns[j as int] == x);
                            }
                        }
                        if exists|t: int| 0 <= t < j + 1 && ns[t] == x && in_degree@[t] > 0 {
                            let t = choose|t: int| 0 <= t < j + 1 && ns[t] == x && in_degree@[t] > 0;
                            if t < j {
                                assert(old_cyc.contains(x));
                                let w = choose|w: int| 0 <= w < old_cyc.len() && old_cyc[w] == x;
                                assert(cyc@[w] == x);
                            } else {
                                assert(cyc@[old_cyc.len() as int] == x);
                            }
                        }
                    }
                }
            }
            j += 1;
        }
        proof {
            lemma_cycle_report(graph, in_degree@, queue@, sorted@, cyc@);
        }
        return Err(CycleError { nodes: cyc });
    }
    proof {
        lemma_all_placed(graph, in_degree@, queue@, sorted@);
    }
    Ok(sorted)
}

/// The unplaced blocks are exactly those with a positive residual in-degree.
proof fn lemma_unplaced(
    graph: &DependencyGraph,
    in_degree: Seq<usize>,
    queue: Seq<usize>,
    sorted: Seq<WorkBlockId>,
    cyc: Seq<WorkBlockId>,
)
    requires
        kahn_state(graph, in_degree, queue, queue.len() as int, sorted),
        graph.nodes@.len() <= usize::MAX,
        forall|x: WorkBlockId| #[trigger] cyc.contains(x) <==> exists|t: int| 0 <= t < graph.nodes@.len()
            && graph.nodes@[t] == x && in_degree[t] > 0,
    ensures
        forall|x: WorkBlockId| #[trigger] cyc.contains(x) <==> graph.nodes@.contains(x) && !sorted.contains(x),
{
    let ns = graph.nodes@;
    let n = ns.len();
    lemma_kahn_done(graph, in_degree, queue, sorted);
    assert forall|x: WorkBlockId| #[trigger] cyc.contains(x) <==> ns.contains(x) && !sorted.contains(x) by {
        if cyc.contains(x) {
            let t = choose|t: int| 0 <= t < n && ns[t] == x && in_degree[t] > 0;
        }
        if ns.contains(x) && !sorted.contains(x) {
            let t = choose|t: int| 0 <= t < n && ns[t] == x;
        }
    }
}

/// When not every block was placed, the unplaced ones form the largest
/// closed set, and it is nonempty.
proof fn lemma_cycle_report(
    graph: &DependencyGraph,
    in_degree: Seq<usize>,
    queue: Seq<usize>,
    sorted: Seq<WorkBlockId>,
    cyc: Seq<WorkBlockId>,
)
    requires
        kahn_state(graph, in_degree, queue, queue.len() as int, sorted),
        graph.nodes@.len() <= usize::MAX,
        sorted.len() != graph.nodes@.len(),
        forall|x: WorkBlockId| #[trigger] cyc.contains(x) <==> exists|t: int| 0 <= t < graph.nodes@.len()
            && graph.nodes@[t] == x && in_degree[t] > 0,
    ensures
        cyc.len() > 0,
        graph.is_stuck(cyc.to_set()),
        forall|s: Set<WorkBlockId>| #[trigger] graph.is_stuck(s) ==> s.subset_of(cyc.to_set()),
        forall|s: Set<WorkBlockId>| #[trigger] graph.is_closed(s) ==> s.subset_of(cyc.to_set()),
        graph.is_blocked(),
        graph.counts_exact() ==> graph.is_closed(cyc.to_set()) && graph.has_cycle(),
{
    let ns = graph.nodes@;
    let es = graph.edges@;
    let n = ns.len();
    lemma_kahn_done(graph, in_degree, queue, sorted);
    lemma_unplaced(graph, in_degree, queue, sorted, cyc);
    lemma_index_seq_bound(queue, n as nat);
    let j0 = choose|j0: usize| j0 < n && !#[trigger] queue.contains(j0);
    assert(in_degree[j0 as int] != 0);
    assert(cyc.contains(ns[j0 as int]));
    let cs = cyc.to_set();
    assert(cs.contains(ns[j0 as int]));
    lemma_unplaced_stuck(graph, in_degree, queue, sorted, cyc);
    assert(cs != Set::<WorkBlockId>::empty());
    assert forall|s: Set<WorkBlockId>| #[trigger] graph.is_stuck(s) implies s.subset_of(cs) by {
        assert forall|x: WorkBlockId| s.contains(x) implies cs.contains(x) by {
            assert(ns.to_set().contains(x));
            if sorted.contains(x) {
                let p = choose|p: int| 0 <= p < sorted.len() && sorted[p] == x;
                lemma_stuck_misses_placed(graph, in_degree, queue, sorted, s, p);
            }
        }
    }
    assert forall|s: Set<WorkBlockId>| #[trigger] graph.is_closed(s) implies s.subset_of(cs) by {
        lemma_closed_is_stuck(graph, s);
        assert(graph.is_stuck(s));
    }
    if graph.counts_exact() {
        assert forall|x: WorkBlockId| #[trigger] cs.contains(x) implies exists|k: int|
            0 <= k < es.len() && #[trigger] es[k].successor == x && cs.contains(es[k].predecessor) by {
            if exists|i: int| 0 <= i < ns.len() && ns[i] == x && #[trigger] graph.extra(i) > 0 {
                let i = choose|i: int| 0 <= i < ns.len() && ns[i] == x && #[trigger] graph.extra(i) > 0;
                assert(graph.extra(i) == 0);
            }
        }
        assert(graph.is_closed(cs));
    }
}

proof fn lemma_unplaced_stuck(
    graph: &DependencyGraph,
    in_degree: Seq<usize>,
    queue: Seq<usize>,
    sorted: Seq<WorkBlockId>,
    cyc: Seq<WorkBlockId>,
)
    requires
        graph.wf(),
        in_degree.len() == graph.nodes@.len(),
        forall|j: int| 0 <= j < graph.nodes@.len() ==> #[trigger] in_degree[j] == graph.extra(j) + in_count(graph.edges@, graph.nodes@[j], sorted.to_set()),
        forall|x: WorkBlockId| #[trigger] cyc.contains(x) <==> exists|t: int| 0 <= t < graph.nodes@.len()
            && graph.nodes@[t] == x && in_degree[t] > 0,
        forall|x: WorkBlockId| #[trigger] cyc.contains(x) <==> graph.nodes@.contains(x) && !sorted.contains(x),
    ensures
        graph.is_stuck(cyc.to_set()),
{
    let ns = graph.nodes@;
    let es = graph.edges@;
    let n = ns.len();
    let cs = cyc.to_set();
    assert forall|x: WorkBlockId| #[trigger] cs.contains(x) implies (exists|i: int| 0 <= i < ns.len() && ns[i] == x && #[trigger] graph.extra(i) > 0)
        || exists|k: int| 0 <= k < es.len() && #[trigger] es[k].successor == x && cs.contains(es[k].predecessor) by {
        assert(cyc.contains(x));
        let t = choose|t: int| 0 <= t < n && ns[t] == x && in_degree[t] > 0;
        if graph.extra(t) <= 0 {
            assert(in_count(es, ns[t], sorted.to_set()) > 0);
            let k = lemma_in_count_pos(es, ns[t], sorted.to_set());
            let pr = es[k].predecessor;
            assert(ns.contains(pr));
            assert(!sorted.contains(pr));
            assert(cyc.contains(pr));
            assert(cs.contains(pr));
        }
    }
    assert forall|x: WorkBlockId| cs.contains(x) implies ns.to_set().contains(x) by {
        assert(cyc.contains(x));
    }
}

/// When every block was placed, the placement is a topological order and no
/// nonempty set of blocks is closed.
proof fn lemma_all_placed(
    graph: &DependencyGraph,
    in_degree: Seq<usize>,
    queue: Seq<usize>,
    sorted: Seq<WorkBlockId>,
)
    requires
        kahn_state(graph, in_degree, queue, queue.len() as int, sorted),
        graph.nodes@.len() <= usize::MAX,
        sorted.len() == graph.nodes@.len(),
    ensures
        graph.is_topological_order(sorted),
        !graph.has_cycle(),
        !graph.is_blocked(),
{
    let ns = graph.nodes@;
    let es = graph.edges@;
    let n = ns.len();
    lemma_kahn_done(graph, in_degree, queue, sorted);
    lemma_index_seq_bound(queue, n as nat);
    assert forall|x: WorkBlockId| sorted.to_set().contains(x) <==> ns.to_set().contains(x) by {
        if ns.contains(x) {
            let t = choose|t: int| 0 <= t < n && ns[t] == x;
            let tu = t as usize;
            assert(tu as int == t);
            assert(queue.contains(tu));
            assert(in_degree[tu as int] == 0);
            assert(sorted.contains(ns[t]));
        }
    }
    assert(sorted.to_set() =~= ns.to_set());
    assert forall|k: int, i: int, j: int|
        #![trigger sorted[i], sorted[j], es[k]]
        0 <= k < es.len() && 0 <= i < sorted.len() && 0 <= j < sorted.len() && sorted[i]
            == es[k].predecessor && sorted[j] == es[k].successor implies i < j by {
        assert(sorted.take(j).contains(es[k].predecessor));
        let q = choose|q: int| 0 <= q < j && sorted.take(j)[q] == es[k].predecessor;
        assert(sorted[q] == sorted[i]);
    }
    assert forall|s: Set<WorkBlockId>| s != Set::<WorkBlockId>::empty() implies !#[trigger] graph.is_closed(s) by {
        if graph.is_closed(s) {
            assert(exists|x: WorkBlockId| s.contains(x)) by {
                if forall|x: WorkBlockId| !s.contains(x) {
                    assert(s =~= Set::<WorkBlockId>::empty());
                }
            }
            let x = choose|x: WorkBlockId| s.contains(x);
            assert(sorted.to_set().contains(x));
            let p = choose|p: int| 0 <= p < sorted.len() && sorted[p] == x;
        }
    }
    assert forall|s: Set<WorkBlockId>| s != Set::<WorkBlockId>::empty() implies !#[trigger] graph.is_stuck(s) by {
        if graph.is_stuck(s) {
            assert(exists|x: WorkBlockId| s.contains(x)) by {
                if forall|x: WorkBlockId| !s.contains(x) {
                    assert(s =~= Set::<WorkBlockId>::empty());
                }
            }
            let x = choose|x: WorkBlockId| s.contains(x);
            assert(ns.to_set().contains(x));
            assert(sorted.to_set().contains(x));
            let p = choose|p: int| 0 <= p < sorted.len() && sorted[p] == x;
            lemma_stuck_misses_placed(graph, in_degree, queue, sorted, s, p);
        }
    }
}

} // verus!
