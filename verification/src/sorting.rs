//! Stable insertion order as a specification: what sorting by a "comes
//! before" relation gives, equal elements keeping their order.

use vstd::prelude::*;

verus! {

/// `x` inserted into `s` before the first element it comes before.
pub open spec fn insert_sorted_by<A>(lt: spec_fn(A, A) -> bool, x: A, s: Seq<A>) -> Seq<A>
    decreases s.len(),
{
    if s.len() == 0 {
        seq![x]
    } else if lt(x, s[0]) {
        seq![x] + s
    } else {
        seq![s[0]] + insert_sorted_by(lt, x, s.skip(1))
    }
}

/// `s` sorted by `lt`, stably: each element in turn inserted after those
/// it does not come before.
pub open spec fn sort_by<A>(lt: spec_fn(A, A) -> bool, s: Seq<A>) -> Seq<A>
    decreases s.len(),
{
    if s.len() == 0 {
        Seq::empty()
    } else {
        insert_sorted_by(lt, s.last(), sort_by(lt, s.drop_last()))
    }
}

/// Inserting at the first position whose element `x` comes before.
pub proof fn lemma_insert_sorted_at<A>(lt: spec_fn(A, A) -> bool, x: A, s: Seq<A>, p: int)
    requires
        0 <= p <= s.len(),
        forall|j: int| 0 <= j < p ==> !lt(x, #[trigger] s[j]),
        p < s.len() ==> lt(x, s[p]),
    ensures
        insert_sorted_by(lt, x, s) == s.take(p) + seq![x] + s.skip(p),
    decreases s.len(),
{
    if s.len() == 0 {
        assert(s.take(p) + seq![x] + s.skip(p) =~= seq![x]);
    } else if p == 0 {
        assert(s.take(0) + seq![x] + s.skip(0) =~= seq![x] + s);
    } else {
        assert forall|j: int| 0 <= j < p - 1 implies !lt(x, #[trigger] s.skip(1)[j]) by {
            assert(s.skip(1)[j] == s[j + 1]);
        }
        lemma_insert_sorted_at(lt, x, s.skip(1), p - 1);
        assert(s.take(p) + seq![x] + s.skip(p) =~= seq![s[0]] + (s.skip(1).take(p - 1) + seq![x] + s.skip(1).skip(p - 1)));
    }
}

/// Sorting keeps the number of elements.
pub proof fn lemma_sort_by_len<A>(lt: spec_fn(A, A) -> bool, s: Seq<A>)
    ensures
        sort_by(lt, s).len() == s.len(),
    decreases s.len(),
{
    if s.len() > 0 {
        lemma_sort_by_len(lt, s.drop_last());
        lemma_insert_sorted_len(lt, s.last(), sort_by(lt, s.drop_last()));
    }
}

pub proof fn lemma_insert_sorted_len<A>(lt: spec_fn(A, A) -> bool, x: A, s: Seq<A>)
    ensures
        insert_sorted_by(lt, x, s).len() == s.len() + 1,
    decreases s.len(),
{
    if s.len() > 0 && !lt(x, s[0]) {
        lemma_insert_sorted_len(lt, x, s.skip(1));
    }
}

/// No element of `s` comes before an earlier one.
pub open spec fn sorted_by<A>(lt: spec_fn(A, A) -> bool, s: Seq<A>) -> bool {
    forall|i: int, j: int| 0 <= i < j < s.len() ==> !lt(#[trigger] s[j], #[trigger] s[i])
}

/// `lt` is a strict order: never `lt(a, a)`, and transitive.
pub open spec fn strict_order<A>(lt: spec_fn(A, A) -> bool) -> bool {
    &&& forall|a: A| !#[trigger] lt(a, a)
    &&& forall|a: A, b: A, c: A| #[trigger] lt(a, b) && #[trigger] lt(b, c) ==> lt(a, c)
}

/// Inserting adds `x` and keeps the rest.
pub proof fn lemma_insert_sorted_contains<A>(lt: spec_fn(A, A) -> bool, x: A, s: Seq<A>, y: A)
    ensures
        insert_sorted_by(lt, x, s).contains(y) <==> (y == x || s.contains(y)),
    decreases s.len(),
{
    lemma_insert_sorted_len(lt, x, s);
    let r = insert_sorted_by(lt, x, s);
    if s.len() == 0 {
        assert(r =~= seq![x]);
        assert(r[0] == x);
        if r.contains(y) {
            let k = choose|k: int| 0 <= k < r.len() && r[k] == y;
        }
    } else if lt(x, s[0]) {
        assert(r =~= seq![x] + s);
        assert(r[0] == x);
        if s.contains(y) {
            let k = choose|k: int| 0 <= k < s.len() && s[k] == y;
            assert(r[k + 1] == y);
        }
        if r.contains(y) {
            let k = choose|k: int| 0 <= k < r.len() && r[k] == y;
            if k > 0 {
                assert(s[k - 1] == y);
            }
        }
    } else {
        lemma_insert_sorted_contains(lt, x, s.skip(1), y);
        let t = insert_sorted_by(lt, x, s.skip(1));
        assert(r =~= seq![s[0]] + t);
        if s.contains(y) {
            let k = choose|k: int| 0 <= k < s.len() && s[k] == y;
            if k == 0 {
                assert(r[0] == y);
            } else {
                assert(s.skip(1)[k - 1] == y);
                assert(t.contains(y));
                let q = choose|q: int| 0 <= q < t.len() && t[q] == y;
                assert(r[q + 1] == y);
            }
        }
        if y == x {
            assert(t.contains(y));
            let q = choose|q: int| 0 <= q < t.len() && t[q] == y;
            assert(r[q + 1] == y);
        }
        if r.contains(y) {
            let k = choose|k: int| 0 <= k < r.len() && r[k] == y;
            if k == 0 {
                assert(s[0] == y);
            } else {
                assert(t[k - 1] == y);
                assert(t.contains(y));
                if s.skip(1).contains(y) {
                    let q = choose|q: int| 0 <= q < s.skip(1).len() && s.skip(1)[q] == y;
                    assert(s[q + 1] == y);
                }
            }
        }
    }
}

/// Inserting into a sorted sequence keeps it sorted.
pub proof fn lemma_insert_sorted_sorted<A>(lt: spec_fn(A, A) -> bool, x: A, s: Seq<A>)
    requires
        strict_order(lt),
        sorted_by(lt, s),
    ensures
        sorted_by(lt, insert_sorted_by(lt, x, s)),
    decreases s.len(),
{
    lemma_insert_sorted_len(lt, x, s);
    let r = insert_sorted_by(lt, x, s);
    if s.len() == 0 {
    } else if lt(x, s[0]) {
        assert(r =~= seq![x] + s);
        assert forall|i: int, j: int| 0 <= i < j < r.len() implies !lt(#[trigger] r[j], #[trigger] r[i]) by {
            if i == 0 {
                assert(r[j] == s[j - 1]);
                if lt(s[j - 1], x) {
                    assert(lt(s[j - 1], s[0]));
                    if j - 1 > 0 {
                        assert(!lt(s[j - 1], s[0]));
                    }
                }
            } else {
                assert(r[i] == s[i - 1] && r[j] == s[j - 1]);
            }
        }
    } else {
        let t = insert_sorted_by(lt, x, s.skip(1));
        assert forall|i: int, j: int| 0 <= i < j < s.skip(1).len() implies !lt(#[trigger] s.skip(1)[j], #[trigger] s.skip(1)[i]) by {
            assert(s.skip(1)[j] == s[j + 1] && s.skip(1)[i] == s[i + 1]);
        }
        lemma_insert_sorted_sorted(lt, x, s.skip(1));
        lemma_insert_sorted_len(lt, x, s.skip(1));
        assert(r =~= seq![s[0]] + t);
        assert forall|i: int, j: int| 0 <= i < j < r.len() implies !lt(#[trigger] r[j], #[trigger] r[i]) by {
            if i == 0 {
                let y = r[j];
                assert(y == t[j - 1]);
                assert(t.contains(y));
                lemma_insert_sorted_contains(lt, x, s.skip(1), y);
                if y != x {
                    let q = choose|q: int| 0 <= q < s.skip(1).len() && s.skip(1)[q] == y;
                    assert(s[q + 1] == y);
                }
            } else {
                assert(r[i] == t[i - 1] && r[j] == t[j - 1]);
            }
        }
    }
}

/// Sorting by a strict order gives a sorted sequence.
pub proof fn lemma_sort_by_sorted<A>(lt: spec_fn(A, A) -> bool, s: Seq<A>)
    requires
        strict_order(lt),
    ensures
        sorted_by(lt, sort_by(lt, s)),
    decreases s.len(),
{
    if s.len() > 0 {
        lemma_sort_by_sorted(lt, s.drop_last());
        lemma_insert_sorted_sorted(lt, s.last(), sort_by(lt, s.drop_last()));
    }
}

/// Keeping the elements that pass a test keeps a sorted sequence sorted.
pub proof fn lemma_filter_sorted<A>(lt: spec_fn(A, A) -> bool, s: Seq<A>, keep: spec_fn(A) -> bool)
    requires
        sorted_by(lt, s),
    ensures
        sorted_by(lt, s.filter(keep)),
    decreases s.len(),
{
    if s.len() > 0 {
        let d = s.drop_last();
        let x = s.last();
        assert forall|i: int, j: int| 0 <= i < j < d.len() implies !lt(#[trigger] d[j], #[trigger] d[i]) by {
            assert(d[i] == s[i] && d[j] == s[j]);
        }
        lemma_filter_sorted(lt, d, keep);
        assert(s =~= d.push(x));
        d.lemma_filter_push(x, keep);
        let f = d.filter(keep);
        if keep(x) {
            let g = f.push(x);
            assert forall|i: int, j: int| 0 <= i < j < g.len() implies !lt(#[trigger] g[j], #[trigger] g[i]) by {
                if j == f.len() {
                    assert(g[i] == f[i]);
                    assert(f.contains(f[i]));
                    d.lemma_filter_contains_rev(keep, f[i]);
                    let m = choose|m: int| 0 <= m < d.len() && d[m] == f[i];
                    assert(s[m] == f[i] && s[s.len() - 1] == x);
                } else {
                    assert(g[i] == f[i] && g[j] == f[j]);
                }
            }
        }
    }
}

} // verus!
