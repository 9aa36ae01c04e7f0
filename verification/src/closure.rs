//! The partition-closure law: after any sequence of insertions, two distinct
//! ids stand in the same cluster exactly when they are reachable from one
//! another over the undirected graph of inserted pairs — so the final
//! partition of the id space does not depend on the order of the calls.

use vstd::prelude::*;

use crate::partitioner::{insert_trans, lemma_insert_trans_wf, merge_into, repoint, view_wf,
    PartView};

verus! {

/// The state before any insertion.
pub open spec fn empty_view() -> PartView {
    PartView { clusters: Map::empty(), index: Map::empty() }
}

/// The state after a sequence of insertions, applied in order from empty.
pub open spec fn run_inserts(pairs: Seq<(usize, usize)>) -> PartView
    decreases pairs.len(),
{
    if pairs.len() == 0 {
        empty_view()
    } else {
        insert_trans(run_inserts(pairs.drop_last()), pairs.last().0, pairs.last().1)
    }
}

/// Two ids stand in the same cluster.
pub open spec fn same_cluster(v: PartView, a: usize, b: usize) -> bool {
    v.index.contains_key(a) && v.index.contains_key(b) && v.index[a] == v.index[b]
}

/// Same cluster, or the same id.
pub open spec fn related(v: PartView, a: usize, b: usize) -> bool {
    a == b || same_cluster(v, a, b)
}

/// One inserted pair links two ids directly, in either direction.
pub open spec fn linked(pairs: Seq<(usize, usize)>, x: usize, y: usize) -> bool {
    exists|k: int| 0 <= k < pairs.len() && ((#[trigger] pairs[k]) == (x, y) || pairs[k] == (y, x))
}

/// Consecutive entries of `p` are linked.
pub open spec fn is_path(pairs: Seq<(usize, usize)>, p: Seq<usize>) -> bool {
    forall|n: int| 0 <= n < p.len() - 1 ==> linked(pairs, #[trigger] p[n], p[n + 1])
}

/// `b` is reachable from `a` over the undirected graph of inserted pairs
/// (reflexively: every id reaches itself).
pub open spec fn connected(pairs: Seq<(usize, usize)>, a: usize, b: usize) -> bool {
    exists|p: Seq<usize>| p.len() >= 1 && p.first() == a && p.last() == b && is_path(pairs, p)
}

/// Every run from empty yields a coherent state.
pub proof fn lemma_run_wf(pairs: Seq<(usize, usize)>)
    ensures
        view_wf(run_inserts(pairs)),
    decreases pairs.len(),
{
    if pairs.len() == 0 {
    } else {
        lemma_run_wf(pairs.drop_last());
        lemma_insert_trans_wf(run_inserts(pairs.drop_last()), pairs.last().0, pairs.last().1);
    }
}

/// How one insertion changes the same-cluster relation: two ids are related
/// afterwards exactly when they were already related, or each reaches one
/// end of the new pair.
proof fn lemma_insert_related(v: PartView, i: usize, j: usize, a: usize, b: usize)
    requires
        view_wf(v),
    ensures
        related(insert_trans(v, i, j), a, b) <==> (related(v, a, b) || (related(v, a, i)
            && related(v, j, b)) || (related(v, a, j) && related(v, i, b))),
{
    let w = insert_trans(v, i, j);
    if i == j {
    } else {
        let oi = v.index.contains_key(i);
        let oj = v.index.contains_key(j);
        if !oi && !oj {
            assert forall|x: usize| #[trigger] v.index.contains_key(x) implies v.index[x] != i
                && v.index[x] != j by {
                assert(v.clusters.contains_key(v.index[x]));
            }
        } else if !oi && oj {
            assert forall|x: usize| #[trigger] v.index.contains_key(x) implies v.index[x] != i by {
                assert(v.clusters.contains_key(v.index[x]));
            }
        } else if oi && !oj {
            assert forall|x: usize| #[trigger] v.index.contains_key(x) implies v.index[x] != j by {
                assert(v.clusters.contains_key(v.index[x]));
            }
        } else {
            let pi = v.index[i];
            let pj = v.index[j];
            if pi == pj {
            } else if v.clusters[pj].len() < v.clusters[pi].len() {
                lemma_merge_related(v, pi, pj, a, b);
            } else {
                lemma_merge_related(v, pj, pi, a, b);
            }
        }
    }
}

/// How one merge changes the same-cluster relation.
proof fn lemma_merge_related(v: PartView, winner: usize, loser: usize, a: usize, b: usize)
    requires
        view_wf(v),
        winner != loser,
        v.clusters.contains_key(winner),
        v.clusters.contains_key(loser),
    ensures
        related(merge_into(v, winner, loser), a, b) <==> (related(v, a, b) || (
        v.index.contains_key(a) && v.index.contains_key(b) && (v.index[a] == winner || v.index[a]
            == loser) && (v.index[b] == winner || v.index[b] == loser))),
{
    let w = merge_into(v, winner, loser);
    assert forall|x: usize| #[trigger] v.index.contains_key(x) implies (v.clusters[loser].contains(
        x,
    ) <==> v.index[x] == loser) by {
        if v.clusters[loser].contains(x) {
            let n = v.clusters[loser].index_of(x);
        }
    }
    assert(w.index == repoint(v.index, v.clusters[loser], winner));
    assert forall|x: usize| #[trigger] v.index.contains_key(x) implies w.index[x] == (
    if v.index[x] == loser {
        winner
    } else {
        v.index[x]
    }) by {}
}

/// Once related, always related: an insertion never separates two ids.
proof fn lemma_insert_monotone(v: PartView, i: usize, j: usize, a: usize, b: usize)
    requires
        view_wf(v),
        related(v, a, b),
    ensures
        related(insert_trans(v, i, j), a, b),
{
    lemma_insert_related(v, i, j, a, b);
}

/// Every inserted pair ends related.
proof fn lemma_run_contains(pairs: Seq<(usize, usize)>, k: int)
    requires
        0 <= k < pairs.len(),
    ensures
        related(run_inserts(pairs), pairs[k].0, pairs[k].1),
    decreases pairs.len(),
{
    lemma_run_wf(pairs.drop_last());
    let v = run_inserts(pairs.drop_last());
    let e = pairs.last();
    if k == pairs.len() - 1 {
        lemma_insert_related(v, e.0, e.1, e.0, e.1);
    } else {
        assert(pairs.drop_last()[k] == pairs[k]);
        lemma_run_contains(pairs.drop_last(), k);
        lemma_insert_monotone(v, e.0, e.1, pairs[k].0, pairs[k].1);
    }
}

/// A path can be extended into a longer graph.
proof fn lemma_conn_mono(pairs: Seq<(usize, usize)>, e: (usize, usize), a: usize, b: usize)
    requires
        connected(pairs, a, b),
    ensures
        connected(pairs.push(e), a, b),
{
    let p = choose|p: Seq<usize>|
        p.len() >= 1 && p.first() == a && p.last() == b && is_path(pairs, p);
    assert(is_path(pairs.push(e), p)) by {
        assert forall|n: int| 0 <= n < p.len() - 1 implies linked(pairs.push(e), #[trigger] p[n], p[n + 1]) by {
            let k = choose|k: int|
                0 <= k < pairs.len() && ((#[trigger] pairs[k]) == (p[n], p[n + 1]) || pairs[k] == (
                p[n + 1],
                p[n],
                ));
            assert(pairs.push(e)[k] == pairs[k]);
        }
    }
    assert(p.len() >= 1 && p.first() == a && p.last() == b && is_path(pairs.push(e), p));
}

/// Reachability runs along concatenated paths.
proof fn lemma_conn_trans(pairs: Seq<(usize, usize)>, a: usize, b: usize, c: usize)
    requires
        connected(pairs, a, b),
        connected(pairs, b, c),
    ensures
        connected(pairs, a, c),
{
    let p1 = choose|p: Seq<usize>|
        p.len() >= 1 && p.first() == a && p.last() == b && is_path(pairs, p);
    let p2 = choose|p: Seq<usize>|
        p.len() >= 1 && p.first() == b && p.last() == c && is_path(pairs, p);
    let p = p1 + p2.drop_first();
    assert(p.len() >= 1);
    assert(p.first() == a);
    if p2.len() == 1 {
        assert(p =~= p1);
        assert(p.last() == c);
    } else {
        assert(p.last() == p2.last());
        assert(is_path(pairs, p)) by {
            assert forall|n: int| 0 <= n < p.len() - 1 implies linked(pairs, #[trigger] p[n], p[n + 1]) by {
                if n < p1.len() - 1 {
                    assert(p[n] == p1[n] && p[n + 1] == p1[n + 1]);
                } else if n == p1.len() - 1 {
                    assert(p[n] == p1.last());
                    assert(p[n + 1] == p2.drop_first()[0]);
                    assert(p2[0] == b && p2[1] == p2.drop_first()[0]);
                    assert(linked(pairs, p2[0], p2[1]));
                } else {
                    assert(p[n] == p2.drop_first()[n - p1.len()]);
                    assert(p[n] == p2[n - p1.len() + 1]);
                    assert(p[n + 1] == p2[n - p1.len() + 2]);
                    assert(linked(pairs, p2[n - p1.len() + 1], p2[n - p1.len() + 2]));
                }
            }
        }
    }
    assert(p.len() >= 1 && p.first() == a && p.last() == c && is_path(pairs, p));
}

/// A single link is a path of two steps.
proof fn lemma_conn_step(pairs: Seq<(usize, usize)>, x: usize, y: usize)
    requires
        linked(pairs, x, y),
    ensures
        connected(pairs, x, y),
{
    let p = seq![x, y];
    assert(p.first() == x && p.last() == y);
    assert(is_path(pairs, p)) by {
        assert(p[0] == x && p[1] == y);
    }
    assert(p.len() >= 1 && p.first() == x && p.last() == y && is_path(pairs, p));
}

/// Every id reaches itself.
proof fn lemma_conn_refl(pairs: Seq<(usize, usize)>, a: usize)
    ensures
        connected(pairs, a, a),
{
    let p = seq![a];
    assert(p.len() >= 1 && p.first() == a && p.last() == a && is_path(pairs, p));
}

/// Related ids are reachable from one another.
proof fn lemma_closure_forward(pairs: Seq<(usize, usize)>, a: usize, b: usize)
    requires
        related(run_inserts(pairs), a, b),
    ensures
        connected(pairs, a, b),
    decreases pairs.len(),
{
    if a == b {
        lemma_conn_refl(pairs, a);
    } else if pairs.len() == 0 {
        assert(!same_cluster(empty_view(), a, b));
    } else {
        let ps = pairs.drop_last();
        let e = pairs.last();
        let i = e.0;
        let j = e.1;
        let v = run_inserts(ps);
        lemma_run_wf(ps);
        lemma_insert_related(v, i, j, a, b);
        assert(pairs =~= ps.push(e));
        assert(linked(pairs, i, j)) by {
            assert(pairs[pairs.len() - 1] == (i, j));
        }
        if related(v, a, b) {
            lemma_closure_forward(ps, a, b);
            lemma_conn_mono(ps, e, a, b);
            assert(ps.push(e) =~= pairs);
        } else if related(v, a, i) && related(v, j, b) {
            lemma_closure_forward(ps, a, i);
            lemma_closure_forward(ps, j, b);
            lemma_conn_mono(ps, e, a, i);
            lemma_conn_mono(ps, e, j, b);
            lemma_conn_step(pairs, i, j);
            lemma_conn_trans(pairs, a, i, j);
            lemma_conn_trans(pairs, a, j, b);
        } else {
            lemma_closure_forward(ps, a, j);
            lemma_closure_forward(ps, i, b);
            lemma_conn_mono(ps, e, a, j);
            lemma_conn_mono(ps, e, i, b);
            assert(linked(pairs, j, i)) by {
                assert(pairs[pairs.len() - 1] == (i, j));
            }
            lemma_conn_step(pairs, j, i);
            lemma_conn_trans(pairs, a, j, i);
            lemma_conn_trans(pairs, a, i, b);
        }
    }
}

/// Linked ids end related.
proof fn lemma_linked_related(pairs: Seq<(usize, usize)>, x: usize, y: usize)
    requires
        linked(pairs, x, y),
    ensures
        related(run_inserts(pairs), x, y),
{
    let k = choose|k: int|
        0 <= k < pairs.len() && ((#[trigger] pairs[k]) == (x, y) || pairs[k] == (y, x));
    lemma_run_contains(pairs, k);
}

/// Everything along a path ends related.
proof fn lemma_path_related(pairs: Seq<(usize, usize)>, p: Seq<usize>)
    requires
        p.len() >= 1,
        is_path(pairs, p),
    ensures
        related(run_inserts(pairs), p.first(), p.last()),
    decreases p.len(),
{
    if p.len() == 1 {
    } else {
        let q = p.drop_last();
        assert(is_path(pairs, q)) by {
            assert forall|n: int| 0 <= n < q.len() - 1 implies linked(pairs, #[trigger] q[n], q[n + 1]) by {
                assert(q[n] == p[n] && q[n + 1] == p[n + 1]);
            }
        }
        lemma_path_related(pairs, q);
        assert(linked(pairs, p[p.len() - 2], p[p.len() - 1]));
        lemma_linked_related(pairs, p[p.len() - 2], p[p.len() - 1]);
        assert(q.last() == p[p.len() - 2]);
    }
}

/// Partition closure: after any sequence of insertions, two distinct ids
/// stand in the same cluster exactly when they are reachable from one
/// another over the undirected graph of the inserted pairs.
pub proof fn lemma_partition_closure(pairs: Seq<(usize, usize)>, a: usize, b: usize)
    requires
        a != b,
    ensures
        same_cluster(run_inserts(pairs), a, b) <==> connected(pairs, a, b),
{
    if same_cluster(run_inserts(pairs), a, b) {
        lemma_closure_forward(pairs, a, b);
    }
    if connected(pairs, a, b) {
        let p = choose|p: Seq<usize>|
            p.len() >= 1 && p.first() == a && p.last() == b && is_path(pairs, p);
        lemma_path_related(pairs, p);
    }
}

/// Order independence: two insertion sequences that link the same pairs of
/// ids produce the same clustering of distinct ids, whatever the order and
/// repetition of the calls.
pub proof fn lemma_order_irrelevant(
    p1: Seq<(usize, usize)>,
    p2: Seq<(usize, usize)>,
    a: usize,
    b: usize,
)
    requires
        a != b,
        forall|x: usize, y: usize| #[trigger] linked(p1, x, y) <==> #[trigger] linked(p2, x, y),
    ensures
        same_cluster(run_inserts(p1), a, b) == same_cluster(run_inserts(p2), a, b),
{
    assert forall|x: usize, y: usize| #[trigger] connected(p1, x, y) implies connected(
        p2,
        x,
        y,
    ) by {
        let p = choose|p: Seq<usize>|
            p.len() >= 1 && p.first() == x && p.last() == y && is_path(p1, p);
        assert(is_path(p2, p)) by {
            assert forall|n: int| 0 <= n < p.len() - 1 implies linked(p2, #[trigger] p[n], p[n + 1]) by {
                assert(linked(p1, p[n], p[n + 1]));
            }
        }
        assert(p.len() >= 1 && p.first() == x && p.last() == y && is_path(p2, p));
    }
    assert forall|x: usize, y: usize| #[trigger] connected(p2, x, y) implies connected(
        p1,
        x,
        y,
    ) by {
        let p = choose|p: Seq<usize>|
            p.len() >= 1 && p.first() == x && p.last() == y && is_path(p2, p);
        assert(is_path(p1, p)) by {
            assert forall|n: int| 0 <= n < p.len() - 1 implies linked(p1, #[trigger] p[n], p[n + 1]) by {
                assert(linked(p2, p[n], p[n + 1]));
            }
        }
        assert(p.len() >= 1 && p.first() == x && p.last() == y && is_path(p1, p));
    }
    lemma_partition_closure(p1, a, b);
    lemma_partition_closure(p2, a, b);
    assert(connected(p1, a, b) == connected(p2, a, b));
}

} // verus!
