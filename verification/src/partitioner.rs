//! Incremental construction of connected components: `insert(i, j)` declares
//! that the identifiers `i` and `j` belong to the same cluster. Clusters are
//! merged by size; member lists stay explicit so any cluster can be
//! enumerated at any time.

use vstd::prelude::*;

use vstd::pervasive::unreached;

use crate::assoc::{assoc_pos, assoc_view, keys_unique, lemma_assoc_dom, lemma_assoc_found,
    lemma_assoc_push, lemma_assoc_remove, lemma_assoc_update};

verus! {

/// Abstract state of a partitioner: the cluster member list keyed by
/// representative, and the reverse mapping from member to representative.
#[verifier::ext_equal]
pub struct PartView {
    pub clusters: Map<usize, Seq<usize>>,
    pub index: Map<usize, usize>,
}

/// Every member of `members` is re-pointed to the representative `to`;
/// everything else keeps its mapping. The domain does not change.
pub open spec fn repoint(m: Map<usize, usize>, members: Seq<usize>, to: usize) -> Map<
    usize,
    usize,
> {
    Map::new(
        |k: usize| m.contains_key(k),
        |k: usize| if members.contains(k) {
            to
        } else {
            m[k]
        },
    )
}

/// The cluster of `loser` is absorbed into the cluster of `winner`: the
/// absorbed member list is appended to the surviving one, every absorbed
/// member is re-pointed, and the absorbed entry disappears.
pub open spec fn merge_into(v: PartView, winner: usize, loser: usize) -> PartView {
    PartView {
        clusters: v.clusters.remove(loser).insert(winner, v.clusters[winner] + v.clusters[loser]),
        index: repoint(v.index, v.clusters[loser], winner),
    }
}

/// What one `insert(i, j)` call does to the abstract state, by the declared
/// policy: self loops are dropped; two unseen ids form a fresh cluster
/// represented by the first; a lone unseen id joins the other's cluster; two
/// clusters merge smaller-into-larger, and on equal size the second
/// argument's representative survives.
pub open spec fn insert_trans(v: PartView, i: usize, j: usize) -> PartView {
    if i == j {
        v
    } else {
        let oi = v.index.contains_key(i);
        let oj = v.index.contains_key(j);
        if !oi && !oj {
            PartView {
                clusters: v.clusters.insert(i, seq![i, j]),
                index: v.index.insert(i, i).insert(j, i),
            }
        } else if !oi && oj {
            let pj = v.index[j];
            PartView {
                clusters: v.clusters.insert(pj, v.clusters[pj].push(i)),
                index: v.index.insert(i, pj),
            }
        } else if oi && !oj {
            let pi = v.index[i];
            PartView {
                clusters: v.clusters.insert(pi, v.clusters[pi].push(j)),
                index: v.index.insert(j, pi),
            }
        } else {
            let pi = v.index[i];
            let pj = v.index[j];
            if pi == pj {
                v
            } else if v.clusters[pj].len() < v.clusters[pi].len() {
                merge_into(v, pi, pj)
            } else {
                merge_into(v, pj, pi)
            }
        }
    }
}

/// Coherence of the two mappings: the representative of any indexed id heads
/// a live cluster holding that id; a representative indexes to itself;
/// members index to their cluster's representative; member lists hold no
/// duplicates; no live cluster is a singleton.
pub open spec fn view_wf(v: PartView) -> bool {
    &&& forall|id: usize| #[trigger]
        v.index.contains_key(id) ==> v.clusters.contains_key(v.index[id])
    &&& forall|r: usize| #[trigger]
        v.clusters.contains_key(r) ==> v.index.contains_key(r) && v.index[r] == r
    &&& forall|r: usize, n: int|
        v.clusters.contains_key(r) && 0 <= n < v.clusters[r].len() ==> v.index.contains_key(
            #[trigger] v.clusters[r][n],
        ) && v.index[v.clusters[r][n]] == r
    &&& forall|id: usize| #[trigger]
        v.index.contains_key(id) ==> v.clusters[v.index[id]].contains(id)
    &&& forall|r: usize, a: int, b: int|
        v.clusters.contains_key(r) && 0 <= a < b < v.clusters[r].len() ==> (
        #[trigger] v.clusters[r][a]) != (#[trigger] v.clusters[r][b])
    &&& forall|r: usize| #[trigger] v.clusters.contains_key(r) ==> v.clusters[r].len() >= 2
}

/// Clusters are pairwise disjoint: an id in one live cluster is in no other.
pub proof fn lemma_disjointness(v: PartView, r1: usize, r2: usize, id: usize)
    requires
        view_wf(v),
        r1 != r2,
        v.clusters.contains_key(r1),
        v.clusters.contains_key(r2),
        v.clusters[r1].contains(id),
    ensures
        !v.clusters[r2].contains(id),
{
    let n1 = v.clusters[r1].index_of(id);
    assert(v.index[id] == r1);
    if v.clusters[r2].contains(id) {
        let n2 = v.clusters[r2].index_of(id);
        assert(v.index[id] == r2);
    }
}

/// Every indexed id points at a representative that is itself a member of
/// its own live cluster.
pub proof fn lemma_rep_is_member(v: PartView, id: usize)
    requires
        view_wf(v),
        v.index.contains_key(id),
    ensures
        v.clusters.contains_key(v.index[id]),
        v.clusters[v.index[id]].contains(v.index[id]),
{
    let r = v.index[id];
    assert(v.index.contains_key(r));
}

/// An insertion indexes no id beyond the two inserted ones.
pub proof fn lemma_insert_trans_dom(v: PartView, i: usize, j: usize)
    ensures
        forall|id: usize| #[trigger]
            insert_trans(v, i, j).index.contains_key(id) ==> (v.index.contains_key(id) || id == i
                || id == j),
{
    let w = insert_trans(v, i, j);
    assert forall|id: usize| #[trigger] w.index.contains_key(id) implies (v.index.contains_key(id)
        || id == i || id == j) by {
        if i != j && v.index.contains_key(i) && v.index.contains_key(j) && v.index[i]
            != v.index[j] {
            assert(w.index == repoint(
                v.index,
                v.clusters[if v.clusters[v.index[j]].len() < v.clusters[v.index[i]].len() {
                    v.index[j]
                } else {
                    v.index[i]
                }],
                if v.clusters[v.index[j]].len() < v.clusters[v.index[i]].len() {
                    v.index[i]
                } else {
                    v.index[j]
                },
            ));
        }
    }
}

/// Tie-break determinism: merging two equal-size clusters always keeps the
/// representative of the cluster of the second argument, and the first
/// argument's cluster entry disappears.
pub proof fn lemma_tie_break(v: PartView, i: usize, j: usize)
    requires
        view_wf(v),
        v.index.contains_key(i),
        v.index.contains_key(j),
        v.index[i] != v.index[j],
        v.clusters[v.index[i]].len() == v.clusters[v.index[j]].len(),
    ensures
        insert_trans(v, i, j).index[i] == v.index[j],
        insert_trans(v, i, j).index[j] == v.index[j],
        insert_trans(v, i, j).clusters.contains_key(v.index[j]),
        !insert_trans(v, i, j).clusters.contains_key(v.index[i]),
{
    let pi = v.index[i];
    let pj = v.index[j];
    assert(v.clusters[pi].contains(i));
    assert(!v.clusters[pi].contains(j)) by {
        if v.clusters[pi].contains(j) {
            let n = v.clusters[pi].index_of(j);
        }
    }
}

/// One insertion keeps the state coherent.
pub proof fn lemma_insert_trans_wf(v: PartView, i: usize, j: usize)
    requires
        view_wf(v),
    ensures
        view_wf(insert_trans(v, i, j)),
{
    if i == j {
    } else {
        let oi = v.index.contains_key(i);
        let oj = v.index.contains_key(j);
        let w = insert_trans(v, i, j);
        if !oi && !oj {
            assert(!v.clusters.contains_key(i));
            assert forall|id: usize| #[trigger] w.index.contains_key(id) implies w.clusters.contains_key(
                w.index[id],
            ) && w.clusters[w.index[id]].contains(id) by {
                if id == i || id == j {
                    assert(w.clusters[i as usize][0] == i && w.clusters[i as usize][1] == j);
                } else {
                    assert(v.index.contains_key(id));
                    assert(w.index[id] == v.index[id]);
                    assert(w.clusters[w.index[id]] == v.clusters[v.index[id]]);
                }
            }
            assert forall|r: usize, n: int|
                w.clusters.contains_key(r) && 0 <= n < w.clusters[r].len() implies w.index.contains_key(
                w.clusters[r][n],
            ) && w.index[w.clusters[r][n]] == r by {
                if r == i {
                } else {
                    assert(v.clusters.contains_key(r));
                    assert(w.clusters[r] == v.clusters[r]);
                    let m = v.clusters[r][n];
                    assert(v.index.contains_key(m) && v.index[m] == r);
                    assert(m != i && m != j);
                }
            }
            assert forall|r: usize, a: int, b: int|
                w.clusters.contains_key(r) && 0 <= a < b < w.clusters[r].len() implies (
            w.clusters[r][a]) != (w.clusters[r][b]) by {
                if r == i {
                } else {
                    assert(w.clusters[r] == v.clusters[r]);
                }
            }
            assert forall|r: usize| #[trigger] w.clusters.contains_key(r) implies w.clusters[r].len()
                >= 2 by {
                if r != i {
                    assert(w.clusters[r] == v.clusters[r]);
                }
            }
        } else if !oi && oj {
            let pj = v.index[j];
            lemma_rep_is_member(v, j);
            assert(!v.clusters[pj].contains(i)) by {
                if v.clusters[pj].contains(i) {
                    let n = v.clusters[pj].index_of(i);
                    assert(v.index.contains_key(v.clusters[pj][n]));
                }
            }
            lemma_one_sided(v, i, pj);
        } else if oi && !oj {
            let pi = v.index[i];
            lemma_rep_is_member(v, i);
            assert(!v.clusters[pi].contains(j)) by {
                if v.clusters[pi].contains(j) {
                    let n = v.clusters[pi].index_of(j);
                    assert(v.index.contains_key(v.clusters[pi][n]));
                }
            }
            lemma_one_sided(v, j, pi);
        } else {
            let pi = v.index[i];
            let pj = v.index[j];
            if pi == pj {
            } else if v.clusters[pj].len() < v.clusters[pi].len() {
                lemma_merge_wf(v, pi, pj);
            } else {
                lemma_merge_wf(v, pj, pi);
            }
        }
    }
}

/// Appending one unseen id to an existing cluster keeps the state coherent.
proof fn lemma_one_sided(v: PartView, newcomer: usize, rep: usize)
    requires
        view_wf(v),
        !v.index.contains_key(newcomer),
        v.clusters.contains_key(rep),
        v.index.contains_key(rep) && v.index[rep] == rep,
        !v.clusters[rep].contains(newcomer),
    ensures
        view_wf(
            PartView {
                clusters: v.clusters.insert(rep, v.clusters[rep].push(newcomer)),
                index: v.index.insert(newcomer, rep),
            },
        ),
{
    let w = PartView {
        clusters: v.clusters.insert(rep, v.clusters[rep].push(newcomer)),
        index: v.index.insert(newcomer, rep),
    };
    let grown = v.clusters[rep].push(newcomer);
    assert(grown[grown.len() - 1] == newcomer);
    assert forall|id: usize| #[trigger] w.index.contains_key(id) implies w.clusters.contains_key(
        w.index[id],
    ) && w.clusters[w.index[id]].contains(id) by {
        if id == newcomer {
            assert(w.clusters[rep].contains(newcomer));
        } else {
            assert(v.index.contains_key(id));
            if v.index[id] == rep {
                let n = v.clusters[rep].index_of(id);
                assert(grown[n] == id);
            } else {
                assert(w.clusters[w.index[id]] == v.clusters[v.index[id]]);
            }
        }
    }
    assert forall|r: usize, n: int|
        w.clusters.contains_key(r) && 0 <= n < w.clusters[r].len() implies w.index.contains_key(
        w.clusters[r][n],
    ) && w.index[w.clusters[r][n]] == r by {
        if r == rep {
            if n < grown.len() - 1 {
                let m = v.clusters[rep][n];
                assert(v.index.contains_key(m) && v.index[m] == rep);
                assert(m != newcomer);
            }
        } else {
            assert(w.clusters[r] == v.clusters[r]);
            let m = v.clusters[r][n];
            assert(v.index.contains_key(m) && v.index[m] == r);
            assert(m != newcomer);
        }
    }
    assert forall|r: usize, a: int, b: int|
        w.clusters.contains_key(r) && 0 <= a < b < w.clusters[r].len() implies (w.clusters[r][a])
        != (w.clusters[r][b]) by {
        if r == rep {
            if b == grown.len() - 1 {
                let m = v.clusters[rep][a];
                assert(v.index.contains_key(m) && v.index[m] == rep);
                assert(m != newcomer);
            }
        } else {
            assert(w.clusters[r] == v.clusters[r]);
        }
    }
    assert forall|r: usize| #[trigger] w.clusters.contains_key(r) implies w.clusters[r].len()
        >= 2 by {
        if r != rep {
            assert(w.clusters[r] == v.clusters[r]);
        }
    }
}

/// Merging one cluster into another keeps the state coherent.
proof fn lemma_merge_wf(v: PartView, winner: usize, loser: usize)
    requires
        view_wf(v),
        winner != loser,
        v.clusters.contains_key(winner),
        v.clusters.contains_key(loser),
    ensures
        view_wf(merge_into(v, winner, loser)),
{
    let w = merge_into(v, winner, loser);
    let vi = v.clusters[winner];
    let vj = v.clusters[loser];
    let merged = vi + vj;
    assert(forall|n: int| 0 <= n < vi.len() ==> merged[n] == vi[n]);
    assert(forall|n: int| 0 <= n < vj.len() ==> merged[vi.len() + n] == vj[n]);
    assert forall|m: usize| vi.contains(m) implies v.index.contains_key(m) && v.index[m]
        == winner by {
        let n = vi.index_of(m);
    }
    assert forall|m: usize| vj.contains(m) implies v.index.contains_key(m) && v.index[m]
        == loser by {
        let n = vj.index_of(m);
    }
    assert forall|id: usize| #[trigger] w.index.contains_key(id) implies w.clusters.contains_key(
        w.index[id],
    ) && w.clusters[w.index[id]].contains(id) by {
        assert(v.index.contains_key(id));
        if vj.contains(id) {
            assert(w.index[id] == winner);
            let n = vj.index_of(id);
            assert(merged[vi.len() + n] == id);
        } else {
            assert(w.index[id] == v.index[id]);
            let r = v.index[id];
            assert(r != loser);
            if r == winner {
                let n = vi.index_of(id);
                assert(merged[n] == id);
            } else {
                assert(w.clusters[r] == v.clusters[r]);
            }
        }
    }
    assert forall|r: usize| #[trigger] w.clusters.contains_key(r) implies w.index.contains_key(r)
        && w.index[r] == r by {
        assert(v.clusters.contains_key(r));
        if vj.contains(r) {
            assert(v.index[r] == loser && v.index[r] == r);
            assert(false);
        }
    }
    assert forall|r: usize, n: int|
        w.clusters.contains_key(r) && 0 <= n < w.clusters[r].len() implies w.index.contains_key(
        w.clusters[r][n],
    ) && w.index[w.clusters[r][n]] == r by {
        if r == winner {
            if n < vi.len() {
                let m = vi[n];
                assert(vi.contains(m));
                assert(!vj.contains(m)) by {
                    if vj.contains(m) {
                        assert(v.index[m] == loser);
                    }
                }
            } else {
                let m = vj[n - vi.len()];
                assert(vj.contains(m));
            }
        } else {
            assert(w.clusters[r] == v.clusters[r]);
            let m = v.clusters[r][n];
            assert(v.index.contains_key(m) && v.index[m] == r);
            assert(!vj.contains(m)) by {
                if vj.contains(m) {
                    assert(v.index[m] == loser);
                }
            }
        }
    }
    assert forall|r: usize, a: int, b: int|
        w.clusters.contains_key(r) && 0 <= a < b < w.clusters[r].len() implies (w.clusters[r][a])
        != (w.clusters[r][b]) by {
        if r == winner {
            if a < vi.len() && b >= vi.len() {
                let ma = vi[a];
                let mb = vj[b - vi.len()];
                assert(vi.contains(ma) && vj.contains(mb));
                assert(v.index[ma] == winner && v.index[mb] == loser);
            } else if a >= vi.len() {
                assert(merged[a] == vj[a - vi.len()] && merged[b] == vj[b - vi.len()]);
            }
        } else {
            assert(w.clusters[r] == v.clusters[r]);
        }
    }
    assert forall|r: usize| #[trigger] w.clusters.contains_key(r) implies w.clusters[r].len()
        >= 2 by {
        if r != winner {
            assert(w.clusters[r] == v.clusters[r]);
        }
    }
}

/// Look a key up in the reverse-index list.
fn map_get(entries: &Vec<(usize, usize)>, k: usize) -> (r: Option<usize>)
    requires
        keys_unique(entries@),
    ensures
        match r {
            Some(v) => assoc_view(entries@).contains_key(k) && assoc_view(entries@)[k] == v,
            None => !assoc_view(entries@).contains_key(k),
        },
{
    proof {
        lemma_assoc_dom::<usize>(entries@);
    }
    match assoc_pos(entries, k) {
        Some(p) => {
            proof {
                lemma_assoc_found(entries@, p as int);
            }
            Some(entries[p].1)
        },
        None => None,
    }
}

/// Insert or overwrite a key in the reverse-index list.
fn map_put(entries: &mut Vec<(usize, usize)>, k: usize, v: usize)
    requires
        keys_unique(old(entries)@),
    ensures
        keys_unique(final(entries)@),
        assoc_view(final(entries)@) == assoc_view(old(entries)@).insert(k, v),
{
    match assoc_pos(entries, k) {
        Some(p) => {
            proof {
                lemma_assoc_update(entries@, p as int, v);
            }
            entries[p] = (k, v);
        },
        None => {
            proof {
                lemma_assoc_push(entries@, k, v);
            }
            entries.push((k, v));
        },
    }
}

/// The partition store: clusters addressed by representative id, plus the
/// member-to-representative index.
pub struct Partitioner {
    clusters: Vec<(usize, Vec<usize>)>,
    index: Vec<(usize, usize)>,
}

impl View for Partitioner {
    type V = PartView;

    closed spec fn view(&self) -> PartView {
        PartView { clusters: assoc_view(self.clusters@), index: assoc_view(self.index@) }
    }
}

impl Partitioner {
    /// The two concrete association lists keep their keys unique.
    pub closed spec fn lists_wf(self) -> bool {
        &&& keys_unique(self.clusters@)
        &&& keys_unique(self.index@)
    }

    /// The concrete lists denote a coherent abstract state.
    pub open spec fn well_formed(self) -> bool {
        &&& self.lists_wf()
        &&& view_wf(self@)
    }

    /// An empty store: no clusters, nothing indexed.
    pub fn new() -> (r: Partitioner)
        ensures
            r.well_formed(),
            r@.clusters == Map::<usize, Seq<usize>>::empty(),
            r@.index == Map::<usize, usize>::empty(),
    {
        Partitioner { clusters: Vec::new(), index: Vec::new() }
    }

    /// The representative currently standing for `id`, or `None` where `id`
    /// has not been related to anything yet.
    pub fn rep_of(&self, id: usize) -> (r: Option<usize>)
        requires
            self.well_formed(),
        ensures
            match r {
                Some(rep) => self@.index.contains_key(id) && self@.index[id] == rep,
                None => !self@.index.contains_key(id),
            },
    {
        map_get(&self.index, id)
    }

    /// The member list of the cluster represented by `rep`, if live.
    pub fn members_of(&self, rep: usize) -> (r: Option<&Vec<usize>>)
        requires
            self.well_formed(),
        ensures
            match r {
                Some(m) => self@.clusters.contains_key(rep) && m@ == self@.clusters[rep],
                None => !self@.clusters.contains_key(rep),
            },
    {
        proof {
            lemma_assoc_dom::<Vec<usize>>(self.clusters@);
        }
        match assoc_pos(&self.clusters, rep) {
            Some(p) => {
                proof {
                    lemma_assoc_found(self.clusters@, p as int);
                }
                Some(&self.clusters[p].1)
            },
            None => None,
        }
    }

    /// All live clusters, in a deterministic order: each entry is a
    /// representative with its member list.
    pub fn cluster_lists(&self) -> (r: &Vec<(usize, Vec<usize>)>)
        requires
            self.well_formed(),
        ensures
            keys_unique(r@),
            assoc_view(r@) == self@.clusters,
    {
        &self.clusters
    }

    /// Declare that `i` and `j` belong to the same cluster.
    pub fn insert(&mut self, i: usize, j: usize)
        requires
            old(self).well_formed(),
        ensures
            final(self).well_formed(),
            final(self)@ == insert_trans(old(self)@, i, j),
            i == j ==> final(self)@ == old(self)@,
    {
        proof {
            lemma_insert_trans_wf(old(self)@, i, j);
        }
        if i == j {
            return ;
        }
        let oi = map_get(&self.index, i);
        let oj = map_get(&self.index, j);
        match (oi, oj) {
            (None, None) => {
                let mut members: Vec<usize> = Vec::new();
                members.push(i);
                members.push(j);
                proof {
                    lemma_assoc_dom::<Vec<usize>>(self.clusters@);
                    assert(!self@.clusters.contains_key(i));
                    assert forall|p: int| 0 <= p < self.clusters@.len() implies (
                    #[trigger] self.clusters@[p]).0 != i by {
                        if self.clusters@[p].0 == i {
                            assert(assoc_view(self.clusters@).contains_key(i));
                        }
                    }
                    lemma_assoc_push(self.clusters@, i, members);
                    assert(members@ =~= seq![i, j]);
                }
                self.clusters.push((i, members));
                proof {
                    lemma_assoc_dom::<usize>(self.index@);
                    assert forall|p: int| 0 <= p < self.index@.len() implies (
                    #[trigger] self.index@[p]).0 != i by {
                        if self.index@[p].0 == i {
                            assert(assoc_view(self.index@).contains_key(i));
                        }
                    }
                    lemma_assoc_push(self.index@, i, i);
                }
                self.index.push((i, i));
                proof {
                    lemma_assoc_dom::<usize>(self.index@);
                    assert(!assoc_view(self.index@).contains_key(j));
                    assert forall|p: int| 0 <= p < self.index@.len() implies (
                    #[trigger] self.index@[p]).0 != j by {
                        if self.index@[p].0 == j {
                            assert(assoc_view(self.index@).contains_key(j));
                        }
                    }
                    lemma_assoc_push(self.index@, j, i);
                }
                self.index.push((j, i));
                proof {
                    assert(self@ =~= insert_trans(old(self)@, i, j));
                }
            },
            (None, Some(pj)) => {
                self.append_member(pj, i);
                proof {
                    assert(self@ =~= insert_trans(old(self)@, i, j));
                }
            },
            (Some(pi), None) => {
                self.append_member(pi, j);
                proof {
                    assert(self@ =~= insert_trans(old(self)@, i, j));
                }
            },
            (Some(pi), Some(pj)) => {
                if pi != pj {
                    let li = self.cluster_len(pi);
                    let lj = self.cluster_len(pj);
                    if lj < li {
                        self.absorb(pi, pj);
                    } else {
                        self.absorb(pj, pi);
                    }
                }
                proof {
                    assert(self@ =~= insert_trans(old(self)@, i, j));
                }
            },
        }
    }

    /// Length of the member list of a live cluster.
    fn cluster_len(&self, rep: usize) -> (n: usize)
        requires
            self.well_formed(),
            self@.clusters.contains_key(rep),
        ensures
            n == self@.clusters[rep].len(),
    {
        match self.members_of(rep) {
            Some(m) => m.len(),
            None => unreached(),
        }
    }

    /// Append one id, seen for the first time, to a live cluster.
    fn append_member(&mut self, rep: usize, id: usize)
        requires
            old(self).well_formed(),
            old(self)@.clusters.contains_key(rep),
        ensures
            keys_unique(final(self).clusters@),
            keys_unique(final(self).index@),
            final(self)@.clusters == old(self)@.clusters.insert(
                rep,
                old(self)@.clusters[rep].push(id),
            ),
            final(self)@.index == old(self)@.index.insert(id, rep),
    {
        proof {
            lemma_assoc_dom::<Vec<usize>>(self.clusters@);
        }
        let p = match assoc_pos(&self.clusters, rep) {
            Some(p) => p,
            None => unreached(),
        };
        proof {
            lemma_assoc_found(self.clusters@, p as int);
            lemma_assoc_remove(self.clusters@, p as int);
        }
        let mut entry = self.clusters.remove(p);
        entry.1.push(id);
        proof {
            lemma_assoc_dom::<Vec<usize>>(self.clusters@);
            assert(forall|q: int|
                0 <= q < self.clusters@.len() ==> (#[trigger] self.clusters@[q]).0 != rep) by {
                if exists|q: int|
                    0 <= q < self.clusters@.len() && (#[trigger] self.clusters@[q]).0 == rep {
                    assert(assoc_view(self.clusters@).contains_key(rep));
                }
            }
            lemma_assoc_push(self.clusters@, rep, entry.1);
            assert(entry == (rep, entry.1));
        }
        self.clusters.push(entry);
        map_put(&mut self.index, id, rep);
        proof {
            assert(self@.clusters =~= old(self)@.clusters.insert(
                rep,
                old(self)@.clusters[rep].push(id),
            ));
        }
    }

    /// Absorb the cluster of `loser` into the cluster of `winner`.
    fn absorb(&mut self, winner: usize, loser: usize)
        requires
            old(self).well_formed(),
            old(self)@.clusters.contains_key(winner),
            old(self)@.clusters.contains_key(loser),
            winner != loser,
        ensures
            keys_unique(final(self).clusters@),
            keys_unique(final(self).index@),
            final(self)@ == merge_into(old(self)@, winner, loser),
    {
        let ghost v0 = self@;
        proof {
            lemma_assoc_dom::<Vec<usize>>(self.clusters@);
        }
        let pl = match assoc_pos(&self.clusters, loser) {
            Some(p) => p,
            None => unreached(),
        };
        proof {
            lemma_assoc_found(self.clusters@, pl as int);
            lemma_assoc_remove(self.clusters@, pl as int);
        }
        let removed = self.clusters.remove(pl);
        let mut absorbed = removed.1;
        let ghost vj = v0.clusters[loser];
        proof {
            assert(absorbed@ == vj);
            assert forall|m: usize| vj.contains(m) implies v0.index.contains_key(m) by {
                let n = vj.index_of(m);
            }
        }
        let ghost cl1 = self.clusters@;
        let mut n: usize = 0;
        while n < absorbed.len()
            invariant
                keys_unique(self.index@),
                keys_unique(self.clusters@),
                self.clusters@ == cl1,
                assoc_view(cl1) == v0.clusters.remove(loser),
                absorbed@ == vj,
                0 <= n <= vj.len(),
                forall|m: usize| vj.contains(m) ==> v0.index.contains_key(m),
                assoc_view(self.index@) =~= repoint(v0.index, vj.take(n as int), winner),
            decreases absorbed@.len() - n,
        {
            map_put(&mut self.index, absorbed[n], winner);
            proof {
                assert(vj.contains(vj[n as int]));
                assert(vj.take(n + 1).drop_last() =~= vj.take(n as int));
                assert(vj.take(n + 1)[n as int] == vj[n as int]);
                assert(vj.take(n + 1).contains(vj[n as int]));
                assert forall|k: usize| #[trigger] vj.take(n + 1).contains(k) implies vj.take(
                    n as int,
                ).contains(k) || k == vj[n as int] by {
                    let q = vj.take(n + 1).index_of(k);
                    if q < n {
                        assert(vj.take(n as int)[q] == k);
                    }
                }
                assert forall|k: usize| #[trigger] vj.take(n as int).contains(k) implies vj.take(
                    n + 1,
                ).contains(k) by {
                    let q = vj.take(n as int).index_of(k);
                    assert(vj.take(n + 1)[q] == k);
                }
                assert(assoc_view(self.index@) =~= repoint(v0.index, vj.take(n + 1), winner));
            }
            n = n + 1;
        }
        proof {
            assert(vj.take(vj.len() as int) =~= vj);
            assert(assoc_view(self.index@) =~= repoint(v0.index, vj, winner));
            lemma_assoc_dom::<Vec<usize>>(self.clusters@);
        }
        let pw = match assoc_pos(&self.clusters, winner) {
            Some(p) => p,
            None => unreached(),
        };
        proof {
            lemma_assoc_found(self.clusters@, pw as int);
            lemma_assoc_remove(self.clusters@, pw as int);
        }
        let mut entry = self.clusters.remove(pw);
        entry.1.append(&mut absorbed);
        proof {
            lemma_assoc_dom::<Vec<usize>>(self.clusters@);
            assert(forall|q: int|
                0 <= q < self.clusters@.len() ==> (#[trigger] self.clusters@[q]).0 != winner) by {
                if exists|q: int|
                    0 <= q < self.clusters@.len() && (#[trigger] self.clusters@[q]).0 == winner {
                    assert(assoc_view(self.clusters@).contains_key(winner));
                }
            }
            lemma_assoc_push(self.clusters@, winner, entry.1);
            assert(entry == (winner, entry.1));
        }
        self.clusters.push(entry);
        proof {
            assert(self@.clusters =~= merge_into(v0, winner, loser).clusters);
            assert(self@.index =~= merge_into(v0, winner, loser).index);
            assert(self@ =~= merge_into(v0, winner, loser));
        }
    }
}

} // verus!
