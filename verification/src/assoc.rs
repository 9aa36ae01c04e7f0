//! Association lists with unique keys, the backing for the partitioner's two
//! mappings. Each list of `(key, value)` pairs is read abstractly as a
//! `Map` from keys to the views of the values.

use vstd::prelude::*;

verus! {

/// No key occurs twice.
pub open spec fn keys_unique<V>(s: Seq<(usize, V)>) -> bool {
    forall|a: int, b: int| 0 <= a < b < s.len() ==> (#[trigger] s[a]).0 != (#[trigger] s[b]).0
}

/// The mapping an association list denotes: later entries win (with unique
/// keys there is nothing to win over).
pub open spec fn assoc_view<V: View>(s: Seq<(usize, V)>) -> Map<usize, V::V>
    decreases s.len(),
{
    if s.len() == 0 {
        Map::empty()
    } else {
        assoc_view(s.drop_last()).insert(s.last().0, s.last().1@)
    }
}

pub proof fn lemma_assoc_dom<V: View>(s: Seq<(usize, V)>)
    ensures
        forall|k: usize| #[trigger]
            assoc_view(s).contains_key(k) <==> exists|p: int| 0 <= p < s.len() && (#[trigger] s[p]).0 == k,
    decreases s.len(),
{
    if s.len() > 0 {
        lemma_assoc_dom(s.drop_last());
        assert forall|k: usize| #[trigger]
            assoc_view(s).contains_key(k) implies exists|p: int|
            0 <= p < s.len() && (#[trigger] s[p]).0 == k by {
            if k == s.last().0 {
                assert((s[s.len() - 1]).0 == k);
            } else {
                assert(assoc_view(s.drop_last()).contains_key(k));
                let p = choose|p: int| 0 <= p < s.drop_last().len() && (#[trigger] s.drop_last()[p]).0 == k;
                assert(s.drop_last()[p] == s[p]);
                assert((s[p]).0 == k);
            }
        }
        assert forall|k: usize|
            exists|p: int| 0 <= p < s.len() && (#[trigger] s[p]).0 == k implies #[trigger] assoc_view(
            s,
        ).contains_key(k) by {
            let p = choose|p: int| 0 <= p < s.len() && (#[trigger] s[p]).0 == k;
            if p < s.len() - 1 {
                let held = assoc_view(s.drop_last()).contains_key(k);
                assert((s.drop_last()[p]).0 == k);
                assert(held);
            }
        }
    }
}

pub proof fn lemma_assoc_found<V: View>(s: Seq<(usize, V)>, p: int)
    requires
        keys_unique(s),
        0 <= p < s.len(),
    ensures
        assoc_view(s).contains_key(s[p].0),
        assoc_view(s)[s[p].0] == s[p].1@,
    decreases s.len(),
{
    if p < s.len() - 1 {
        lemma_assoc_found(s.drop_last(), p);
        assert(s.drop_last()[p] == s[p]);
        assert(s[p].0 != s.last().0);
    }
}

pub proof fn lemma_assoc_update<V: View>(s: Seq<(usize, V)>, p: int, v: V)
    requires
        keys_unique(s),
        0 <= p < s.len(),
    ensures
        keys_unique(s.update(p, (s[p].0, v))),
        assoc_view(s.update(p, (s[p].0, v))) == assoc_view(s).insert(s[p].0, v@),
    decreases s.len(),
{
    let k = s[p].0;
    let t = s.update(p, (k, v));
    assert(keys_unique(t)) by {
        assert(forall|q: int| 0 <= q < s.len() ==> (#[trigger] t[q]).0 == s[q].0);
    }
    if p == s.len() - 1 {
        assert(t.drop_last() =~= s.drop_last());
        assert(t.last() == (k, v));
        assert(assoc_view(t) =~= assoc_view(s).insert(k, v@));
    } else {
        assert(t.drop_last() =~= s.drop_last().update(p, (k, v)));
        assert(s.drop_last()[p] == s[p]);
        lemma_assoc_update(s.drop_last(), p, v);
        assert(t.last() == s.last());
        assert(k != s.last().0);
        assert(assoc_view(t) == assoc_view(s.drop_last()).insert(k, v@).insert(
            s.last().0,
            s.last().1@,
        ));
        assert(assoc_view(t) =~= assoc_view(s).insert(k, v@));
    }
}

pub proof fn lemma_assoc_push<V: View>(s: Seq<(usize, V)>, k: usize, v: V)
    requires
        keys_unique(s),
        forall|p: int| 0 <= p < s.len() ==> (#[trigger] s[p]).0 != k,
    ensures
        keys_unique(s.push((k, v))),
        assoc_view(s.push((k, v))) == assoc_view(s).insert(k, v@),
{
    let t = s.push((k, v));
    assert(keys_unique(t)) by {
        assert(forall|q: int| 0 <= q < s.len() ==> (#[trigger] t[q]).0 == s[q].0);
        assert(t[t.len() - 1].0 == k);
    }
    assert(t.drop_last() =~= s);
    assert(t.last() == (k, v));
}

pub proof fn lemma_assoc_remove<V: View>(s: Seq<(usize, V)>, p: int)
    requires
        keys_unique(s),
        0 <= p < s.len(),
    ensures
        keys_unique(s.remove(p)),
        assoc_view(s.remove(p)) == assoc_view(s).remove(s[p].0),
    decreases s.len(),
{
    let k = s[p].0;
    let t = s.remove(p);
    assert(keys_unique(t)) by {
        assert(forall|q: int| 0 <= q < p ==> #[trigger] t[q] == s[q]);
        assert(forall|q: int| p <= q < t.len() ==> #[trigger] t[q] == s[q + 1]);
    }
    if p == s.len() - 1 {
        assert(t =~= s.drop_last());
        lemma_assoc_dom::<V>(s.drop_last());
        assert(forall|q: int| 0 <= q < s.drop_last().len() ==> (#[trigger] s.drop_last()[q]).0
            != k);
        assert(!assoc_view(s.drop_last()).contains_key(k));
        assert(assoc_view(s.drop_last()) =~= assoc_view(s.drop_last()).insert(k, s[p].1@).remove(
            k,
        ));
    } else {
        assert(t.drop_last() =~= s.drop_last().remove(p));
        assert(s.drop_last()[p] == s[p]);
        lemma_assoc_remove(s.drop_last(), p);
        assert(t.last() == s.last());
        assert(k != s.last().0);
        assert(assoc_view(t) == assoc_view(s.drop_last()).remove(k).insert(
            s.last().0,
            s.last().1@,
        ));
        assert(assoc_view(t) =~= assoc_view(s).remove(k));
    }
}

/// Position of the entry holding `k`, if any.
pub fn assoc_pos<V>(entries: &Vec<(usize, V)>, k: usize) -> (r: Option<usize>)
    ensures
        match r {
            Some(p) => p < entries@.len() && entries@[p as int].0 == k,
            None => forall|p: int| 0 <= p < entries@.len() ==> (#[trigger] entries@[p]).0 != k,
        },
{
    let mut p: usize = 0;
    while p < entries.len()
        invariant
            0 <= p <= entries@.len(),
            forall|q: int| 0 <= q < p ==> (#[trigger] entries@[q]).0 != k,
        decreases entries@.len() - p,
    {
        if entries[p].0 == k {
            return Some(p);
        }
        p = p + 1;
    }
    None
}

} // verus!
