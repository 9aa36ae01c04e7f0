//! The shared data model the handlers mutate: the word table, the
//! part-of-speech membership lists, the directed "plural of" relation, and
//! the "alternative forms" partition.

use vstd::prelude::*;

use crate::partitioner::{PartView, Partitioner};
use crate::words::{distinct_words, IdTable};

verus! {

/// Abstract state of the whole model.
#[verifier::ext_equal]
pub struct WiktView {
    pub words: Seq<Seq<u8>>,
    pub pos: Seq<(Seq<u8>, Seq<usize>)>,
    pub plural_of: Seq<(usize, usize)>,
    pub alt_forms: PartView,
}

/// The views of the part-of-speech entries.
pub open spec fn pos_views(s: Seq<(Vec<u8>, Vec<usize>)>) -> Seq<(Seq<u8>, Seq<usize>)> {
    s.map_values(|e: (Vec<u8>, Vec<usize>)| (e.0@, e.1@))
}

/// Identifier a spelling has, or would next receive.
pub open spec fn word_id_spec(words: Seq<Seq<u8>>, w: Seq<u8>) -> int {
    if words.contains(w) {
        words.index_of(w)
    } else {
        words.len() as int
    }
}

/// The word table after interning one spelling.
pub open spec fn intern_spec(words: Seq<Seq<u8>>, w: Seq<u8>) -> Seq<Seq<u8>> {
    if words.contains(w) {
        words
    } else {
        words.push(w)
    }
}

/// First entry holding a section name, searching from `from`.
pub open spec fn pos_find(s: Seq<(Seq<u8>, Seq<usize>)>, key: Seq<u8>, from: int) -> Option<int>
    decreases s.len() - from + 1,
{
    if from < 0 || from >= s.len() {
        None
    } else if s[from].0 == key {
        Some(from)
    } else {
        pos_find(s, key, from + 1)
    }
}

/// Membership of one id in one part-of-speech set: a new section name opens
/// a new entry; a known id leaves everything unchanged.
pub open spec fn pos_add(s: Seq<(Seq<u8>, Seq<usize>)>, key: Seq<u8>, id: usize) -> Seq<
    (Seq<u8>, Seq<usize>),
> {
    match pos_find(s, key, 0) {
        None => s.push((key, seq![id])),
        Some(p) => if s[p].1.contains(id) {
            s
        } else {
            s.update(p, (s[p].0, s[p].1.push(id)))
        },
    }
}

/// The directed relation after recording one edge: duplicates collapse.
pub open spec fn edge_add(edges: Seq<(usize, usize)>, e: (usize, usize)) -> Seq<(usize, usize)> {
    if edges.contains(e) {
        edges
    } else {
        edges.push(e)
    }
}

/// Every id held anywhere refers to an interned word.
pub open spec fn ids_bounded(v: WiktView) -> bool {
    &&& (forall|p: int, n: int|
        0 <= p < v.pos.len() && 0 <= n < v.pos[p].1.len() ==> (#[trigger] v.pos[p].1[n])
            < v.words.len())
    &&& (forall|k: int|
        0 <= k < v.plural_of.len() ==> (#[trigger] v.plural_of[k]).0 < v.words.len()
            && v.plural_of[k].1 < v.words.len())
    &&& (forall|id: usize| #[trigger]
        v.alt_forms.index.contains_key(id) ==> id < v.words.len())
}

proof fn lemma_index_of_distinct(words: Seq<Seq<u8>>, w: Seq<u8>, id: int)
    requires
        distinct_words(words),
        0 <= id < words.len(),
        words[id] == w,
    ensures
        words.contains(w),
        words.index_of(w) == id,
{
    assert(words.contains(w));
    let p = words.index_of(w);
    if p != id {
        assert(words[p] == w);
    }
}

/// The shared data model.
pub struct Wiktionary {
    words: IdTable,
    pos: Vec<(Vec<u8>, Vec<usize>)>,
    plural_of: Vec<(usize, usize)>,
    alt_forms: Partitioner,
}

impl View for Wiktionary {
    type V = WiktView;

    closed spec fn view(&self) -> WiktView {
        WiktView {
            words: self.words@,
            pos: pos_views(self.pos@),
            plural_of: self.plural_of@,
            alt_forms: self.alt_forms@,
        }
    }
}

impl Wiktionary {
    /// Internal coherence: no duplicate spelling, no duplicate section
    /// entry, no duplicate id in a section set, no duplicate edge, and a
    /// coherent partition.
    pub open spec fn well_formed(self) -> bool {
        &&& self.words_wf()
        &&& distinct_words(self@.words)
        &&& crate::partitioner::view_wf(self@.alt_forms)
        &&& (forall|a: int, b: int|
            0 <= a < b < self@.pos.len() ==> (#[trigger] self@.pos[a]).0 != (
            #[trigger] self@.pos[b]).0)
        &&& (forall|p: int, a: int, b: int|
            0 <= p < self@.pos.len() && 0 <= a < b < self@.pos[p].1.len() ==> (
            #[trigger] self@.pos[p].1[a]) != (#[trigger] self@.pos[p].1[b]))
        &&& (forall|a: int, b: int|
            0 <= a < b < self@.plural_of.len() ==> #[trigger] self@.plural_of[a]
                != #[trigger] self@.plural_of[b])
        &&& ids_bounded(self@)
    }

    /// The concrete parts are coherent too.
    pub closed spec fn words_wf(self) -> bool {
        &&& self.words.well_formed()
        &&& self.alt_forms.well_formed()
    }

    /// An empty model.
    pub fn new() -> (r: Wiktionary)
        ensures
            r.well_formed(),
            r@.words == Seq::<Seq<u8>>::empty(),
            r@.pos == Seq::<(Seq<u8>, Seq<usize>)>::empty(),
            r@.plural_of == Seq::<(usize, usize)>::empty(),
            r@.alt_forms.clusters == Map::<usize, Seq<usize>>::empty(),
            r@.alt_forms.index == Map::<usize, usize>::empty(),
    {
        let r = Wiktionary {
            words: IdTable::new(),
            pos: Vec::new(),
            plural_of: Vec::new(),
            alt_forms: Partitioner::new(),
        };
        proof {
            assert(pos_views(r.pos@) =~= Seq::<(Seq<u8>, Seq<usize>)>::empty());
        }
        r
    }

    /// Intern a spelling and return its stable identifier.
    pub fn word_id(&mut self, w: &[u8]) -> (id: usize)
        requires
            old(self).well_formed(),
        ensures
            final(self).well_formed(),
            id == word_id_spec(old(self)@.words, w@),
            final(self)@ == (WiktView { words: intern_spec(old(self)@.words, w@), ..old(self)@ }),
    {
        let id = self.words.get(w);
        proof {
            if old(self)@.words.contains(w@) {
                lemma_index_of_distinct(old(self)@.words, w@, id as int);
            }
            assert(self@ =~= WiktView { words: intern_spec(old(self)@.words, w@), ..old(self)@ });
        }
        id
    }

    /// Record that an id belongs to a part of speech.
    pub fn add_pos(&mut self, section: &[u8], id: usize)
        requires
            old(self).well_formed(),
            id < old(self)@.words.len(),
        ensures
            final(self).well_formed(),
            final(self)@ == (WiktView {
                pos: pos_add(old(self)@.pos, section@, id),
                ..old(self)@
            }),
    {
        let ghost v0 = pos_views(self.pos@);
        let mut k: usize = 0;
        while k < self.pos.len()
            invariant
                *self == *old(self),
                old(self).well_formed(),
                id < old(self)@.words.len(),
                v0 == pos_views(self.pos@),
                0 <= k <= self.pos@.len(),
                pos_find(v0, section@, 0) == pos_find(v0, section@, k as int),
            decreases self.pos@.len() - k,
        {
            if crate::bytes::bytes_eq(self.pos[k].0.as_slice(), section) {
                let mut entry = self.pos.remove(k);
                let mut seen = false;
                let mut m: usize = 0;
                while m < entry.1.len()
                    invariant
                        0 <= m <= entry.1@.len(),
                        seen == exists|q: int| 0 <= q < m && entry.1@[q] == id,
                    decreases entry.1@.len() - m,
                {
                    if entry.1[m] == id {
                        seen = true;
                        proof {
                            assert(entry.1@[m as int] == id);
                        }
                    }
                    m = m + 1;
                }
                proof {
                    assert(seen == entry.1@.contains(id));
                }
                if !seen {
                    entry.1.push(id);
                }
                self.pos.insert(k, entry);
                proof {
                    assert(self@.words == old(self)@.words);
                    let vnew = pos_views(self.pos@);
                    assert forall|p: int, n: int|
                        0 <= p < vnew.len() && 0 <= n < vnew[p].1.len() implies (
                    #[trigger] vnew[p].1[n]) < self@.words.len() by {
                        if p == k {
                            if !v0[k as int].1.contains(id) {
                                assert(vnew[k as int].1 == v0[k as int].1.push(id));
                                if n < vnew[k as int].1.len() - 1 {
                                    assert(vnew[p].1[n] == v0[k as int].1[n]);
                                    assert(v0[k as int].1[n] < old(self)@.words.len());
                                } else {
                                    assert(vnew[p].1[n] == id);
                                }
                            } else {
                                assert(vnew[k as int].1 == v0[k as int].1);
                                assert(vnew[p].1[n] == v0[k as int].1[n]);
                                assert(v0[k as int].1[n] < old(self)@.words.len());
                            }
                        } else {
                            assert(vnew[p] == v0[p]);
                            assert(vnew[p].1[n] == v0[p].1[n]);
                            assert(v0[p].1[n] < old(self)@.words.len());
                        }
                    }
                    let target = pos_add(v0, section@, id);
                    if old(self)@.pos[k as int].1.contains(id) {
                        assert(self.pos@ =~= old(self).pos@);
                        assert(pos_views(self.pos@) =~= target);
                    } else {
                        assert(pos_views(self.pos@) =~= target);
                    }
                    assert(self@ =~= WiktView { pos: target, ..old(self)@ });
                }
                return ;
            }
            k = k + 1;
        }
        let mut members: Vec<usize> = Vec::new();
        members.push(id);
        let mut name: Vec<u8> = Vec::new();
        name.extend_from_slice(section);
        self.pos.push((name, members));
        proof {
            assert(name@ =~= section@);
            assert(members@ =~= seq![id]);
            assert(pos_views(self.pos@) =~= pos_add(v0, section@, id));
            assert(self@ =~= WiktView { pos: pos_add(v0, section@, id), ..old(self)@ });
            assert forall|a: int, b: int|
                0 <= a < b < self@.pos.len() implies (#[trigger] self@.pos[a]).0 != (
            #[trigger] self@.pos[b]).0 by {
                if b == self@.pos.len() - 1 {
                    crate::model::lemma_pos_find_absent(v0, section@, a);
                }
            }
        }
    }

    /// Record one directed "plural of" edge; a repeated edge changes
    /// nothing.
    pub fn add_plural_edge(&mut self, src: usize, dst: usize)
        requires
            old(self).well_formed(),
            src < old(self)@.words.len(),
            dst < old(self)@.words.len(),
        ensures
            final(self).well_formed(),
            final(self)@ == (WiktView {
                plural_of: edge_add(old(self)@.plural_of, (src, dst)),
                ..old(self)@
            }),
    {
        let mut k: usize = 0;
        while k < self.plural_of.len()
            invariant
                *self == *old(self),
                old(self).well_formed(),
                0 <= k <= self.plural_of@.len(),
                forall|q: int| 0 <= q < k ==> #[trigger] self.plural_of@[q] != (src, dst),
            decreases self.plural_of@.len() - k,
        {
            let e = self.plural_of[k];
            if e.0 == src && e.1 == dst {
                proof {
                    assert(self.plural_of@[k as int] == (src, dst));
                    assert(self@ =~= WiktView {
                        plural_of: edge_add(old(self)@.plural_of, (src, dst)),
                        ..old(self)@
                    });
                }
                return ;
            }
            k = k + 1;
        }
        proof {
            assert(!self.plural_of@.contains((src, dst)));
        }
        self.plural_of.push((src, dst));
        proof {
            assert(self@ =~= WiktView {
                plural_of: edge_add(old(self)@.plural_of, (src, dst)),
                ..old(self)@
            });
        }
    }

    /// Merge two ids into one alternative-forms cluster.
    pub fn merge_alt(&mut self, i: usize, j: usize)
        requires
            old(self).well_formed(),
            i < old(self)@.words.len(),
            j < old(self)@.words.len(),
        ensures
            final(self).well_formed(),
            final(self)@ == (WiktView {
                alt_forms: crate::partitioner::insert_trans(old(self)@.alt_forms, i, j),
                ..old(self)@
            }),
    {
        self.alt_forms.insert(i, j);
        proof {
            crate::partitioner::lemma_insert_trans_dom(old(self)@.alt_forms, i, j);
            assert(self@ =~= WiktView {
                alt_forms: crate::partitioner::insert_trans(old(self)@.alt_forms, i, j),
                ..old(self)@
            });
        }
    }

    /// The word table.
    pub fn words(&self) -> (r: &IdTable)
        ensures
            r@ == self@.words,
    {
        &self.words
    }

    /// The part-of-speech entries, in first-seen order.
    pub fn pos_list(&self) -> (r: &Vec<(Vec<u8>, Vec<usize>)>)
        ensures
            pos_views(r@) == self@.pos,
    {
        &self.pos
    }

    /// The directed "plural of" edges, in first-seen order.
    pub fn plural_list(&self) -> (r: &Vec<(usize, usize)>)
        ensures
            r@ == self@.plural_of,
    {
        &self.plural_of
    }

    /// The alternative-forms partition.
    pub fn alt_forms(&self) -> (r: &Partitioner)
        requires
            self.well_formed(),
        ensures
            r@ == self@.alt_forms,
            r.well_formed(),
    {
        &self.alt_forms
    }
}

/// A key no entry holds is found nowhere.
pub proof fn lemma_pos_find_absent(s: Seq<(Seq<u8>, Seq<usize>)>, key: Seq<u8>, p: int)
    requires
        pos_find(s, key, 0) is None,
        0 <= p < s.len(),
    ensures
        s[p].0 != key,
{
    lemma_pos_find_none_from(s, key, 0, p);
}

proof fn lemma_pos_find_none_from(s: Seq<(Seq<u8>, Seq<usize>)>, key: Seq<u8>, from: int, p: int)
    requires
        pos_find(s, key, from) is None,
        from <= p < s.len(),
        0 <= from,
    ensures
        s[p].0 != key,
    decreases s.len() - from,
{
    if from < p {
        lemma_pos_find_none_from(s, key, from + 1, p);
    }
}

} // verus!
