//! Interning of word spellings: each distinct byte string is assigned a
//! dense identifier, in strict first-seen order, and keeps it for the life
//! of the table.

use vstd::prelude::*;

use crate::bytes::bytes_eq;

verus! {

/// No spelling occurs twice.
pub open spec fn distinct_words(s: Seq<Seq<u8>>) -> bool {
    forall|a: int, b: int| 0 <= a < b < s.len() ==> #[trigger] s[a] != #[trigger] s[b]
}

/// The word table: `self@[i]` is the canonical spelling for identifier `i`.
pub struct IdTable {
    words: Vec<Vec<u8>>,
}

impl View for IdTable {
    type V = Seq<Seq<u8>>;

    closed spec fn view(&self) -> Seq<Seq<u8>> {
        self.words@.map_values(|w: Vec<u8>| w@)
    }
}

impl IdTable {
    /// The table never holds a spelling twice.
    pub open spec fn well_formed(self) -> bool {
        distinct_words(self@)
    }

    /// An empty table.
    pub fn new() -> (r: IdTable)
        ensures
            r.well_formed(),
            r@ == Seq::<Seq<u8>>::empty(),
    {
        let r = IdTable { words: Vec::new() };
        proof {
            assert(r@ =~= Seq::<Seq<u8>>::empty());
        }
        r
    }

    /// How many spellings have been interned.
    pub fn len(&self) -> (n: usize)
        ensures
            n == self@.len(),
    {
        self.words.len()
    }

    /// The spelling canonically held for identifier `id`.
    pub fn spelling(&self, id: usize) -> (r: &Vec<u8>)
        requires
            id < self@.len(),
        ensures
            r@ == self@[id as int],
    {
        &self.words[id]
    }

    /// Intern a spelling: a known one keeps its identifier and leaves the
    /// table unchanged; an unseen one is appended and receives the next
    /// identifier.
    pub fn get(&mut self, w: &[u8]) -> (id: usize)
        requires
            old(self).well_formed(),
        ensures
            final(self).well_formed(),
            id < final(self)@.len(),
            final(self)@[id as int] == w@,
            old(self)@.contains(w@) ==> final(self)@ == old(self)@,
            !old(self)@.contains(w@) ==> final(self)@ == old(self)@.push(w@) && id == old(
                self,
            )@.len(),
    {
        let mut k: usize = 0;
        while k < self.words.len()
            invariant
                *self == *old(self),
                old(self).well_formed(),
                0 <= k <= self.words@.len(),
                forall|m: int| 0 <= m < k ==> self@[m] != w@,
            decreases self.words@.len() - k,
        {
            if bytes_eq(self.words[k].as_slice(), w) {
                proof {
                    assert(self@[k as int] == w@);
                }
                return k;
            }
            k = k + 1;
        }
        proof {
            assert(forall|m: int| 0 <= m < self@.len() ==> self@[m] != w@);
            if self@.contains(w@) {
                let m = self@.index_of(w@);
            }
        }
        let id = self.words.len();
        let mut copy: Vec<u8> = Vec::new();
        copy.extend_from_slice(w);
        proof {
            assert(copy@ =~= w@);
        }
        self.words.push(copy);
        proof {
            assert(self@ =~= old(self)@.push(w@));
            assert forall|a: int, b: int| 0 <= a < b < self@.len() implies #[trigger] self@[a]
                != #[trigger] self@[b] by {
                if b == self@.len() - 1 {
                    assert(old(self)@[a] != w@);
                }
            }
        }
        id
    }
}

} // verus!
