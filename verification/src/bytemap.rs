//! An ordered map from byte strings to values, kept as two parallel vectors
//! in ascending key order so that it can be walked in the order a transducer
//! wants its keys.

use crate::lex::{
    ascending, compare_bytes, lemma_ascending_is, lemma_lex_lt_asymmetric,
    lemma_lex_lt_transitive, lemma_position_unique, lex_lt, lists, strictly_increasing, Rank,
};
use vstd::prelude::*;
use vstd::slice::slice_to_vec;

verus! {

/// The map with `value` under `key` unless the key is taken already.
pub open spec fn insert_new<V>(m: Map<Seq<u8>, V>, key: Seq<u8>, value: V) -> Map<Seq<u8>, V> {
    if m.contains_key(key) {
        m
    } else {
        m.insert(key, value)
    }
}

/// An ordered map keyed by byte strings.
pub struct ByteMap<V> {
    keys: Vec<Vec<u8>>,
    vals: Vec<V>,
}

impl<V: View> View for ByteMap<V> {
    type V = Map<Seq<u8>, V::V>;

    /// The map from each key to the view of its value.
    open spec fn view(&self) -> Map<Seq<u8>, V::V> {
        Map::new(
            |k: Seq<u8>| self.keys().contains(k),
            |k: Seq<u8>| self.values()[self.keys().index_of(k)]@,
        )
    }
}

impl<V: View> ByteMap<V> {
    /// The keys in the order in which they are stored.
    pub closed spec fn keys(&self) -> Seq<Seq<u8>> {
        Seq::new(self.keys@.len(), |i: int| self.keys@[i]@)
    }

    /// The values, each at the position of its key.
    pub closed spec fn values(&self) -> Seq<V> {
        self.vals@
    }

    /// Keys and values run in parallel and the keys ascend strictly.
    pub open spec fn wf(&self) -> bool {
        &&& self.keys().len() == self.values().len()
        &&& strictly_increasing(self.keys())
    }

    /// `i` is where `key` belongs: everything before is below it, everything
    /// from `i` on is above it.
    pub open spec fn gap_at(&self, i: int, key: Seq<u8>) -> bool {
        &&& 0 <= i <= self.keys().len()
        &&& forall|j: int| 0 <= j < i ==> lex_lt(#[trigger] self.keys()[j], key)
        &&& forall|j: int| i <= j < self.keys().len() ==> lex_lt(key, #[trigger] self.keys()[j])
    }

    /// Each stored key maps to the view of the value beside it.
    pub proof fn lemma_entry(&self, i: int)
        requires
            self.wf(),
            0 <= i < self.keys().len(),
        ensures
            self@.contains_key(self.keys()[i]),
            self@[self.keys()[i]] == self.values()[i]@,
    {
        lemma_position_unique(self.keys(), i);
    }

    /// A key with a gap of its own is not in the map.
    pub proof fn lemma_gap_absent(&self, i: int, key: Seq<u8>)
        requires
            self.gap_at(i, key),
        ensures
            !self@.contains_key(key),
    {
        if self.keys().contains(key) {
            let j = self.keys().index_of(key);
            if j < i {
                lemma_lex_lt_asymmetric(self.keys()[j], key);
            } else {
                lemma_lex_lt_asymmetric(key, self.keys()[j]);
            }
        }
    }

    /// The stored keys are the ascending listing of the map's domain.
    pub proof fn lemma_keys_listed(&self)
        requires
            self.wf(),
        ensures
            lists(self.keys(), self@.dom()),
            self.keys() == ascending(self@.dom()),
            self@.dom().finite(),
            self@.dom().len() == self.keys().len(),
    {
        assert forall|k: Seq<u8>| self.keys().contains(k) <==> self@.dom().contains(k) by {}
        lemma_ascending_is(self.keys(), self@.dom());
        assert(self@.dom() =~= self.keys().to_set());
        vstd::seq_lib::seq_to_set_is_finite(self.keys());
        assert forall|i: int, j: int|
            0 <= i < self.keys().len() && 0 <= j < self.keys().len() && i != j implies self.keys()[i]
            != self.keys()[j] by {
            if i < j {
                lemma_lex_lt_asymmetric(self.keys()[i], self.keys()[j]);
            } else {
                lemma_lex_lt_asymmetric(self.keys()[j], self.keys()[i]);
            }
        }
        self.keys().unique_seq_to_set();
    }

    /// Changing the value at one position changes the map at that key only.
    pub proof fn lemma_value_changed(&self, after: &Self, i: int)
        requires
            self.wf(),
            0 <= i < self.keys().len(),
            after.keys() == self.keys(),
            after.values() == self.values().update(i, after.values()[i]),
        ensures
            after.wf(),
            after@ == self@.insert(self.keys()[i], after.values()[i]@),
    {
        let k = self.keys()[i];
        assert forall|x: Seq<u8>| #[trigger] after@.contains_key(x) implies after@[x] == self@.insert(
            k,
            after.values()[i]@,
        )[x] by {
            let j = self.keys().index_of(x);
            lemma_position_unique(self.keys(), j);
            lemma_position_unique(self.keys(), i);
        }
        assert(after@ =~= self@.insert(k, after.values()[i]@)) by {
            lemma_position_unique(self.keys(), i);
        }
    }

    /// Creates an empty map.
    pub fn new() -> (m: Self)
        ensures
            m.wf(),
            m.keys() == Seq::<Seq<u8>>::empty(),
            m@ == Map::<Seq<u8>, V::V>::empty(),
    {
        let m = ByteMap { keys: Vec::new(), vals: Vec::new() };
        proof {
            assert(m.keys() =~= Seq::<Seq<u8>>::empty());
            assert(m@ =~= Map::<Seq<u8>, V::V>::empty());
        }
        m
    }

    /// The number of entries.
    pub fn len(&self) -> (n: usize)
        ensures
            n == self.keys().len(),
    {
        self.keys.len()
    }

    /// The key at position `i`.
    pub fn key(&self, i: usize) -> (k: &Vec<u8>)
        requires
            i < self.keys().len(),
        ensures
            k@ == self.keys()[i as int],
    {
        &self.keys[i]
    }

    /// The value at position `i`.
    pub fn value(&self, i: usize) -> (v: &V)
        requires
            self.wf(),
            i < self.keys().len(),
        ensures
            *v == self.values()[i as int],
    {
        &self.vals[i]
    }

    /// The value at position `i`, for changing in place.
    pub fn value_mut(&mut self, i: usize) -> (v: &mut V)
        requires
            old(self).wf(),
            i < old(self).keys().len(),
        ensures
            *v == old(self).values()[i as int],
            final(self).keys() == old(self).keys(),
            final(self).values() == old(self).values().update(i as int, *final(v)),
    {
        &mut self.vals[i]
    }

    /// Looks `key` up by binary search: the position of its entry, or the
    /// position at which it would have to be inserted.
    pub fn search(&self, key: &[u8]) -> (r: Result<usize, usize>)
        requires
            self.wf(),
        ensures
            match r {
                Ok(i) => i < self.keys().len() && self.keys()[i as int] == key@
                    && self@.contains_key(key@),
                Err(i) => self.gap_at(i as int, key@) && !self@.contains_key(key@),
            },
    {
        let mut lo: usize = 0;
        let mut hi: usize = self.keys.len();
        while lo < hi
            invariant
                self.wf(),
                lo <= hi <= self.keys().len(),
                forall|j: int| 0 <= j < lo ==> lex_lt(#[trigger] self.keys()[j], key@),
                forall|j: int| hi <= j < self.keys().len() ==> lex_lt(key@, #[trigger] self.keys()[j]),
            decreases hi - lo,
        {
            let mid: usize = lo + (hi - lo) / 2;
            match compare_bytes(self.keys[mid].as_slice(), key) {
                Rank::Same => {
                    proof {
                        self.lemma_entry(mid as int);
                    }
                    return Ok(mid);
                },
                Rank::Before => {
                    proof {
                        assert forall|j: int| 0 <= j < mid + 1 implies lex_lt(
                            #[trigger] self.keys()[j],
                            key@,
                        ) by {
                            if j < mid {
                                lemma_lex_lt_transitive(self.keys()[j], self.keys()[mid as int], key@);
                            }
                        }
                    }
                    lo = mid + 1;
                },
                Rank::After => {
                    proof {
                        assert forall|j: int| mid <= j < self.keys().len() implies lex_lt(
                            key@,
                            #[trigger] self.keys()[j],
                        ) by {
                            if mid < j {
                                lemma_lex_lt_transitive(key@, self.keys()[mid as int], self.keys()[j]);
                            }
                        }
                    }
                    hi = mid;
                },
            }
        }
        proof {
            self.lemma_gap_absent(lo as int, key@);
        }
        Err(lo)
    }

    /// Inserts a new entry at its place in the order.
    pub fn insert_at(&mut self, i: usize, key: Vec<u8>, value: V)
        requires
            old(self).wf(),
            old(self).gap_at(i as int, key@),
        ensures
            final(self).wf(),
            final(self).keys() == old(self).keys().insert(i as int, key@),
            final(self).values() == old(self).values().insert(i as int, value),
            final(self)@ == old(self)@.insert(key@, value@),
    {
        let ghost before = *self;
        self.keys.insert(i, key);
        self.vals.insert(i, value);
        proof {
            let ks = before.keys().insert(i as int, key@);
            assert(self.keys() =~= ks);
            assert forall|x: int, y: int| 0 <= x < y < ks.len() implies lex_lt(
                #[trigger] ks[x],
                #[trigger] ks[y],
            ) by {
                if y < i {
                    assert(lex_lt(before.keys()[x], before.keys()[y]));
                } else if y == i {
                } else if x < i {
                    assert(lex_lt(before.keys()[x], before.keys()[y - 1]));
                } else if x == i {
                } else {
                    assert(lex_lt(before.keys()[x - 1], before.keys()[y - 1]));
                }
            }
            before.lemma_gap_absent(i as int, key@);
            assert forall|k: Seq<u8>| #[trigger] self@.contains_key(k) <==> before@.insert(key@, value@).contains_key(k) by {
                if self.keys().contains(k) {
                    let j = self.keys().index_of(k);
                    if j < i {
                        assert(before.keys()[j] == k);
                    } else if j > i {
                        assert(before.keys()[j - 1] == k);
                    }
                }
                if before.keys().contains(k) {
                    let j = before.keys().index_of(k);
                    if j < i {
                        assert(self.keys()[j] == k);
                    } else {
                        assert(self.keys()[j + 1] == k);
                    }
                }
                if k == key@ {
                    assert(self.keys()[i as int] == k);
                }
            }
            assert forall|k: Seq<u8>| #[trigger] self@.contains_key(k) implies self@[k] == before@.insert(key@, value@)[k] by {
                let j = self.keys().index_of(k);
                lemma_position_unique(self.keys(), j);
                if j < i {
                    before.lemma_entry(j);
                } else if j > i {
                    before.lemma_entry(j - 1);
                }
            }
            assert(self@ =~= before@.insert(key@, value@));
        }
    }
    /// The value stored under `key`, if there is one.
    pub fn get(&self, key: &[u8]) -> (r: Option<&V>)
        requires
            self.wf(),
        ensures
            r is Some <==> self@.contains_key(key@),
            r matches Some(value) ==> value@ == self@[key@],
    {
        match self.search(key) {
            Ok(i) => {
                proof {
                    self.lemma_entry(i as int);
                }
                Some(self.value(i))
            },
            Err(_) => None,
        }
    }

    /// The position of `key`, which gets `fresh` as its value if it has
    /// none yet.
    pub fn position_or_insert(&mut self, key: &[u8], fresh: V) -> (i: usize)
        requires
            old(self).wf(),
        ensures
            final(self).wf(),
            i <= old(self).keys().len(),
            i < final(self).keys().len(),
            final(self).keys()[i as int] == key@,
            final(self)@ == insert_new(old(self)@, key@, fresh@),
            old(self)@.contains_key(key@) ==> final(self).keys() == old(self).keys()
                && final(self).values() == old(self).values(),
            !old(self)@.contains_key(key@) ==> final(self).keys() == old(self).keys().insert(
                i as int,
                key@,
            ) && final(self).values() == old(self).values().insert(i as int, fresh),
    {
        match self.search(key) {
            Ok(i) => i,
            Err(i) => {
                self.insert_at(i, slice_to_vec(key), fresh);
                i
            },
        }
    }
}

} // verus!
