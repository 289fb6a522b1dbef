use vstd::prelude::*;
use vstd::set_lib::{set_int_range, lemma_int_range, lemma_len_subset};
use rustc_hash::FxHashMap;
use crate::slab::{BitmapSlab, spec_aligned_capacity};
use crate::hash_index::{fx_new, fx_reserve, fx_get, fx_insert, fx_remove, fx_entries};

verus! {

/// A finite map and a finite set in bijection — the index is injective and
/// every element of the set is some key's image — have one cardinality.
pub(crate) proof fn lemma_card_bijection(m: Map<u64, usize>, s: Set<int>)
    requires
        m.dom().finite(),
        s.finite(),
        forall|k: u64| #[trigger] m.contains_key(k) ==> s.contains(m[k] as int),
        forall|k1: u64, k2: u64|
            m.contains_key(k1) && m.contains_key(k2) && k1 != k2 ==> (#[trigger] m[k1])
                != (#[trigger] m[k2]),
        forall|i: int| #[trigger] s.contains(i) ==> exists|k: u64|
            #[trigger] m.contains_key(k) && m[k] as int == i,
    ensures
        m.dom().len() == s.len(),
    decreases m.dom().len(),
{
    if m.dom().len() == 0 {
        assert forall|i: int| !(#[trigger] s.contains(i)) by {
            if s.contains(i) {
                let k = choose|k: u64| #[trigger] m.contains_key(k) && m[k] as int == i;
                assert(m.dom().contains(k));
                vstd::set_lib::lemma_len_subset(Set::<u64>::empty().insert(k), m.dom());
            }
        }
        assert(s =~= Set::<int>::empty());
    } else {
        assert(exists|k: u64| m.dom().contains(k)) by {
            if forall|k: u64| !(#[trigger] m.dom().contains(k)) {
                assert(m.dom() =~= Set::<u64>::empty());
            }
        }
        let k0 = m.dom().choose();
        let i0 = m[k0] as int;
        let m2 = m.remove(k0);
        let s2 = s.remove(i0);
        assert(m2.dom() =~= m.dom().remove(k0));
        assert forall|i: int| #[trigger] s2.contains(i) implies exists|k: u64|
            #[trigger] m2.contains_key(k) && m2[k] as int == i by {
            let k = choose|k: u64| #[trigger] m.contains_key(k) && m[k] as int == i;
            assert(k != k0);
            assert(m2.contains_key(k) && m2[k] as int == i);
        }
        lemma_card_bijection(m2, s2);
    }
}

/// A hash index from `u64` key to slot index, layered on one slot
/// allocator: keys address pool entries without exposing raw indices, a key
/// maps to at most one slot, and re-inserting a key never moves it.
pub struct SlabMap<V: Clone> {
    slab: BitmapSlab<V>,
    hashmap: FxHashMap<u64, usize>,
}

impl<V: Clone> View for SlabMap<V> {
    type V = Map<u64, V>;

    /// The map's abstract state: each present key bound to the value its
    /// slot holds.
    closed spec fn view(&self) -> Map<u64, V> {
        Map::new(
            |k: u64| self.hashmap@.contains_key(k),
            |k: u64| self.slab@[self.hashmap@[k] as int],
        )
    }
}

impl<V: Clone> SlabMap<V> {
    /// Usable capacity of the underlying allocator.
    pub closed spec fn spec_capacity(&self) -> int {
        self.slab.spec_capacity()
    }

    /// The slot index a present key is bound to.
    pub closed spec fn spec_index_of(&self, k: u64) -> int {
        self.hashmap@[k] as int
    }

    /// The map's invariant: a well-formed allocator, and a hash index that
    /// binds keys to occupied slots, injectively, covering every occupied
    /// slot.
    pub closed spec fn wf(&self) -> bool {
        &&& self.slab.wf()
        &&& self.hashmap@.dom().finite()
        &&& (forall|k: u64| #[trigger]
            self.hashmap@.contains_key(k) ==> self.slab@.dom().contains(self.hashmap@[k] as int)
                && (self.hashmap@[k] as int) < self.slab.spec_capacity())
        &&& (forall|k1: u64, k2: u64|
            self.hashmap@.contains_key(k1) && self.hashmap@.contains_key(k2) && k1 != k2
                ==> (#[trigger] self.hashmap@[k1]) != (#[trigger] self.hashmap@[k2]))
        &&& (forall|i: int| #[trigger]
            self.slab@.dom().contains(i) ==> exists|k: u64|
                #[trigger] self.hashmap@.contains_key(k) && self.hashmap@[k] as int == i)
    }

    /// The number of keys equals the number of occupied slots, and the
    /// abstract map's domain is exactly the key set.
    proof fn lemma_view_len(&self)
        requires
            self.wf(),
        ensures
            self@.len() == self.slab@.len(),
            self@.dom() =~= self.hashmap@.dom(),
    {
        assert(self@.dom() =~= self.hashmap@.dom());
        self.slab.lemma_wf_bounds();
        lemma_card_bijection(self.hashmap@, self.slab@.dom());
    }

    /// Build a map over a fresh allocator of the given capacity, its hash
    /// index sized for that many entries.
    pub fn with_capacity(capacity: usize) -> (r: Self)
        requires
            1 <= capacity,
            capacity <= 64 * 64 * 254,
        ensures
            r.wf(),
            r@ == Map::<u64, V>::empty(),
            r.spec_capacity() == spec_aligned_capacity(capacity as int),
    {
        let slab = BitmapSlab::with_capacity(capacity);
        let mut hashmap = fx_new();
        fx_reserve(&mut hashmap, slab.capacity());
        let r = SlabMap { slab, hashmap };
        proof {
            assert(r.hashmap@.dom() =~= Set::<u64>::empty());
            assert(r@ =~= Map::<u64, V>::empty());
        }
        r
    }

    /// Bind `key` to `value`. A present key's slot is overwritten in place —
    /// neither bitmap nor hash index moves, and the key keeps its index for
    /// good. An absent key claims a fresh slot, which requires room in the
    /// pool. Returns the key's slot index.
    pub fn insert(&mut self, key: u64, value: V) -> (r: usize)
        requires
            old(self).wf(),
            old(self)@.contains_key(key) || old(self)@.len() < old(self).spec_capacity(),
        ensures
            final(self).wf(),
            final(self).spec_capacity() == old(self).spec_capacity(),
            final(self)@ == old(self)@.insert(key, value),
            r as int == final(self).spec_index_of(key),
            (r as int) < old(self).spec_capacity(),
            forall|k: u64|
                old(self)@.contains_key(k) ==> final(self).spec_index_of(k) == old(
                    self,
                ).spec_index_of(k),
            old(self)@.contains_key(key) ==> r as int == old(self).spec_index_of(key),
    {
        match fx_get(&self.hashmap, key) {
            Some(idx) => {
                self.slab.set_unsafe(value, idx);
                proof {
                    assert(final(self)@ =~= old(self)@.insert(key, value)) by {
                        assert forall|k: u64| self@.contains_key(k) && k != key implies self@[k]
                            == old(self)@[k] by {
                            assert(self.hashmap@[k] != self.hashmap@[key]);
                        }
                    }
                }
                idx
            },
            None => {
                proof {
                    old(self).lemma_view_len();
                }
                let idx = match self.slab.insert(value) {
                    Result::Ok(i) => i,
                    Result::Err(_) => {
                        proof {
                            assert(false);
                        }
                        0
                    },
                };
                fx_insert(&mut self.hashmap, key, idx);
                proof {
                    let prev = *old(self);
                    let this = *self;
                    assert forall|i: int| #[trigger]
                        this.slab@.dom().contains(i) implies exists|k2: u64|
                        #[trigger] this.hashmap@.contains_key(k2) && this.hashmap@[k2] as int
                            == i by {
                        if i == idx as int {
                            assert(this.hashmap@.contains_key(key) && this.hashmap@[key] as int
                                == i);
                        } else {
                            assert(prev.slab@.dom().contains(i));
                            let k2 = choose|k2: u64|
                                #[trigger] prev.hashmap@.contains_key(k2) && prev.hashmap@[k2] as int
                                    == i;
                            assert(this.hashmap@.contains_key(k2) && this.hashmap@[k2] as int == i);
                        }
                    }
                    assert(this.wf());
                    assert(this@ =~= prev@.insert(key, value));
                }
                idx
            },
        }
    }

    /// Borrow the value bound to `key`, or nothing when the key is absent.
    pub fn get(&self, key: &u64) -> (r: Option<&V>)
        requires
            self.wf(),
        ensures
            (r is Some) <==> self@.contains_key(*key),
            r matches Some(v) ==> *v == self@[*key],
    {
        match fx_get(&self.hashmap, *key) {
            Some(idx) => Some(self.slab.get(idx)),
            None => None,
        }
    }

    /// Drop `key`: the hash-index entry goes first, then the slot is freed.
    /// Returns the freed slot index and the value it held, or nothing — with
    /// no side effect — when the key is absent.
    pub fn remove(&mut self, key: &u64) -> (r: Option<(usize, V)>)
        requires
            old(self).wf(),
        ensures
            final(self).wf(),
            final(self).spec_capacity() == old(self).spec_capacity(),
            (r is Some) <==> old(self)@.contains_key(*key),
            r matches Some(p) ==> p.0 as int == old(self).spec_index_of(*key) && p.1 == old(
                self,
            )@[*key],
            final(self)@ == old(self)@.remove(*key),
            forall|k: u64|
                old(self)@.contains_key(k) && k != *key ==> final(self).spec_index_of(k) == old(
                    self,
                ).spec_index_of(k),
    {
        let idx = match fx_remove(&mut self.hashmap, *key) {
            Some(idx) => idx,
            None => {
                proof {
                    assert(self.hashmap@ =~= old(self).hashmap@);
                    assert(final(self)@ =~= old(self)@.remove(*key));
                }
                return None;
            },
        };
        let value = match self.slab.remove(idx) {
            Some(v) => v,
            None => {
                proof {
                    assert(false);
                }
                return None;
            },
        };
        proof {
            let prev = *old(self);
            let this = *self;
            assert forall|i: int| #[trigger] this.slab@.dom().contains(i) implies exists|k2: u64|
                #[trigger] this.hashmap@.contains_key(k2) && this.hashmap@[k2] as int == i by {
                assert(prev.slab@.dom().contains(i));
                let k2 = choose|k2: u64|
                    #[trigger] prev.hashmap@.contains_key(k2) && prev.hashmap@[k2] as int == i;
                assert(k2 != *key);
                assert(this.hashmap@.contains_key(k2) && this.hashmap@[k2] as int == i);
            }
            assert(this.wf());
            assert(this@ =~= prev@.remove(*key));
        }
        Some((idx, value))
    }

    /// Borrow the value bound to `key` without the checked path's absence
    /// handling: the key must be present.
    pub fn get_unchecked(&self, key: &u64) -> (r: &V)
        requires
            self.wf(),
            self@.contains_key(*key),
        ensures
            *r == self@[*key],
    {
        let idx = match fx_get(&self.hashmap, *key) {
            Some(idx) => idx,
            None => {
                proof {
                    assert(false);
                }
                0
            },
        };
        self.slab.get(idx)
    }

    /// Every entry of the map, as key and borrowed value, each key exactly
    /// once, in an order this contract leaves open.
    pub fn iter(&self) -> (r: Vec<(u64, &V)>)
        requires
            self.wf(),
        ensures
            r@.len() == self@.len(),
            forall|j: int|
                0 <= j < r@.len() ==> self@.contains_key((#[trigger] r@[j]).0) && *r@[j].1
                    == self@[r@[j].0],
            forall|k: u64|
                #[trigger] self@.contains_key(k) ==> exists|j: int|
                    0 <= j < r@.len() && (#[trigger] r@[j]).0 == k,
            forall|j1: int, j2: int|
                0 <= j1 < j2 < r@.len() ==> (#[trigger] r@[j1]).0 != (#[trigger] r@[j2]).0,
    {
        proof {
            self.lemma_view_len();
        }
        let pairs = fx_entries(&self.hashmap);
        let mut r: Vec<(u64, &V)> = Vec::new();
        let mut j: usize = 0;
        while j < pairs.len()
            invariant
                self.wf(),
                j <= pairs@.len(),
                r@.len() == j,
                pairs@.len() == self.hashmap@.dom().len(),
                forall|j2: int|
                    0 <= j2 < pairs@.len() ==> self.hashmap@.contains_key(
                        (#[trigger] pairs@[j2]).0,
                    ) && self.hashmap@[pairs@[j2].0] == pairs@[j2].1,
                forall|k: u64|
                    #[trigger] self.hashmap@.contains_key(k) ==> exists|j2: int|
                        0 <= j2 < pairs@.len() && (#[trigger] pairs@[j2]).0 == k,
                forall|j1: int, j2: int|
                    0 <= j1 < j2 < pairs@.len() ==> (#[trigger] pairs@[j1]).0
                        != (#[trigger] pairs@[j2]).0,
                forall|j2: int| 0 <= j2 < j ==> (#[trigger] r@[j2]).0 == pairs@[j2].0,
                forall|j2: int|
                    0 <= j2 < j ==> self@.contains_key((#[trigger] r@[j2]).0) && *r@[j2].1
                        == self@[r@[j2].0],
            decreases pairs@.len() - j,
        {
            let (k, idx) = pairs[j];
            let v = self.slab.get(idx);
            r.push((k, v));
            j += 1;
        }
        proof {
            self.lemma_view_len();
            assert forall|k: u64| #[trigger] self@.contains_key(k) implies exists|j2: int|
                0 <= j2 < r@.len() && (#[trigger] r@[j2]).0 == k by {
                let j2 = choose|j2: int| 0 <= j2 < pairs@.len() && (#[trigger] pairs@[j2]).0 == k;
                assert((r@[j2]).0 == k);
            }
        }
        r
    }
}

impl<V: Clone> SlabMap<V> {
    /// No two simultaneously-present keys ever share a slot index, and
    /// every present key's index lies below the pool's usable capacity.
    pub proof fn lemma_live_indices_distinct(&self, k1: u64, k2: u64)
        requires
            self.wf(),
            self@.contains_key(k1),
            self@.contains_key(k2),
            k1 != k2,
        ensures
            self.spec_index_of(k1) != self.spec_index_of(k2),
            0 <= self.spec_index_of(k1) < self.spec_capacity(),
    {
    }

    /// Duplicate-key stability: binding a key twice returns the identical
    /// slot index both times, and the key then reads as the second value.
    /// The states and indices are related exactly as `insert`'s contract
    /// leaves them.
    pub proof fn lemma_duplicate_key_stability(
        m0: Self,
        m1: Self,
        m2: Self,
        k: u64,
        v1: V,
        v2: V,
        i1: int,
        i2: int,
    )
        requires
            m1@ == m0@.insert(k, v1),
            i1 == m1.spec_index_of(k),
            m2@ == m1@.insert(k, v2),
            i2 == m2.spec_index_of(k),
            m1@.contains_key(k) ==> i2 == m1.spec_index_of(k),
        ensures
            i1 == i2,
            m2@[k] == v2,
    {
        assert(m1@.contains_key(k));
    }

    /// Keyed removal: after a successful removal the key reads as absent,
    /// and a later insertion of the key succeeds and binds it to the new
    /// value. The states are related exactly as `remove`'s and `insert`'s
    /// contracts leave them.
    pub proof fn lemma_keyed_removal(m0: Self, m1: Self, m2: Self, k: u64, v3: V)
        requires
            m1@ == m0@.remove(k),
            m2@ == m1@.insert(k, v3),
        ensures
            !m1@.contains_key(k),
            m2@.contains_key(k),
            m2@[k] == v3,
    {
    }
}

} // verus!
