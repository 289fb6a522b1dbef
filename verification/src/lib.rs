//! A fixed-capacity object pool handing out stable integer handles, with a
//! two-level hierarchical-bitmap slot allocator at its core (`slab`), a
//! keyed map layered on it (`map`), and — at the crate root — a simpler
//! operating mode: a single flat bitmap with a linear scan for the first
//! non-full word, doubling its buffer on exhaustion, plus a keyed map over
//! that variant.

use vstd::prelude::*;
use vstd::set_lib::{set_int_range, lemma_int_range};
use rustc_hash::FxHashMap;
use crate::bits::{bit_set, lemma_zero_no_bits, lemma_max_all_set, lemma_bit_or_one,
    lemma_bit_and_zero, lemma_shift_bit};
use crate::hash_index::{fx_new, fx_reserve, fx_get, fx_insert, fx_remove};

pub mod bits;
pub mod slab;
pub mod map;
mod hash_index;

verus! {

/// Growable pool over a single flat bitmap: one bit per slot, a cursor
/// remembering the lowest word that may still have room, and a linear scan
/// from the cursor for the first non-full word. Trades the two-level
/// design's constant-time claim for the ability to double its buffer once
/// exhausted.
pub struct BitmapSlab<T: Clone> {
    bitmap: Vec<u64>,
    data: Vec<Option<T>>,
    cursor: usize,
}

impl<T: Clone> View for BitmapSlab<T> {
    type V = Map<int, T>;

    /// The pool's abstract state: the partial map from occupied slot index
    /// to the value stored there.
    closed spec fn view(&self) -> Map<int, T> {
        Map::new(
            |i: int| 0 <= i < self.data@.len() && self.data@[i] is Some,
            |i: int| self.data@[i]->0,
        )
    }
}

impl<T: Clone> BitmapSlab<T> {
    /// Current usable capacity; grows when an insertion finds the pool full.
    pub closed spec fn spec_capacity(&self) -> int {
        self.data@.len() as int
    }

    /// The pool's invariant: one bitmap bit per slot, set exactly for the
    /// occupied ones, and every word below the cursor known full.
    pub closed spec fn wf(&self) -> bool {
        &&& self.data@.len() == self.bitmap@.len() * 64
        &&& 1 <= self.bitmap@.len()
        &&& self.cursor < self.bitmap@.len()
        &&& (forall|w: int| 0 <= w < self.cursor ==> (#[trigger] self.bitmap@[w]) == u64::MAX)
        &&& (forall|i: int|
            0 <= i < self.data@.len() ==> (bit_set(self.bitmap@[i / 64], (i % 64) as u64)
                <==> (#[trigger] self.data@[i]) is Some))
    }

    /// A pool of one word: 64 slots, all free.
    pub fn new() -> (r: Self)
        ensures
            r.wf(),
            r@ == Map::<int, T>::empty(),
            r.spec_capacity() == 64,
    {
        let mut data: Vec<Option<T>> = Vec::new();
        let mut i: usize = 0;
        while i < 64
            invariant
                i <= 64,
                data@.len() == i,
                forall|j: int| 0 <= j < i ==> (#[trigger] data@[j]) is None,
            decreases 64 - i,
        {
            data.push(None);
            i += 1;
        }
        let mut bitmap: Vec<u64> = Vec::new();
        bitmap.push(0);
        let r = BitmapSlab { bitmap, data, cursor: 0 };
        proof {
            lemma_zero_no_bits();
            assert(r@ =~= Map::<int, T>::empty());
        }
        r
    }

    /// A pool of the requested capacity rounded up to whole words, all
    /// slots free.
    pub fn with_capacity(capacity: usize) -> (r: Self)
        requires
            1 <= capacity,
            capacity + 63 <= usize::MAX,
        ensures
            r.wf(),
            r@ == Map::<int, T>::empty(),
            r.spec_capacity() == ((capacity as int + 63) / 64) * 64,
    {
        let words = (capacity + 63) / 64;
        let mut data: Vec<Option<T>> = Vec::new();
        let mut i: usize = 0;
        proof {
            assert(words * 64 <= usize::MAX) by (nonlinear_arith)
                requires
                    words == (capacity as int + 63) / 64,
                    capacity + 63 <= usize::MAX,
                    1 <= capacity,
            ;
        }
        while i < words
            invariant
                i <= words,
                data@.len() == i * 64,
                words * 64 <= usize::MAX,
                forall|j: int| 0 <= j < i * 64 ==> (#[trigger] data@[j]) is None,
            decreases words - i,
        {
            let mut j: usize = 0;
            while j < 64
                invariant
                    j <= 64,
                    i < words,
                    data@.len() == i * 64 + j,
                    words * 64 <= usize::MAX,
                    i * 64 + 64 <= words * 64,
                    forall|j2: int| 0 <= j2 < i * 64 + j ==> (#[trigger] data@[j2]) is None,
                decreases 64 - j,
            {
                data.push(None);
                j += 1;
            }
            i += 1;
        }
        let mut bitmap: Vec<u64> = Vec::new();
        let mut w: usize = 0;
        while w < words
            invariant
                w <= words,
                bitmap@.len() == w,
                forall|j: int| 0 <= j < w ==> (#[trigger] bitmap@[j]) == 0u64,
            decreases words - w,
        {
            bitmap.push(0);
            w += 1;
        }
        let r = BitmapSlab { bitmap, data, cursor: 0 };
        proof {
            lemma_zero_no_bits();
            assert(r@ =~= Map::<int, T>::empty());
        }
        r
    }

    /// Current usable capacity.
    pub fn capacity(&self) -> (r: usize)
        ensures
            r as int == self.spec_capacity(),
    {
        self.data.len()
    }

    /// True iff bit `bit` of the word is one.
    fn bitmap_bit_is_one(byte: &u64, bit: usize) -> (r: bool)
        requires
            bit < 64,
        ensures
            r == bit_set(*byte, bit as u64),
    {
        *byte & (1u64 << (bit as u64)) != 0
    }

    /// Set bit `bit` of the word to one.
    fn bitmap_set_bit_one(byte: &mut u64, bit: usize)
        requires
            bit < 64,
        ensures
            *final(byte) == *old(byte) | (1u64 << (bit as u64)),
    {
        *byte = *byte | (1u64 << (bit as u64));
    }

    /// Set bit `bit` of the word to zero.
    fn bitmap_set_bit_zero(byte: &mut u64, bit: usize)
        requires
            bit < 64,
        ensures
            *final(byte) == *old(byte) & !(1u64 << (bit as u64)),
    {
        *byte = *byte & !(1u64 << (bit as u64));
    }

    /// True iff `index` currently denotes an occupied slot.
    fn index_exists(&self, index: usize) -> (r: bool)
        requires
            self.wf(),
            (index as int) < self.spec_capacity(),
        ensures
            r == self@.dom().contains(index as int),
    {
        let byte = index / 64;
        let bit = index % 64;
        Self::bitmap_bit_is_one(&self.bitmap[byte], bit)
    }

    /// With every bitmap word all ones, every slot is occupied.
    proof fn lemma_all_max_means_full(&self)
        requires
            self.wf(),
            forall|w: int| 0 <= w < self.bitmap@.len() ==> (#[trigger] self.bitmap@[w]) == u64::MAX,
        ensures
            self@.len() == self.spec_capacity(),
    {
        let cap = self.spec_capacity();
        assert forall|i: int| 0 <= i < cap implies self@.dom().contains(i) by {
            lemma_max_all_set(self.bitmap@[i / 64]);
        }
        assert(self@.dom() =~= set_int_range(0, cap));
        lemma_int_range(0, cap);
    }

    /// A pool with a free slot somewhere holds fewer values than its
    /// capacity.
    proof fn lemma_free_slot_means_not_full(&self, i: int)
        requires
            self.wf(),
            0 <= i < self.spec_capacity(),
            !self@.dom().contains(i),
        ensures
            self@.len() < self.spec_capacity(),
    {
        let cap = self.spec_capacity();
        lemma_int_range(0, cap);
        assert(self@.dom().subset_of(set_int_range(0, cap)));
        self@.dom().lemma_subset_not_in_lt(set_int_range(0, cap), i);
    }

    /// Double the pool: as many fresh zero words and free slots again as it
    /// already had. Returns the first of the new slot indices.
    fn grow(&mut self) -> (r: usize)
        requires
            old(self).wf(),
            old(self).spec_capacity() * 2 <= usize::MAX,
        ensures
            final(self).wf(),
            final(self).spec_capacity() == old(self).spec_capacity() * 2,
            final(self)@ == old(self)@,
            final(self).cursor == old(self).cursor,
            r as int == old(self).spec_capacity(),
            final(self).bitmap@.len() == old(self).bitmap@.len() * 2,
            forall|w: int|
                0 <= w < old(self).bitmap@.len() ==> (#[trigger] final(self).bitmap@[w]) == old(
                    self,
                ).bitmap@[w],
            forall|w: int|
                old(self).bitmap@.len() <= w < final(self).bitmap@.len()
                    ==> (#[trigger] final(self).bitmap@[w]) == 0u64,
    {
        let first_available = self.bitmap.len();
        let first_index = self.data.len();
        let mut w: usize = 0;
        while w < first_available
            invariant
                w <= first_available,
                self.bitmap@.len() == first_available + w,
                self.data == old(self).data,
                self.cursor == old(self).cursor,
                forall|j: int|
                    0 <= j < first_available ==> (#[trigger] self.bitmap@[j]) == old(
                        self,
                    ).bitmap@[j],
                forall|j: int|
                    first_available <= j < first_available + w ==> (#[trigger] self.bitmap@[j])
                        == 0u64,
            decreases first_available - w,
        {
            self.bitmap.push(0);
            w += 1;
        }
        let mut i: usize = 0;
        while i < first_index
            invariant
                i <= first_index,
                first_index + first_index <= usize::MAX,
                self.data@.len() == first_index + i,
                self.bitmap@.len() == old(self).bitmap@.len() * 2,
                self.cursor == old(self).cursor,
                forall|j: int|
                    0 <= j < first_available ==> (#[trigger] self.bitmap@[j]) == old(
                        self,
                    ).bitmap@[j],
                forall|j: int|
                    first_available <= j < self.bitmap@.len() ==> (#[trigger] self.bitmap@[j])
                        == 0u64,
                first_index == first_available * 64,
                forall|j: int|
                    0 <= j < first_index ==> (#[trigger] self.data@[j]) == old(self).data@[j],
                forall|j: int|
                    first_index <= j < first_index + i ==> (#[trigger] self.data@[j]) is None,
            decreases first_index - i,
        {
            self.data.push(None);
            i += 1;
        }
        proof {
            lemma_zero_no_bits();
            assert(final(self)@ =~= old(self)@);
        }
        first_index
    }

    /// Claim the lowest free slot at or after the cursor, write `value`
    /// into it and return its index; when every slot is occupied, double
    /// the pool first and claim the first fresh slot. Never fails.
    pub fn insert(&mut self, value: T) -> (r: usize)
        requires
            old(self).wf(),
            old(self)@.len() < old(self).spec_capacity() || old(self).spec_capacity() * 2
                <= usize::MAX,
        ensures
            final(self).wf(),
            !old(self)@.dom().contains(r as int),
            (r as int) < final(self).spec_capacity(),
            final(self)@ == old(self)@.insert(r as int, value),
            old(self)@.len() < old(self).spec_capacity() ==> final(self).spec_capacity() == old(
                self,
            ).spec_capacity(),
            old(self)@.len() == old(self).spec_capacity() ==> final(self).spec_capacity() == old(
                self,
            ).spec_capacity() * 2,
    {
        let mut w = self.cursor;
        let n = self.bitmap.len();
        while w < n && self.bitmap[w] == u64::MAX
            invariant
                self.cursor <= w <= n,
                n == self.bitmap@.len(),
                self.wf(),
                *self == *old(self),
                forall|j: int| 0 <= j < w ==> (#[trigger] self.bitmap@[j]) == u64::MAX,
            decreases n - w,
        {
            w += 1;
        }
        if w == n {
            proof {
                self.lemma_all_max_means_full();
            }
            let ghost oldlen = self.bitmap@.len() as int;
            let first = self.grow();
            w = first / 64;
            proof {
                assert(first as int == oldlen * 64);
                vstd::arithmetic::div_mod::lemma_fundamental_div_mod_converse(
                    oldlen * 64,
                    64,
                    oldlen,
                    0,
                );
                assert(w as int == oldlen);
            }
        }
        let ghost mid = *self;
        let word = self.bitmap[w];
        proof {
            if word == u64::MAX {
                assert(false);
            }
            vstd::std_specs::bits::axiom_u64_trailing_ones(word);
            lemma_shift_bit(word);
        }
        let bit = word.trailing_ones() as usize;
        let free_word = &mut self.bitmap[w];
        Self::bitmap_set_bit_one(free_word, bit);
        self.cursor = w;
        proof {
            vstd::std_specs::vec::axiom_spec_len(&mid.data);
            assert((w as int) * 64 + bit < mid.bitmap@.len() * 64) by (nonlinear_arith)
                requires
                    (w as int) < mid.bitmap@.len(),
                    bit < 64,
            ;
            vstd::arithmetic::div_mod::lemma_fundamental_div_mod_converse(
                (w as int) * 64 + bit,
                64,
                w as int,
                bit as int,
            );
        }
        let index = w * 64 + bit;
        self.data[index] = Some(value);
        proof {
            let this = *self;
            lemma_bit_or_one(word, bit as u64);
            assert(!(mid.data@[index as int] is Some));
            assert forall|i: int|
                0 <= i < this.data@.len() implies (bit_set(this.bitmap@[i / 64], (i % 64) as u64)
                <==> (#[trigger] this.data@[i]) is Some) by {
                if i != index as int {
                    assert(this.data@[i] == mid.data@[i]);
                    if i / 64 == w as int {
                        assert((i % 64) as u64 != bit as u64) by {
                            if i % 64 == bit as int {
                                vstd::arithmetic::div_mod::lemma_fundamental_div_mod(i, 64);
                            }
                        }
                    } else {
                        assert(this.bitmap@[i / 64] == mid.bitmap@[i / 64]);
                    }
                }
            }
            assert(this.wf());
            assert(this@ =~= mid@.insert(index as int, value));
            if (index as int) < old(self).spec_capacity() {
                old(self).lemma_free_slot_means_not_full(index as int);
            }
        }
        index
    }

    /// Free the slot at `index` when it is occupied, handing its value
    /// back; an index whose slot is free is reported as such, with no side
    /// effect on the abstract state.
    pub fn remove(&mut self, index: usize) -> (r: Option<T>)
        requires
            old(self).wf(),
            (index as int) < old(self).spec_capacity(),
        ensures
            final(self).wf(),
            final(self).spec_capacity() == old(self).spec_capacity(),
            old(self)@.dom().contains(index as int) ==> r == Some(old(self)@[index as int])
                && final(self)@ == old(self)@.remove(index as int),
            !old(self)@.dom().contains(index as int) ==> r is None && final(self)@ == old(self)@,
    {
        let byte = index / 64;
        let bit = index % 64;
        if byte < self.cursor {
            self.cursor = byte;
        }
        if Self::bitmap_bit_is_one(&self.bitmap[byte], bit) {
            let ghost mid = *self;
            let free_word = &mut self.bitmap[byte];
            Self::bitmap_set_bit_zero(free_word, bit);
            let mut taken: Option<T> = None;
            core::mem::swap(&mut taken, &mut self.data[index]);
            proof {
                Self::lemma_clear_restores_wf(mid, *self, index as int);
                assert(self@ =~= old(self)@.remove(index as int));
            }
            taken
        } else {
            None
        }
    }

    /// Clearing an occupied slot's bit and cell restores the invariant and
    /// drops the index from the abstract map.
    proof fn lemma_clear_restores_wf(mid: Self, this: Self, idx: int)
        requires
            mid.wf(),
            0 <= idx < mid.data@.len(),
            mid.cursor <= idx / 64,
            this.bitmap@ == mid.bitmap@.update(idx / 64, mid.bitmap@[idx / 64] & !(1u64 << ((idx
                % 64) as u64))),
            this.data@ == mid.data@.update(idx, Option::None),
            this.cursor == mid.cursor,
        ensures
            this.wf(),
            this@ == mid@.remove(idx),
    {
        lemma_bit_and_zero(mid.bitmap@[idx / 64], (idx % 64) as u64);
        assert forall|w: int| 0 <= w < this.cursor implies (#[trigger] this.bitmap@[w])
            == u64::MAX by {
            assert(w < idx / 64);
            assert(this.bitmap@[w] == mid.bitmap@[w]);
        }
        assert forall|i: int|
            0 <= i < this.data@.len() implies (bit_set(this.bitmap@[i / 64], (i % 64) as u64)
            <==> (#[trigger] this.data@[i]) is Some) by {
            if i != idx {
                assert(this.data@[i] == mid.data@[i]);
                if i / 64 == idx / 64 {
                    assert((i % 64) != (idx % 64)) by {
                        vstd::arithmetic::div_mod::lemma_fundamental_div_mod(i, 64);
                        vstd::arithmetic::div_mod::lemma_fundamental_div_mod(idx, 64);
                    }
                } else {
                    assert(this.bitmap@[i / 64] == mid.bitmap@[i / 64]);
                }
            }
        }
        assert(this.wf());
        assert(this@ =~= mid@.remove(idx));
    }

    /// Borrow the value at `index`, or nothing while the slot is free.
    pub fn get(&self, index: usize) -> (r: Option<&T>)
        requires
            self.wf(),
            (index as int) < self.spec_capacity(),
        ensures
            (r is Some) <==> self@.dom().contains(index as int),
            r matches Some(v) ==> *v == self@[index as int],
    {
        if self.index_exists(index) {
            match &self.data[index] {
                Some(v) => Some(v),
                None => {
                    proof {
                        assert(false);
                    }
                    None
                },
            }
        } else {
            None
        }
    }

    /// Borrow the value at `index` without checking the bitmap: the index
    /// must denote an occupied slot.
    pub fn get_unchecked(&self, index: usize) -> (r: &T)
        requires
            self.wf(),
            self@.dom().contains(index as int),
        ensures
            *r == self@[index as int],
    {
        match &self.data[index] {
            Some(v) => v,
            None => {
                proof {
                    assert(false);
                }
                vstd::pervasive::unreached()
            },
        }
    }

    /// Free the slot at `index` without checking the bitmap, handing its
    /// value back: the index must denote an occupied slot.
    pub fn remove_unchecked(&mut self, index: usize) -> (r: T)
        requires
            old(self).wf(),
            old(self)@.dom().contains(index as int),
        ensures
            final(self).wf(),
            final(self).spec_capacity() == old(self).spec_capacity(),
            r == old(self)@[index as int],
            final(self)@ == old(self)@.remove(index as int),
    {
        let byte = index / 64;
        let bit = index % 64;
        let ghost mid0 = *self;
        if byte < self.cursor {
            self.cursor = byte;
        }
        let ghost mid = *self;
        let free_word = &mut self.bitmap[byte];
        Self::bitmap_set_bit_zero(free_word, bit);
        let mut taken: Option<T> = None;
        core::mem::swap(&mut taken, &mut self.data[index]);
        proof {
            assert forall|w: int| 0 <= w < mid.cursor implies (#[trigger] mid.bitmap@[w])
                == u64::MAX by {}
            Self::lemma_clear_restores_wf(mid, *self, index as int);
            assert(self@ =~= old(self)@.remove(index as int));
        }
        match taken {
            Some(v) => v,
            None => {
                proof {
                    assert(false);
                }
                vstd::pervasive::unreached()
            },
        }
    }

    /// Overwrite the value at `index` in place, leaving the bitmap alone:
    /// the index must denote an occupied slot.
    pub(crate) fn set_unsafe(&mut self, value: T, index: usize)
        requires
            old(self).wf(),
            old(self)@.dom().contains(index as int),
        ensures
            final(self).wf(),
            final(self).spec_capacity() == old(self).spec_capacity(),
            final(self)@ == old(self)@.insert(index as int, value),
    {
        let ghost mid = *self;
        self.data[index] = Some(value);
        proof {
            let this = *self;
            assert forall|i: int|
                0 <= i < this.data@.len() implies (bit_set(this.bitmap@[i / 64], (i % 64) as u64)
                <==> (#[trigger] this.data@[i]) is Some) by {
                if i != index as int {
                    assert(this.data@[i] == mid.data@[i]);
                }
            }
            assert(this.wf());
            assert(this@ =~= mid@.insert(index as int, value));
        }
    }
}

/// A hash index from `u64` key to slot index over the flat growable pool:
/// keys address pool entries without exposing raw indices, a key maps to at
/// most one slot, and re-inserting a key never moves it.
pub struct SlabMap<V: Clone> {
    slab: BitmapSlab<V>,
    hashmap: FxHashMap<u64, usize>,
}

impl<V: Clone> View for SlabMap<V> {
    type V = Map<u64, V>;

    /// The map's abstract state: each present key bound to the value its
    /// slot holds.
    closed spec fn view(&self) -> Map<u64, V> {
        Map::new(
            |k: u64| self.hashmap@.contains_key(k),
            |k: u64| self.slab@[self.hashmap@[k] as int],
        )
    }
}

impl<V: Clone> SlabMap<V> {
    /// Current usable capacity of the underlying pool.
    pub closed spec fn spec_capacity(&self) -> int {
        self.slab.spec_capacity()
    }

    /// The slot index a present key is bound to.
    pub closed spec fn spec_index_of(&self, k: u64) -> int {
        self.hashmap@[k] as int
    }

    /// The map's invariant: a well-formed pool, and a hash index that binds
    /// keys to occupied slots, injectively, covering every occupied slot.
    pub closed spec fn wf(&self) -> bool {
        &&& self.slab.wf()
        &&& self.hashmap@.dom().finite()
        &&& (forall|k: u64| #[trigger]
            self.hashmap@.contains_key(k) ==> self.slab@.dom().contains(self.hashmap@[k] as int)
                && (self.hashmap@[k] as int) < self.slab.spec_capacity())
        &&& (forall|k1: u64, k2: u64|
            self.hashmap@.contains_key(k1) && self.hashmap@.contains_key(k2) && k1 != k2
                ==> (#[trigger] self.hashmap@[k1]) != (#[trigger] self.hashmap@[k2]))
        &&& (forall|i: int| #[trigger]
            self.slab@.dom().contains(i) ==> exists|k: u64|
                #[trigger] self.hashmap@.contains_key(k) && self.hashmap@[k] as int == i)
    }

    /// The number of keys equals the number of occupied slots, and the
    /// abstract map's domain is exactly the key set.
    proof fn lemma_view_len(&self)
        requires
            self.wf(),
        ensures
            self@.len() == self.slab@.len(),
            self@.dom() =~= self.hashmap@.dom(),
    {
        assert(self@.dom() =~= self.hashmap@.dom());
        lemma_int_range(0, self.slab.spec_capacity());
        assert(self.slab@.dom().subset_of(set_int_range(0, self.slab.spec_capacity())));
        vstd::set_lib::lemma_len_subset(
            self.slab@.dom(),
            set_int_range(0, self.slab.spec_capacity()),
        );
        crate::map::lemma_card_bijection(self.hashmap@, self.slab@.dom());
    }

    /// An empty map over a one-word pool.
    pub fn new() -> (r: Self)
        ensures
            r.wf(),
            r@ == Map::<u64, V>::empty(),
            r.spec_capacity() == 64,
    {
        let r = SlabMap { slab: BitmapSlab::new(), hashmap: fx_new() };
        proof {
            assert(r.hashmap@.dom() =~= Set::<u64>::empty());
            assert(r@ =~= Map::<u64, V>::empty());
        }
        r
    }

    /// A map over a pool of the requested capacity, its hash index sized to
    /// match.
    pub fn with_capacity(capacity: usize) -> (r: Self)
        requires
            1 <= capacity,
            capacity + 63 <= usize::MAX,
        ensures
            r.wf(),
            r@ == Map::<u64, V>::empty(),
            r.spec_capacity() == ((capacity as int + 63) / 64) * 64,
    {
        let slab = BitmapSlab::with_capacity(capacity);
        let mut hashmap = fx_new();
        // the reservation is an advisory preallocation; cap it at the
        // overflow-free bound the reserve call admits
        let reserve_hint = if capacity > 33554432 {
            33554432
        } else {
            capacity
        };
        fx_reserve(&mut hashmap, reserve_hint);
        let r = SlabMap { slab, hashmap };
        proof {
            assert(r.hashmap@.dom() =~= Set::<u64>::empty());
            assert(r@ =~= Map::<u64, V>::empty());
        }
        r
    }

    /// Bind `key` to `value`. A present key's slot is overwritten in place
    /// and the key keeps its index for good; an absent key claims a fresh
    /// slot, growing the pool if it was full. Returns the key's slot index.
    pub fn insert(&mut self, key: u64, value: V) -> (r: usize)
        requires
            old(self).wf(),
            old(self)@.contains_key(key) || old(self)@.len() < old(self).spec_capacity() || old(
                self,
            ).spec_capacity() * 2 <= usize::MAX,
        ensures
            final(self).wf(),
            final(self).spec_capacity() >= old(self).spec_capacity(),
            final(self)@ == old(self)@.insert(key, value),
            r as int == final(self).spec_index_of(key),
            (r as int) < final(self).spec_capacity(),
            forall|k: u64|
                old(self)@.contains_key(k) ==> final(self).spec_index_of(k) == old(
                    self,
                ).spec_index_of(k),
            old(self)@.contains_key(key) ==> r as int == old(self).spec_index_of(key)
                && final(self).spec_capacity() == old(self).spec_capacity(),
            old(self)@.len() < old(self).spec_capacity() ==> final(self).spec_capacity() == old(
                self,
            ).spec_capacity(),
    {
        match fx_get(&self.hashmap, key) {
            Some(idx) => {
                self.slab.set_unsafe(value, idx);
                proof {
                    assert(final(self)@ =~= old(self)@.insert(key, value)) by {
                        assert forall|k: u64| self@.contains_key(k) && k != key implies self@[k]
                            == old(self)@[k] by {
                            assert(self.hashmap@[k] != self.hashmap@[key]);
                        }
                    }
                }
                idx
            },
            None => {
                proof {
                    old(self).lemma_view_len();
                    lemma_int_range(0, old(self).slab.spec_capacity());
                    assert(old(self).slab@.dom().subset_of(
                        set_int_range(0, old(self).slab.spec_capacity()),
                    ));
                    vstd::set_lib::lemma_len_subset(
                        old(self).slab@.dom(),
                        set_int_range(0, old(self).slab.spec_capacity()),
                    );
                }
                let idx = self.slab.insert(value);
                fx_insert(&mut self.hashmap, key, idx);
                proof {
                    let prev = *old(self);
                    let this = *self;
                    assert forall|i: int| #[trigger]
                        this.slab@.dom().contains(i) implies exists|k2: u64|
                        #[trigger] this.hashmap@.contains_key(k2) && this.hashmap@[k2] as int
                            == i by {
                        if i == idx as int {
                            assert(this.hashmap@.contains_key(key) && this.hashmap@[key] as int
                                == i);
                        } else {
                            assert(prev.slab@.dom().contains(i));
                            let k2 = choose|k2: u64|
                                #[trigger] prev.hashmap@.contains_key(k2) && prev.hashmap@[k2] as int
                                    == i;
                            assert(this.hashmap@.contains_key(k2) && this.hashmap@[k2] as int == i);
                        }
                    }
                    assert(this.wf());
                    assert(this@ =~= prev@.insert(key, value));
                }
                idx
            },
        }
    }

    /// Borrow the value bound to `key`, or nothing when the key is absent.
    pub fn get(&self, key: &u64) -> (r: Option<&V>)
        requires
            self.wf(),
        ensures
            (r is Some) <==> self@.contains_key(*key),
            r matches Some(v) ==> *v == self@[*key],
    {
        match fx_get(&self.hashmap, *key) {
            Some(idx) => self.slab.get(idx),
            None => None,
        }
    }

    /// Drop `key`: the hash-index entry goes first, then the slot is freed.
    /// Returns the freed slot index and the value it held, or nothing — with
    /// no side effect — when the key is absent.
    pub fn remove(&mut self, key: &u64) -> (r: Option<(usize, V)>)
        requires
            old(self).wf(),
        ensures
            final(self).wf(),
            final(self).spec_capacity() == old(self).spec_capacity(),
            (r is Some) <==> old(self)@.contains_key(*key),
            r matches Some(p) ==> p.0 as int == old(self).spec_index_of(*key) && p.1 == old(
                self,
            )@[*key],
            final(self)@ == old(self)@.remove(*key),
            forall|k: u64|
                old(self)@.contains_key(k) && k != *key ==> final(self).spec_index_of(k) == old(
                    self,
                ).spec_index_of(k),
    {
        let idx = match fx_remove(&mut self.hashmap, *key) {
            Some(idx) => idx,
            None => {
                proof {
                    assert(self.hashmap@ =~= old(self).hashmap@);
                    assert(final(self)@ =~= old(self)@.remove(*key));
                }
                return None;
            },
        };
        let value = match self.slab.remove(idx) {
            Some(v) => v,
            None => {
                proof {
                    assert(false);
                }
                return None;
            },
        };
        proof {
            let prev = *old(self);
            let this = *self;
            assert forall|i: int| #[trigger] this.slab@.dom().contains(i) implies exists|k2: u64|
                #[trigger] this.hashmap@.contains_key(k2) && this.hashmap@[k2] as int == i by {
                assert(prev.slab@.dom().contains(i));
                let k2 = choose|k2: u64|
                    #[trigger] prev.hashmap@.contains_key(k2) && prev.hashmap@[k2] as int == i;
                assert(k2 != *key);
                assert(this.hashmap@.contains_key(k2) && this.hashmap@[k2] as int == i);
            }
            assert(this.wf());
            assert(this@ =~= prev@.remove(*key));
        }
        Some((idx, value))
    }

    /// Borrow the value bound to `key` without the checked path's absence
    /// handling: the key must be present.
    pub fn get_unchecked(&self, key: &u64) -> (r: &V)
        requires
            self.wf(),
            self@.contains_key(*key),
        ensures
            *r == self@[*key],
    {
        let idx = match fx_get(&self.hashmap, *key) {
            Some(idx) => idx,
            None => {
                proof {
                    assert(false);
                }
                0
            },
        };
        self.slab.get_unchecked(idx)
    }

    /// No two simultaneously-present keys ever share a slot index, and
    /// every present key's index lies below the pool's current capacity.
    pub proof fn lemma_live_indices_distinct(&self, k1: u64, k2: u64)
        requires
            self.wf(),
            self@.contains_key(k1),
            self@.contains_key(k2),
            k1 != k2,
        ensures
            self.spec_index_of(k1) != self.spec_index_of(k2),
            0 <= self.spec_index_of(k1) < self.spec_capacity(),
    {
    }

    /// Drop `key` without the checked path's absence handling, handing back
    /// the value it held: the key must be present.
    pub fn remove_unchecked(&mut self, key: &u64) -> (r: V)
        requires
            old(self).wf(),
            old(self)@.contains_key(*key),
        ensures
            final(self).wf(),
            final(self).spec_capacity() == old(self).spec_capacity(),
            r == old(self)@[*key],
            final(self)@ == old(self)@.remove(*key),
    {
        let idx = match fx_remove(&mut self.hashmap, *key) {
            Some(idx) => idx,
            None => {
                proof {
                    assert(false);
                }
                0
            },
        };
        let value = self.slab.remove_unchecked(idx);
        proof {
            let prev = *old(self);
            let this = *self;
            assert forall|i: int| #[trigger] this.slab@.dom().contains(i) implies exists|k2: u64|
                #[trigger] this.hashmap@.contains_key(k2) && this.hashmap@[k2] as int == i by {
                assert(prev.slab@.dom().contains(i));
                let k2 = choose|k2: u64|
                    #[trigger] prev.hashmap@.contains_key(k2) && prev.hashmap@[k2] as int == i;
                assert(k2 != *key);
                assert(this.hashmap@.contains_key(k2) && this.hashmap@[k2] as int == i);
            }
            assert(this.wf());
            assert(this@ =~= prev@.remove(*key));
        }
        value
    }
}

} // verus!
