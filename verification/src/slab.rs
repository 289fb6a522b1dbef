use vstd::prelude::*;
use vstd::set_lib::{set_int_range, lemma_int_range};
use crate::bits::{WordBitmap, bit_set, lemma_zero_no_bits, lemma_max_all_set, lemma_bit_or_one};

verus! {

/// Offset of a slot within its second-level bucket.
type SlotOffset = u8;

/// Sentinel offset marking the end of a bucket's free list.
pub const NULL_SLOT_OFFSET: u8 = 255;

/// Largest encodable bucket offset; one value is reserved for the sentinel.
pub const MAX_SLOT_OFFSET: usize = 254;

/// The one allocator-layer failure: no free slot exists anywhere in the pool.
#[derive(Debug, PartialEq, Eq, Structural)]
pub enum AllocError {
    OutOfMemory,
}

/// Head of one bucket's intrusive free list: the offset, within the bucket,
/// of the next slot available for allocation, or the sentinel if the bucket
/// is full.
pub struct FreeSlot {
    next: SlotOffset,
}

impl FreeSlot {
    /// The stored offset, as seen by specifications.
    pub closed spec fn spec_next(&self) -> u8 {
        self.next
    }

    /// True iff this head points at a free slot rather than at the sentinel.
    pub fn has_next(&self) -> (r: bool)
        ensures
            r == (self.spec_next() != NULL_SLOT_OFFSET),
    {
        self.next != NULL_SLOT_OFFSET
    }
}

/// One storage cell: a live value while occupied, or — while free — the
/// offset, within its bucket, of the next free slot. Tagging each cell
/// keeps the embedded free-list link in the slot's own storage without
/// reinterpreting raw bytes.
enum Slot<T> {
    Occupied(T),
    FreeLink(SlotOffset),
}

/// Usable capacity that a requested capacity is rounded up to: the smallest
/// multiple of `WORD_BITS * WORD_BITS` slots-per-bucket blocks covering it.
pub open spec fn spec_aligned_capacity(c: int) -> int {
    ((c + 4095) / 4096) * 4096
}


/// Bucket arithmetic: a slot's flat index determines its bucket and offset.
proof fn lemma_mul_step(n: int, s: int)
    by (nonlinear_arith)
    ensures
        (n + 1) * s == n * s + s,
{
}

/// A slot of an earlier bucket lies strictly below a later bucket's base.
proof fn lemma_bucket_bound(b: int, o: int, nb: int, s: int)
    by (nonlinear_arith)
    requires
        0 <= b < nb,
        0 <= o < s,
    ensures
        0 <= b * s + o,
        b * s + o < nb * s,
{
}

/// Dividing a bucket-local position by the bucket size recovers the pair.
proof fn lemma_bucket_pos(b: int, o: int, s: int)
    requires
        s >= 1,
        0 <= o < s,
        0 <= b,
    ensures
        (b * s + o) / s == b,
        (b * s + o) % s == o,
{
    vstd::arithmetic::div_mod::lemma_fundamental_div_mod_converse(b * s + o, s, b, o);
}

/// Every flat index below `nb * s` decomposes into a bucket and an offset.
proof fn lemma_index_decompose(i: int, nb: int, s: int)
    by (nonlinear_arith)
    requires
        s >= 1,
        nb >= 1,
        0 <= i < nb * s,
    ensures
        0 <= i / s < nb,
        0 <= i % s < s,
        i == (i / s) * s + i % s,
{
}

/// Fixed-capacity pool over a contiguous buffer of slots, indexed by a
/// two-level hierarchy of word bitmaps. A set bit in `fl_bitmap` marks a
/// first-level group whose buckets are all full; a set bit in a group's
/// `sl_bitmap` word marks a full bucket. Each bucket threads its free slots
/// on an intrusive list headed in `free_slots`.
pub struct BitmapSlab<T: Clone> {
    capacity: usize,
    sl_step: usize,
    fl_step: usize,
    fl_bitmap: WordBitmap,
    sl_bitmap: Vec<WordBitmap>,
    free_slots: Vec<FreeSlot>,
    slots: Vec<Slot<T>>,
    free_lists: Ghost<Seq<Seq<u8>>>,
}

impl<T: Clone> View for BitmapSlab<T> {
    type V = Map<int, T>;

    /// The pool's abstract state: the partial map from occupied slot index
    /// to the value stored there.
    closed spec fn view(&self) -> Map<int, T> {
        Map::new(
            |i: int| 0 <= i < self.capacity && self.slots@[i] is Occupied,
            |i: int| self.slots@[i]->Occupied_0,
        )
    }
}

impl<T: Clone> BitmapSlab<T> {
    /// Usable capacity, fixed at construction.
    pub closed spec fn spec_capacity(&self) -> int {
        self.capacity as int
    }

    /// Number of slots per second-level bucket.
    pub closed spec fn spec_sl_step(&self) -> int {
        self.sl_step as int
    }

    /// Offsets of bucket `b`'s free slots, in claim order, the head first.
    pub closed spec fn spec_free_list(&self, b: int) -> Seq<u8> {
        self.free_lists@[b]
    }

    /// The bucket that flat index `i` belongs to. Bucket numbers order the
    /// buckets first by group, then by position within the group, so bucket
    /// order is exactly the allocator's lowest-group, lowest-bucket order.
    pub open spec fn spec_bucket_of(&self, i: int) -> int {
        i / self.spec_sl_step()
    }

    /// Flat index of bucket `b`'s free-list head — the slot a claim of that
    /// bucket takes next — or -1 while the bucket is full.
    pub open spec fn spec_bucket_head(&self, b: int) -> int {
        if self.spec_free_list(b).len() == 0 {
            -1
        } else {
            b * self.spec_sl_step() + self.spec_free_list(b)[0]
        }
    }

    /// The lowest-numbered non-full bucket at or after `b`, or the bucket
    /// count when every remaining bucket is full.
    pub open spec fn spec_first_nonfull_from(&self, b: int) -> int
        decreases 4096 - b,
    {
        if b >= 4096 {
            4096
        } else if self.spec_free_list(b).len() != 0 {
            b
        } else {
            self.spec_first_nonfull_from(b + 1)
        }
    }

    /// The index the next successful insertion claims: the free-list head
    /// of the lowest-numbered non-full bucket of the lowest-numbered
    /// non-full group — the deterministic lowest-available policy, with no
    /// randomization and no best-fit search. Meaningful while some slot is
    /// free.
    pub open spec fn spec_next_index(&self) -> int {
        self.spec_bucket_head(self.spec_first_nonfull_from(0))
    }

    /// The first-non-full search lands exactly on the lowest bucket whose
    /// free list is not empty.
    pub proof fn lemma_first_nonfull_from(&self, lo: int, b: int)
        requires
            0 <= lo <= b < 4096,
            self.spec_free_list(b).len() != 0,
            forall|b2: int| lo <= b2 < b ==> (#[trigger] self.spec_free_list(b2)).len() == 0,
        ensures
            self.spec_first_nonfull_from(lo) == b,
        decreases b - lo,
    {
        if lo < b {
            self.lemma_first_nonfull_from(lo + 1, b);
        }
    }

    /// Links, head and range conditions of bucket `b`'s free list.
    spec fn bucket_links_wf(&self, b: int) -> bool {
        let fs = self.free_lists@[b];
        let s = self.sl_step as int;
        &&& fs.no_duplicates()
        &&& (forall|k: int| 0 <= k < fs.len() ==> (#[trigger] fs[k]) < s)
        &&& self.free_slots@[b].spec_next() == (if fs.len() == 0 {
            NULL_SLOT_OFFSET
        } else {
            fs[0]
        })
        &&& (forall|k: int|
            0 <= k < fs.len() ==> self.slots@[b * s + #[trigger] fs[k]] == Slot::<T>::FreeLink(
                if k == fs.len() - 1 {
                    NULL_SLOT_OFFSET
                } else {
                    fs[k + 1]
                },
            ))
    }

    /// Every slot of bucket `b` that is not on the free list is occupied —
    /// except, possibly, a single slot `skip` (used mid-transition).
    spec fn bucket_occ_wf_except(&self, b: int, skip: int) -> bool {
        let fs = self.free_lists@[b];
        let s = self.sl_step as int;
        forall|o: int|
            0 <= o < s && b * s + o != skip && !(#[trigger] fs.contains(o as u8))
                ==> self.slots@[b * s + o] is Occupied
    }

    /// Both bitmap levels agree with the free lists: a bucket's bit is set
    /// iff its free list is empty, and a group's bit is set iff the group's
    /// word is all ones.
    spec fn bitmaps_wf(&self) -> bool {
        &&& (forall|b: int|
            0 <= b < 4096 ==> (bit_set(self.sl_bitmap@[b / 64]@, (b % 64) as u64)
                <==> (#[trigger] self.free_lists@[b]).len() == 0))
        &&& (forall|fli: int|
            0 <= fli < 64 ==> (bit_set(self.fl_bitmap@, fli as u64)
                <==> (#[trigger] self.sl_bitmap@[fli])@ == u64::MAX))
    }

    /// Everything except the occupancy of slots off the free lists.
    spec fn wf_core(&self) -> bool {
        &&& 1 <= self.sl_step <= MAX_SLOT_OFFSET
        &&& self.fl_step == self.sl_step * 64
        &&& self.capacity == self.sl_step * 4096
        &&& self.slots@.len() == self.capacity
        &&& self.sl_bitmap@.len() == 64
        &&& self.free_slots@.len() == 4096
        &&& self.free_lists@.len() == 4096
        &&& (forall|b: int| 0 <= b < 4096 ==> #[trigger] self.bucket_links_wf(b))
        &&& self.bitmaps_wf()
    }

    /// The allocator's invariant.
    pub closed spec fn wf(&self) -> bool {
        &&& self.wf_core()
        &&& (forall|b: int| 0 <= b < 4096 ==> #[trigger] self.bucket_occ_wf_except(b, -1))
    }

    /// The invariant, except that slot `i` has just been taken off its
    /// bucket's free list and not yet been filled.
    spec fn wf_claimed(&self, i: int) -> bool {
        &&& self.wf_core()
        &&& 0 <= i < self.capacity
        &&& (forall|b: int| 0 <= b < 4096 ==> #[trigger] self.bucket_occ_wf_except(b, i))
        &&& !self.free_lists@[i / (self.sl_step as int)].contains((i % (self.sl_step as int)) as u8)
    }

    /// Usable capacity of the pool.
    pub fn capacity(&self) -> (r: usize)
        ensures
            r as int == self.spec_capacity(),
    {
        self.capacity
    }

    /// Construct a pool whose usable capacity is `capacity` rounded up to a
    /// whole number of groups; every slot starts free, each bucket's free
    /// list a straight chain from offset 0 upward. Requests above
    /// `WORD_BITS * WORD_BITS * MAX_SLOT_OFFSET` have no encodable bucket
    /// size and are ruled out.
    pub fn with_capacity(capacity: usize) -> (r: Self)
        requires
            1 <= capacity,
            capacity <= 64 * 64 * 254,
        ensures
            r.wf(),
            r@ == Map::<int, T>::empty(),
            r.spec_capacity() == spec_aligned_capacity(capacity as int),
            r.spec_sl_step() == (capacity as int + 4095) / 4096,
            forall|b: int|
                0 <= b < 4096 ==> (#[trigger] r.spec_free_list(b)) == Seq::new(
                    r.spec_sl_step() as nat,
                    |k: int| k as u8,
                ),
            r.spec_next_index() == 0,
    {
        let sl_step = (capacity + 4095) / 4096;
        let fl_step = sl_step * 64;
        let aligned_capacity = fl_step * 64;
        assert(1 <= sl_step <= 254);

        let (slots, free_slots) = Self::initialize_mem(aligned_capacity, sl_step as u8);
        let ghost free_lists: Seq<Seq<u8>> = Seq::new(
            4096,
            |b: int| Seq::new(sl_step as nat, |k: int| k as u8),
        );

        let mut sl_bitmap: Vec<WordBitmap> = Vec::new();
        let mut w: usize = 0;
        while w < 64
            invariant
                w <= 64,
                sl_bitmap@.len() == w,
                forall|j: int| 0 <= j < w ==> (#[trigger] sl_bitmap@[j])@ == 0u64,
            decreases 64 - w,
        {
            sl_bitmap.push(WordBitmap::default());
            w += 1;
        }

        let r = BitmapSlab {
            capacity: aligned_capacity,
            sl_step,
            fl_step,
            fl_bitmap: WordBitmap::default(),
            sl_bitmap,
            free_slots,
            slots,
            free_lists: Ghost(free_lists),
        };
        proof {
            let s = sl_step as int;
            lemma_zero_no_bits();
            assert forall|b: int| 0 <= b < 4096 implies #[trigger] r.bucket_links_wf(b) by {
                let fs = r.free_lists@[b];
                assert(fs =~= Seq::new(sl_step as nat, |k: int| k as u8));
                assert forall|k: int, j: int| 0 <= k < j < fs.len() implies fs[k] != fs[j] by {
                    assert(fs[k] == k as u8 && fs[j] == j as u8);
                }
            }
            assert forall|b: int| 0 <= b < 4096 implies #[trigger] r.bucket_occ_wf_except(b, -1) by {
                let fs = r.free_lists@[b];
                assert forall|o: int| 0 <= o < s implies #[trigger] fs.contains(o as u8) by {
                    assert(fs[o] == o as u8);
                }
            }
            assert forall|i: int| 0 <= i < r.capacity implies !(r.slots@[i] is Occupied) by {
                let si = sl_step as int;
                assert(si * 4096 == 4096 * si) by (nonlinear_arith);
                lemma_index_decompose(i, 4096, si);
                let b = i / si;
                let o = i % si;
                assert(r.slots@[b * si + o] is FreeLink);
            }
            assert(r@ =~= Map::<int, T>::empty());
            r.lemma_first_nonfull_from(0, 0);
            assert(r.spec_free_list(0)[0] == 0u8);
        }
        r
    }

    /// Build the slot buffer and the free-list head table: one bucket at a
    /// time, every bucket's chain running 0 → 1 → … → `sl_step`−1 → sentinel
    /// with the head at offset 0.
    fn initialize_mem(aligned_capacity: usize, sl_step: u8) -> (r: (Vec<Slot<T>>, Vec<FreeSlot>))
        requires
            1 <= sl_step,
            sl_step as int <= 254,
            aligned_capacity == (sl_step as int) * 4096,
        ensures
            r.0@.len() == aligned_capacity,
            r.1@.len() == 4096,
            forall|b: int| 0 <= b < 4096 ==> (#[trigger] r.1@[b]).spec_next() == 0u8,
            forall|b: int, k: int|
                0 <= b < 4096 && 0 <= k < sl_step ==> (#[trigger] r.0@[b * (sl_step as int) + k])
                    == Slot::<T>::FreeLink(
                    if k == sl_step as int - 1 {
                        NULL_SLOT_OFFSET
                    } else {
                        (k + 1) as u8
                    },
                ),
    {
        let mut slots: Vec<Slot<T>> = Vec::new();
        let mut free_slots: Vec<FreeSlot> = Vec::new();
        let s = sl_step as usize;

        let mut fl_bits: usize = 0;
        while fl_bits < 64
            invariant
                1 <= s <= 254,
                s == sl_step as int,
                fl_bits <= 64,
                free_slots@.len() == fl_bits * 64,
                slots@.len() == fl_bits * 64 * s,
                forall|b: int| 0 <= b < fl_bits * 64 ==> (#[trigger] free_slots@[b]).spec_next()
                    == 0u8,
                forall|b: int, k: int|
                    0 <= b < fl_bits * 64 && 0 <= k < s ==> (#[trigger] slots@[b * s + k])
                        == Slot::<T>::FreeLink(
                        if k == s - 1 {
                            NULL_SLOT_OFFSET
                        } else {
                            (k + 1) as u8
                        },
                    ),
            decreases 64 - fl_bits,
        {
            let mut sl_bits: usize = 0;
            while sl_bits < 64
                invariant
                    1 <= s <= 254,
                    s == sl_step as int,
                    fl_bits < 64,
                    sl_bits <= 64,
                    free_slots@.len() == fl_bits * 64 + sl_bits,
                    slots@.len() == (fl_bits * 64 + sl_bits) * s,
                    forall|b: int|
                        0 <= b < fl_bits * 64 + sl_bits ==> (#[trigger] free_slots@[b]).spec_next()
                            == 0u8,
                    forall|b: int, k: int|
                        0 <= b < fl_bits * 64 + sl_bits && 0 <= k < s ==> (#[trigger] slots@[b * s + k])
                            == Slot::<T>::FreeLink(
                            if k == s - 1 {
                                NULL_SLOT_OFFSET
                            } else {
                                (k + 1) as u8
                            },
                        ),
                decreases 64 - sl_bits,
            {
                proof {
                    let nb = (fl_bits * 64 + sl_bits) as int;
                    lemma_mul_step(nb, s as int);
                    assert(nb * (s as int) + (s as int) <= 4096 * 254) by (nonlinear_arith)
                        requires 0 <= nb < 4096, 1 <= s <= 254;
                }
                Self::initialize_mem_sl(&mut slots, &mut free_slots, sl_step);
                proof {
                    let nb = (fl_bits * 64 + sl_bits) as int;
                    assert forall|b: int, k: int|
                        0 <= b < nb + 1 && 0 <= k < s implies (#[trigger] slots@[b * s + k])
                            == Slot::<T>::FreeLink(
                            if k == s - 1 {
                                NULL_SLOT_OFFSET
                            } else {
                                (k + 1) as u8
                            },
                        ) by {
                        if b < nb {
                            lemma_bucket_bound(b, k, nb, s as int);
                        }
                    }
                }
                sl_bits += 1;
            }
            fl_bits += 1;
        }
        proof {
            let si = s as int;
            assert(64 * 64 * si == si * 4096) by (nonlinear_arith);
        }
        (slots, free_slots)
    }

    /// Append one bucket: its head entry, then its `slots_per_sl` slot cells
    /// chained each at the offset of the next, the last at the sentinel.
    fn initialize_mem_sl(
        slots: &mut Vec<Slot<T>>,
        free_slots: &mut Vec<FreeSlot>,
        slots_per_sl: u8,
    )
        requires
            1 <= slots_per_sl,
            slots_per_sl as int <= 254,
            old(slots)@.len() + slots_per_sl as int <= usize::MAX,
        ensures
            final(slots)@.len() == old(slots)@.len() + slots_per_sl as int,
            final(free_slots)@ == old(free_slots)@.push(FreeSlot { next: 0u8 }),
            forall|i: int| 0 <= i < old(slots)@.len() ==> final(slots)@[i] == old(slots)@[i],
            forall|k: int|
                0 <= k < slots_per_sl ==> (#[trigger] final(slots)@[old(slots)@.len() + k])
                    == Slot::<T>::FreeLink(
                    if k == slots_per_sl as int - 1 {
                        NULL_SLOT_OFFSET
                    } else {
                        (k + 1) as u8
                    },
                ),
    {
        free_slots.push(FreeSlot { next: 0 });
        let base = slots.len();
        let mut o: u8 = 0;
        while o < slots_per_sl
            invariant
                o <= slots_per_sl,
                slots_per_sl as int <= 254,
                slots@.len() == base + o as int,
                base + slots_per_sl as int <= usize::MAX,
                forall|i: int| 0 <= i < base ==> slots@[i] == old(slots)@[i],
                forall|k: int|
                    0 <= k < o ==> (#[trigger] slots@[base + k]) == Slot::<T>::FreeLink(
                        if k == slots_per_sl as int - 1 {
                            NULL_SLOT_OFFSET
                        } else {
                            (k + 1) as u8
                        },
                    ),
            decreases slots_per_sl - o,
        {
            if o + 1 < slots_per_sl {
                slots.push(Slot::FreeLink(o + 1));
            } else {
                slots.push(Slot::FreeLink(NULL_SLOT_OFFSET));
            }
            o += 1;
        }
    }
}

impl<T: Clone> BitmapSlab<T> {
    /// With the top-level bitmap all ones, every slot of the pool is
    /// occupied, so the abstract map is full.
    proof fn lemma_full_when_fl_max(&self)
        requires
            self.wf(),
            self.fl_bitmap@ == u64::MAX,
        ensures
            self@.len() == self.spec_capacity(),
    {
        let s = self.sl_step as int;
        let cap = self.spec_capacity();
        assert(s * 4096 == 4096 * s) by (nonlinear_arith);
        assert forall|i: int| 0 <= i < cap implies self@.dom().contains(i) by {
            lemma_index_decompose(i, 4096, s);
            let b = i / s;
            let o = i % s;
            lemma_max_all_set(self.fl_bitmap@);
            assert(bit_set(self.fl_bitmap@, (b / 64) as u64));
            assert(self.sl_bitmap@[b / 64]@ == u64::MAX);
            lemma_max_all_set(self.sl_bitmap@[b / 64]@);
            assert(bit_set(self.sl_bitmap@[b / 64]@, (b % 64) as u64));
            assert(self.free_lists@[b].len() == 0);
            assert(self.bucket_occ_wf_except(b, -1));
            assert(!self.free_lists@[b].contains(o as u8));
            assert(self.slots@[b * s + o] is Occupied);
        }
        assert(self@.dom() =~= set_int_range(0, cap));
        lemma_int_range(0, cap);
    }

    /// A pool with a free slot somewhere holds fewer values than its
    /// capacity.
    proof fn lemma_free_slot_means_not_full(&self, i: int)
        requires
            self.wf(),
            0 <= i < self.spec_capacity(),
            !self@.dom().contains(i),
        ensures
            self@.len() < self.spec_capacity(),
    {
        let cap = self.spec_capacity();
        lemma_int_range(0, cap);
        assert(self@.dom().subset_of(set_int_range(0, cap)));
        self@.dom().lemma_subset_not_in_lt(set_int_range(0, cap), i);
    }

    /// Claim the lowest free slot of the lowest non-full bucket of the
    /// lowest non-full group: pop the head of that bucket's free list and
    /// mark the bucket (and, if needed, its group) full. The claimed slot's
    /// cell is left untouched; the caller fills it.
    #[verifier::rlimit(100)]
    fn claim_available_slot(&mut self) -> (r: Result<usize, AllocError>)
        requires
            old(self).wf(),
        ensures
            match r {
                Result::Ok(index) => {
                    &&& final(self).wf_claimed(index as int)
                    &&& final(self).slots == old(self).slots
                    &&& final(self).capacity == old(self).capacity
                    &&& final(self).sl_step == old(self).sl_step
                    &&& final(self).fl_step == old(self).fl_step
                    &&& old(self)@.len() < old(self).spec_capacity()
                    &&& !old(self)@.dom().contains(index as int)
                    &&& (index as int) < old(self).spec_capacity()
                    &&& index as int == old(self).spec_next_index()
                    &&& final(self).free_lists@ == old(self).free_lists@.update(
                        (index as int) / (old(self).sl_step as int),
                        old(self).free_lists@[(index as int) / (old(self).sl_step as int)].drop_first(),
                    )
                },
                Result::Err(e) => {
                    &&& *final(self) == *old(self)
                    &&& e == AllocError::OutOfMemory
                    &&& old(self)@.len() == old(self).spec_capacity()
                },
            },
    {
        if self.fl_bitmap.is_max() {
            proof {
                self.lemma_full_when_fl_max();
            }
            return Result::Err(AllocError::OutOfMemory);
        }
        let ghost s = self.sl_step as int;
        let fli = self.fl_bitmap.first_zero_lsb();
        let sl_word = self.sl_bitmap[fli];
        proof {
            assert(!bit_set(self.fl_bitmap@, fli as u64));
            assert(sl_word@ != u64::MAX);
        }
        let sli = sl_word.first_zero_lsb();
        let b = fli * 64 + sli;
        proof {
            assert(b / 64 == fli && b % 64 == sli);
            assert(!bit_set(self.sl_bitmap@[b as int / 64]@, (b as int % 64) as u64));
            assert(self.free_lists@[b as int].len() != 0);
            assert(self.bucket_links_wf(b as int));
        }
        let ghost fs = self.free_lists@[b as int];
        let head = self.free_slots[b].next;
        proof {
            assert(head == fs[0]);
            assert(fs[0] < s);
        }
        proof {
            assert(fli * (self.fl_step as int) + sli * (self.sl_step as int) == (b as int) * s)
                by (nonlinear_arith)
                requires
                    self.fl_step == self.sl_step * 64,
                    s == self.sl_step as int,
                    b == fli * 64 + sli,
                    fli < 64,
                    sli < 64,
            ;
            lemma_bucket_bound(b as int, head as int, 4096, s);
            assert(s * 4096 == 4096 * s) by (nonlinear_arith);
        }
        let index = fli * self.fl_step + sli * self.sl_step + head as usize;
        proof {
            assert(index as int == (b as int) * s + head as int);
            assert(index < self.capacity);
        }
        let next = match &self.slots[index] {
            Slot::FreeLink(n) => *n,
            Slot::Occupied(_) => {
                proof {
                    assert(self.slots@[(b as int) * s + fs[0]] is FreeLink);
                    assert(false);
                }
                0u8
            },
        };
        proof {
            assert(self.slots@[(b as int) * s + fs[0]] == Slot::<T>::FreeLink(
                if 0 == fs.len() - 1 {
                    NULL_SLOT_OFFSET
                } else {
                    fs[1]
                },
            ));
            assert(next == if fs.len() == 1 {
                NULL_SLOT_OFFSET
            } else {
                fs[1]
            });
            if fs.len() > 1 {
                assert(fs[1] < s);
                assert(next != NULL_SLOT_OFFSET);
            }
        }
        self.free_slots[b] = FreeSlot { next };
        let ghost fs_new = fs.subrange(1, fs.len() as int);
        proof {
            self.free_lists@ = self.free_lists@.update(b as int, fs_new);
        }
        if next == NULL_SLOT_OFFSET {
            let mut w = self.sl_bitmap[fli];
            w.set_bit_one(sli);
            self.sl_bitmap[fli] = w;
            proof {
                lemma_bit_or_one(sl_word@, sli as u64);
            }
            if w.is_max() {
                self.fl_bitmap.set_bit_one(fli);
                proof {
                    lemma_bit_or_one(old(self).fl_bitmap@, fli as u64);
                }
            }
        }
        proof {
            let this = *self;
            let prev = *old(self);
            let bi = b as int;
            let idx = index as int;

            // the free list of bucket b lost its head; no other list changed
            assert(fs_new.len() == fs.len() - 1);
            assert forall|k: int| 0 <= k < fs_new.len() implies fs_new[k] == fs[k + 1] by {}

            // links of every bucket still hold
            assert forall|b2: int| 0 <= b2 < 4096 implies #[trigger] this.bucket_links_wf(b2) by {
                assert(prev.bucket_links_wf(b2));
                if b2 == bi {
                    assert forall|k: int, j: int| 0 <= k < j < fs_new.len() implies fs_new[k]
                        != fs_new[j] by {
                        assert(fs[k + 1] != fs[j + 1]);
                    }
                } else {
                    assert(this.free_lists@[b2] == prev.free_lists@[b2]);
                    assert(this.free_slots@[b2] == prev.free_slots@[b2]);
                }
            }

            // occupancy holds everywhere but at the claimed slot
            assert forall|b2: int| 0 <= b2 < 4096 implies #[trigger] this.bucket_occ_wf_except(b2, idx) by {
                assert(prev.bucket_occ_wf_except(b2, -1));
                if b2 == bi {
                    assert forall|o: int|
                        0 <= o < s && bi * s + o != idx && !(#[trigger] fs_new.contains(o as u8))
                            implies this.slots@[bi * s + o] is Occupied by {
                        if fs.contains(o as u8) {
                            let k = choose|k: int| 0 <= k < fs.len() && fs[k] == o as u8;
                            if k == 0 {
                                assert(bi * s + o == idx);
                            } else {
                                assert(fs_new[k - 1] == o as u8);
                                assert(fs_new.contains(o as u8));
                            }
                            assert(false);
                        }
                    }
                }
            }

            // the claimed slot is off its bucket's list
            lemma_bucket_pos(bi, head as int, s);
            assert(!fs_new.contains((idx % s) as u8)) by {
                if fs_new.contains(fs[0]) {
                    let k = choose|k: int| 0 <= k < fs_new.len() && fs_new[k] == fs[0];
                    assert(fs[k + 1] == fs[0]);
                    assert(false);
                }
            }

            // both bitmap levels still agree with the free lists
            assert forall|b2: int| 0 <= b2 < 4096 implies (bit_set(
                this.sl_bitmap@[b2 / 64]@,
                (b2 % 64) as u64,
            ) <==> (#[trigger] this.free_lists@[b2]).len() == 0) by {
                if next == NULL_SLOT_OFFSET {
                    if b2 / 64 == fli as int {
                        if b2 == bi {
                            assert(fs_new.len() == 0);
                        } else {
                            assert((b2 % 64) as u64 != sli as u64);
                        }
                    } else {
                        assert(this.sl_bitmap@[b2 / 64]@ == prev.sl_bitmap@[b2 / 64]@);
                    }
                } else {
                    assert(fs.len() > 1);
                    if b2 == bi {
                        assert(fs_new.len() != 0);
                        assert(!bit_set(prev.sl_bitmap@[bi / 64]@, (bi % 64) as u64));
                    }
                }
            }
            assert forall|fli2: int| 0 <= fli2 < 64 implies (bit_set(this.fl_bitmap@, fli2 as u64)
                <==> (#[trigger] this.sl_bitmap@[fli2])@ == u64::MAX) by {
                if fli2 != fli as int {
                    assert(this.sl_bitmap@[fli2] == prev.sl_bitmap@[fli2]);
                }
            }

            // the claim follows the deterministic lowest-bucket policy
            assert forall|b2: int| 0 <= b2 < bi implies (#[trigger] prev.spec_free_list(
                b2,
            )).len() == 0 by {
                vstd::arithmetic::div_mod::lemma_fundamental_div_mod(b2, 64);
                let f2 = b2 / 64;
                let o2 = b2 % 64;
                assert(0 <= f2 <= fli as int);
                if f2 < fli as int {
                    assert(bit_set(prev.fl_bitmap@, f2 as u64));
                    assert(prev.sl_bitmap@[f2]@ == u64::MAX);
                    lemma_max_all_set(prev.sl_bitmap@[f2]@);
                    assert(bit_set(prev.sl_bitmap@[b2 / 64]@, (b2 % 64) as u64));
                } else {
                    assert(o2 < sli as int);
                    assert(bit_set(sl_word@, o2 as u64));
                    assert(bit_set(prev.sl_bitmap@[b2 / 64]@, (b2 % 64) as u64));
                }
                assert(prev.free_lists@[b2].len() == 0);
            }
            prev.lemma_first_nonfull_from(0, bi);
            assert(prev.spec_next_index() == bi * s + fs[0]);
            assert(fs_new == fs.drop_first());

            // the pool was not full, and the claimed index was free
            assert(prev.slots@[idx] is FreeLink);
            assert(!prev@.dom().contains(idx));
            prev.lemma_free_slot_means_not_full(idx);
        }
        Result::Ok(index)
    }

    /// Claim a free slot, write `value` into it, and return its flat index.
    /// Succeeds exactly when the pool holds fewer values than its capacity;
    /// once every slot is occupied the pool reports `OutOfMemory`.
    pub fn insert(&mut self, value: T) -> (r: Result<usize, AllocError>)
        requires
            old(self).wf(),
        ensures
            final(self).wf(),
            final(self).spec_capacity() == old(self).spec_capacity(),
            final(self).spec_sl_step() == old(self).spec_sl_step(),
            (r is Ok) <==> old(self)@.len() < old(self).spec_capacity(),
            (r matches Result::Ok(index) ==> {
                &&& (index as int) < old(self).spec_capacity()
                &&& !old(self)@.dom().contains(index as int)
                &&& final(self)@ == old(self)@.insert(index as int, value)
                &&& index as int == old(self).spec_next_index()
                &&& final(self).spec_free_list(old(self).spec_bucket_of(index as int)) == old(
                    self,
                ).spec_free_list(old(self).spec_bucket_of(index as int)).drop_first()
                &&& (forall|b: int|
                    0 <= b < 4096 && b != old(self).spec_bucket_of(index as int) ==> (
                    #[trigger] final(self).spec_free_list(b)) == old(self).spec_free_list(b))
            }),
            r is Err ==> r == Result::<usize, AllocError>::Err(AllocError::OutOfMemory)
                && *final(self) == *old(self),
    {
        let slab_index = match self.claim_available_slot() {
            Result::Ok(i) => i,
            Result::Err(e) => {
                return Result::Err(e);
            },
        };
        let ghost mid = *self;
        self.slots[slab_index] = Slot::Occupied(value);
        proof {
            assert(mid@ =~= old(self)@);
            Self::lemma_fill_restores_wf(mid, *self, slab_index as int, value);
            assert(self.free_lists == mid.free_lists);
            let b0 = old(self).spec_bucket_of(slab_index as int);
            let st = old(self).spec_sl_step();
            assert(st * 4096 == 4096 * st) by (nonlinear_arith);
            lemma_index_decompose(slab_index as int, 4096, st);
            assert(0 <= b0 < 4096);
            assert(self.free_lists@ == old(self).free_lists@.update(
                b0,
                old(self).free_lists@[b0].drop_first(),
            ));
            assert forall|b: int| 0 <= b < 4096 && b != b0 implies (#[trigger] self.spec_free_list(
                b,
            )) == old(self).spec_free_list(b) by {
                assert(self.free_lists@[b] == old(self).free_lists@[b]);
            }
        }
        Result::Ok(slab_index)
    }
}

impl<T: Clone> BitmapSlab<T> {
    /// An occupied slot is on no free list, so the invariant holds of it in
    /// its mid-transition form as well.
    proof fn lemma_wf_implies_claimed_at_occupied(&self, i: int)
        requires
            self.wf(),
            self@.dom().contains(i),
        ensures
            self.wf_claimed(i),
    {
        let s = self.sl_step as int;
        assert(s * 4096 == 4096 * s) by (nonlinear_arith);
        lemma_index_decompose(i, 4096, s);
        let b = i / s;
        let o = i % s;
        let fs = self.free_lists@[b];
        assert(self.bucket_links_wf(b));
        if fs.contains(o as u8) {
            let k = choose|k: int| 0 <= k < fs.len() && fs[k] == o as u8;
            assert(self.slots@[b * s + fs[k]] is FreeLink);
            assert(self.slots@[i] is Occupied);
            assert(false);
        }
        assert forall|b2: int| 0 <= b2 < 4096 implies #[trigger] self.bucket_occ_wf_except(
            b2,
            i,
        ) by {
            assert(self.bucket_occ_wf_except(b2, -1));
        }
    }

    /// Writing a value into a slot that is off every free list restores the
    /// full invariant and records the value in the abstract map.
    proof fn lemma_fill_restores_wf(pre: Self, post: Self, i: int, value: T)
        requires
            pre.wf_claimed(i),
            post.slots@ == pre.slots@.update(i, Slot::Occupied(value)),
            post.capacity == pre.capacity,
            post.sl_step == pre.sl_step,
            post.fl_step == pre.fl_step,
            post.fl_bitmap == pre.fl_bitmap,
            post.sl_bitmap == pre.sl_bitmap,
            post.free_slots == pre.free_slots,
            post.free_lists == pre.free_lists,
        ensures
            post.wf(),
            post@ == pre@.insert(i, value),
    {
        let s = post.sl_step as int;
        let bi = i / s;
        let oi = i % s;
        lemma_index_decompose(i, 4096, s);
        assert(s * 4096 == 4096 * s) by (nonlinear_arith);

        assert forall|b2: int| 0 <= b2 < 4096 implies #[trigger] post.bucket_links_wf(b2) by {
            assert(pre.bucket_links_wf(b2));
            let fs2 = pre.free_lists@[b2];
            assert(post.free_lists@[b2] == fs2);
            assert forall|k: int| 0 <= k < fs2.len() implies post.slots@[b2 * s + #[trigger] fs2[k]]
                == Slot::<T>::FreeLink(
                if k == fs2.len() - 1 {
                    NULL_SLOT_OFFSET
                } else {
                    fs2[k + 1]
                },
            ) by {
                lemma_bucket_pos(b2, fs2[k] as int, s);
                lemma_bucket_bound(b2, fs2[k] as int, 4096, s);
                if b2 * s + fs2[k] == i {
                    assert(b2 == bi && fs2[k] == oi as u8);
                    assert(pre.free_lists@[bi].contains(oi as u8));
                    assert(false);
                }
                assert(post.slots@[b2 * s + fs2[k]] == pre.slots@[b2 * s + fs2[k]]);
            }
        }
        assert forall|b2: int| 0 <= b2 < 4096 implies #[trigger] post.bucket_occ_wf_except(
            b2,
            -1,
        ) by {
            assert(pre.bucket_occ_wf_except(b2, i));
            let fs2 = pre.free_lists@[b2];
            assert forall|o: int|
                0 <= o < s && !(#[trigger] fs2.contains(o as u8)) implies post.slots@[b2 * s + o]
                is Occupied by {
                lemma_bucket_pos(b2, o, s);
                lemma_bucket_bound(b2, o, 4096, s);
                if b2 * s + o != i {
                    assert(pre.slots@[b2 * s + o] is Occupied);
                    assert(post.slots@[b2 * s + o] == pre.slots@[b2 * s + o]);
                } else {
                    assert(post.slots@[i] == Slot::<T>::Occupied(value));
                }
            }
            assert forall|o: int|
                0 <= o < s && b2 * s + o != -1 && !(#[trigger] post.free_lists@[b2].contains(
                    o as u8,
                )) implies post.slots@[b2 * s + o] is Occupied by {
                assert(!fs2.contains(o as u8));
            }
        }
        assert(post.wf());
        assert(post@ =~= pre@.insert(i, value));
    }

    /// Split a flat index into its first-level group and its bucket within
    /// the group.
    fn mapping_from_index(&self, index: usize) -> (r: (usize, usize))
        requires
            1 <= self.sl_step <= MAX_SLOT_OFFSET,
            self.fl_step == self.sl_step * 64,
            self.capacity == self.sl_step * 4096,
            index < self.capacity,
        ensures
            r.0 < 64,
            r.1 < 64,
            r.0 * 64 + r.1 == index as int / (self.sl_step as int),
    {
        let fli = index / self.fl_step;
        let sli = (index % self.fl_step) / self.sl_step;
        proof {
            let i = index as int;
            let s = self.sl_step as int;
            assert((i / (s * 64)) * 64 + (i % (s * 64)) / s == i / s && i / (s * 64) < 64 && (i % (
            s * 64)) / s < 64) by (nonlinear_arith)
                requires
                    s >= 1,
                    0 <= i,
                    i < s * 4096,
            ;
        }
        (fli, sli)
    }

    /// Flat index of the first slot of bucket (`fli`, `sli`).
    fn mem_slot_offset_from_mapping(&self, fli: usize, sli: usize) -> (r: usize)
        requires
            1 <= self.sl_step <= MAX_SLOT_OFFSET,
            self.fl_step == self.sl_step * 64,
            fli < 64,
            sli < 64,
        ensures
            r as int == (fli * 64 + sli) as int * (self.sl_step as int),
    {
        proof {
            let s = self.sl_step as int;
            assert((fli as int) * (s * 64) + (sli as int) * s == ((fli as int) * 64 + sli as int)
                * s && ((fli as int) * 64 + sli as int) * s <= 4095 * 254) by (nonlinear_arith)
                requires
                    1 <= s <= 254,
                    (fli as int) < 64,
                    (sli as int) < 64,
            ;
        }
        fli * self.fl_step + sli * self.sl_step
    }

    /// Index of bucket (`fli`, `sli`) in the free-list head table.
    fn free_slot_index_from_mapping(fli: usize, sli: usize) -> (r: usize)
        requires
            fli < 64,
            sli < 64,
        ensures
            r == fli * 64 + sli,
    {
        fli * 64 + sli
    }

    /// Push the freed slot — already holding no value — onto the head of its
    /// bucket's free list, and mark the bucket (and, if needed, its group)
    /// non-full again.
    #[verifier::rlimit(60)]
    fn release_slot(&mut self, index: usize)
        requires
            old(self).wf_claimed(index as int),
            old(self).slots@[index as int] is FreeLink,
        ensures
            final(self).wf(),
            final(self)@ == old(self)@,
            final(self).capacity == old(self).capacity,
            final(self).sl_step == old(self).sl_step,
            final(self).fl_step == old(self).fl_step,
            final(self).free_lists@ == old(self).free_lists@.update(
                (index as int) / (old(self).sl_step as int),
                seq![((index as int) % (old(self).sl_step as int)) as u8]
                    + old(self).free_lists@[(index as int) / (old(self).sl_step as int)],
            ),
    {
        let ghost s = self.sl_step as int;
        let ghost prev = *self;
        let (fli, sli) = self.mapping_from_index(index);
        let free_slot_index = Self::free_slot_index_from_mapping(fli, sli);
        let mem_slot_offset = self.mem_slot_offset_from_mapping(fli, sli);
        let ghost bi = (index as int) / s;
        let ghost fs = self.free_lists@[bi];
        proof {
            assert(free_slot_index as int == bi);
            assert(mem_slot_offset as int == bi * s);
            lemma_index_decompose(index as int, 4096, s);
            assert(s * 4096 == 4096 * s) by (nonlinear_arith);
            lemma_bucket_bound(bi, (index as int) % s, 4096, s);
            assert(self.bucket_links_wf(bi));
        }
        let head = self.free_slots[free_slot_index].next;

        // a full bucket (and possibly a full group) becomes non-full
        if head == NULL_SLOT_OFFSET {
            let w = self.sl_bitmap[fli];
            if w.is_max() {
                self.fl_bitmap.set_bit_zero(fli);
                proof {
                    crate::bits::lemma_bit_and_zero(prev.fl_bitmap@, fli as u64);
                }
            }
            let mut w2 = w;
            w2.set_bit_zero(sli);
            self.sl_bitmap[fli] = w2;
            proof {
                crate::bits::lemma_bit_and_zero(w@, sli as u64);
            }
        }

        // the freed slot becomes the new list node pointing at the old head
        self.slots[index] = Slot::FreeLink(head);
        let offset = index - mem_slot_offset;
        self.free_slots[free_slot_index] = FreeSlot { next: offset as u8 };
        let ghost fs_new = seq![(offset as u8)] + fs;
        proof {
            self.free_lists@ = self.free_lists@.update(bi, fs_new);
        }

        proof {
            let this = *self;
            let idx = index as int;
            let oi = idx % s;
            assert(offset as int == oi);
            assert(fs_new.len() == fs.len() + 1);
            assert(fs_new[0] == oi as u8);
            assert forall|k: int| 1 <= k < fs_new.len() implies fs_new[k] == fs[k - 1] by {}
            assert(!fs.contains(oi as u8));

            assert forall|b2: int| 0 <= b2 < 4096 implies #[trigger] this.bucket_links_wf(b2) by {
                assert(prev.bucket_links_wf(b2));
                if b2 == bi {
                    assert forall|k: int, j: int| 0 <= k < j < fs_new.len() implies fs_new[k]
                        != fs_new[j] by {
                        if k == 0 {
                            assert(fs.contains(fs[j - 1]));
                        }
                    }
                    assert forall|k: int| 0 <= k < fs_new.len() implies this.slots@[b2 * s
                        + #[trigger] fs_new[k]] == Slot::<T>::FreeLink(
                        if k == fs_new.len() - 1 {
                            NULL_SLOT_OFFSET
                        } else {
                            fs_new[k + 1]
                        },
                    ) by {
                        lemma_bucket_bound(b2, fs_new[k] as int, 4096, s);
                        if k == 0 {
                            assert(bi * s + oi == idx);
                            assert(this.slots@[idx] == Slot::<T>::FreeLink(head));
                            if fs.len() == 0 {
                                assert(head == NULL_SLOT_OFFSET);
                            } else {
                                assert(head == fs[0] && fs_new[1] == fs[0]);
                            }
                        } else {
                            assert(fs_new[k] == fs[k - 1]);
                            assert(prev.slots@[b2 * s + fs[k - 1]] == Slot::<T>::FreeLink(
                                if k - 1 == fs.len() - 1 {
                                    NULL_SLOT_OFFSET
                                } else {
                                    fs[k]
                                },
                            ));
                            lemma_bucket_pos(b2, fs[k - 1] as int, s);
                            assert(b2 * s + fs[k - 1] != idx);
                            assert(this.slots@[b2 * s + fs_new[k]] == prev.slots@[b2 * s + fs[k
                                - 1]]);
                        }
                    }
                } else {
                    assert(this.free_lists@[b2] == prev.free_lists@[b2]);
                    assert(this.free_slots@[b2] == prev.free_slots@[b2]);
                    let fs2 = prev.free_lists@[b2];
                    assert forall|k: int| 0 <= k < fs2.len() implies this.slots@[b2 * s
                        + #[trigger] fs2[k]] == Slot::<T>::FreeLink(
                        if k == fs2.len() - 1 {
                            NULL_SLOT_OFFSET
                        } else {
                            fs2[k + 1]
                        },
                    ) by {
                        lemma_bucket_pos(b2, fs2[k] as int, s);
                        lemma_bucket_bound(b2, fs2[k] as int, 4096, s);
                        assert(b2 * s + fs2[k] != idx);
                        assert(this.slots@[b2 * s + fs2[k]] == prev.slots@[b2 * s + fs2[k]]);
                    }
                }
            }

            assert forall|b2: int| 0 <= b2 < 4096 implies #[trigger] this.bucket_occ_wf_except(
                b2,
                -1,
            ) by {
                assert(prev.bucket_occ_wf_except(b2, idx));
                assert forall|o: int|
                    0 <= o < s && !(#[trigger] this.free_lists@[b2].contains(o as u8))
                        implies this.slots@[b2 * s + o] is Occupied by {
                    lemma_bucket_pos(b2, o, s);
                    lemma_bucket_bound(b2, o, 4096, s);
                    if b2 == bi {
                        assert(!fs_new.contains(o as u8));
                        if fs.contains(o as u8) {
                            let k = choose|k: int| 0 <= k < fs.len() && fs[k] == o as u8;
                            assert(fs_new[k + 1] == o as u8);
                            assert(false);
                        }
                        assert(b2 * s + o != idx);
                        assert(prev.slots@[b2 * s + o] is Occupied);
                    } else {
                        assert(!prev.free_lists@[b2].contains(o as u8));
                        assert(b2 * s + o != idx);
                        assert(prev.slots@[b2 * s + o] is Occupied);
                    }
                }
            }

            // both bitmap levels again agree with the free lists
            assert forall|b2: int| 0 <= b2 < 4096 implies (bit_set(
                this.sl_bitmap@[b2 / 64]@,
                (b2 % 64) as u64,
            ) <==> (#[trigger] this.free_lists@[b2]).len() == 0) by {
                if head == NULL_SLOT_OFFSET {
                    if b2 / 64 == fli as int {
                        if b2 == bi {
                            assert(fs_new.len() != 0);
                        } else {
                            assert((b2 % 64) as u64 != sli as u64);
                        }
                    } else {
                        assert(this.sl_bitmap@[b2 / 64]@ == prev.sl_bitmap@[b2 / 64]@);
                    }
                } else {
                    assert(fs.len() != 0);
                    if b2 == bi {
                        assert(!bit_set(prev.sl_bitmap@[bi / 64]@, (bi % 64) as u64));
                    }
                }
            }
            assert forall|fli2: int| 0 <= fli2 < 64 implies (bit_set(this.fl_bitmap@, fli2 as u64)
                <==> (#[trigger] this.sl_bitmap@[fli2])@ == u64::MAX) by {
                if fli2 == fli as int {
                    if head == NULL_SLOT_OFFSET {
                        assert(!bit_set(this.sl_bitmap@[fli as int]@, sli as u64));
                        assert(this.sl_bitmap@[fli as int]@ != u64::MAX) by {
                            lemma_max_all_set(u64::MAX);
                            if this.sl_bitmap@[fli as int]@ == u64::MAX {
                                assert(bit_set(this.sl_bitmap@[fli as int]@, sli as u64));
                            }
                        }
                        if prev.sl_bitmap@[fli as int]@ != u64::MAX {
                            assert(!bit_set(prev.fl_bitmap@, fli2 as u64));
                        }
                    } else {
                        assert(fs.len() != 0);
                        assert(!bit_set(prev.sl_bitmap@[bi / 64]@, (bi % 64) as u64));
                        assert(prev.sl_bitmap@[fli as int]@ != u64::MAX) by {
                            if prev.sl_bitmap@[fli as int]@ == u64::MAX {
                                lemma_max_all_set(prev.sl_bitmap@[fli as int]@);
                            }
                        }
                        assert(!bit_set(prev.fl_bitmap@, fli2 as u64));
                    }
                } else {
                    assert(this.sl_bitmap@[fli2] == prev.sl_bitmap@[fli2]);
                }
            }

            assert(this.wf());
            assert(this@ =~= prev@);
        }
    }

    /// Free the slot at `index` and hand its value back. The index must
    /// denote an occupied slot: no occupancy bit exists at this layer, so no
    /// weaker caller is admitted.
    pub fn remove(&mut self, index: usize) -> (r: Option<T>)
        requires
            old(self).wf(),
            old(self)@.dom().contains(index as int),
        ensures
            final(self).wf(),
            final(self).spec_capacity() == old(self).spec_capacity(),
            final(self).spec_sl_step() == old(self).spec_sl_step(),
            r == Some(old(self)@[index as int]),
            final(self)@ == old(self)@.remove(index as int),
            final(self).spec_free_list(old(self).spec_bucket_of(index as int)) == seq![
                ((index as int) % old(self).spec_sl_step()) as u8,
            ] + old(self).spec_free_list(old(self).spec_bucket_of(index as int)),
            forall|b: int|
                0 <= b < 4096 && b != old(self).spec_bucket_of(index as int) ==> (
                #[trigger] final(self).spec_free_list(b)) == old(self).spec_free_list(b),
            final(self).spec_bucket_head(old(self).spec_bucket_of(index as int)) == index as int,
            old(self)@.len() == old(self).spec_capacity() ==> final(self).spec_next_index()
                == index as int,
    {
        proof {
            old(self).lemma_wf_implies_claimed_at_occupied(index as int);
        }
        let mut taken: Slot<T> = Slot::FreeLink(NULL_SLOT_OFFSET);
        core::mem::swap(&mut taken, &mut self.slots[index]);
        proof {
            let prev = *old(self);
            let mid = *self;
            let s = mid.sl_step as int;
            let idx = index as int;
            assert(mid.slots@ == prev.slots@.update(idx, Slot::FreeLink(NULL_SLOT_OFFSET)));
            assert(taken == prev.slots@[idx]);

            // the invariant, in claimed form, carries over to the swapped state
            assert forall|b2: int| 0 <= b2 < 4096 implies #[trigger] mid.bucket_links_wf(b2) by {
                assert(prev.bucket_links_wf(b2));
                let fs2 = prev.free_lists@[b2];
                assert forall|k: int| 0 <= k < fs2.len() implies mid.slots@[b2 * s
                    + #[trigger] fs2[k]] == Slot::<T>::FreeLink(
                    if k == fs2.len() - 1 {
                        NULL_SLOT_OFFSET
                    } else {
                        fs2[k + 1]
                    },
                ) by {
                    lemma_bucket_pos(b2, fs2[k] as int, s);
                    lemma_bucket_bound(b2, fs2[k] as int, 4096, s);
                    assert(s * 4096 == 4096 * s) by (nonlinear_arith);
                    if b2 * s + fs2[k] == idx {
                        assert(prev.free_lists@[idx / s].contains((idx % s) as u8));
                        assert(false);
                    }
                    assert(mid.slots@[b2 * s + fs2[k]] == prev.slots@[b2 * s + fs2[k]]);
                }
            }
            assert forall|b2: int| 0 <= b2 < 4096 implies #[trigger] mid.bucket_occ_wf_except(
                b2,
                idx,
            ) by {
                assert(prev.bucket_occ_wf_except(b2, idx));
                let fs2 = prev.free_lists@[b2];
                assert forall|o: int|
                    0 <= o < s && b2 * s + o != idx && !(#[trigger] fs2.contains(o as u8))
                        implies mid.slots@[b2 * s + o] is Occupied by {
                    lemma_bucket_pos(b2, o, s);
                    lemma_bucket_bound(b2, o, 4096, s);
                    assert(s * 4096 == 4096 * s) by (nonlinear_arith);
                    assert(prev.slots@[b2 * s + o] is Occupied);
                    assert(mid.slots@[b2 * s + o] == prev.slots@[b2 * s + o]);
                }
            }
            assert(mid.wf_claimed(idx));
            assert(mid@ =~= prev@.remove(idx));
        }
        self.release_slot(index);
        proof {
            let prev = *old(self);
            let this = *self;
            let st = prev.spec_sl_step();
            let idx = index as int;
            let b0 = prev.spec_bucket_of(idx);
            assert(st * 4096 == 4096 * st) by (nonlinear_arith);
            lemma_index_decompose(idx, 4096, st);
            assert(this.free_lists@ == prev.free_lists@.update(
                b0,
                seq![(idx % st) as u8] + prev.free_lists@[b0],
            ));
            assert(this.spec_free_list(b0)[0] == (idx % st) as u8);
            assert(this.spec_bucket_head(b0) == b0 * st + (idx % st));
            assert(b0 * st + idx % st == idx);

            // with the pool full beforehand, the freed slot is the only
            // free slot anywhere, so it is the next to be claimed
            if prev@.len() == prev.spec_capacity() {
                assert forall|b2: int| 0 <= b2 < 4096 && b2 != b0 implies (
                #[trigger] this.spec_free_list(b2)).len() == 0 by {
                    let f2 = prev.free_lists@[b2];
                    if f2.len() != 0 {
                        assert(prev.bucket_links_wf(b2));
                        lemma_bucket_bound(b2, f2[0] as int, 4096, st);
                        let h2 = b2 * st + f2[0];
                        assert(prev.slots@[h2] is FreeLink);
                        assert(!prev@.dom().contains(h2));
                        prev.lemma_free_slot_means_not_full(h2);
                        assert(false);
                    }
                }
                this.lemma_first_nonfull_from(0, b0);
            }
        }
        match taken {
            Slot::Occupied(v) => Some(v),
            Slot::FreeLink(_) => {
                proof {
                    assert(false);
                }
                None
            },
        }
    }

    /// Borrow the value at `index`. The index must denote an occupied slot;
    /// no occupancy validation is performed here.
    pub fn get(&self, index: usize) -> (r: &T)
        requires
            self.wf(),
            self@.dom().contains(index as int),
        ensures
            *r == self@[index as int],
    {
        match &self.slots[index] {
            Slot::Occupied(v) => v,
            Slot::FreeLink(_) => {
                proof {
                    assert(false);
                }
                vstd::pervasive::unreached()
            },
        }
    }

    /// Mutably borrow the value at `index`. The index must denote an
    /// occupied slot; whatever the caller writes through the borrow becomes
    /// the slot's value.
    pub fn get_mut(&mut self, index: usize) -> (r: &mut T)
        requires
            old(self).wf(),
            old(self)@.dom().contains(index as int),
        ensures
            *r == old(self)@[index as int],
            final(self).wf(),
            final(self).spec_capacity() == old(self).spec_capacity(),
            final(self).spec_sl_step() == old(self).spec_sl_step(),
            final(self)@ == old(self)@.insert(index as int, *final(r)),
            forall|b: int|
                (#[trigger] final(self).spec_free_list(b)) == old(self).spec_free_list(b),
    {
        proof {
            old(self).lemma_wf_implies_claimed_at_occupied(index as int);
            let pre = *old(self);
            assert forall|post: Self, slot: Slot<T>|
                #![trigger post.wf(), pre.slots@.update(index as int, slot)]
                (post.slots@ == pre.slots@.update(index as int, slot) && slot is Occupied
                    && post.capacity == pre.capacity && post.sl_step == pre.sl_step
                    && post.fl_step == pre.fl_step && post.fl_bitmap == pre.fl_bitmap
                    && post.sl_bitmap == pre.sl_bitmap && post.free_slots == pre.free_slots
                    && post.free_lists == pre.free_lists) implies post.wf() && post@
                == pre@.insert(index as int, slot->Occupied_0) by {
                Self::lemma_fill_restores_wf(pre, post, index as int, slot->Occupied_0);
            }
        }
        match &mut self.slots[index] {
            Slot::Occupied(v) => v,
            Slot::FreeLink(_) => {
                proof {
                    assert(false);
                }
                vstd::pervasive::unreached()
            },
        }
    }

    /// Overwrite the value at `index` in place, touching neither bitmap
    /// level nor any free list. The index must denote an occupied slot.
    pub fn set_unsafe(&mut self, value: T, index: usize)
        requires
            old(self).wf(),
            old(self)@.dom().contains(index as int),
        ensures
            final(self).wf(),
            final(self).spec_capacity() == old(self).spec_capacity(),
            final(self).spec_sl_step() == old(self).spec_sl_step(),
            final(self)@ == old(self)@.insert(index as int, value),
            forall|b: int|
                (#[trigger] final(self).spec_free_list(b)) == old(self).spec_free_list(b),
    {
        proof {
            old(self).lemma_wf_implies_claimed_at_occupied(index as int);
        }
        let ghost mid = *self;
        self.slots[index] = Slot::Occupied(value);
        proof {
            Self::lemma_fill_restores_wf(mid, *self, index as int, value);
        }
    }
}

/// States reached by a chain of fresh-index insertions keep every earlier
/// index in their domain.
proof fn lemma_dom_monotone<T>(
    ms: Seq<Map<int, T>>,
    idxs: Seq<int>,
    vals: Seq<T>,
    j1: int,
    j2: int,
    x: int,
)
    requires
        ms.len() == idxs.len() + 1,
        vals.len() == idxs.len(),
        forall|j: int|
            0 <= j < idxs.len() ==> #[trigger] ms[j + 1] == ms[j].insert(idxs[j], vals[j]),
        0 <= j1 <= j2 <= idxs.len(),
        ms[j1].dom().contains(x),
    ensures
        ms[j2].dom().contains(x),
    decreases j2 - j1,
{
    if j1 < j2 {
        assert(ms[j1 + 1] == ms[j1].insert(idxs[j1], vals[j1]));
        lemma_dom_monotone(ms, idxs, vals, j1 + 1, j2, x);
    }
}

/// Along a chain of fresh-index insertions, the occupancy after `j` steps
/// is exactly `j`.
proof fn lemma_trace_len<T>(ms: Seq<Map<int, T>>, idxs: Seq<int>, vals: Seq<T>, j: int)
    requires
        ms.len() == idxs.len() + 1,
        vals.len() == idxs.len(),
        ms[0].dom().finite(),
        ms[0].len() == 0,
        forall|j2: int| 0 <= j2 < idxs.len() ==> !(#[trigger] ms[j2]).dom().contains(idxs[j2]),
        forall|j2: int|
            0 <= j2 < idxs.len() ==> #[trigger] ms[j2 + 1] == ms[j2].insert(idxs[j2], vals[j2]),
        0 <= j <= idxs.len(),
    ensures
        ms[j].dom().finite(),
        ms[j].len() == j,
    decreases j,
{
    if j > 0 {
        let jp = j - 1;
        lemma_trace_len(ms, idxs, vals, jp);
        assert(ms[jp + 1] == ms[jp].insert(idxs[jp], vals[jp]));
        assert(ms[j].dom() =~= ms[jp].dom().insert(idxs[jp]));
    }
}

/// Filling an empty pool: a chain of at most `cap` fresh-index insertions
/// meets every state below capacity, so — insertion succeeding exactly
/// while occupancy is below capacity — no insertion of the chain fails.
/// Freeing every slot first restores an empty pool, so a second full fill
/// runs without failure too.
pub proof fn lemma_empty_pool_accepts_full_fill<T>(
    ms: Seq<Map<int, T>>,
    idxs: Seq<int>,
    vals: Seq<T>,
    cap: int,
)
    requires
        ms.len() == idxs.len() + 1,
        vals.len() == idxs.len(),
        idxs.len() <= cap,
        ms[0].dom().finite(),
        ms[0].len() == 0,
        forall|j: int| 0 <= j < idxs.len() ==> !(#[trigger] ms[j]).dom().contains(idxs[j]),
        forall|j: int|
            0 <= j < idxs.len() ==> #[trigger] ms[j + 1] == ms[j].insert(idxs[j], vals[j]),
    ensures
        forall|j: int| 0 <= j < idxs.len() ==> (#[trigger] ms[j]).len() < cap,
{
    assert forall|j: int| 0 <= j < idxs.len() implies (#[trigger] ms[j]).len() < cap by {
        lemma_trace_len(ms, idxs, vals, j);
    }
}

/// A sequence of insertions, each at an index free in the state it meets,
/// returns pairwise distinct indices: no index is handed out twice while its
/// earlier value still lives.
pub proof fn lemma_fill_indices_distinct<T>(ms: Seq<Map<int, T>>, idxs: Seq<int>, vals: Seq<T>)
    requires
        ms.len() == idxs.len() + 1,
        vals.len() == idxs.len(),
        forall|j: int| 0 <= j < idxs.len() ==> !(#[trigger] ms[j]).dom().contains(idxs[j]),
        forall|j: int|
            0 <= j < idxs.len() ==> #[trigger] ms[j + 1] == ms[j].insert(idxs[j], vals[j]),
    ensures
        forall|j1: int, j2: int| 0 <= j1 < j2 < idxs.len() ==> idxs[j1] != idxs[j2],
{
    assert forall|j1: int, j2: int| 0 <= j1 < j2 < idxs.len() implies idxs[j1] != idxs[j2] by {
        assert(ms[j1 + 1] == ms[j1].insert(idxs[j1], vals[j1]));
        assert(ms[j1 + 1].dom().contains(idxs[j1]));
        lemma_dom_monotone(ms, idxs, vals, j1 + 1, j2, idxs[j1]);
    }
}

impl<T: Clone> BitmapSlab<T> {
    /// Round trip: the value recorded by a successful insert at index `i` is
    /// exactly what a later lookup of `i` observes.
    pub proof fn lemma_insert_get_round_trip(pre: Self, post: Self, i: int, v: T)
        requires
            post@ == pre@.insert(i, v),
        ensures
            post@.dom().contains(i),
            post@[i] == v,
    {
    }

    /// Basic facts every well-formed pool provides its callers: a positive
    /// capacity, and an abstract map over indices below it.
    pub proof fn lemma_wf_bounds(&self)
        requires
            self.wf(),
        ensures
            0 < self.spec_capacity() <= 1040384,
            forall|i: int| #[trigger] self@.dom().contains(i) ==> 0 <= i < self.spec_capacity(),
            self@.dom().finite(),
            1 <= self.spec_sl_step() <= 254,
            self.spec_capacity() == self.spec_sl_step() * 4096,
    {
        lemma_int_range(0, self.spec_capacity());
        assert(self@.dom().subset_of(set_int_range(0, self.spec_capacity())));
        vstd::set_lib::lemma_len_subset(self@.dom(), set_int_range(0, self.spec_capacity()));
    }

    /// A pool holding as many values as its capacity is exhausted: every
    /// index is occupied, so the next insertion has no free slot anywhere.
    pub proof fn lemma_full_pool_spans(&self)
        requires
            self.wf(),
            self@.len() == self.spec_capacity(),
        ensures
            forall|i: int| 0 <= i < self.spec_capacity() ==> self@.dom().contains(i),
    {
        assert forall|i: int| 0 <= i < self.spec_capacity() implies self@.dom().contains(i) by {
            if !self@.dom().contains(i) {
                self.lemma_free_slot_means_not_full(i);
            }
        }
    }

    /// Claiming a slot and releasing it straight away is the identity on
    /// the allocator's bookkeeping: the abstract map and every bucket's
    /// free list return exactly to their prior state — and both bitmap
    /// levels agree with the free lists under the invariant, so nothing
    /// observable differs. The states are related exactly as `insert`'s and
    /// `remove`'s contracts leave them.
    pub proof fn lemma_claim_release_identity(s0: Self, s1: Self, s2: Self, i: int, v: T)
        requires
            s0.wf(),
            0 <= i,
            0 <= s0.spec_bucket_of(i) < 4096,
            i == s0.spec_bucket_head(s0.spec_bucket_of(i)),
            !s0@.dom().contains(i),
            s1@ == s0@.insert(i, v),
            s1.spec_sl_step() == s0.spec_sl_step(),
            s1.spec_free_list(s0.spec_bucket_of(i)) == s0.spec_free_list(
                s0.spec_bucket_of(i),
            ).drop_first(),
            forall|b: int|
                0 <= b < 4096 && b != s0.spec_bucket_of(i) ==> (#[trigger] s1.spec_free_list(b))
                    == s0.spec_free_list(b),
            s2@ == s1@.remove(i),
            s2.spec_sl_step() == s1.spec_sl_step(),
            s2.spec_free_list(s0.spec_bucket_of(i)) == seq![(i % s0.spec_sl_step()) as u8]
                + s1.spec_free_list(s0.spec_bucket_of(i)),
            forall|b: int|
                0 <= b < 4096 && b != s0.spec_bucket_of(i) ==> (#[trigger] s2.spec_free_list(b))
                    == s1.spec_free_list(b),
        ensures
            s2@ == s0@,
            forall|b: int|
                0 <= b < 4096 ==> (#[trigger] s2.spec_free_list(b)) == s0.spec_free_list(b),
    {
        let b0 = s0.spec_bucket_of(i);
        let st = s0.spec_sl_step();
        let fs0 = s0.spec_free_list(b0);
        assert(fs0.len() != 0);
        assert(s0.bucket_links_wf(b0));
        assert(fs0[0] < st);
        lemma_bucket_pos(b0, fs0[0] as int, st);
        assert(i % st == fs0[0]);
        assert(s2.spec_free_list(b0) =~= fs0);
        assert(s2@ =~= s0@);
    }

    /// Full reclamation: two full pools of one capacity hold exactly the
    /// same index set, so filling, freeing everything and filling again
    /// hands out a permutation of the first fill's indices.
    pub proof fn lemma_reclaimed_indices_permute(a: Self, b: Self)
        requires
            a.wf(),
            b.wf(),
            a.spec_capacity() == b.spec_capacity(),
            a@.len() == a.spec_capacity(),
            b@.len() == b.spec_capacity(),
        ensures
            a@.dom() =~= b@.dom(),
    {
        a.lemma_full_pool_spans();
        b.lemma_full_pool_spans();
    }
}

} // verus!
