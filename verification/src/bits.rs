use vstd::prelude::*;

verus! {

/// Number of bits in one word of the bitmap hierarchy.
pub const WORD_BITS: usize = 64;

/// True iff bit `i` of `w` is one.
pub open spec fn bit_set(w: u64, i: u64) -> bool
    recommends
        i < 64,
{
    w & (1u64 << i) != 0u64
}

/// Setting bit `i` to one leaves every other bit alone.
pub proof fn lemma_bit_or_one(w: u64, i: u64)
    by (bit_vector)
    requires
        i < 64,
    ensures
        forall|j: u64| j < 64 ==> bit_set(w | (1u64 << i), j) == (j == i || bit_set(w, j)),
{
}

/// Clearing bit `i` leaves every other bit alone.
pub proof fn lemma_bit_and_zero(w: u64, i: u64)
    by (bit_vector)
    requires
        i < 64,
    ensures
        forall|j: u64| j < 64 ==> bit_set(w & !(1u64 << i), j) == (j != i && bit_set(w, j)),
{
}

/// Every bit of the all-ones word is one.
pub proof fn lemma_max_all_set(w: u64)
    by (bit_vector)
    requires
        w == u64::MAX,
    ensures
        forall|j: u64| j < 64 ==> bit_set(w, j),
{
}

/// The zero word has no bit set.
pub proof fn lemma_zero_no_bits()
    by (bit_vector)
    ensures
        forall|j: u64| j < 64 ==> !bit_set(0u64, j),
{
}

/// Reading bit `j` by shifting agrees with `bit_set`.
pub proof fn lemma_shift_bit(w: u64)
    by (bit_vector)
    ensures
        forall|j: u64| j < 64 ==> (((w >> j) & 1u64 == 1u64) <==> bit_set(w, j)),
{
}

/// A bit vector of exactly one machine word: the leaf primitive under both
/// levels of the allocator's bitmap hierarchy. Its abstract value is the
/// word itself; `bit_set` reads individual bits of that value.
#[derive(Clone, Copy, Debug)]
pub struct WordBitmap {
    word: u64,
}

impl View for WordBitmap {
    type V = u64;

    closed spec fn view(&self) -> u64 {
        self.word
    }
}

impl Default for WordBitmap {
    /// An empty bitmap: every bit is zero.
    fn default() -> (r: Self)
        ensures
            r@ == 0u64,
    {
        WordBitmap { word: 0 }
    }
}

impl WordBitmap {
    /// True iff every bit is set.
    pub fn is_max(&self) -> (r: bool)
        ensures
            r == (self@ == u64::MAX),
    {
        self.word == u64::MAX
    }

    /// Position of the least-significant zero bit. The caller must first
    /// check `is_max`; on an all-ones word no zero bit exists.
    pub fn first_zero_lsb(&self) -> (r: usize)
        requires
            self@ != u64::MAX,
        ensures
            r < 64,
            !bit_set(self@, r as u64),
            forall|j: u64| j < r ==> bit_set(self@, j),
    {
        let r = self.word.trailing_ones() as usize;
        proof {
            vstd::std_specs::bits::axiom_u64_trailing_ones(self.word);
            lemma_shift_bit(self.word);
        }
        r
    }

    /// Set bit `pos` to one.
    pub fn set_bit_one(&mut self, pos: usize)
        requires
            pos < 64,
        ensures
            final(self)@ == old(self)@ | (1u64 << pos as u64),
    {
        self.word = self.word | (1u64 << pos as u64);
    }

    /// Set bit `pos` to zero.
    pub fn set_bit_zero(&mut self, pos: usize)
        requires
            pos < 64,
        ensures
            final(self)@ == old(self)@ & !(1u64 << pos as u64),
    {
        self.word = self.word & !(1u64 << pos as u64);
    }
}

} // verus!
