//! Byte-size accounting for columnar output: alignment padding and the
//! running prefix/key/value sums kept by a delta buffer.

use vstd::prelude::*;

verus! {

/// Mathematical form of the 64-byte alignment rule: the smallest multiple of
/// 64 that is at least `n`.
pub open spec fn round_up_64(n: int) -> int {
    ((n + 63) / 64) * 64
}

/// The byte size of a 4-byte-offset buffer for `len` elements: one more
/// offset than elements, padded to the 64-byte boundary.
pub open spec fn offset_buffer_size(len: int) -> int {
    round_up_64((len + 1) * 4)
}

pub proof fn lemma_round_up_64_bounds(n: int)
    requires
        n >= 0,
    ensures
        n <= round_up_64(n) < n + 64,
        round_up_64(n) % 64 == 0,
{
    assert(n <= ((n + 63) / 64) * 64 < n + 64 && (((n + 63) / 64) * 64) % 64 == 0)
        by (nonlinear_arith);
}

pub proof fn lemma_round_up_64_monotonic(a: int, b: int)
    requires
        0 <= a <= b,
    ensures
        round_up_64(a) <= round_up_64(b),
{
    assert(((a + 63) / 64) * 64 <= ((b + 63) / 64) * 64) by (nonlinear_arith)
        requires
            0 <= a <= b,
    ;
}

/// Rounds `n` up to the next multiple of 64, the alignment unit of the
/// columnar buffers.
pub fn round_upto_multiple_of_64(n: usize) -> (r: usize)
    requires
        n + 63 <= usize::MAX,
    ensures
        r == round_up_64(n as int),
{
    proof {
        lemma_round_up_64_bounds(n as int);
    }
    (n + 63) / 64 * 64
}

/// Running byte-size sums for the prefixes, keys and values currently held
/// by a delta buffer, each exposed raw and padded to the 64-byte boundary.
pub struct SingleValueSizeTracker {
    prefix_size: usize,
    key_size: usize,
    value_size: usize,
}

impl SingleValueSizeTracker {
    pub fn new() -> (r: Self)
        ensures
            r.prefix_size() == 0,
            r.key_size() == 0,
            r.value_size() == 0,
    {
        SingleValueSizeTracker { prefix_size: 0, key_size: 0, value_size: 0 }
    }

    /// Seeds a tracker directly, as a split does for the buffer it creates.
    pub fn with_values(prefix_size: usize, key_size: usize, value_size: usize) -> (r: Self)
        ensures
            r.prefix_size() == prefix_size,
            r.key_size() == key_size,
            r.value_size() == value_size,
    {
        SingleValueSizeTracker { prefix_size, key_size, value_size }
    }

    pub closed spec fn prefix_size(self) -> int {
        self.prefix_size as int
    }

    pub closed spec fn key_size(self) -> int {
        self.key_size as int
    }

    pub closed spec fn value_size(self) -> int {
        self.value_size as int
    }

    /// The three sums are machine integers: never negative, never above
    /// `usize::MAX`.
    pub proof fn lemma_sizes_in_range(self)
        ensures
            0 <= self.prefix_size() <= usize::MAX,
            0 <= self.key_size() <= usize::MAX,
            0 <= self.value_size() <= usize::MAX,
    {
    }

    pub fn get_prefix_size(&self) -> (r: usize)
        ensures
            r == self.prefix_size(),
    {
        self.prefix_size
    }

    pub fn get_key_size(&self) -> (r: usize)
        ensures
            r == self.key_size(),
    {
        self.key_size
    }

    pub fn get_value_size(&self) -> (r: usize)
        ensures
            r == self.value_size(),
    {
        self.value_size
    }

    pub fn get_arrow_padded_prefix_size(&self) -> (r: usize)
        requires
            self.prefix_size() + 63 <= usize::MAX,
        ensures
            r == round_up_64(self.prefix_size()),
    {
        round_upto_multiple_of_64(self.prefix_size)
    }

    pub fn get_arrow_padded_key_size(&self) -> (r: usize)
        requires
            self.key_size() + 63 <= usize::MAX,
        ensures
            r == round_up_64(self.key_size()),
    {
        round_upto_multiple_of_64(self.key_size)
    }

    pub fn get_arrow_padded_value_size(&self) -> (r: usize)
        requires
            self.value_size() + 63 <= usize::MAX,
        ensures
            r == round_up_64(self.value_size()),
    {
        round_upto_multiple_of_64(self.value_size)
    }

    pub fn add_prefix_size(&mut self, n: usize)
        requires
            old(self).prefix_size() + n <= usize::MAX,
        ensures
            final(self).prefix_size() == old(self).prefix_size() + n,
            final(self).key_size() == old(self).key_size(),
            final(self).value_size() == old(self).value_size(),
    {
        self.prefix_size = self.prefix_size + n;
    }

    pub fn add_key_size(&mut self, n: usize)
        requires
            old(self).key_size() + n <= usize::MAX,
        ensures
            final(self).key_size() == old(self).key_size() + n,
            final(self).prefix_size() == old(self).prefix_size(),
            final(self).value_size() == old(self).value_size(),
    {
        self.key_size = self.key_size + n;
    }

    pub fn add_value_size(&mut self, n: usize)
        requires
            old(self).value_size() + n <= usize::MAX,
        ensures
            final(self).value_size() == old(self).value_size() + n,
            final(self).prefix_size() == old(self).prefix_size(),
            final(self).key_size() == old(self).key_size(),
    {
        self.value_size = self.value_size + n;
    }

    /// Subtracting more than the current sum is a caller bookkeeping error
    /// and is ruled out by precondition.
    pub fn subtract_prefix_size(&mut self, n: usize)
        requires
            n <= old(self).prefix_size(),
        ensures
            final(self).prefix_size() == old(self).prefix_size() - n,
            final(self).key_size() == old(self).key_size(),
            final(self).value_size() == old(self).value_size(),
    {
        self.prefix_size = self.prefix_size - n;
    }

    pub fn subtract_key_size(&mut self, n: usize)
        requires
            n <= old(self).key_size(),
        ensures
            final(self).key_size() == old(self).key_size() - n,
            final(self).prefix_size() == old(self).prefix_size(),
            final(self).value_size() == old(self).value_size(),
    {
        self.key_size = self.key_size - n;
    }

    pub fn subtract_value_size(&mut self, n: usize)
        requires
            n <= old(self).value_size(),
        ensures
            final(self).value_size() == old(self).value_size() - n,
            final(self).prefix_size() == old(self).prefix_size(),
            final(self).key_size() == old(self).key_size(),
    {
        self.value_size = self.value_size - n;
    }
}

} // verus!
