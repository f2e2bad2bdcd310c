//! A scored bit vector: the row of an MHD memory.
use vstd::prelude::*;

use crate::bits::{bit_at, bytes_for, get_bit, put_bit};
use crate::chance::{fill_random, random_up_to};

verus! {

/// Scores are unsigned integers; larger is better.
pub type ScoreType = u32;

pub const ZERO_SCORE: ScoreType = 0;

/// Largest score given to a randomized sample.
pub const MAX_RANDOM_SCORE: ScoreType = 1000;

/// A bit vector of `width` bits (packed most significant bit first) and its score.
#[derive(Debug, Clone)]
pub struct Sample {
    pub width: usize,
    pub bytes: Vec<u8>,
    pub score: ScoreType,
}

/// Bits `k >= r` of an octet masked to its first `r` bits are zero.
proof fn lemma_clear_tail(y: u8, r: u8, k: u8)
    requires
        1 <= r < 8,
        r <= k < 8,
    ensures
        (y & (0xFFu8 << (8 - r) as u8)) & (0x80u8 >> k) == 0,
{
    assert((y & (0xFFu8 << (8 - r) as u8)) & (0x80u8 >> k) == 0) by (bit_vector)
        requires
            1 <= r < 8,
            r <= k < 8,
    ;
}

impl Sample {
    /// The octet count matches the width.
    pub open spec fn wf(&self) -> bool {
        self.bytes@.len() == bytes_for(self.width as nat)
    }

    /// Number of octets needed for `size_in_bits` bits.
    pub fn bits_to_bytes(size_in_bits: usize) -> (r: usize)
        ensures
            r == bytes_for(size_in_bits as nat),
    {
        (size_in_bits / 8) + if size_in_bits % 8 == 0 {
            0
        } else {
            1
        }
    }

    pub fn size_in_bytes(&self) -> (r: usize)
        ensures
            r == self.bytes@.len(),
    {
        self.bytes.len()
    }

    pub fn size(&self) -> (r: usize)
        ensures
            r == self.width,
    {
        self.width
    }

    /// The empty sample: no bits, zero score.
    pub fn default() -> (r: Self)
        ensures
            r.width == 0,
            r.bytes@.len() == 0,
            r.score == ZERO_SCORE,
            r.wf(),
    {
        Sample { width: 0, bytes: Vec::new(), score: ZERO_SCORE }
    }

    /// All bits zero.
    pub fn new(size_in_bits: usize, starting_score: ScoreType) -> (r: Self)
        ensures
            r.width == size_in_bits,
            r.score == starting_score,
            r.wf(),
            forall|i: int| 0 <= i < r.bytes@.len() ==> r.bytes@[i] == 0u8,
    {
        let n = Self::bits_to_bytes(size_in_bits);
        Sample { width: size_in_bits, bytes: vec![0u8; n], score: starting_score }
    }

    /// All bits one.
    pub fn new_ones(size_in_bits: usize, starting_score: ScoreType) -> (r: Self)
        ensures
            r.width == size_in_bits,
            r.score == starting_score,
            r.wf(),
            forall|i: int| 0 <= i < r.bytes@.len() ==> r.bytes@[i] == 0xFFu8,
    {
        let n = Self::bits_to_bytes(size_in_bits);
        Sample { width: size_in_bits, bytes: vec![0xFFu8; n], score: starting_score }
    }

    /// Random bits within the width, zero bits beyond it (length kept), and a random
    /// score in `0..=MAX_RANDOM_SCORE`.
    pub fn randomize(&mut self)
        requires
            old(self).wf(),
        ensures
            final(self).wf(),
            final(self).width == old(self).width,
            final(self).bytes@.len() == old(self).bytes@.len(),
            final(self).score <= MAX_RANDOM_SCORE,
            forall|i: nat|
                final(self).width <= i < 8 * final(self).bytes@.len() ==> !#[trigger] bit_at(
                    final(self).bytes@,
                    i,
                ),
    {
        self.score = random_up_to(MAX_RANDOM_SCORE);
        fill_random(&mut self.bytes);
        let rem = self.width % 8;
        if rem != 0 {
            let last = self.bytes.len() - 1;
            let keep: u8 = 0xFFu8 << ((8 - rem) as u8);
            let pre = self.bytes[last];
            self.bytes.set(last, pre & keep);
            proof {
                assert forall|i: nat| self.width <= i < 8 * self.bytes@.len() implies !#[trigger] bit_at(
                    self.bytes@,
                    i,
                ) by {
                    let k = (i % 8) as u8;
                    assert(i / 8 == last);
                    assert(rem as u8 <= k);
                    lemma_clear_tail(pre, rem as u8, k);
                }
            }
        }
    }

    /// A randomized sample of the given width.
    pub fn random(size_in_bits: usize) -> (r: Self)
        ensures
            r.width == size_in_bits,
            r.wf(),
            r.score <= MAX_RANDOM_SCORE,
    {
        let mut result = Self::new(size_in_bits, ZERO_SCORE);
        result.randomize();
        result
    }

    /// The octet that holds bit `bit_index`.
    pub fn byte_index(bit_index: usize) -> (r: usize)
        ensures
            r == bit_index / 8,
    {
        bit_index / 8
    }

    pub fn get_bit(&self, bit_index: usize) -> (r: bool)
        requires
            bit_index / 8 < self.bytes@.len(),
        ensures
            r == bit_at(self.bytes@, bit_index as nat),
    {
        get_bit(self.bytes.as_slice(), bit_index)
    }

    pub fn set_bit(&mut self, bit_index: usize, bit_value: bool)
        requires
            bit_index / 8 < old(self).bytes@.len(),
        ensures
            final(self).width == old(self).width,
            final(self).score == old(self).score,
            final(self).bytes@.len() == old(self).bytes@.len(),
            bit_at(final(self).bytes@, bit_index as nat) == bit_value,
            forall|j: nat|
                j / 8 < old(self).bytes@.len() && j != bit_index ==> #[trigger] bit_at(
                    final(self).bytes@,
                    j,
                ) == bit_at(old(self).bytes@, j),
    {
        put_bit(self.bytes.as_mut_slice(), bit_index, bit_value);
    }

    /// A copy with the same width, octets and score.
    pub fn duplicate(&self) -> (r: Self)
        ensures
            r.width == self.width,
            r.bytes@ == self.bytes@,
            r.score == self.score,
    {
        Sample { width: self.width, bytes: self.bytes.clone(), score: self.score }
    }

    /// Samples are equal when their octets are; the score is metadata.
    pub fn same_bytes(&self, other: &Sample) -> (r: bool)
        ensures
            r == (self.bytes@ == other.bytes@),
    {
        if self.bytes.len() != other.bytes.len() {
            return false;
        }
        let mut i: usize = 0;
        while i < self.bytes.len()
            invariant
                i <= self.bytes@.len(),
                self.bytes@.len() == other.bytes@.len(),
                forall|k: int| 0 <= k < i ==> self.bytes@[k] == other.bytes@[k],
            decreases self.bytes@.len() - i,
        {
            if self.bytes[i] != other.bytes[i] {
                return false;
            }
            i = i + 1;
        }
        assert(self.bytes@ =~= other.bytes@);
        true
    }
}

/// Samples are equal when their octets are: the score is metadata.
impl PartialEq for Sample {
    fn eq(&self, other: &Sample) -> (r: bool) {
        self.same_bytes(other)
    }
}

impl vstd::std_specs::cmp::PartialEqSpecImpl for Sample {
    open spec fn obeys_eq_spec() -> bool {
        true
    }

    open spec fn eq_spec(&self, other: &Sample) -> bool {
        self.bytes@ == other.bytes@
    }
}

} // verus!
