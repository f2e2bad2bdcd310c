//! Packed bit buffers: bit `i` lives in octet `i / 8`, most significant bit first.
use vstd::prelude::*;

verus! {

/// The mask that selects bit `i % 8` of an octet, counting from the most significant bit.
pub open spec fn bit_mask_spec(i: nat) -> u8 {
    (0x80u8 >> ((i % 8) as u8)) as u8
}

/// The value of bit `i` of the buffer `bytes`.
pub open spec fn bit_at(bytes: Seq<u8>, i: nat) -> bool {
    bytes[(i / 8) as int] & bit_mask_spec(i) != 0
}

/// Number of octets needed for `width` bits.
pub open spec fn bytes_for(width: nat) -> nat {
    if width % 8 == 0 { width / 8 } else { width / 8 + 1 }
}

proof fn lemma_mask_bits(b: u8, k: u8)
    requires
        k < 8,
    ensures
        (b | (0x80u8 >> k)) & (0x80u8 >> k) != 0,
        (b & !(0x80u8 >> k)) & (0x80u8 >> k) == 0,
        forall|j: u8| j < 8 && j != k ==> ((b | (0x80u8 >> k)) & (0x80u8 >> j) != 0) == (b & (0x80u8
            >> j) != 0),
        forall|j: u8| j < 8 && j != k ==> ((b & !(0x80u8 >> k)) & (0x80u8 >> j) != 0) == (b & (0x80u8
            >> j) != 0),
{
    assert((b | (0x80u8 >> k)) & (0x80u8 >> k) != 0) by (bit_vector)
        requires
            k < 8,
    ;
    assert((b & !(0x80u8 >> k)) & (0x80u8 >> k) == 0) by (bit_vector)
        requires
            k < 8,
    ;
    assert forall|j: u8| j < 8 && j != k implies ((b | (0x80u8 >> k)) & (0x80u8 >> j) != 0) == (b
        & (0x80u8 >> j) != 0) by {
        assert(((b | (0x80u8 >> k)) & (0x80u8 >> j) != 0) == (b & (0x80u8 >> j) != 0))
            by (bit_vector)
            requires
                j < 8 && k < 8 && j != k,
        ;
    }
    assert forall|j: u8| j < 8 && j != k implies ((b & !(0x80u8 >> k)) & (0x80u8 >> j) != 0) == (b
        & (0x80u8 >> j) != 0) by {
        assert(((b & !(0x80u8 >> k)) & (0x80u8 >> j) != 0) == (b & (0x80u8 >> j) != 0))
            by (bit_vector)
            requires
                j < 8 && k < 8 && j != k,
        ;
    }
}

/// Reads bit `bit_index` of `bytes`.
pub fn get_bit(bytes: &[u8], bit_index: usize) -> (r: bool)
    requires
        bit_index / 8 < bytes@.len(),
    ensures
        r == bit_at(bytes@, bit_index as nat),
{
    let byte_index = bit_index / 8;
    let mask_index = (bit_index % 8) as u8;
    let bit_mask: u8 = 0x80u8 >> mask_index;
    bytes[byte_index] & bit_mask != 0
}

/// Sets bit `bit_index` of `bytes` to `new_value`; every other bit is kept.
pub fn put_bit(bytes: &mut [u8], bit_index: usize, new_value: bool)
    requires
        bit_index / 8 < old(bytes)@.len(),
    ensures
        final(bytes)@.len() == old(bytes)@.len(),
        bit_at(final(bytes)@, bit_index as nat) == new_value,
        forall|j: nat|
            j / 8 < old(bytes)@.len() && j != bit_index ==> #[trigger] bit_at(final(bytes)@, j)
                == bit_at(old(bytes)@, j),
        forall|k: int| 0 <= k < old(bytes)@.len() && k != bit_index / 8 ==> final(bytes)@[k] == old(
            bytes,
        )@[k],
{
    let byte_index = bit_index / 8;
    let mask_index = (bit_index % 8) as u8;
    let bit_mask: u8 = 0x80u8 >> mask_index;
    let old_byte = bytes[byte_index];
    let new_byte = if new_value {
        old_byte | bit_mask
    } else {
        old_byte & !bit_mask
    };
    bytes[byte_index] = new_byte;
    proof {
        lemma_mask_bits(old_byte, mask_index);
        assert forall|j: nat|
            j / 8 < old(bytes)@.len() && j != bit_index implies #[trigger] bit_at(bytes@, j)
            == bit_at(old(bytes)@, j) by {
            if j / 8 == bit_index / 8 {
                let jk = (j % 8) as u8;
                assert(jk != mask_index);
            }
        }
    }
}

} // verus!
