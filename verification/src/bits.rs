//! Strings of bits and the bytes that pack them, eight to a byte with the
//! first bit highest. The strings are kept in a `bit_vec::BitVec`.

use vstd::prelude::*;

verus! {

/// `bit_vec::BitVec`, declared so that a bit vector can be held and handed
/// on. Nothing of its inside is known; what it holds goes by the name below.
#[verifier::external_type_specification]
#[verifier::external_body]
#[verifier::reject_recursive_types(B)]
pub struct ExBitVec<B>(bit_vec::BitVec<B>);

/// The bits that a bit vector holds, in their order.
pub uninterp spec fn bitvec_bits(bits: bit_vec::BitVec) -> Seq<bool>;

/// What bit `j` of a byte is worth, counting from the highest.
pub open spec fn bit_weight(j: int) -> int {
    if j == 0 {
        128
    } else if j == 1 {
        64
    } else if j == 2 {
        32
    } else if j == 3 {
        16
    } else if j == 4 {
        8
    } else if j == 5 {
        4
    } else if j == 6 {
        2
    } else {
        1
    }
}

/// Bit `j` of a byte, counting from the highest.
pub open spec fn bit_of_byte(byte: u8, j: int) -> bool {
    (byte as int / bit_weight(j)) % 2 == 1
}

/// What the bit at `i` adds to its byte: its weight if `bits` has a bit
/// there and it is set, else nothing.
pub open spec fn bit_value(bits: Seq<bool>, i: int) -> int {
    if 0 <= i < bits.len() && bits[i] {
        bit_weight(i % 8)
    } else {
        0
    }
}

/// Byte `k` of the packing of `bits`.
pub open spec fn byte_of_bits(bits: Seq<bool>, k: int) -> u8 {
    (bit_value(bits, 8 * k) + bit_value(bits, 8 * k + 1) + bit_value(bits, 8 * k + 2) + bit_value(
        bits,
        8 * k + 3,
    ) + bit_value(bits, 8 * k + 4) + bit_value(bits, 8 * k + 5) + bit_value(bits, 8 * k + 6)
        + bit_value(bits, 8 * k + 7)) as u8
}

/// The bits of `bytes`: eight for each byte, the highest first.
pub open spec fn bits_of_bytes(bytes: Seq<u8>) -> Seq<bool> {
    Seq::new(8 * bytes.len(), |i: int| bit_of_byte(bytes[i / 8], i % 8))
}

/// The bytes that pack `bits`; a last byte that is not full ends in unset bits.
pub open spec fn bytes_of_bits(bits: Seq<bool>) -> Seq<u8> {
    Seq::new((bits.len() + 7) / 8, |k: int| byte_of_bits(bits, k))
}

/// What bit `j` of a byte adds to the byte: its weight if it is set.
pub open spec fn bit_share(byte: u8, j: int) -> int {
    if bit_of_byte(byte, j) {
        bit_weight(j)
    } else {
        0
    }
}

/// Packing the bits of a string of bytes gives the bytes back.
pub proof fn lemma_bits_round_trip(bytes: Seq<u8>)
    ensures
        bytes_of_bits(bits_of_bytes(bytes)) == bytes,
{
    let bits = bits_of_bytes(bytes);
    assert((bits.len() + 7) / 8 == bytes.len());
    assert forall|k: int| 0 <= k < bytes.len() implies byte_of_bits(bits, k) == bytes[k] by {
        lemma_bit_back(bytes, k, 0);
        lemma_bit_back(bytes, k, 1);
        lemma_bit_back(bytes, k, 2);
        lemma_bit_back(bytes, k, 3);
        lemma_bit_back(bytes, k, 4);
        lemma_bit_back(bytes, k, 5);
        lemma_bit_back(bytes, k, 6);
        lemma_bit_back(bytes, k, 7);
        lemma_byte_is_its_bits(bytes[k]);
    }
    assert(bytes_of_bits(bits) =~= bytes);
}

/// Among the bits of a string of bytes, bit `j` of byte `k` stands at `8 * k + j`.
proof fn lemma_bit_back(bytes: Seq<u8>, k: int, j: int)
    requires
        0 <= k < bytes.len(),
        0 <= j < 8,
    ensures
        bit_value(bits_of_bytes(bytes), 8 * k + j) == bit_share(bytes[k], j),
{
    let i = 8 * k + j;
    assert(i / 8 == k);
    assert(i % 8 == j);
    assert(bits_of_bytes(bytes)[i] == bit_of_byte(bytes[i / 8], i % 8));
}

/// A byte is the sum of what its set bits are worth.
pub proof fn lemma_byte_is_its_bits(b: u8)
    ensures
        b as int == bit_share(b, 0) + bit_share(b, 1) + bit_share(b, 2) + bit_share(b, 3)
            + bit_share(b, 4) + bit_share(b, 5) + bit_share(b, 6) + bit_share(b, 7),
{
    assert(b == (b & 128) + (b & 64) + (b & 32) + (b & 16) + (b & 8) + (b & 4) + (b & 2) + (b
        & 1)) by (bit_vector);
    assert(((b / 128) % 2 == 1 ==> (b & 128) == 128) && ((b / 128) % 2 != 1 ==> (b & 128) == 0))
        by (bit_vector);
    assert(((b / 64) % 2 == 1 ==> (b & 64) == 64) && ((b / 64) % 2 != 1 ==> (b & 64) == 0))
        by (bit_vector);
    assert(((b / 32) % 2 == 1 ==> (b & 32) == 32) && ((b / 32) % 2 != 1 ==> (b & 32) == 0))
        by (bit_vector);
    assert(((b / 16) % 2 == 1 ==> (b & 16) == 16) && ((b / 16) % 2 != 1 ==> (b & 16) == 0))
        by (bit_vector);
    assert(((b / 8) % 2 == 1 ==> (b & 8) == 8) && ((b / 8) % 2 != 1 ==> (b & 8) == 0))
        by (bit_vector);
    assert(((b / 4) % 2 == 1 ==> (b & 4) == 4) && ((b / 4) % 2 != 1 ==> (b & 4) == 0))
        by (bit_vector);
    assert(((b / 2) % 2 == 1 ==> (b & 2) == 2) && ((b / 2) % 2 != 1 ==> (b & 2) == 0))
        by (bit_vector);
    assert(((b / 1) % 2 == 1 ==> (b & 1) == 1) && ((b / 1) % 2 != 1 ==> (b & 1) == 0))
        by (bit_vector);
}

/// `bit_vec::BitVec::to_bytes`: the bytes that pack the bits, the first bit
/// highest in the first byte, and unset bits after the last one.
#[verifier::external_body]
fn bitvec_pack(bits: &bit_vec::BitVec) -> (bytes: Vec<u8>)
    ensures
        bytes@ == bytes_of_bits(bitvec_bits(*bits)),
{
    bits.to_bytes()
}

/// `bit_vec::BitVec::from_bytes`: eight bits for each byte, the highest
/// first. The crate panics where eight times the length overflows.
#[verifier::external_body]
fn bitvec_unpack(bytes: &[u8]) -> (bits: bit_vec::BitVec)
    requires
        bytes@.len() * 8 <= usize::MAX,
    ensures
        bitvec_bits(bits) == bits_of_bytes(bytes@),
{
    bit_vec::BitVec::from_bytes(bytes)
}

/// The bytes that pack the bits, the first bit highest in the first byte.
pub fn bitvec_to_bytes(bits: &bit_vec::BitVec) -> (bytes: Vec<u8>)
    ensures
        bytes@ == bytes_of_bits(bitvec_bits(*bits)),
        bytes@.len() == (bitvec_bits(*bits).len() + 7) / 8,
{
    bitvec_pack(bits)
}

/// The bits of the bytes, eight for each, the highest first.
pub fn bytes_to_bitvec(bytes: &[u8]) -> (bits: bit_vec::BitVec)
    requires
        bytes@.len() * 8 <= usize::MAX,
    ensures
        bitvec_bits(bits) == bits_of_bytes(bytes@),
        bitvec_bits(bits).len() == 8 * bytes@.len(),
        bytes_of_bits(bitvec_bits(bits)) == bytes@,
{
    proof {
        lemma_bits_round_trip(bytes@);
    }
    bitvec_unpack(bytes)
}

} // verus!
