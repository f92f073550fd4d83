//! The hash of a block: Keccak-256 over its wire form.

use vstd::prelude::*;
use crate::bytes::{le_bytes, le_value, lemma_le_bytes_len, u64_to_bytes};
use crate::types::{Block, BODY_SIZE};
use crate::uint256::{be_bytes, u256_to_bytes, U256};

verus! {

/// The Keccak-256 digest of `data`, thirty-two bytes.
pub uninterp spec fn keccak256(data: Seq<u8>) -> Seq<u8>;

/// `sha3::Keccak256::digest`: the thirty-two bytes of the Keccak-256 digest
/// of `data`.
#[verifier::external_body]
fn keccak256_digest(data: &Vec<u8>) -> (digest: Vec<u8>)
    ensures
        digest@ == keccak256(data@),
        digest@.len() == 32,
{
    <sha3::Keccak256 as sha3::Digest>::digest(data).to_vec()
}

/// Number of bytes in the wire form of a block.
pub const WIRE_SIZE: usize = 1328;

/// The wire form of a block: the parent's hash in thirty-two bytes, most
/// significant first; the timestamp and the nonce in eight bytes each, least
/// significant first; then the body.
pub open spec fn wire_bytes(block: Block) -> Seq<u8> {
    be_bytes(block.prev@, 32) + le_bytes(block.time as nat, 8) + le_bytes(block.rand as nat, 8)
        + block.body.value@
}

/// The hash of a block: the digest of its wire form, read as a number with
/// the least significant byte first.
pub open spec fn block_hash(block: Block) -> U256 {
    U256::of(le_value(keccak256(wire_bytes(block))))
}

/// Writes a block in its wire form.
pub fn encode_block(block: &Block) -> (bytes: Vec<u8>)
    ensures
        bytes@ == wire_bytes(*block),
        bytes@.len() == WIRE_SIZE,
{
    let mut bytes = u256_to_bytes(block.prev);
    let mut time = u64_to_bytes(block.time);
    let mut rand = u64_to_bytes(block.rand);
    proof {
        lemma_le_bytes_len(block.time as nat, 8);
        lemma_le_bytes_len(block.rand as nat, 8);
    }
    bytes.append(&mut time);
    bytes.append(&mut rand);
    let ghost head = bytes@;
    let mut i: usize = 0;
    while i < BODY_SIZE
        invariant
            i <= BODY_SIZE,
            head.len() == 48,
            bytes@ == head + block.body.value@.subrange(0, i as int),
        decreases BODY_SIZE - i,
    {
        bytes.push(block.body.value[i]);
        assert(bytes@ =~= head + block.body.value@.subrange(0, i + 1));
        i += 1;
    }
    assert(block.body.value@.subrange(0, BODY_SIZE as int) =~= block.body.value@);
    bytes
}

/// The hash that a block goes by.
pub fn hash_block(block: &Block) -> (hash: U256)
    ensures
        hash == block_hash(*block),
{
    let bytes = encode_block(block);
    let digest = keccak256_digest(&bytes);
    match U256::from_le_bytes(digest.as_slice()) {
        Some(hash) => {
            proof {
                hash.lemma_of_view();
            }
            hash
        },
        None => U256::zero(),
    }
}

} // verus!
