use chainstate::hashing::{encode_block, hash_block, WIRE_SIZE};
use chainstate::types::{Block, Body, BODY_SIZE};
use chainstate::uint256::{u256, U256};

fn zero_block() -> Block {
    Block { prev: u256(0), time: 0, rand: 0, body: Body { value: [0; BODY_SIZE] } }
}

fn sample_block() -> Block {
    let mut value = [0u8; BODY_SIZE];
    value[0] = 1;
    value[1] = 2;
    value[2] = 0xaa;
    value[3] = 0xbb;
    Block { prev: u256(1), time: 2, rand: 3, body: Body { value } }
}

#[test]
fn encode_block_lays_out_the_wire_form() {
    let bytes = encode_block(&sample_block());
    assert_eq!(bytes.len(), WIRE_SIZE);
    assert_eq!(bytes.len(), 32 + 8 + 8 + BODY_SIZE);
    assert_eq!(bytes[..31], [0u8; 31]);
    assert_eq!(bytes[31], 1);
    assert_eq!(bytes[32..40], [2, 0, 0, 0, 0, 0, 0, 0]);
    assert_eq!(bytes[40..48], [3, 0, 0, 0, 0, 0, 0, 0]);
    assert_eq!(bytes[48..52], [1, 2, 0xaa, 0xbb]);
    assert_eq!(bytes[52..], [0u8; BODY_SIZE - 4]);
}

#[test]
fn hash_block_of_the_zero_block() {
    assert_eq!(
        hash_block(&zero_block()),
        U256 {
            l0: 0x41c4bbe33564da22,
            l1: 0xb67ab84897424412,
            l2: 0x7d51401db324cdfc,
            l3: 0x6feac57d4eb13e69,
        }
    );
}

#[test]
fn hash_block_of_a_sample_block() {
    assert_eq!(
        hash_block(&sample_block()),
        U256 {
            l0: 0xf3975f0d459ce7b8,
            l1: 0xf80dfd65adbb2119,
            l2: 0xc5eaf573b75b1f35,
            l3: 0xcf3aedd6247c80d8,
        }
    );
}

#[test]
fn hash_block_is_keccak_of_the_wire_form() {
    let block = sample_block();
    let digest = <sha3::Keccak256 as sha3::Digest>::digest(encode_block(&block));
    let expected = primitive_types::U256::from_little_endian(&digest);
    let hash = hash_block(&block);
    assert_eq!(primitive_types::U256([hash.l0, hash.l1, hash.l2, hash.l3]), expected);
}

#[test]
fn hash_block_tells_blocks_apart() {
    let mut other = sample_block();
    other.rand = 4;
    assert_ne!(hash_block(&sample_block()), hash_block(&other));
    assert_eq!(hash_block(&sample_block()), hash_block(&sample_block()));
}
