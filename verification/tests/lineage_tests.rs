use chainstate::lineage::{work_from_target, Policy, Record};
use chainstate::types::{Block, Body, HashedBlock, BODY_SIZE};
use chainstate::uint256::{u256, U256};

fn word(l0: u64, l1: u64, l2: u64, l3: u64) -> U256 {
    U256 { l0, l1, l2, l3 }
}

fn policy() -> Policy {
    Policy { initial_target: word(0, 0, 0, 256), window: 2, window_time: 100 }
}

fn block(prev: U256, time: u64) -> Block {
    Block { prev, time, rand: 0, body: Body { value: [0; BODY_SIZE] } }
}

fn hashed(hash: u128, prev: u128, time: u64) -> HashedBlock {
    HashedBlock { hash: u256(hash), block: block(u256(prev), time) }
}

fn child(policy: &Policy, parent: &Record, hash: u128, time: u64) -> Record {
    policy.child_record(parent, 0, HashedBlock { hash: u256(hash), block: block(parent.hash, time) })
}

#[test]
fn work_from_target_is_the_modulus_over_target_plus_one() {
    assert_eq!(work_from_target(word(0, 0, 0, 256)), word(0x00ff_ffff_ffff_ffff, 0, 0, 0));
    assert_eq!(work_from_target(word(0, 0, 0, 128)), word(0x01ff_ffff_ffff_ffff, 0, 0, 0));
    assert_eq!(work_from_target(word(0, 0, 0, 512)), word(0x007f_ffff_ffff_ffff, 0, 0, 0));
    assert_eq!(work_from_target(word(u64::MAX, 0, 0, 0)), word(0, 0, 0, 1));
    assert_eq!(work_from_target(word(0, 1, 0, 0)), word(u64::MAX, 0, u64::MAX, 0));
    assert_eq!(work_from_target(u256(1)), word(0, 0, 0, 1 << 63));
}

#[test]
fn work_from_target_at_the_ends() {
    assert_eq!(work_from_target(U256::max_value()), u256(1));
    assert_eq!(work_from_target(u256(0)), U256::max_value());
}

#[test]
fn policy_needs_a_window_and_a_target_above_the_floor() {
    assert!(policy().is_valid());
    assert!(Policy { initial_target: word(u64::MAX, 0, 0, 0), window: 2, window_time: 0 }.is_valid());
    assert!(!Policy { initial_target: word(u64::MAX - 1, 0, 0, 0), window: 2, window_time: 0 }
        .is_valid());
    assert!(!Policy { initial_target: word(0, 0, 0, 256), window: 1, window_time: 100 }.is_valid());
    assert!(!Policy { initial_target: word(0, 0, 0, 256), window: 0, window_time: 100 }.is_valid());
}

#[test]
fn genesis_record_has_no_height_and_no_work() {
    let record = policy().genesis_record(hashed(1000, 0, 77));
    assert_eq!(record.hash, u256(1000));
    assert_eq!(record.parent, 0);
    assert_eq!(record.height, 0);
    assert_eq!(record.work, u256(0));
    assert_eq!(record.target, word(0, 0, 0, 256));
    assert_eq!(record.anchor_time, 77);
    assert_eq!(record.block.time, 77);
}

#[test]
fn child_inside_a_window_keeps_the_target() {
    let policy = policy();
    let genesis = policy.genesis_record(hashed(1000, 0, 0));
    let first = policy.child_record(&genesis, 5, hashed(1, 1000, 10));
    assert_eq!(first.hash, u256(1));
    assert_eq!(first.parent, 5);
    assert_eq!(first.height, 1);
    assert_eq!(first.target, word(0, 0, 0, 256));
    assert_eq!(first.work, word(0x00ff_ffff_ffff_ffff, 0, 0, 0));
    assert_eq!(first.anchor_time, 0);
    assert_eq!(policy.next_target(&genesis), word(0, 0, 0, 256));
}

#[test]
fn fast_window_halves_the_target() {
    let policy = policy();
    let genesis = policy.genesis_record(hashed(1000, 0, 0));
    let first = child(&policy, &genesis, 1, 49);
    let second = child(&policy, &first, 2, 60);
    assert_eq!(second.height, 2);
    assert_eq!(second.target, word(0, 0, 0, 128));
    assert_eq!(second.work, word(0x02ff_ffff_ffff_fffe, 0, 0, 0));
    assert_eq!(second.anchor_time, 60);
}

#[test]
fn slow_window_doubles_the_target() {
    let policy = policy();
    let genesis = policy.genesis_record(hashed(1000, 0, 0));
    let first = child(&policy, &genesis, 1, 201);
    let second = child(&policy, &first, 2, 300);
    assert_eq!(second.target, word(0, 0, 0, 512));
    assert_eq!(second.work, word(0x017f_ffff_ffff_fffe, 0, 0, 0));
    let third = child(&policy, &second, 3, 400);
    assert_eq!(third.target, word(0, 0, 0, 512));
    assert_eq!(third.work, word(0x01ff_ffff_ffff_fffd, 0, 0, 0));
    assert_eq!(third.anchor_time, 300);
}

#[test]
fn window_on_time_keeps_the_target() {
    let policy = policy();
    let genesis = policy.genesis_record(hashed(1000, 0, 0));
    for time in [50, 100, 200] {
        let first = child(&policy, &genesis, 1, time);
        let second = child(&policy, &first, 2, time + 1);
        assert_eq!(second.target, word(0, 0, 0, 256));
        assert_eq!(second.work, word(0x01ff_ffff_ffff_fffe, 0, 0, 0));
    }
}

#[test]
fn timestamps_that_run_backwards_count_as_no_time() {
    let policy = policy();
    let genesis = policy.genesis_record(hashed(1000, 0, 500));
    let first = child(&policy, &genesis, 1, 10);
    let second = child(&policy, &first, 2, 20);
    assert_eq!(second.target, word(0, 0, 0, 128));
}

#[test]
fn target_stops_at_the_floor() {
    let policy = Policy { initial_target: word(u64::MAX, 1, 0, 0), window: 2, window_time: 100 };
    let genesis = policy.genesis_record(hashed(1000, 0, 0));
    let first = child(&policy, &genesis, 1, 1);
    let second = child(&policy, &first, 2, 2);
    assert_eq!(second.target, word(u64::MAX, 0, 0, 0));
    let third = child(&policy, &second, 3, 3);
    let fourth = child(&policy, &third, 4, 4);
    assert_eq!(fourth.target, word(u64::MAX, 0, 0, 0));
    assert_eq!(work_from_target(fourth.target), word(0, 0, 0, 1));
}

#[test]
fn target_stops_at_the_largest_word() {
    let policy =
        Policy { initial_target: word(0, 0, 0, 1 << 63), window: 2, window_time: 100 };
    let genesis = policy.genesis_record(hashed(1000, 0, 0));
    let first = child(&policy, &genesis, 1, 1000);
    let second = child(&policy, &first, 2, 2000);
    assert_eq!(second.target, U256::max_value());
    assert_eq!(second.work, u256(2));
}
