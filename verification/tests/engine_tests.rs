use chainstate::hashing::hash_block;
use chainstate::lineage::Policy;
use chainstate::model::{IngestOutcome, Rejection};
use chainstate::node::NodeState;
use chainstate::pool::PoolError;
use chainstate::types::{Block, Body, HashedBlock, Message, BODY_SIZE};
use chainstate::uint256::{u256, U256};

const W0: u64 = 0x00ff_ffff_ffff_ffff;

fn word(l0: u64) -> U256 {
    U256 { l0, l1: 0, l2: 0, l3: 0 }
}

fn policy() -> Policy {
    Policy { initial_target: U256 { l0: 0, l1: 0, l2: 0, l3: 256 }, window: 2, window_time: 100 }
}

fn body_with(txs: &[&[u8]]) -> Body {
    let mut value = [0u8; BODY_SIZE];
    value[0] = txs.len() as u8;
    let mut at = 1;
    for tx in txs {
        value[at] = tx.len() as u8;
        value[at + 1..at + 1 + tx.len()].copy_from_slice(tx);
        at += 1 + tx.len();
    }
    Body { value }
}

fn hashed(hash: u128, prev: u128, time: u64) -> HashedBlock {
    HashedBlock {
        hash: u256(hash),
        block: Block { prev: u256(prev), time, rand: 0, body: body_with(&[]) },
    }
}

fn fresh() -> NodeState {
    NodeState::with_genesis(policy(), hashed(1000, 0, 0)).unwrap()
}

fn tables(node: &NodeState, hashes: &[u128]) -> Vec<(Option<u64>, Option<U256>, Option<U256>)> {
    hashes
        .iter()
        .map(|h| (node.height(u256(*h)), node.work(u256(*h)), node.target(u256(*h))))
        .collect()
}

#[test]
fn fresh_node_holds_genesis_only() {
    let node = fresh();
    assert_eq!(node.len(), 1);
    assert_eq!(node.parked_len(), 0);
    assert_eq!(node.tip(), (u256(0), u256(1000)));
    assert!(node.is_seen(u256(1000)));
    assert!(!node.is_seen(u256(1)));
    assert_eq!(node.height(u256(1000)), Some(0));
    assert_eq!(node.work(u256(1000)), Some(u256(0)));
    assert_eq!(node.target(u256(1000)), Some(policy().initial_target));
    assert_eq!(node.height(u256(1)), None);
    assert_eq!(node.work(u256(1)), None);
    assert_eq!(node.target(u256(1)), None);
    assert!(node.block(u256(1)).is_none());
    assert_eq!(node.block(u256(1000)).unwrap().time, 0);
    assert_eq!(node.children(u256(1000)), Vec::<U256>::new());
}

#[test]
fn node_refuses_a_policy_that_is_not_usable() {
    let narrow = Policy { initial_target: policy().initial_target, window: 1, window_time: 100 };
    assert!(NodeState::with_genesis(narrow, hashed(1000, 0, 0)).is_none());
    let low = Policy { initial_target: u256(5), window: 2, window_time: 100 };
    assert!(NodeState::new(low, hashed(1000, 0, 0).block).is_none());
    assert!(NodeState::new(policy(), hashed(1000, 0, 0).block).is_some());
}

#[test]
fn child_of_genesis_is_integrated() {
    let mut node = fresh();
    assert_eq!(node.ingest_hashed(hashed(1, 1000, 10)), IngestOutcome::Integrated(1, word(W0)));
    assert_eq!(node.height(u256(1)), Some(1));
    assert_eq!(node.work(u256(1)), Some(word(W0)));
    assert_eq!(node.tip(), (word(W0), u256(1)));
    assert_eq!(node.children(u256(1000)), vec![u256(1)]);
    assert_eq!(node.block(u256(1)).unwrap().time, 10);
    assert_eq!(node.block(u256(1)).unwrap().prev, u256(1000));
    assert_eq!(node.len(), 2);
}

#[test]
fn block_before_its_parent_waits_for_it() {
    let mut node = fresh();
    let a = hashed(1, 1000, 10);
    let b = hashed(2, 1, 20);
    assert_eq!(node.ingest_hashed(b), IngestOutcome::MissingParent(u256(1)));
    assert_eq!(node.tip(), (u256(0), u256(1000)));
    assert!(!node.is_seen(u256(2)));
    assert_eq!(node.height(u256(2)), None);
    assert!(node.block(u256(2)).is_none());
    assert_eq!(node.len(), 1);
    assert_eq!(node.parked_len(), 1);
    assert_eq!(node.waiters(u256(1)).len(), 1);
    assert_eq!(node.waiters(u256(1))[0].hash, u256(2));
    assert_eq!(node.ingest_hashed(a), IngestOutcome::Integrated(1, word(W0)));
    assert_eq!(node.height(u256(1)), Some(1));
    assert_eq!(node.height(u256(2)), Some(2));
    assert_eq!(node.work(u256(2)), Some(word(0x02ff_ffff_ffff_fffe)));
    assert_eq!(node.target(u256(2)), Some(U256 { l0: 0, l1: 0, l2: 0, l3: 128 }));
    assert_eq!(node.tip(), (word(0x02ff_ffff_ffff_fffe), u256(2)));
    assert_eq!(node.parked_len(), 0);
    assert_eq!(node.waiters(u256(1)).len(), 0);
}

#[test]
fn scenario_with_real_hashes() {
    let genesis = Block { prev: u256(0), time: 0, rand: 0, body: body_with(&[]) };
    let g = hash_block(&genesis);
    let mut node = NodeState::new(policy(), genesis).unwrap();
    assert_eq!(node.tip(), (u256(0), g));
    assert_eq!(node.height(g), Some(0));
    let block_a = Block { prev: g, time: 10, rand: 1, body: body_with(&[]) };
    let a = hash_block(&block_a);
    let block_b = Block { prev: a, time: 20, rand: 2, body: body_with(&[]) };
    let b = hash_block(&block_b);
    assert_eq!(node.ingest(block_b), IngestOutcome::MissingParent(a));
    assert_eq!(node.tip(), (u256(0), g));
    assert_eq!(node.height(b), None);
    assert_eq!(node.ingest(block_a), IngestOutcome::Integrated(1, word(W0)));
    assert_eq!(node.height(a), Some(1));
    assert_eq!(node.height(b), Some(2));
    let work_a = node.work(a).unwrap();
    let work_b = node.work(b).unwrap();
    assert!(work_b.gt(work_a));
    assert_eq!(node.tip(), (work_b, b));
    assert_eq!(node.ingest(block_a), IngestOutcome::AlreadyKnown);
    assert_eq!(node.ingest(block_b), IngestOutcome::AlreadyKnown);
}

#[test]
fn any_order_of_arrival_gives_the_same_tables() {
    let chain = [hashed(1, 1000, 10), hashed(2, 1, 20), hashed(3, 2, 300), hashed(4, 3, 600)];
    let hashes = [1000, 1, 2, 3, 4];
    let mut in_order = fresh();
    for block in chain {
        in_order.ingest_hashed(block);
    }
    let orders: [[usize; 4]; 5] =
        [[3, 2, 1, 0], [1, 3, 0, 2], [2, 0, 3, 1], [3, 0, 1, 2], [0, 2, 1, 3]];
    for order in orders {
        let mut node = fresh();
        for at in order {
            node.ingest_hashed(chain[at]);
        }
        assert_eq!(node.tip(), in_order.tip());
        assert_eq!(tables(&node, &hashes), tables(&in_order, &hashes));
        assert_eq!(node.len(), 5);
        assert_eq!(node.parked_len(), 0);
    }
    assert_eq!(in_order.tip().1, u256(4));
    assert_eq!(in_order.height(u256(4)), Some(4));
}

#[test]
fn reversed_chain_is_resolved_in_one_pass() {
    let mut node = fresh();
    assert_eq!(node.ingest_hashed(hashed(4, 3, 40)), IngestOutcome::MissingParent(u256(3)));
    assert_eq!(node.ingest_hashed(hashed(3, 2, 30)), IngestOutcome::MissingParent(u256(2)));
    assert_eq!(node.ingest_hashed(hashed(2, 1, 20)), IngestOutcome::MissingParent(u256(1)));
    assert_eq!(node.len(), 1);
    assert_eq!(node.parked_len(), 3);
    assert_eq!(node.ingest_hashed(hashed(1, 1000, 10)), IngestOutcome::Integrated(1, word(W0)));
    assert_eq!(node.len(), 5);
    assert_eq!(node.parked_len(), 0);
    for (hash, height) in [(1, 1), (2, 2), (3, 3), (4, 4)] {
        assert_eq!(node.height(u256(hash)), Some(height));
    }
    assert_eq!(node.tip().1, u256(4));
}

#[test]
fn same_block_twice_changes_nothing() {
    let mut node = fresh();
    let a = hashed(1, 1000, 10);
    assert_eq!(node.ingest_hashed(a), IngestOutcome::Integrated(1, word(W0)));
    let before = (node.tip(), node.len(), node.parked_len(), tables(&node, &[1000, 1]));
    assert_eq!(node.ingest_hashed(a), IngestOutcome::AlreadyKnown);
    assert_eq!((node.tip(), node.len(), node.parked_len(), tables(&node, &[1000, 1])), before);
    assert_eq!(node.children(u256(1000)), vec![u256(1)]);
}

#[test]
fn waiting_block_twice_waits_once() {
    let mut node = fresh();
    let b = hashed(2, 1, 20);
    assert_eq!(node.ingest_hashed(b), IngestOutcome::MissingParent(u256(1)));
    assert_eq!(node.ingest_hashed(b), IngestOutcome::MissingParent(u256(1)));
    assert_eq!(node.parked_len(), 1);
    assert_eq!(node.ingest_hashed(hashed(1, 1000, 10)), IngestOutcome::Integrated(1, word(W0)));
    assert_eq!(node.len(), 3);
    assert_eq!(node.children(u256(1)), vec![u256(2)]);
    assert_eq!(node.ingest_hashed(b), IngestOutcome::AlreadyKnown);
}

#[test]
fn tip_work_never_shrinks_and_is_the_largest() {
    let mut node = fresh();
    let blocks = [
        hashed(5, 4, 50),
        hashed(1, 1000, 10),
        hashed(11, 1000, 500),
        hashed(2, 1, 20),
        hashed(12, 11, 600),
        hashed(4, 3, 40),
        hashed(3, 2, 30),
        hashed(13, 12, 700),
    ];
    let hashes = [1000u128, 1, 2, 3, 4, 5, 11, 12, 13];
    let mut last = node.tip().0;
    for block in blocks {
        node.ingest_hashed(block);
        let (work, hash) = node.tip();
        assert!(!last.gt(work));
        assert_eq!(node.work(hash), Some(work));
        for h in hashes {
            if let Some(other) = node.work(u256(h)) {
                assert!(!other.gt(work));
            }
        }
        last = work;
    }
    assert_eq!(node.len(), 9);
}

#[test]
fn heavier_branch_wins_with_fewer_blocks() {
    let mut node = fresh();
    node.ingest_hashed(hashed(11, 1000, 1000));
    node.ingest_hashed(hashed(12, 11, 2000));
    node.ingest_hashed(hashed(13, 12, 3000));
    assert_eq!(node.tip(), (word(0x01ff_ffff_ffff_fffd), u256(13)));
    assert_eq!(node.height(u256(13)), Some(3));
    assert_eq!(node.ingest_hashed(hashed(1, 1000, 10)), IngestOutcome::Integrated(1, word(W0)));
    assert_eq!(node.tip().1, u256(13));
    assert_eq!(
        node.ingest_hashed(hashed(2, 1, 20)),
        IngestOutcome::Integrated(2, word(0x02ff_ffff_ffff_fffe))
    );
    assert_eq!(node.tip(), (word(0x02ff_ffff_ffff_fffe), u256(2)));
    assert_eq!(node.height(u256(2)), Some(2));
    assert_eq!(node.target(u256(2)), Some(U256 { l0: 0, l1: 0, l2: 0, l3: 128 }));
    assert_eq!(node.target(u256(13)), Some(U256 { l0: 0, l1: 0, l2: 0, l3: 512 }));
}

#[test]
fn equal_work_keeps_the_first_tip() {
    let mut node = fresh();
    node.ingest_hashed(hashed(1, 1000, 10));
    node.ingest_hashed(hashed(2, 1000, 10));
    assert_eq!(node.work(u256(1)), node.work(u256(2)));
    assert_eq!(node.tip(), (word(W0), u256(1)));
    assert_eq!(node.children(u256(1000)), vec![u256(1), u256(2)]);
}

#[test]
fn waiters_and_their_waiters_are_all_taken_in() {
    let mut node = fresh();
    node.ingest_hashed(hashed(21, 1, 50));
    node.ingest_hashed(hashed(31, 21, 50));
    node.ingest_hashed(hashed(22, 1, 50));
    assert_eq!(node.waiters(u256(1)).iter().map(|w| w.hash).collect::<Vec<_>>(), vec![
        u256(21),
        u256(22)
    ]);
    node.ingest_hashed(hashed(1, 1000, 50));
    assert_eq!(node.children(u256(1)), vec![u256(21), u256(22)]);
    assert_eq!(node.children(u256(21)), vec![u256(31)]);
    assert_eq!(node.len(), 5);
    assert_eq!(node.tip().1, u256(31));
    assert_eq!(node.height(u256(31)), Some(3));
}

#[test]
fn block_that_goes_by_a_known_hash_stops_waiting() {
    let mut node = fresh();
    assert_eq!(node.ingest_hashed(hashed(1, 77, 10)), IngestOutcome::MissingParent(u256(77)));
    assert_eq!(node.ingest_hashed(hashed(1, 1000, 10)), IngestOutcome::Integrated(1, word(W0)));
    assert_eq!(node.parked_len(), 0);
    assert_eq!(node.block(u256(1)).unwrap().prev, u256(1000));
}

#[test]
fn mined_transactions_are_not_offered_again() {
    let mut node = fresh();
    let mut a = hashed(1, 1000, 100);
    a.block.body = body_with(&[&[0xaa, 0xbb], &[0xcc]]);
    let mut b = hashed(2, 1, 200);
    b.block.body = body_with(&[&[0xdd]]);
    let other = hashed(3, 1000, 100);
    assert_eq!(node.insert(vec![0xaa, 0xbb], 10), Ok(()));
    assert_eq!(node.insert(vec![1, 2, 3], 5), Ok(()));
    assert_eq!(node.insert(vec![0xdd], 7), Ok(()));
    node.ingest_hashed(a);
    node.ingest_hashed(b);
    node.ingest_hashed(other);
    assert_eq!(node.tip().1, u256(2));
    assert_eq!(node.select_for_mining(u256(2), 100), vec![vec![1, 2, 3]]);
    assert_eq!(node.select_for_mining(u256(1), 100), vec![vec![0xdd], vec![1, 2, 3]]);
    assert_eq!(
        node.select_for_mining(u256(3), 100),
        vec![vec![0xaa, 0xbb], vec![0xdd], vec![1, 2, 3]]
    );
    assert_eq!(
        node.select_for_mining(u256(1000), 100),
        vec![vec![0xaa, 0xbb], vec![0xdd], vec![1, 2, 3]]
    );
    assert_eq!(
        node.select_for_mining(u256(999), 100),
        vec![vec![0xaa, 0xbb], vec![0xdd], vec![1, 2, 3]]
    );
    assert_eq!(node.select_for_mining(u256(2), 100), vec![vec![1, 2, 3]]);
    assert_eq!(node.select_for_mining(u256(3), 3), vec![vec![0xaa, 0xbb], vec![0xdd]]);
    assert!(node.is_mined(u256(1), &vec![0xaa, 0xbb]));
    assert!(node.is_mined(u256(1), &vec![0xcc]));
    assert!(!node.is_mined(u256(1), &vec![0xdd]));
    assert!(node.is_mined(u256(2), &vec![0xaa, 0xbb]));
    assert!(node.is_mined(u256(2), &vec![0xdd]));
    assert!(!node.is_mined(u256(3), &vec![0xaa, 0xbb]));
    assert!(!node.is_mined(u256(1000), &vec![0xaa, 0xbb]));
    assert!(!node.is_mined(u256(999), &vec![0xaa, 0xbb]));
}

#[test]
fn genesis_transactions_count_as_mined() {
    let mut genesis = hashed(1000, 0, 0);
    genesis.block.body = body_with(&[&[9, 9]]);
    let mut node = NodeState::with_genesis(policy(), genesis).unwrap();
    assert_eq!(node.insert(vec![9, 9], 1), Ok::<(), PoolError>(()));
    assert_eq!(node.insert(vec![8], 1), Ok(()));
    node.ingest_hashed(hashed(1, 1000, 10));
    assert!(node.is_mined(u256(1000), &vec![9, 9]));
    assert!(node.is_mined(u256(1), &vec![9, 9]));
    assert_eq!(node.select_for_mining(u256(1), 10), vec![vec![8]]);
}

#[test]
fn messages_are_answered() {
    let genesis = Block { prev: u256(0), time: 0, rand: 0, body: body_with(&[]) };
    let g = hash_block(&genesis);
    let mut node = NodeState::new(policy(), genesis).unwrap();
    let block_a = Block { prev: g, time: 10, rand: 1, body: body_with(&[]) };
    let a = hash_block(&block_a);
    let block_b = Block { prev: a, time: 20, rand: 2, body: body_with(&[]) };
    let b = hash_block(&block_b);
    match node.handle(Message::PutBlock { block: block_b }) {
        Some(Message::AskBlock { bhash }) => assert_eq!(bhash, a),
        other => panic!("{:?}", other),
    }
    assert!(node.handle(Message::AskBlock { bhash: b }).is_none());
    assert!(node.handle(Message::PutBlock { block: block_a }).is_none());
    assert_eq!(node.tip().1, b);
    match node.handle(Message::AskBlock { bhash: b }) {
        Some(Message::PutBlock { block }) => {
            assert_eq!(block.prev, a);
            assert_eq!(block.rand, 2);
        },
        other => panic!("{:?}", other),
    }
    assert!(node.handle(Message::PutBlock { block: block_a }).is_none());
    assert!(node.handle(Message::PutPeers { peers: vec![] }).is_none());
    assert!(node.handle(Message::AskBlock { bhash: u256(5) }).is_none());
    assert_eq!(node.len(), 3);
}

#[test]
fn required_target_follows_the_parent() {
    let mut node = fresh();
    assert_eq!(node.required_target(u256(1000)), Some(policy().initial_target));
    assert_eq!(node.required_target(u256(1)), None);
    node.ingest_hashed(hashed(1, 1000, 10));
    assert_eq!(node.required_target(u256(1)), Some(U256 { l0: 0, l1: 0, l2: 0, l3: 128 }));
    node.ingest_hashed(hashed(2, 1, 20));
    assert_eq!(node.target(u256(2)), Some(U256 { l0: 0, l1: 0, l2: 0, l3: 128 }));
    assert_eq!(node.required_target(u256(2)), Some(U256 { l0: 0, l1: 0, l2: 0, l3: 128 }));
}

#[test]
fn check_work_compares_the_hash_with_the_target() {
    let node = fresh();
    let target = policy().initial_target;
    let mut block = hashed(1, 1000, 10);
    assert_eq!(node.check_work(&block), Ok(()));
    block.hash = target;
    assert_eq!(node.check_work(&block), Ok(()));
    block.hash = U256 { l0: 1, l1: 0, l2: 0, l3: 256 };
    assert_eq!(node.check_work(&block), Err(Rejection::InvalidProofOfWork));
    block.hash = U256::max_value();
    assert_eq!(node.check_work(&block), Err(Rejection::InvalidProofOfWork));
    assert_eq!(node.check_work(&hashed(2, 1, 20)), Err(Rejection::MissingParent));
    assert_eq!(node.len(), 1);
}

#[test]
fn oldest_waiter_can_be_dropped() {
    let mut node = fresh();
    assert!(node.evict_oldest_waiter().is_none());
    node.ingest_hashed(hashed(2, 1, 20));
    node.ingest_hashed(hashed(3, 1, 30));
    assert_eq!(node.parked_len(), 2);
    let dropped = node.evict_oldest_waiter().unwrap();
    assert_eq!(dropped.hash, u256(2));
    assert_eq!(dropped.block.time, 20);
    assert_eq!(node.parked_len(), 1);
    node.ingest_hashed(hashed(1, 1000, 10));
    assert_eq!(node.children(u256(1)), vec![u256(3)]);
    assert!(!node.is_seen(u256(2)));
    assert_eq!(node.len(), 3);
    assert_eq!(node.parked_len(), 0);
}
