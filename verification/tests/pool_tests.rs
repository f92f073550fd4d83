use chainstate::pool::{Mempool, PoolError};
use chainstate::txset::TxSet;

#[test]
fn empty_pool_offers_nothing() {
    let pool = Mempool::new();
    assert_eq!(pool.select(&TxSet::new(), 1000), Vec::<Vec<u8>>::new());
}

#[test]
fn select_goes_by_priority() {
    let mut pool = Mempool::new();
    assert_eq!(pool.insert(vec![1], 5), Ok(()));
    assert_eq!(pool.insert(vec![2], 9), Ok(()));
    assert_eq!(pool.insert(vec![3], 7), Ok(()));
    assert_eq!(pool.select(&TxSet::new(), 1000), vec![vec![2], vec![3], vec![1]]);
}

#[test]
fn select_breaks_ties_by_arrival() {
    let mut pool = Mempool::new();
    for tx in [vec![9u8], vec![3], vec![7], vec![1], vec![5]] {
        assert_eq!(pool.insert(tx, 4), Ok(()));
    }
    assert_eq!(pool.insert(vec![8], 6), Ok(()));
    assert_eq!(
        pool.select(&TxSet::new(), 1000),
        vec![vec![8], vec![9], vec![3], vec![7], vec![1], vec![5]]
    );
}

#[test]
fn select_is_the_same_each_time_and_leaves_the_pool() {
    let mut pool = Mempool::new();
    for (tx, priority) in [(vec![1u8, 1], 3), (vec![2, 2], 3), (vec![3, 3], 8), (vec![4, 4], 1)] {
        assert_eq!(pool.insert(tx, priority), Ok(()));
    }
    let first = pool.select(&TxSet::new(), 1000);
    let second = pool.select(&TxSet::new(), 1000);
    assert_eq!(first, second);
    assert_eq!(first, vec![vec![3, 3], vec![1, 1], vec![2, 2], vec![4, 4]]);
}

#[test]
fn insert_again_replaces_the_priority() {
    let mut pool = Mempool::new();
    assert_eq!(pool.insert(vec![1], 5), Ok(()));
    assert_eq!(pool.insert(vec![2], 6), Ok(()));
    assert_eq!(pool.insert(vec![1], 7), Ok(()));
    assert_eq!(pool.select(&TxSet::new(), 1000), vec![vec![1], vec![2]]);
    assert_eq!(pool.insert(vec![1], 2), Ok(()));
    assert_eq!(pool.select(&TxSet::new(), 1000), vec![vec![2], vec![1]]);
}

#[test]
fn insert_again_counts_as_a_new_arrival() {
    let mut pool = Mempool::new();
    assert_eq!(pool.insert(vec![1], 5), Ok(()));
    assert_eq!(pool.insert(vec![2], 5), Ok(()));
    assert_eq!(pool.insert(vec![1], 5), Ok(()));
    assert_eq!(pool.select(&TxSet::new(), 1000), vec![vec![2], vec![1]]);
}

#[test]
fn select_leaves_out_what_was_mined() {
    let mut pool = Mempool::new();
    assert_eq!(pool.insert(vec![1], 5), Ok(()));
    assert_eq!(pool.insert(vec![2], 9), Ok(()));
    assert_eq!(pool.insert(vec![3], 7), Ok(()));
    let mut mined = TxSet::new();
    mined.insert(vec![2]);
    assert_eq!(pool.select(&mined, 1000), vec![vec![3], vec![1]]);
    assert_eq!(pool.select(&TxSet::new(), 1000), vec![vec![2], vec![3], vec![1]]);
}

#[test]
fn select_stops_at_the_first_that_does_not_fit() {
    let mut pool = Mempool::new();
    assert_eq!(pool.insert(vec![1, 1, 1], 9), Ok(()));
    assert_eq!(pool.insert(vec![2, 2, 2, 2], 8), Ok(()));
    assert_eq!(pool.insert(vec![3], 7), Ok(()));
    assert_eq!(pool.select(&TxSet::new(), 8), vec![vec![1, 1, 1], vec![2, 2, 2, 2], vec![3]]);
    assert_eq!(pool.select(&TxSet::new(), 7), vec![vec![1, 1, 1], vec![2, 2, 2, 2]]);
    assert_eq!(pool.select(&TxSet::new(), 6), vec![vec![1, 1, 1]]);
    assert_eq!(pool.select(&TxSet::new(), 3), vec![vec![1, 1, 1]]);
    assert_eq!(pool.select(&TxSet::new(), 2), Vec::<Vec<u8>>::new());
    assert_eq!(pool.select(&TxSet::new(), 0), Vec::<Vec<u8>>::new());
}

#[test]
fn mined_transactions_take_none_of_the_budget() {
    let mut pool = Mempool::new();
    assert_eq!(pool.insert(vec![1, 1, 1], 9), Ok(()));
    assert_eq!(pool.insert(vec![2, 2], 8), Ok(()));
    let mut mined = TxSet::new();
    mined.insert(vec![1, 1, 1]);
    assert_eq!(pool.select(&mined, 2), vec![vec![2, 2]]);
}

#[test]
fn pool_made_for_two_arrivals_is_full_at_the_third() {
    let mut pool = Mempool::with_limit(2);
    assert_eq!(pool.insert(vec![1], 5), Ok(()));
    assert_eq!(pool.insert(vec![1], 6), Ok(()));
    assert_eq!(pool.insert(vec![2], 9), Err(PoolError::PoolFull));
    assert_eq!(pool.insert(vec![1], 9), Err(PoolError::PoolFull));
    assert_eq!(pool.select(&TxSet::new(), 1000), vec![vec![1]]);
}

#[test]
fn pool_made_for_no_arrivals_takes_none() {
    let mut pool = Mempool::with_limit(0);
    assert_eq!(pool.insert(vec![1], 5), Err(PoolError::PoolFull));
    assert_eq!(pool.select(&TxSet::new(), 1000), Vec::<Vec<u8>>::new());
}

#[test]
fn tx_set_holds_what_was_put_in() {
    let mut set = TxSet::new();
    assert!(!set.contains(&vec![1, 2]));
    set.insert(vec![1, 2]);
    assert!(set.contains(&vec![1, 2]));
    assert!(!set.contains(&vec![2, 1]));
    let mut copy = set.duplicate();
    copy.extend(vec![vec![3], vec![4]]);
    assert!(copy.contains(&vec![1, 2]) && copy.contains(&vec![3]) && copy.contains(&vec![4]));
    assert!(!set.contains(&vec![3]));
}
