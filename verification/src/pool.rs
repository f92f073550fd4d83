//! The pool of pending transactions, ordered for the miner: higher priority
//! first, and among equal priorities the one that arrived first. Kept in a
//! `priority_queue::PriorityQueue`.
//!
//! Each transaction is queued under a rank `(priority, precedence)`. The
//! precedence of the `k`-th arrival is `u64::MAX - k`, so that ranks compare
//! as the pool orders and no two queued transactions have the same rank.

use vstd::prelude::*;
use crate::types::{tx_views, Transaction};
use crate::txset::TxSet;

verus! {

/// `priority_queue::PriorityQueue`, declared so that a queue can be held and
/// handed on. Nothing of its inside is known; what it holds goes by the
/// name below.
#[verifier::external_type_specification]
#[verifier::external_body]
#[verifier::reject_recursive_types(I)]
#[verifier::reject_recursive_types(P)]
#[verifier::reject_recursive_types(H)]
pub struct ExPriorityQueue<I: std::hash::Hash + Eq, P: Ord, H>(
    priority_queue::PriorityQueue<I, P, H>,
);

/// The rank of a queued transaction: its priority, then its precedence.
pub type Rank = (u64, u64);

/// The queue that the pool is kept in.
pub type Queue = priority_queue::PriorityQueue<Vec<u8>, Rank>;

/// The transactions that a queue holds, each with its rank.
pub uninterp spec fn queue_contents(queue: Queue) -> Map<Seq<u8>, Rank>;

/// The entries of a queue that holds nothing.
pub open spec fn no_entries() -> Map<Seq<u8>, Rank> {
    Map::empty()
}

/// The order of ranks: by priority, then by precedence.
pub open spec fn rank_le(a: Rank, b: Rank) -> bool {
    a.0 < b.0 || (a.0 == b.0 && a.1 <= b.1)
}

/// Whether `tx` is queued in `entries` and no transaction there outranks it.
pub open spec fn is_top(entries: Map<Seq<u8>, Rank>, tx: Seq<u8>) -> bool {
    &&& entries.dom().contains(tx)
    &&& forall|other: Seq<u8>| #[trigger]
        entries.dom().contains(other) ==> rank_le(entries[other], entries[tx])
}

/// A transaction of `entries` that none outranks.
pub open spec fn top(entries: Map<Seq<u8>, Rank>) -> Seq<u8> {
    choose|tx: Seq<u8>| is_top(entries, tx)
}

/// The transactions of `entries` from the highest rank down.
pub open spec fn pool_order(entries: Map<Seq<u8>, Rank>) -> Seq<Seq<u8>>
    decreases entries.dom().len(),
    via pool_order_decreases
{
    if entries.dom().finite() && entries.dom().contains(top(entries)) {
        seq![top(entries)] + pool_order(entries.remove(top(entries)))
    } else {
        Seq::empty()
    }
}

#[via_fn]
proof fn pool_order_decreases(entries: Map<Seq<u8>, Rank>) {
    if entries.dom().finite() && entries.dom().contains(top(entries)) {
        assert(entries.remove(top(entries)).dom() =~= entries.dom().remove(top(entries)));
    }
}

/// What a miner takes from transactions offered in the order `order`: those
/// not in `mined`, one after another, up to the first whose bytes no longer
/// fit in what is left of `budget`.
pub open spec fn select(order: Seq<Seq<u8>>, mined: Set<Seq<u8>>, budget: nat) -> Seq<Seq<u8>>
    decreases order.len(),
{
    if order.len() == 0 {
        Seq::empty()
    } else {
        let tx = order[0];
        let rest = order.subrange(1, order.len() as int);
        if mined.contains(tx) {
            select(rest, mined, budget)
        } else if tx.len() <= budget {
            seq![tx] + select(rest, mined, (budget - tx.len()) as nat)
        } else {
            Seq::empty()
        }
    }
}

/// No two transactions of `entries` have the same precedence.
pub open spec fn distinct_precedence(entries: Map<Seq<u8>, Rank>) -> bool {
    forall|a: Seq<u8>, b: Seq<u8>|
        #![trigger entries[a], entries[b]]
        entries.dom().contains(a) && entries.dom().contains(b) && a != b ==> entries[a].1
            != entries[b].1
}

/// `PriorityQueue::new`: a queue that holds nothing.
#[verifier::external_body]
fn queue_new() -> (made: Queue)
    ensures
        queue_contents(made) == no_entries(),
{
    priority_queue::PriorityQueue::new()
}

/// `Clone` of `PriorityQueue`: a queue that holds what the given one holds.
#[verifier::external_body]
fn queue_clone(queue: &Queue) -> (copy: Queue)
    ensures
        queue_contents(copy) == queue_contents(*queue),
{
    queue.clone()
}

/// `PriorityQueue::push`: queues the transaction under the rank; one that is
/// queued already gets the new rank in place of its old one.
#[verifier::external_body]
fn queue_push(queue: &mut Queue, tx: Vec<u8>, rank: Rank)
    ensures
        queue_contents(*final(queue)) == queue_contents(*old(queue)).insert(tx@, rank),
{
    queue.push(tx, rank);
}

/// What a queue hands out: a transaction and the rank it had.
pub type Popped = (Vec<u8>, Rank);

/// `PriorityQueue::pop`: takes out a transaction that none in the queue
/// outranks, and hands it out with its rank; `None` when the queue is empty.
#[verifier::external_body]
fn queue_pop(queue: &mut Queue) -> (popped: Option<Popped>)
    ensures
        match popped {
            Some((tx, rank)) => {
                &&& is_top(queue_contents(*old(queue)), tx@)
                &&& queue_contents(*old(queue))[tx@] == rank
                &&& queue_contents(*final(queue)) == queue_contents(*old(queue)).remove(tx@)
            },
            None => {
                &&& queue_contents(*old(queue)) == no_entries()
                &&& queue_contents(*final(queue)) == queue_contents(*old(queue))
            },
        },
{
    queue.pop()
}

/// Why a transaction was not queued.
#[derive(Debug, Clone, Copy, PartialEq, Eq, Structural)]
pub enum PoolError {
    /// The pool has taken as many arrivals as it was made for.
    PoolFull,
}

/// The pool of pending transactions.
pub struct Mempool {
    queue: Queue,
    arrivals: u64,
    limit: u64,
}

impl Mempool {
    /// The queued transactions, each with its rank.
    pub closed spec fn entries(&self) -> Map<Seq<u8>, Rank> {
        queue_contents(self.queue)
    }

    /// Number of transactions queued so far, those queued again included.
    pub closed spec fn arrivals(&self) -> nat {
        self.arrivals as nat
    }

    /// Number of arrivals that the pool was made for.
    pub closed spec fn limit(&self) -> nat {
        self.limit as nat
    }

    /// What every pool keeps: finitely many transactions, no two with the
    /// same precedence, all precedences above the next to be given out, and
    /// no more arrivals than it was made for.
    pub open spec fn wf(&self) -> bool {
        &&& pool_wf(self.entries(), self.arrivals())
        &&& self.arrivals() <= self.limit() <= u64::MAX
    }

    /// The empty pool, made for as many arrivals as can be counted.
    pub fn new() -> (pool: Mempool)
        ensures
            pool.wf(),
            pool.entries() == no_entries(),
            pool.arrivals() == 0,
            pool.limit() == u64::MAX,
    {
        Mempool { queue: queue_new(), arrivals: 0, limit: u64::MAX }
    }

    /// The empty pool, made for `limit` arrivals.
    pub fn with_limit(limit: u64) -> (pool: Mempool)
        ensures
            pool.wf(),
            pool.entries() == no_entries(),
            pool.arrivals() == 0,
            pool.limit() == limit,
    {
        Mempool { queue: queue_new(), arrivals: 0, limit }
    }

    /// Queues a transaction with a priority. A transaction that is queued
    /// already gets the new priority and counts as arrived now.
    pub fn insert(&mut self, tx: Transaction, priority: u64) -> (r: Result<(), PoolError>)
        requires
            old(self).wf(),
        ensures
            final(self).wf(),
            final(self).limit() == old(self).limit(),
            r.is_ok() <==> old(self).arrivals() < old(self).limit(),
            r == Err::<(), PoolError>(PoolError::PoolFull) <==> old(self).arrivals() == old(
                self,
            ).limit(),
            r.is_ok() ==> final(self).entries() == old(self).entries().insert(
                tx@,
                (priority, (u64::MAX - old(self).arrivals()) as u64),
            ) && final(self).arrivals() == old(self).arrivals() + 1,
            r.is_err() ==> final(self).entries() == old(self).entries() && final(self).arrivals()
                == old(self).arrivals(),
    {
        if self.arrivals >= self.limit {
            return Err(PoolError::PoolFull);
        }
        let precedence: u64 = u64::MAX - self.arrivals;
        queue_push(&mut self.queue, tx, (priority, precedence));
        self.arrivals = self.arrivals + 1;
        Ok(())
    }

    /// The transactions a miner takes for a block that may hold `budget`
    /// bytes of them, given those already `mined`. The pool is left as it is.
    pub fn select(&self, mined: &TxSet, budget: usize) -> (chosen: Vec<Transaction>)
        requires
            self.wf(),
        ensures
            tx_views(chosen@) == select(pool_order(self.entries()), mined@, budget as nat),
    {
        let mut queue = queue_clone(&self.queue);
        let mut chosen: Vec<Transaction> = Vec::new();
        let mut left: usize = budget;
        let mut done = false;
        let ghost goal = select(pool_order(self.entries()), mined@, budget as nat);
        assert(tx_views(chosen@) =~= Seq::<Seq<u8>>::empty());
        while !done
            invariant
                queue_contents(queue).dom().finite(),
                distinct_precedence(queue_contents(queue)),
                done ==> tx_views(chosen@) == goal,
                !done ==> tx_views(chosen@) + select(
                    pool_order(queue_contents(queue)),
                    mined@,
                    left as nat,
                ) == goal,
            decreases (if done { 0 } else { queue_contents(queue).dom().len() + 1 }),
        {
            let ghost before = queue_contents(queue);
            let ghost so_far = tx_views(chosen@);
            match queue_pop(&mut queue) {
                None => {
                    proof {
                        assert(pool_order(before) =~= Seq::<Seq<u8>>::empty());
                        assert(so_far + Seq::<Seq<u8>>::empty() =~= so_far);
                    }
                    done = true;
                },
                Some((tx, rank)) => {
                    proof {
                        lemma_top_is_unique(before, tx@);
                        let rest = pool_order(before.remove(tx@));
                        assert(pool_order(before) == seq![tx@] + rest);
                        assert(pool_order(before).subrange(1, pool_order(before).len() as int)
                            =~= rest);
                        assert(before.remove(tx@).dom() =~= before.dom().remove(tx@));
                    }
                    if mined.contains(&tx) {
                    } else if tx.len() <= left {
                        proof {
                            let tail = select(
                                pool_order(before.remove(tx@)),
                                mined@,
                                (left - tx.len()) as nat,
                            );
                            assert(tx_views(chosen@.push(tx)) =~= so_far.push(tx@));
                            assert(so_far.push(tx@) + tail =~= so_far + (seq![tx@] + tail));
                        }
                        left = left - tx.len();
                        chosen.push(tx);
                    } else {
                        proof {
                            assert(so_far + Seq::<Seq<u8>>::empty() =~= so_far);
                        }
                        done = true;
                    }
                },
            }
        }
        chosen
    }
}

/// What every pool keeps, stated of its entries and its count of arrivals.
pub open spec fn pool_wf(entries: Map<Seq<u8>, Rank>, arrivals: nat) -> bool {
    &&& entries.dom().finite()
    &&& arrivals <= u64::MAX
    &&& distinct_precedence(entries)
    &&& forall|tx: Seq<u8>| #[trigger]
        entries.dom().contains(tx) ==> entries[tx].1 > u64::MAX - arrivals
}

/// Where no two transactions have the same precedence, only one can be on top.
pub proof fn lemma_top_is_unique(entries: Map<Seq<u8>, Rank>, tx: Seq<u8>)
    requires
        distinct_precedence(entries),
        is_top(entries, tx),
    ensures
        top(entries) == tx,
        distinct_precedence(entries.remove(tx)),
{
    let other = top(entries);
    assert(is_top(entries, other));
    assert(rank_le(entries[tx], entries[other]));
    assert(rank_le(entries[other], entries[tx]));
    assert forall|a: Seq<u8>, b: Seq<u8>|
        #![trigger entries.remove(tx)[a], entries.remove(tx)[b]]
        entries.remove(tx).dom().contains(a) && entries.remove(tx).dom().contains(b) && a
            != b implies entries.remove(tx)[a].1 != entries.remove(tx)[b].1 by {
        assert(entries[a].1 != entries[b].1);
    }
}

/// Of any two ranks one is not above the other.
proof fn lemma_rank_total(a: Rank, b: Rank)
    ensures
        rank_le(a, b) || rank_le(b, a),
{
}

/// Among finitely many queued transactions there is one that none outranks.
pub proof fn lemma_has_top(entries: Map<Seq<u8>, Rank>)
    requires
        entries.dom().finite(),
        entries.dom().len() > 0,
    ensures
        is_top(entries, top(entries)),
    decreases entries.dom().len(),
{
    let x = entries.dom().choose();
    let rest = entries.remove(x);
    assert(rest.dom() =~= entries.dom().remove(x));
    if rest.dom().len() == 0 {
        assert forall|other: Seq<u8>| #[trigger] entries.dom().contains(other) implies rank_le(
            entries[other],
            entries[x],
        ) by {
            if other != x {
                assert(rest.dom().contains(other));
            }
        }
        assert(is_top(entries, x));
    } else {
        lemma_has_top(rest);
        let y = top(rest);
        lemma_rank_total(entries[x], entries[y]);
        let best = if rank_le(entries[y], entries[x]) { x } else { y };
        assert forall|other: Seq<u8>| #[trigger] entries.dom().contains(other) implies rank_le(
            entries[other],
            entries[best],
        ) by {
            if other != x {
                assert(rest.dom().contains(other));
                assert(rank_le(rest[other], rest[y]));
            }
        }
        assert(is_top(entries, best));
    }
}

/// The order of the pool lists every queued transaction once, and none
/// before one that outranks it: higher priorities come first, and of equal
/// priorities the one that arrived first.
pub proof fn lemma_pool_order(entries: Map<Seq<u8>, Rank>)
    requires
        entries.dom().finite(),
    ensures
        pool_order(entries).len() == entries.dom().len(),
        pool_order(entries).no_duplicates(),
        forall|tx: Seq<u8>| entries.dom().contains(tx) <==> pool_order(entries).contains(tx),
        forall|i: int, j: int|
            0 <= i < j < pool_order(entries).len() ==> rank_le(
                entries[#[trigger] pool_order(entries)[j]],
                entries[#[trigger] pool_order(entries)[i]],
            ),
    decreases entries.dom().len(),
{
    let order = pool_order(entries);
    if entries.dom().len() == 0 {
        assert(!entries.dom().contains(top(entries)));
        assert forall|tx: Seq<u8>| entries.dom().contains(tx) <==> order.contains(tx) by {}
    } else {
        lemma_has_top(entries);
        let t = top(entries);
        let rest = entries.remove(t);
        let tail = pool_order(rest);
        assert(rest.dom() =~= entries.dom().remove(t));
        lemma_pool_order(rest);
        assert(order == seq![t] + tail);
        assert forall|i: int| 1 <= i < order.len() implies #[trigger] order[i] == tail[i - 1]
            && rest.dom().contains(tail[i - 1]) by {
            assert(tail.contains(tail[i - 1]));
        }
        assert forall|tx: Seq<u8>| entries.dom().contains(tx) <==> order.contains(tx) by {
            if entries.dom().contains(tx) {
                if tx == t {
                    assert(order[0] == tx);
                } else {
                    assert(rest.dom().contains(tx));
                    let k = choose|k: int| 0 <= k < tail.len() && tail[k] == tx;
                    assert(order[k + 1] == tx);
                }
            }
            if order.contains(tx) {
                let k = choose|k: int| 0 <= k < order.len() && order[k] == tx;
                if k > 0 {
                    assert(order[k] == tail[k - 1]);
                }
            }
        }
        assert forall|i: int, j: int| 0 <= i < j < order.len() implies rank_le(
            entries[#[trigger] order[j]],
            entries[#[trigger] order[i]],
        ) by {
            assert(order[j] == tail[j - 1]);
            if i > 0 {
                assert(order[i] == tail[i - 1]);
                assert(rank_le(rest[tail[j - 1]], rest[tail[i - 1]]));
            }
        }
        assert forall|i: int, j: int| 0 <= i < order.len() && 0 <= j < order.len() && i
            != j implies order[i] != order[j] by {
            if i > 0 && j > 0 {
                assert(tail[i - 1] != tail[j - 1]);
            } else if i == 0 {
                assert(order[j] == tail[j - 1]);
            } else {
                assert(order[i] == tail[i - 1]);
            }
        }
    }
}

/// Nothing that was mined is chosen, and what is chosen fits the budget.
pub proof fn lemma_select_excludes_mined(order: Seq<Seq<u8>>, mined: Set<Seq<u8>>, budget: nat)
    ensures
        forall|i: int|
            0 <= i < select(order, mined, budget).len() ==> !mined.contains(
                #[trigger] select(order, mined, budget)[i],
            ) && order.contains(select(order, mined, budget)[i]),
        total_len(select(order, mined, budget)) <= budget,
    decreases order.len(),
{
    if order.len() > 0 {
        let tx = order[0];
        let rest = order.subrange(1, order.len() as int);
        let chosen = select(order, mined, budget);
        if mined.contains(tx) {
            lemma_select_excludes_mined(rest, mined, budget);
            assert forall|i: int| 0 <= i < chosen.len() implies order.contains(
                #[trigger] chosen[i],
            ) by {
                let k = choose|k: int| 0 <= k < rest.len() && rest[k] == chosen[i];
                assert(order[k + 1] == chosen[i]);
            }
        } else if tx.len() <= budget {
            let tail = select(rest, mined, (budget - tx.len()) as nat);
            lemma_select_excludes_mined(rest, mined, (budget - tx.len()) as nat);
            assert forall|i: int| 0 <= i < chosen.len() implies !mined.contains(
                #[trigger] chosen[i],
            ) && order.contains(chosen[i]) by {
                if i == 0 {
                    assert(order[0] == chosen[0]);
                } else {
                    assert(chosen[i] == tail[i - 1]);
                    let k = choose|k: int| 0 <= k < rest.len() && rest[k] == tail[i - 1];
                    assert(order[k + 1] == chosen[i]);
                }
            }
            assert(chosen.subrange(1, chosen.len() as int) =~= tail);
        } else {
        }
    }
}

/// Number of bytes in all of `txs`.
pub open spec fn total_len(txs: Seq<Seq<u8>>) -> nat
    decreases txs.len(),
{
    if txs.len() == 0 {
        0
    } else {
        txs[0].len() + total_len(txs.subrange(1, txs.len() as int))
    }
}

} // verus!
