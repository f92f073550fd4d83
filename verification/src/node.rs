//! The engine itself: the one owner of the chain state. It takes blocks in
//! whatever order they arrive, keeps those whose parent is missing until the
//! parent comes, follows the heaviest chain, and chooses transactions for
//! the miner.
//!
//! Records are found by hash through an index, which lists under the lowest
//! limb of a hash the places of the records whose hash has that limb.

use std::collections::HashMap;
use vstd::prelude::*;
use crate::hashing::{block_hash, hash_block};
use crate::lineage::{Policy, Record};
use crate::model::{
    child_of, drain, leaves, lemma_index_of, lemma_integrate, lemma_mined_at_prefix, lemma_park,
    lemma_split_len, lemma_without_oldest, sift, stays, ChainView, IngestOutcome, Rejection,
};
use crate::pool::{lemma_select_excludes_mined, pool_order, Mempool, PoolError};
use crate::txset::{tx_set, TxSet};
use crate::types::{body_txs, tx_views, Block, HashedBlock, Message, Transaction};
use crate::uint256::U256;

verus! {

/// The state of a node.
pub struct NodeState {
    policy: Policy,
    /// The records of the blocks in the chain, genesis first.
    entries: Vec<Record>,
    /// For the lowest limb of each hash in the chain, the places of the
    /// records whose hash has that limb.
    index: HashMap<u64, Vec<usize>>,
    /// For each record, the transactions mined in its lineage.
    mined: Vec<TxSet>,
    /// The blocks that wait for their parent, in the order they arrived.
    parked: Vec<HashedBlock>,
    /// Position of the tip's record.
    tip: usize,
    pool: Mempool,
}

impl View for NodeState {
    type V = ChainView;

    closed spec fn view(&self) -> ChainView {
        ChainView {
            policy: self.policy,
            entries: self.entries@,
            parked: self.parked@,
            tip: self.tip as int,
            pool: self.pool.entries(),
            arrivals: self.pool.arrivals(),
        }
    }
}

/// The index lists the place of every record under the lowest limb of the
/// record's hash, and lists nothing else.
spec fn index_ok(index: Map<u64, Vec<usize>>, entries: Seq<Record>) -> bool {
    &&& forall|i: int| 0 <= i < entries.len() ==> #[trigger] listed(index, entries, i)
    &&& forall|key: u64, q: int|
        index.contains_key(key) && 0 <= q < index[key]@.len() ==> #[trigger] points_back(
            index,
            entries,
            key,
            q,
        )
}

/// The place `i` is listed under the lowest limb of the hash of its record.
spec fn listed(index: Map<u64, Vec<usize>>, entries: Seq<Record>, i: int) -> bool {
    &&& index.contains_key(entries[i].hash.l0)
    &&& index[entries[i].hash.l0]@.contains(i as usize)
}

/// What is listed at `q` under `key` is the place of a record whose hash
/// has the lowest limb `key`.
spec fn points_back(
    index: Map<u64, Vec<usize>>,
    entries: Seq<Record>,
    key: u64,
    q: int,
) -> bool {
    &&& index[key]@[q] < entries.len()
    &&& entries[index[key]@[q] as int].hash.l0 == key
}

/// What the index is once the place of a new record is listed under `key`:
/// what was listed under `key`, and the place after it.
spec fn listing(before: Map<u64, Vec<usize>>, after: Map<u64, Vec<usize>>, key: u64, place: usize) -> bool {
    &&& after.dom() == before.dom().insert(key)
    &&& forall|other: u64| other != key && before.contains_key(other) ==> after[other] == before[other]
    &&& after[key]@ == (if before.contains_key(key) {
        before[key]@
    } else {
        Seq::empty()
    }).push(place)
}

/// Lists a place under a key of the index.
fn list_place(index: &mut HashMap<u64, Vec<usize>>, key: u64, place: usize)
    ensures
        listing(old(index)@, final(index)@, key, place),
{
    let mut bucket = match index.remove(&key) {
        Some(bucket) => bucket,
        None => Vec::new(),
    };
    bucket.push(place);
    index.insert(key, bucket);
    assert(index@.dom() =~= old(index)@.dom().insert(key));
}

/// An index that is right for some records is right for one record more,
/// once the place of that record is listed.
proof fn lemma_index_grows(
    before: Map<u64, Vec<usize>>,
    after: Map<u64, Vec<usize>>,
    entries: Seq<Record>,
    record: Record,
)
    requires
        index_ok(before, entries),
        entries.len() <= usize::MAX,
        listing(before, after, record.hash.l0, entries.len() as usize),
    ensures
        index_ok(after, entries.push(record)),
{
    let key = record.hash.l0;
    let place = entries.len() as int;
    let longer = entries.push(record);
    assert forall|i: int| 0 <= i < longer.len() implies #[trigger] listed(after, longer, i) by {
        if i < place {
            assert(listed(before, entries, i));
            if entries[i].hash.l0 == key {
                let r = choose|r: int| 0 <= r < before[key]@.len() && before[key]@[r] == i as usize;
                assert(after[key]@[r] == i as usize);
            }
        } else {
            assert(after[key]@[after[key]@.len() - 1] == place as usize);
        }
    }
    assert forall|k: u64, q: int|
        after.contains_key(k) && 0 <= q < after[k]@.len() implies #[trigger] points_back(
        after,
        longer,
        k,
        q,
    ) by {
        if k == key {
            if before.contains_key(key) && q < before[key]@.len() {
                assert(points_back(before, entries, k, q));
            }
        } else {
            assert(points_back(before, entries, k, q));
        }
    }
}

/// Parts the waiting blocks, once the block of hash `hash` is in the chain,
/// into those that go on waiting and those that waited for that block.
fn split_waiting(parked: &Vec<HashedBlock>, hash: U256) -> (parts: (Vec<HashedBlock>, Vec<HashedBlock>))
    ensures
        parts.0@ == sift(parked@, stays(hash)),
        parts.1@ == sift(parked@, leaves(hash)),
{
    let mut kept: Vec<HashedBlock> = Vec::new();
    let mut ready: Vec<HashedBlock> = Vec::new();
    let mut i: usize = 0;
    while i < parked.len()
        invariant
            i <= parked.len(),
            kept@ == sift(parked@.take(i as int), stays(hash)),
            ready@ == sift(parked@.take(i as int), leaves(hash)),
        decreases parked.len() - i,
    {
        let w = parked[i];
        proof {
            let next = parked@.take(i + 1);
            assert(next.drop_last() =~= parked@.take(i as int));
            assert(next.last() == w);
        }
        if w.hash != hash {
            if w.block.prev != hash {
                kept.push(w);
            } else {
                ready.push(w);
            }
        }
        i += 1;
    }
    assert(parked@.take(i as int) =~= parked@);
    (kept, ready)
}

/// Puts blocks on a stack, the first of them on top.
fn push_reversed(stack: &mut Vec<HashedBlock>, blocks: &Vec<HashedBlock>)
    ensures
        final(stack)@ == old(stack)@ + blocks@.reverse(),
{
    let ghost below = stack@;
    let count: usize = blocks.len();
    let mut k: usize = count;
    assert(blocks@.subrange(k as int, count as int).reverse() =~= Seq::<HashedBlock>::empty());
    assert(below + Seq::<HashedBlock>::empty() =~= below);
    while k > 0
        invariant
            k <= count,
            count == blocks.len(),
            stack@ == below + blocks@.subrange(k as int, count as int).reverse(),
        decreases k,
    {
        k -= 1;
        stack.push(blocks[k]);
        proof {
            let longer = blocks@.subrange(k as int, count as int);
            let shorter = blocks@.subrange(k + 1, count as int);
            assert(longer.reverse() =~= shorter.reverse().push(blocks@[k as int]));
            assert(below + shorter.reverse().push(blocks@[k as int]) =~= (below
                + shorter.reverse()).push(blocks@[k as int]));
        }
    }
    assert(blocks@.subrange(0, count as int) =~= blocks@);
}

impl NodeState {
    /// What holds of every node: its state is well-formed, and it keeps for
    /// each block the transactions mined in the block's lineage.
    pub closed spec fn wf(&self) -> bool {
        &&& self@.wf()
        &&& self.pool.wf()
        &&& self.pool.limit() == u64::MAX
        &&& index_ok(self.index@, self.entries@)
        &&& self.mined.len() == self.entries.len()
        &&& forall|i: int|
            0 <= i < self.mined.len() ==> (#[trigger] self.mined[i])@ == self@.mined_at(i)
    }

    /// The state of a node is a well-formed state of the chain.
    pub proof fn lemma_view_wf(&self)
        requires
            self.wf(),
        ensures
            self@.wf(),
    {
    }

    /// A node whose chain holds the genesis block and nothing else; `None`
    /// for a policy that is not usable.
    pub fn new(policy: Policy, genesis: Block) -> (node: Option<NodeState>)
        ensures
            node.is_some() <==> policy.valid(),
            node matches Some(n) ==> n.wf() && n@ == ChainView::genesis(
                policy,
                HashedBlock { hash: block_hash(genesis), block: genesis },
            ),
    {
        let hash = hash_block(&genesis);
        NodeState::with_genesis(policy, HashedBlock { hash, block: genesis })
    }

    /// A node whose chain holds the given genesis block, under the hash given
    /// with it, and nothing else; `None` for a policy that is not usable.
    pub fn with_genesis(policy: Policy, genesis: HashedBlock) -> (node: Option<NodeState>)
        ensures
            node.is_some() <==> policy.valid(),
            node matches Some(n) ==> n.wf() && n@ == ChainView::genesis(policy, genesis),
    {
        if !policy.is_valid() {
            return None;
        }
        let record = policy.genesis_record(genesis);
        let mut set = TxSet::new();
        set.extend(genesis.block.body.transactions());
        let mut entries: Vec<Record> = Vec::new();
        entries.push(record);
        let mut mined: Vec<TxSet> = Vec::new();
        mined.push(set);
        let mut index: HashMap<u64, Vec<usize>> = HashMap::new();
        list_place(&mut index, genesis.hash.l0, 0);
        let node = NodeState {
            policy,
            entries,
            index,
            mined,
            parked: Vec::new(),
            tip: 0,
            pool: Mempool::new(),
        };
        proof {
            assert(node@ =~= ChainView::genesis(policy, genesis));
            assert(genesis == HashedBlock { hash: record.hash, block: record.block });
            assert(node.mined[0]@ =~= node@.mined_at(0));
            lemma_index_grows(Map::empty(), node.index@, Seq::empty(), record);
            assert(Seq::<Record>::empty().push(record) =~= node.entries@);
        }
        Some(node)
    }

    /// Position of the record of a block, if it is in the chain.
    fn find(&self, hash: U256) -> (r: Option<usize>)
        requires
            self.wf(),
        ensures
            r.is_some() <==> self@.seen(hash),
            r matches Some(i) ==> i < self.entries.len() && i == self@.index_of(hash)
                && self.entries[i as int].hash == hash,
    {
        match self.index.get(&hash.l0) {
            None => {
                proof {
                    assert forall|i: int| 0 <= i < self.entries.len() implies (#[trigger] self.entries[i]).hash
                        != hash by {
                        assert(listed(self.index@, self.entries@, i));
                    }
                }
                None
            },
            Some(bucket) => {
                let mut q: usize = 0;
                while q < bucket.len()
                    invariant
                        q <= bucket.len(),
                        self.wf(),
                        self.index@.contains_key(hash.l0),
                        *bucket == self.index@[hash.l0],
                        forall|r: int|
                            0 <= r < q ==> self.entries[(#[trigger] bucket@[r]) as int].hash
                                != hash,
                    decreases bucket.len() - q,
                {
                    let i = bucket[q];
                    proof {
                        assert(points_back(self.index@, self.entries@, hash.l0, q as int));
                    }
                    if self.entries[i].hash == hash {
                        proof {
                            lemma_index_of(self@, i as int);
                        }
                        return Some(i);
                    }
                    q += 1;
                }
                proof {
                    assert forall|i: int| 0 <= i < self.entries.len() implies (#[trigger] self.entries[i]).hash
                        != hash by {
                        assert(listed(self.index@, self.entries@, i));
                        if self.entries[i].hash == hash {
                            let r = choose|r: int| 0 <= r < bucket@.len() && bucket@[r] == i as usize;
                            assert(self.entries[bucket@[r] as int].hash != hash);
                        }
                    }
                }
                None
            },
        }
    }

    /// Puts a block among the waiting ones, unless it waits already.
    fn park(&mut self, hb: HashedBlock)
        requires
            old(self).wf(),
            !old(self)@.seen(hb.hash),
            !old(self)@.seen(hb.block.prev),
        ensures
            final(self).wf(),
            final(self)@ == old(self)@.park(hb),
    {
        let mut k: usize = 0;
        while k < self.parked.len()
            invariant
                k <= self.parked.len(),
                self.wf(),
                *self == *old(self),
                forall|j: int| 0 <= j < k ==> (#[trigger] self.parked[j]).hash != hb.hash,
            decreases self.parked.len() - k,
        {
            if self.parked[k].hash == hb.hash {
                assert(self@.parked[k as int].hash == hb.hash);
                return ;
            }
            k += 1;
        }
        proof {
            lemma_park(self@, hb);
        }
        self.parked.push(hb);
        proof {
            assert(self@ =~= old(self)@.park(hb));
            assert forall|i: int| 0 <= i < self.mined.len() implies (#[trigger] self.mined[i])@
                == self@.mined_at(i) by {
                lemma_mined_at_prefix(old(self)@, self@, i);
            }
        }
    }

    /// The transactions mined in the lineage of a block whose parent's
    /// record is at `parent`.
    fn mined_with(&self, parent: usize, block: &Block) -> (set: TxSet)
        requires
            self.wf(),
            parent < self.entries.len(),
        ensures
            set@ == self@.mined_at(parent as int).union(tx_set(body_txs(block.body.value@))),
    {
        let mut set = self.mined[parent].duplicate();
        set.extend(block.body.transactions());
        set
    }

    /// Takes into the chain a block whose parent's record is at `parent`,
    /// and puts the blocks that waited for it on `stack`, the one that
    /// arrived first on top.
    fn integrate(&mut self, parent: usize, hb: HashedBlock, stack: &mut Vec<HashedBlock>) -> (record:
        Record)
        requires
            old(self).wf(),
            old(self)@.seen(hb.block.prev),
            parent == old(self)@.index_of(hb.block.prev),
            !old(self)@.seen(hb.hash),
        ensures
            final(self).wf(),
            final(self)@ == old(self)@.integrate(hb),
            final(stack)@ == old(stack)@ + sift(old(self)@.parked, leaves(hb.hash)).reverse(),
            record == old(self)@.policy.child(old(self)@.entries[parent as int], parent, hb),
            final(self)@.parked.len() + final(stack)@.len() <= old(self)@.parked.len() + old(
                stack,
            )@.len(),
    {
        let ghost start = self@;
        let ghost index_before = self.index@;
        proof {
            lemma_integrate(start, hb);
            lemma_split_len(start.parked, hb.hash);
            assert(self.entries[parent as int].sound());
            assert(self.entries[parent as int].height <= parent);
        }
        let record = self.policy.child_record(&self.entries[parent], parent, hb);
        let set = self.mined_with(parent, &hb.block);
        let heavier = record.work.gt(self.entries[self.tip].work);
        let (kept, ready) = split_waiting(&self.parked, hb.hash);
        push_reversed(stack, &ready);
        if heavier {
            self.tip = self.entries.len();
        }
        list_place(&mut self.index, hb.hash.l0, self.entries.len());
        proof {
            lemma_index_grows(index_before, self.index@, self.entries@, record);
        }
        self.entries.push(record);
        self.mined.push(set);
        self.parked = kept;
        proof {
            assert(self@ =~= start.integrate(hb));
            assert forall|i: int| 0 <= i < self.mined.len() implies (#[trigger] self.mined[i])@
                == self@.mined_at(i) by {
                if i < start.entries.len() {
                    lemma_mined_at_prefix(start, self@, i);
                } else {
                    lemma_mined_at_prefix(start, self@, parent as int);
                    assert(self@.linked(i));
                }
            }
        }
        record
    }

    /// Hands a block to the engine.
    pub fn ingest(&mut self, block: Block) -> (outcome: IngestOutcome)
        requires
            old(self).wf(),
        ensures
            final(self).wf(),
            final(self)@ == old(self)@.ingest(HashedBlock { hash: block_hash(block), block }),
            outcome == old(self)@.outcome(HashedBlock { hash: block_hash(block), block }),
    {
        let hash = hash_block(&block);
        self.ingest_hashed(HashedBlock { hash, block })
    }

    /// Hands a block to the engine, under the hash given with it.
    ///
    /// A block that is in the chain already changes nothing. One whose
    /// parent is not in the chain is kept until the parent comes. Any other
    /// is taken into the chain, and with it every block that waited for it,
    /// and those that waited for these, and so on.
    pub fn ingest_hashed(&mut self, hb: HashedBlock) -> (outcome: IngestOutcome)
        requires
            old(self).wf(),
        ensures
            final(self).wf(),
            final(self)@ == old(self)@.ingest(hb),
            outcome == old(self)@.outcome(hb),
    {
        let ghost start = self@;
        if self.find(hb.hash).is_some() {
            return IngestOutcome::AlreadyKnown;
        }
        let parent = match self.find(hb.block.prev) {
            Some(parent) => parent,
            None => {
                self.park(hb);
                return IngestOutcome::MissingParent(hb.block.prev);
            },
        };
        let mut stack: Vec<HashedBlock> = Vec::new();
        let record = self.integrate(parent, hb, &mut stack);
        let ghost goal = drain(start, seq![hb]);
        proof {
            let first = seq![hb];
            assert(first.last() == hb);
            assert(first.drop_last() =~= Seq::<HashedBlock>::empty());
            assert(first.drop_last() + sift(start.parked, leaves(hb.hash)).reverse() =~= stack@);
        }
        while stack.len() > 0
            invariant
                self.wf(),
                drain(self@, stack@) == goal,
            decreases stack.len() + self.parked.len(),
        {
            let ghost before = self@;
            let ghost above = stack@;
            let next = stack.pop().unwrap();
            proof {
                assert(above.last() == next);
                assert(stack@ =~= above.drop_last());
            }
            if self.find(next.hash).is_none() {
                match self.find(next.block.prev) {
                    Some(p) => {
                        self.integrate(p, next, &mut stack);
                    },
                    None => {},
                }
            }
        }
        IngestOutcome::Integrated(record.height, record.work)
    }

    /// Queues a transaction with a priority. A transaction that is queued
    /// already gets the new priority and counts as arrived now.
    pub fn insert(&mut self, tx: Transaction, priority: u64) -> (r: Result<(), PoolError>)
        requires
            old(self).wf(),
        ensures
            final(self).wf(),
            r.is_ok() <==> old(self)@.arrivals < u64::MAX,
            r.is_ok() ==> final(self)@ == old(self)@.queue(tx@, priority),
            r.is_err() ==> final(self)@ == old(self)@,
    {
        let r = self.pool.insert(tx, priority);
        proof {
            if r.is_ok() {
                assert(self@ =~= old(self)@.queue(tx@, priority));
            } else {
                assert(self@ =~= old(self)@);
            }
            assert forall|i: int| 0 <= i < self.mined.len() implies (#[trigger] self.mined[i])@
                == self@.mined_at(i) by {
                lemma_mined_at_prefix(old(self)@, self@, i);
            }
            assert forall|i: int| 1 <= i < self@.entries.len() implies #[trigger] self@.linked(
                i,
            ) by {
                assert(old(self)@.linked(i));
            }
            assert forall|h: U256| self@.seen(h) == old(self)@.seen(h) by {
                if old(self)@.seen(h) {
                    assert(self@.entries[old(self)@.index_of(h)].hash == h);
                }
                if self@.seen(h) {
                    assert(old(self)@.entries[self@.index_of(h)].hash == h);
                }
            }
        }
        r
    }

    /// The transactions a miner takes for a block on top of the block of
    /// hash `tip_hash`, when the block may hold `budget` bytes of them:
    /// from the pool in its order, leaving out what was mined in that
    /// block's lineage, up to the first that no longer fits. The pool is
    /// left as it is.
    pub fn select_for_mining(&self, tip_hash: U256, budget: usize) -> (chosen: Vec<Transaction>)
        requires
            self.wf(),
        ensures
            tx_views(chosen@) == self@.selection(tip_hash, budget as nat),
            forall|i: int|
                0 <= i < chosen@.len() ==> !self@.mined(tip_hash).contains((#[trigger] chosen@[i])@),
    {
        let chosen = match self.find(tip_hash) {
            Some(i) => self.pool.select(&self.mined[i], budget),
            None => {
                let nothing = TxSet::new();
                self.pool.select(&nothing, budget)
            },
        };
        proof {
            lemma_select_excludes_mined(
                pool_order(self@.pool),
                self@.mined(tip_hash),
                budget as nat,
            );
            assert forall|i: int| 0 <= i < chosen@.len() implies !self@.mined(tip_hash).contains(
                (#[trigger] chosen@[i])@,
            ) by {
                assert(tx_views(chosen@)[i] == chosen@[i]@);
            }
        }
        chosen
    }

    /// The work and the hash of the tip.
    pub fn tip(&self) -> (tip: (U256, U256))
        requires
            self.wf(),
        ensures
            tip.0 == self@.tip_work(),
            tip.1 == self@.tip_hash(),
    {
        (self.entries[self.tip].work, self.entries[self.tip].hash)
    }

    /// Whether the block of this hash is in the chain.
    pub fn is_seen(&self, hash: U256) -> (seen: bool)
        requires
            self.wf(),
        ensures
            seen == self@.seen(hash),
    {
        self.find(hash).is_some()
    }

    /// The block of this hash, if it is in the chain.
    pub fn block(&self, hash: U256) -> (block: Option<Block>)
        requires
            self.wf(),
        ensures
            block == self@.block(hash),
    {
        match self.find(hash) {
            Some(i) => Some(self.entries[i].block),
            None => None,
        }
    }

    /// The height of a block, if it is in the chain.
    pub fn height(&self, hash: U256) -> (height: Option<u64>)
        requires
            self.wf(),
        ensures
            height == self@.height(hash),
    {
        match self.find(hash) {
            Some(i) => Some(self.entries[i].height),
            None => None,
        }
    }

    /// The work of the chain up to a block, if it is in the chain.
    pub fn work(&self, hash: U256) -> (work: Option<U256>)
        requires
            self.wf(),
        ensures
            work == self@.work(hash),
    {
        match self.find(hash) {
            Some(i) => Some(self.entries[i].work),
            None => None,
        }
    }

    /// The target of a block, if it is in the chain.
    pub fn target(&self, hash: U256) -> (target: Option<U256>)
        requires
            self.wf(),
        ensures
            target == self@.target(hash),
    {
        match self.find(hash) {
            Some(i) => Some(self.entries[i].target),
            None => None,
        }
    }

    /// The target that a child of the block of this hash has to meet, if
    /// the block is in the chain.
    pub fn required_target(&self, prev: U256) -> (target: Option<U256>)
        requires
            self.wf(),
        ensures
            target == self@.required_target(prev),
    {
        match self.find(prev) {
            Some(i) => {
                assert(self.entries[i as int].sound());
                assert(self.entries[i as int].height <= i);
                Some(self.policy.next_target(&self.entries[i]))
            },
            None => None,
        }
    }

    /// Checks the work of a block before it is handed to the engine: whether
    /// its hash meets the target that its parent sets. The engine itself
    /// takes blocks in unchecked.
    pub fn check_work(&self, hb: &HashedBlock) -> (r: Result<(), Rejection>)
        requires
            self.wf(),
        ensures
            r == self@.check_work(*hb),
    {
        match self.required_target(hb.block.prev) {
            Some(target) => if hb.hash.gt(target) {
                Err(Rejection::InvalidProofOfWork)
            } else {
                Ok(())
            },
            None => Err(Rejection::MissingParent),
        }
    }

    /// The hashes of the children of a block, in the order they were taken
    /// into the chain.
    pub fn children(&self, hash: U256) -> (children: Vec<U256>)
        requires
            self.wf(),
        ensures
            children@ == self@.children(hash),
    {
        let mut children: Vec<U256> = Vec::new();
        match self.find(hash) {
            None => {},
            Some(parent) => {
                let mut n: usize = 0;
                while n < self.entries.len()
                    invariant
                        n <= self.entries.len(),
                        children@ == self@.children_among(parent as int, n as nat),
                    decreases self.entries.len() - n,
                {
                    if n >= 1 && self.entries[n].parent == parent {
                        children.push(self.entries[n].hash);
                    }
                    n += 1;
                }
            },
        }
        children
    }

    /// The blocks that wait for the block of this hash, in the order they
    /// arrived.
    pub fn waiters(&self, hash: U256) -> (waiters: Vec<HashedBlock>)
        requires
            self.wf(),
        ensures
            waiters@ == self@.waiters(hash),
    {
        let mut waiters: Vec<HashedBlock> = Vec::new();
        let mut i: usize = 0;
        while i < self.parked.len()
            invariant
                i <= self.parked.len(),
                waiters@ == sift(self.parked@.take(i as int), child_of(hash)),
            decreases self.parked.len() - i,
        {
            let w = self.parked[i];
            proof {
                let next = self.parked@.take(i + 1);
                assert(next.drop_last() =~= self.parked@.take(i as int));
                assert(next.last() == w);
            }
            if w.block.prev == hash {
                waiters.push(w);
            }
            i += 1;
        }
        assert(self.parked@.take(i as int) =~= self.parked@);
        waiters
    }

    /// Whether a transaction was mined in the lineage that ends at a block.
    pub fn is_mined(&self, hash: U256, tx: &Transaction) -> (mined: bool)
        requires
            self.wf(),
        ensures
            mined == self@.mined(hash).contains(tx@),
    {
        match self.find(hash) {
            Some(i) => self.mined[i].contains(tx),
            None => false,
        }
    }

    /// Number of blocks in the chain.
    pub fn len(&self) -> (len: usize)
        ensures
            len == self@.entries.len(),
    {
        self.entries.len()
    }

    /// Number of blocks that wait for their parent.
    pub fn parked_len(&self) -> (len: usize)
        ensures
            len == self@.parked.len(),
    {
        self.parked.len()
    }

    /// Drops the block that has waited longest and hands it out; `None`
    /// when no block waits. The engine keeps every block that waits; this
    /// is for a caller that puts a cap on them.
    pub fn evict_oldest_waiter(&mut self) -> (dropped: Option<HashedBlock>)
        requires
            old(self).wf(),
        ensures
            final(self).wf(),
            dropped.is_some() <==> old(self)@.parked.len() > 0,
            dropped matches Some(w) ==> w == old(self)@.parked[0] && final(self)@ == old(
                self,
            )@.without_oldest(),
            dropped.is_none() ==> final(self)@ == old(self)@,
    {
        if self.parked.len() == 0 {
            return None;
        }
        proof {
            lemma_without_oldest(self@);
        }
        let w = self.parked.remove(0);
        proof {
            assert(self@ =~= old(self)@.without_oldest());
            assert forall|i: int| 0 <= i < self.mined.len() implies (#[trigger] self.mined[i])@
                == self@.mined_at(i) by {
                lemma_mined_at_prefix(old(self)@, self@, i);
            }
        }
        Some(w)
    }

    /// Answers a message: a block that is put is handed to the engine, and
    /// its parent is asked for where it is missing; a block that is asked
    /// for is put, where the chain has it. Nothing else is answered.
    pub fn handle(&mut self, message: Message) -> (answer: Option<Message>)
        requires
            old(self).wf(),
        ensures
            final(self).wf(),
            final(self)@ == old(self)@.after(message),
            answer == old(self)@.answer(message),
    {
        match message {
            Message::PutPeers { peers } => None,
            Message::PutBlock { block } => {
                match self.ingest(block) {
                    IngestOutcome::MissingParent(bhash) => Some(Message::AskBlock { bhash }),
                    _ => None,
                }
            },
            Message::AskBlock { bhash } => {
                match self.block(bhash) {
                    Some(block) => Some(Message::PutBlock { block }),
                    None => None,
                }
            },
        }
    }
}

} // verus!
