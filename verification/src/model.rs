//! The chain state as mathematics: the table of blocks taken into the chain,
//! the blocks that wait for their parent, the tip, and what ingesting a
//! block makes of them.

use vstd::prelude::*;
use crate::lineage::{lemma_child, Policy, Record};
use crate::pool::{no_entries, pool_wf, Rank};
use crate::txset::tx_set;
use crate::types::{body_txs, Block, HashedBlock};
use crate::uint256::U256;

verus! {

/// What became of a block handed to the engine.
#[derive(Debug, Clone, Copy, PartialEq, Eq, Structural)]
pub enum IngestOutcome {
    /// The block was in the chain already.
    AlreadyKnown,
    /// The block waits for its parent, whose hash this is.
    MissingParent(U256),
    /// The block is in the chain now, at this height and with this work.
    Integrated(u64, U256),
}

/// Why a block does not pass the check of its work.
#[derive(Debug, Clone, Copy, PartialEq, Eq, Structural)]
pub enum Rejection {
    /// The block's hash is above the target that its parent sets.
    InvalidProofOfWork,
    /// The block's parent is not in the chain, so that no target is set.
    MissingParent,
}

/// The elements of `s` that `keep` holds of, in their order.
pub open spec fn sift<A>(s: Seq<A>, keep: spec_fn(A) -> bool) -> Seq<A>
    decreases s.len(),
{
    if s.len() == 0 {
        Seq::empty()
    } else if keep(s.last()) {
        sift(s.drop_last(), keep).push(s.last())
    } else {
        sift(s.drop_last(), keep)
    }
}

/// Holds of the waiting blocks that go on waiting once `hash` is in the chain.
pub open spec fn stays(hash: U256) -> spec_fn(HashedBlock) -> bool {
    |w: HashedBlock| w.hash != hash && w.block.prev != hash
}

/// Holds of the waiting blocks that `hash` is the missing parent of.
pub open spec fn leaves(hash: U256) -> spec_fn(HashedBlock) -> bool {
    |w: HashedBlock| w.hash != hash && w.block.prev == hash
}

/// Holds of the blocks whose parent is `hash`.
pub open spec fn child_of(hash: U256) -> spec_fn(HashedBlock) -> bool {
    |w: HashedBlock| w.block.prev == hash
}

/// No two blocks of `blocks` go by the same hash.
pub open spec fn distinct_hashes(blocks: Seq<HashedBlock>) -> bool {
    forall|k: int, l: int|
        0 <= k < l < blocks.len() ==> (#[trigger] blocks[k]).hash != (#[trigger] blocks[l]).hash
}

/// The state of the chain.
#[verifier::ext_equal]
pub struct ChainView {
    pub policy: Policy,
    /// The records of the blocks in the chain, in the order they were taken
    /// in; the first is the genesis block's.
    pub entries: Seq<Record>,
    /// The blocks that wait for their parent, in the order they arrived.
    pub parked: Seq<HashedBlock>,
    /// Position of the tip's record.
    pub tip: int,
    /// The pending transactions, each with its rank.
    pub pool: Map<Seq<u8>, Rank>,
    /// Number of transactions queued so far.
    pub arrivals: nat,
}

impl ChainView {
    /// The state of a chain that holds its genesis block and nothing else.
    pub open spec fn genesis(policy: Policy, hb: HashedBlock) -> ChainView {
        ChainView {
            policy,
            entries: seq![policy.genesis(hb)],
            parked: Seq::empty(),
            tip: 0,
            pool: no_entries(),
            arrivals: 0,
        }
    }

    /// Whether the block of this hash is in the chain.
    pub open spec fn seen(self, hash: U256) -> bool {
        exists|i: int| 0 <= i < self.entries.len() && (#[trigger] self.entries[i]).hash == hash
    }

    /// Position of the record of a block that is in the chain.
    pub open spec fn index_of(self, hash: U256) -> int {
        choose|i: int| 0 <= i < self.entries.len() && (#[trigger] self.entries[i]).hash == hash
    }

    /// Whether a block of this hash waits for its parent.
    pub open spec fn is_parked(self, hash: U256) -> bool {
        exists|k: int| 0 <= k < self.parked.len() && (#[trigger] self.parked[k]).hash == hash
    }

    /// The record of a block, if it is in the chain.
    pub open spec fn record(self, hash: U256) -> Option<Record> {
        if self.seen(hash) {
            Some(self.entries[self.index_of(hash)])
        } else {
            None
        }
    }

    /// The block of this hash, if it is in the chain.
    pub open spec fn block(self, hash: U256) -> Option<Block> {
        match self.record(hash) {
            Some(r) => Some(r.block),
            None => None,
        }
    }

    /// The height of a block, if it is in the chain.
    pub open spec fn height(self, hash: U256) -> Option<u64> {
        match self.record(hash) {
            Some(r) => Some(r.height),
            None => None,
        }
    }

    /// The work of the chain up to a block, if it is in the chain.
    pub open spec fn work(self, hash: U256) -> Option<U256> {
        match self.record(hash) {
            Some(r) => Some(r.work),
            None => None,
        }
    }

    /// The target of a block, if it is in the chain.
    pub open spec fn target(self, hash: U256) -> Option<U256> {
        match self.record(hash) {
            Some(r) => Some(r.target),
            None => None,
        }
    }

    /// The target that a child of the block of this hash has to meet, if
    /// the block is in the chain.
    pub open spec fn required_target(self, prev: U256) -> Option<U256> {
        match self.record(prev) {
            Some(r) => Some(self.policy.target_after(r)),
            None => None,
        }
    }

    /// Whether a block's hash meets the target that its parent sets: a hash
    /// meets a target when it is not above it.
    pub open spec fn check_work(self, hb: HashedBlock) -> Result<(), Rejection> {
        match self.required_target(hb.block.prev) {
            Some(target) => if hb.hash@ <= target@ {
                Ok(())
            } else {
                Err(Rejection::InvalidProofOfWork)
            },
            None => Err(Rejection::MissingParent),
        }
    }

    /// The hash of the tip.
    pub open spec fn tip_hash(self) -> U256 {
        self.entries[self.tip].hash
    }

    /// The work of the chain that ends at the tip.
    pub open spec fn tip_work(self) -> U256 {
        self.entries[self.tip].work
    }

    /// The hashes of the first `n` records whose parent is at `parent`, in
    /// the order they were taken in.
    pub open spec fn children_among(self, parent: int, n: nat) -> Seq<U256>
        decreases n,
    {
        if n == 0 {
            Seq::empty()
        } else {
            let rest = self.children_among(parent, (n - 1) as nat);
            if n - 1 >= 1 && self.entries[n - 1].parent == parent {
                rest.push(self.entries[n - 1].hash)
            } else {
                rest
            }
        }
    }

    /// The hashes of the children of a block, in the order they were taken
    /// in; none for a block that is not in the chain.
    pub open spec fn children(self, hash: U256) -> Seq<U256> {
        if self.seen(hash) {
            self.children_among(self.index_of(hash), self.entries.len())
        } else {
            Seq::empty()
        }
    }

    /// The blocks that wait for the block of this hash, in the order they
    /// arrived.
    pub open spec fn waiters(self, hash: U256) -> Seq<HashedBlock> {
        sift(self.parked, child_of(hash))
    }

    /// The transactions of the block at `i` and of all blocks before it in
    /// its lineage.
    pub open spec fn mined_at(self, i: int) -> Set<Seq<u8>>
        decreases i,
    {
        if 0 <= i < self.entries.len() {
            let own = tx_set(body_txs(self.entries[i].block.body.value@));
            let parent = self.entries[i].parent as int;
            if 0 < i && parent < i {
                self.mined_at(parent).union(own)
            } else {
                own
            }
        } else {
            Set::empty()
        }
    }

    /// The transactions mined in the lineage that ends at a block; none for
    /// a block that is not in the chain.
    pub open spec fn mined(self, hash: U256) -> Set<Seq<u8>> {
        if self.seen(hash) {
            self.mined_at(self.index_of(hash))
        } else {
            Set::empty()
        }
    }

    /// The record at `i` follows from its parent's, which stands before it.
    pub open spec fn linked(self, i: int) -> bool {
        let e = self.entries[i];
        let p = e.parent as int;
        &&& 0 <= p < i
        &&& e.block.prev == self.entries[p].hash
        &&& e == self.policy.child(
            self.entries[p],
            e.parent,
            HashedBlock { hash: e.hash, block: e.block },
        )
        &&& e.height == self.entries[p].height + 1
        &&& e.work@ == self.entries[p].work@ + crate::lineage::work_of_target(e.target@)
    }

    /// What holds of every state of the chain.
    pub open spec fn wf(self) -> bool {
        &&& self.policy.valid()
        &&& self.entries.len() >= 1
        &&& self.entries[0] == self.policy.genesis(
            HashedBlock { hash: self.entries[0].hash, block: self.entries[0].block },
        )
        &&& self.entries[0].work@ == 0
        &&& forall|i: int| 0 <= i < self.entries.len() ==> (#[trigger] self.entries[i]).sound()
        &&& forall|i: int| 0 <= i < self.entries.len() ==> (#[trigger] self.entries[i]).height <= i
        &&& forall|i: int| 1 <= i < self.entries.len() ==> #[trigger] self.linked(i)
        &&& forall|i: int, j: int|
            0 <= i < j < self.entries.len() ==> (#[trigger] self.entries[i]).hash
                != (#[trigger] self.entries[j]).hash
        &&& 0 <= self.tip < self.entries.len()
        &&& forall|i: int|
            0 <= i < self.entries.len() ==> (#[trigger] self.entries[i]).work@
                <= self.entries[self.tip].work@
        &&& forall|i: int|
            0 <= i < self.tip ==> (#[trigger] self.entries[i]).work@ < self.entries[self.tip].work@
        &&& forall|k: int|
            0 <= k < self.parked.len() ==> !self.seen((#[trigger] self.parked[k]).hash)
                && !self.seen(self.parked[k].block.prev)
        &&& distinct_hashes(self.parked)
        &&& pool_wf(self.pool, self.arrivals)
    }

    /// The state once a block whose parent is in the chain is taken in: its
    /// record is added, it becomes the tip if its chain is heavier than the
    /// tip's, and the blocks that waited for it, or go by its hash, wait no more.
    pub open spec fn integrate(self, hb: HashedBlock) -> ChainView {
        let p = self.index_of(hb.block.prev);
        let record = self.policy.child(self.entries[p], p as usize, hb);
        ChainView {
            policy: self.policy,
            entries: self.entries.push(record),
            parked: sift(self.parked, stays(hb.hash)),
            tip: if record.work@ > self.entries[self.tip].work@ {
                self.entries.len() as int
            } else {
                self.tip
            },
            pool: self.pool,
            arrivals: self.arrivals,
        }
    }

    /// The state once a block whose parent is missing is put among the
    /// waiting ones; a block that waits already is not put there twice.
    pub open spec fn park(self, hb: HashedBlock) -> ChainView {
        if self.is_parked(hb.hash) {
            self
        } else {
            ChainView {
                policy: self.policy,
                entries: self.entries,
                parked: self.parked.push(hb),
                tip: self.tip,
                pool: self.pool,
                arrivals: self.arrivals,
            }
        }
    }

    /// The state once the blocks of `stack` are worked off, the last one
    /// first. A block is taken in when its parent is in the chain and it is
    /// not; the blocks that waited for it are then put on the stack, the one
    /// that arrived first on top.
    pub open spec fn drain(self, stack: Seq<HashedBlock>) -> ChainView {
        drain(self, stack)
    }

    /// The state once a block is handed to the engine.
    pub open spec fn ingest(self, hb: HashedBlock) -> ChainView {
        if self.seen(hb.hash) {
            self
        } else if !self.seen(hb.block.prev) {
            self.park(hb)
        } else {
            self.drain(seq![hb])
        }
    }

    /// What the engine answers when a block is handed to it.
    pub open spec fn outcome(self, hb: HashedBlock) -> IngestOutcome {
        if self.seen(hb.hash) {
            IngestOutcome::AlreadyKnown
        } else if !self.seen(hb.block.prev) {
            IngestOutcome::MissingParent(hb.block.prev)
        } else {
            let p = self.index_of(hb.block.prev);
            let record = self.policy.child(self.entries[p], p as usize, hb);
            IngestOutcome::Integrated(record.height, record.work)
        }
    }

    /// The state once the block that has waited longest is dropped.
    pub open spec fn without_oldest(self) -> ChainView {
        ChainView {
            policy: self.policy,
            entries: self.entries,
            parked: self.parked.remove(0),
            tip: self.tip,
            pool: self.pool,
            arrivals: self.arrivals,
        }
    }

    /// The state once a transaction is queued with a priority: it gets the
    /// next precedence, in place of the rank it had if it was queued already.
    pub open spec fn queue(self, tx: Seq<u8>, priority: u64) -> ChainView {
        ChainView {
            policy: self.policy,
            entries: self.entries,
            parked: self.parked,
            tip: self.tip,
            pool: self.pool.insert(tx, (priority, (u64::MAX - self.arrivals) as u64)),
            arrivals: self.arrivals + 1,
        }
    }

    /// What a miner takes for a block on top of the block of hash `tip_hash`
    /// that may hold `budget` bytes of transactions.
    pub open spec fn selection(self, tip_hash: U256, budget: nat) -> Seq<Seq<u8>> {
        crate::pool::select(crate::pool::pool_order(self.pool), self.mined(tip_hash), budget)
    }

    /// The state once a message is answered.
    pub open spec fn after(self, message: crate::types::Message) -> ChainView {
        match message {
            crate::types::Message::PutBlock { block } => self.ingest(
                HashedBlock { hash: crate::hashing::block_hash(block), block },
            ),
            _ => self,
        }
    }

    /// The answer to a message.
    pub open spec fn answer(self, message: crate::types::Message) -> Option<crate::types::Message> {
        match message {
            crate::types::Message::PutBlock { block } => {
                match self.outcome(HashedBlock { hash: crate::hashing::block_hash(block), block }) {
                    IngestOutcome::MissingParent(bhash) => Some(
                        crate::types::Message::AskBlock { bhash },
                    ),
                    _ => None,
                }
            },
            crate::types::Message::AskBlock { bhash } => {
                match self.block(bhash) {
                    Some(block) => Some(crate::types::Message::PutBlock { block }),
                    None => None,
                }
            },
            _ => None,
        }
    }

    /// The state once the blocks of `blocks` are handed to the engine one
    /// after another.
    pub open spec fn ingest_all(self, blocks: Seq<HashedBlock>) -> ChainView
        decreases blocks.len(),
    {
        if blocks.len() == 0 {
            self
        } else {
            self.ingest_all(blocks.drop_last()).ingest(blocks.last())
        }
    }
}

/// See `ChainView::drain`.
pub open spec fn drain(s: ChainView, stack: Seq<HashedBlock>) -> ChainView
    decreases stack.len() + s.parked.len(),
    via drain_decreases
{
    if stack.len() == 0 {
        s
    } else {
        let hb = stack.last();
        let rest = stack.drop_last();
        if s.seen(hb.hash) || !s.seen(hb.block.prev) {
            drain(s, rest)
        } else {
            drain(s.integrate(hb), rest + sift(s.parked, leaves(hb.hash)).reverse())
        }
    }
}

#[via_fn]
proof fn drain_decreases(s: ChainView, stack: Seq<HashedBlock>) {
    if stack.len() > 0 {
        let hb = stack.last();
        lemma_split_len(s.parked, hb.hash);
    }
}

/// The blocks that go on waiting and those that wait no more are together
/// no more than those that waited.
pub proof fn lemma_split_len(parked: Seq<HashedBlock>, hash: U256)
    ensures
        sift(parked, stays(hash)).len() + sift(parked, leaves(hash)).len() <= parked.len(),
        sift(parked, leaves(hash)).reverse().len() == sift(parked, leaves(hash)).len(),
    decreases parked.len(),
{
    if parked.len() > 0 {
        lemma_split_len(parked.drop_last(), hash);
    }
}

/// Each element that `sift` keeps is one of the sequence and one that
/// `keep` holds of; and where no hash occurred twice, none does afterwards.
pub proof fn lemma_sift(s: Seq<HashedBlock>, keep: spec_fn(HashedBlock) -> bool)
    ensures
        sift(s, keep).len() <= s.len(),
        forall|k: int|
            0 <= k < sift(s, keep).len() ==> keep(#[trigger] sift(s, keep)[k]) && s.contains(
                sift(s, keep)[k],
            ),
        forall|i: int| 0 <= i < s.len() && keep(s[i]) ==> sift(s, keep).contains(#[trigger] s[i]),
        distinct_hashes(s) ==> distinct_hashes(sift(s, keep)),
    decreases s.len(),
{
    if s.len() > 0 {
        let head = s.drop_last();
        let out = sift(s, keep);
        lemma_sift(head, keep);
        assert forall|k: int| 0 <= k < out.len() implies keep(#[trigger] out[k]) && s.contains(
            out[k],
        ) by {
            if k < sift(head, keep).len() {
                let x = sift(head, keep)[k];
                let i = choose|i: int| 0 <= i < head.len() && head[i] == x;
                assert(s[i] == x);
            } else {
                assert(s[s.len() - 1] == out[k]);
            }
        }
        assert forall|i: int| 0 <= i < s.len() && keep(s[i]) implies out.contains(
            #[trigger] s[i],
        ) by {
            if i < head.len() {
                assert(head[i] == s[i]);
                let k = choose|k: int| 0 <= k < sift(head, keep).len() && sift(head, keep)[k] == s[i];
                assert(out[k] == s[i]);
            } else {
                assert(out[out.len() - 1] == s[i]);
            }
        }
        if distinct_hashes(s) {
            assert(distinct_hashes(head)) by {
                assert forall|k: int, l: int| 0 <= k < l < head.len() implies (#[trigger] head[k]).hash
                    != (#[trigger] head[l]).hash by {
                    assert(s[k] == head[k] && s[l] == head[l]);
                }
            }
            assert forall|k: int, l: int| 0 <= k < l < out.len() implies (#[trigger] out[k]).hash
                != (#[trigger] out[l]).hash by {
                if l < sift(head, keep).len() {
                    assert(out[k] == sift(head, keep)[k] && out[l] == sift(head, keep)[l]);
                } else {
                    let x = sift(head, keep)[k];
                    let i = choose|i: int| 0 <= i < head.len() && head[i] == x;
                    assert(s[i] == x);
                    assert(out[l] == s[s.len() - 1]);
                }
            }
        }
    }
}

/// Records that two states share keep the transactions mined in their lineage.
pub proof fn lemma_mined_at_prefix(s: ChainView, t: ChainView, i: int)
    requires
        s.entries.len() <= t.entries.len(),
        forall|j: int| 0 <= j < s.entries.len() ==> t.entries[j] == s.entries[j],
        0 <= i < s.entries.len(),
    ensures
        t.mined_at(i) == s.mined_at(i),
    decreases i,
{
    let parent = s.entries[i].parent as int;
    if 0 < i && parent < i {
        lemma_mined_at_prefix(s, t, parent);
    }
}

/// In a well-formed state a hash names one record only.
pub proof fn lemma_index_of(s: ChainView, i: int)
    requires
        s.wf(),
        0 <= i < s.entries.len(),
    ensures
        s.seen(s.entries[i].hash),
        s.index_of(s.entries[i].hash) == i,
{
    let j = s.index_of(s.entries[i].hash);
    assert(s.entries[j].hash == s.entries[i].hash);
}

/// Taking in a block whose parent is in the chain, and which is not in it,
/// keeps the state well-formed; afterwards the chain holds the block and what
/// it held.
#[verifier::rlimit(40)]
pub proof fn lemma_integrate(s: ChainView, hb: HashedBlock)
    requires
        s.wf(),
        s.seen(hb.block.prev),
        !s.seen(hb.hash),
        s.entries.len() <= usize::MAX,
    ensures
        s.integrate(hb).wf(),
        forall|h: U256| s.integrate(hb).seen(h) <==> s.seen(h) || h == hb.hash,
        forall|i: int| 0 <= i < s.entries.len() ==> s.integrate(hb).entries[i] == s.entries[i],
        s.integrate(hb).entries.len() == s.entries.len() + 1,
        s.integrate(hb).entries.last().hash == hb.hash,
        s.integrate(hb).entries.last().block == hb.block,
        s.integrate(hb).entries[s.integrate(hb).tip].work@ >= s.entries[s.tip].work@,
{
    let t = s.integrate(hb);
    let n = s.entries.len() as int;
    let p = s.index_of(hb.block.prev);
    let record = s.policy.child(s.entries[p], p as usize, hb);
    assert(s.entries[p].sound());
    assert(s.entries[p].height <= p);
    lemma_child(s.policy, s.entries[p], p as usize, hb);
    assert(t.entries[n] == record);
    assert forall|i: int| 0 <= i < n implies t.entries[i] == s.entries[i] by {}
    assert forall|i: int| 0 <= i < n implies (#[trigger] s.entries[i]).hash != hb.hash by {}
    assert forall|h: U256| t.seen(h) <==> s.seen(h) || h == hb.hash by {
        if s.seen(h) {
            let i = s.index_of(h);
            assert(t.entries[i].hash == h);
        }
        if h == hb.hash {
            assert(t.entries[n].hash == h);
        }
        if t.seen(h) {
            let i = t.index_of(h);
            if i < n {
                assert(s.entries[i].hash == h);
            }
        }
    }
    assert forall|i: int| 0 <= i < t.entries.len() implies (#[trigger] t.entries[i]).sound() by {
        if i < n {
            assert(s.entries[i].sound());
        }
    }
    assert forall|i: int| 0 <= i < t.entries.len() implies (#[trigger] t.entries[i]).height
        <= i by {
        if i < n {
            assert(s.entries[i].height <= i);
        }
    }
    assert forall|i: int| 1 <= i < t.entries.len() implies #[trigger] t.linked(i) by {
        if i < n {
            assert(s.linked(i));
            assert(t.entries[s.entries[i].parent as int] == s.entries[s.entries[i].parent as int]);
        } else {
            assert(t.entries[p] == s.entries[p]);
            assert(hb == HashedBlock { hash: record.hash, block: record.block });
        }
    }
    assert forall|i: int, j: int| 0 <= i < j < t.entries.len() implies (#[trigger] t.entries[i]).hash
        != (#[trigger] t.entries[j]).hash by {
        if j < n {
            assert(s.entries[i].hash != s.entries[j].hash);
        } else {
            assert(s.entries[i].hash != hb.hash);
        }
    }
    assert forall|i: int| 0 <= i < t.entries.len() implies (#[trigger] t.entries[i]).work@
        <= t.entries[t.tip].work@ by {
        if i < n {
            assert(s.entries[i].work@ <= s.entries[s.tip].work@);
        }
    }
    assert forall|i: int| 0 <= i < t.tip implies (#[trigger] t.entries[i]).work@
        < t.entries[t.tip].work@ by {
        if t.tip == n {
            assert(s.entries[i].work@ <= s.entries[s.tip].work@);
        } else {
            assert(s.entries[i].work@ < s.entries[s.tip].work@);
        }
    }
    lemma_sift(s.parked, stays(hb.hash));
    assert forall|k: int| 0 <= k < t.parked.len() implies !t.seen((#[trigger] t.parked[k]).hash)
        && !t.seen(t.parked[k].block.prev) by {
        let w = t.parked[k];
        let i = choose|i: int| 0 <= i < s.parked.len() && s.parked[i] == w;
        assert(!s.seen(s.parked[i].hash));
        assert(stays(hb.hash)(w));
    }
}

/// Dropping the block that has waited longest keeps the state well-formed.
pub proof fn lemma_without_oldest(s: ChainView)
    requires
        s.wf(),
        s.parked.len() > 0,
    ensures
        s.without_oldest().wf(),
{
    let t = s.without_oldest();
    assert forall|i: int| 1 <= i < t.entries.len() implies #[trigger] t.linked(i) by {
        assert(s.linked(i));
    }
    assert forall|h: U256| t.seen(h) == s.seen(h) by {
        if s.seen(h) {
            assert(t.entries[s.index_of(h)].hash == h);
        }
        if t.seen(h) {
            assert(s.entries[t.index_of(h)].hash == h);
        }
    }
    assert forall|k: int| 0 <= k < t.parked.len() implies !t.seen((#[trigger] t.parked[k]).hash)
        && !t.seen(t.parked[k].block.prev) by {
        assert(t.parked[k] == s.parked[k + 1]);
        assert(!s.seen(s.parked[k + 1].hash));
    }
    assert forall|k: int, l: int| 0 <= k < l < t.parked.len() implies (#[trigger] t.parked[k]).hash
        != (#[trigger] t.parked[l]).hash by {
        assert(s.parked[k + 1].hash != s.parked[l + 1].hash);
    }
}

/// Putting a block among the waiting ones keeps the state well-formed, when
/// neither the block nor its parent is in the chain.
pub proof fn lemma_park(s: ChainView, hb: HashedBlock)
    requires
        s.wf(),
        !s.seen(hb.hash),
        !s.seen(hb.block.prev),
    ensures
        s.park(hb).wf(),
        s.park(hb).entries == s.entries,
        s.park(hb).tip == s.tip,
{
    let t = s.park(hb);
    if !s.is_parked(hb.hash) {
        assert forall|i: int| 1 <= i < t.entries.len() implies #[trigger] t.linked(i) by {
            assert(s.linked(i));
        }
        assert forall|h: U256| t.seen(h) == s.seen(h) by {
            if s.seen(h) {
                assert(t.entries[s.index_of(h)].hash == h);
            }
            if t.seen(h) {
                assert(s.entries[t.index_of(h)].hash == h);
            }
        }
        assert forall|k: int| 0 <= k < t.parked.len() implies !t.seen((#[trigger] t.parked[k]).hash)
            && !t.seen(t.parked[k].block.prev) by {
            if k < s.parked.len() {
                assert(t.parked[k] == s.parked[k]);
                assert(!s.seen(s.parked[k].hash));
            }
        }
        assert forall|k: int, l: int| 0 <= k < l < t.parked.len() implies (#[trigger] t.parked[k]).hash
            != (#[trigger] t.parked[l]).hash by {
            if l < s.parked.len() {
                assert(s.parked[k].hash != s.parked[l].hash);
            } else {
                assert(s.parked[k].hash != hb.hash);
            }
        }
    }
}

} // verus!
