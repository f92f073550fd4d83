//! What holds of the engine whatever blocks it is handed, in whatever order.

use vstd::prelude::*;
use crate::model::{
    drain, leaves, lemma_index_of, lemma_integrate, lemma_park, lemma_sift,
    lemma_split_len, sift, stays, ChainView, IngestOutcome,
};
use crate::pool::lemma_select_excludes_mined;
use crate::types::HashedBlock;
use crate::uint256::U256;

verus! {

/// Number of blocks that the tables of a state can still take. A table holds
/// no more records than a machine word counts.
pub open spec fn room(s: ChainView) -> int {
    usize::MAX + 1 - s.entries.len() - s.parked.len()
}

/// The later state has every record of the earlier one, at the same place,
/// and the same policy and pool.
pub open spec fn extends(s: ChainView, t: ChainView) -> bool {
    &&& t.policy == s.policy
    &&& t.pool == s.pool
    &&& t.arrivals == s.arrivals
    &&& s.entries.len() <= t.entries.len()
    &&& forall|i: int| 0 <= i < s.entries.len() ==> t.entries[i] == s.entries[i]
}

/// Every block that waits in `s` is in the chain of `t` or waits in `t`.
pub open spec fn none_lost(s: ChainView, t: ChainView) -> bool {
    forall|k: int|
        0 <= k < s.parked.len() ==> t.seen((#[trigger] s.parked[k]).hash) || t.parked.contains(
            s.parked[k],
        )
}

/// The state of a fresh node is well-formed: its chain holds the genesis
/// block, at height zero and with no work behind it, which is the tip; no
/// block waits, and the pool is empty.
pub proof fn lemma_genesis(policy: crate::lineage::Policy, hb: HashedBlock)
    requires
        policy.valid(),
    ensures
        ChainView::genesis(policy, hb).wf(),
        ChainView::genesis(policy, hb).parked.len() == 0,
        ChainView::genesis(policy, hb).tip_hash() == hb.hash,
        ChainView::genesis(policy, hb).tip_work()@ == 0,
        ChainView::genesis(policy, hb).height(hb.hash) == Some(0u64),
        forall|h: U256| ChainView::genesis(policy, hb).seen(h) <==> h == hb.hash,
{
    let s = ChainView::genesis(policy, hb);
    U256::lemma_view_of(0);
    assert(s.entries[0].hash == hb.hash);
    assert(hb == HashedBlock { hash: s.entries[0].hash, block: s.entries[0].block });
    assert(s.seen(hb.hash));
    assert(s.pool.dom() =~= Set::<Seq<u8>>::empty());
    assert(s.index_of(hb.hash) == 0);
}

/// What working off a stack of blocks makes of a well-formed state: a
/// well-formed state that has all the records it had; a tip no lighter; no
/// waiting block lost; and every block of the stack whose parent was in the
/// chain in the chain too.
#[verifier::rlimit(40)]
pub proof fn lemma_drain(s: ChainView, stack: Seq<HashedBlock>)
    requires
        s.wf(),
        stack.len() <= room(s),
    ensures
        drain(s, stack).wf(),
        extends(s, drain(s, stack)),
        forall|h: U256| s.seen(h) ==> drain(s, stack).seen(h),
        drain(s, stack).tip_work()@ >= s.tip_work()@,
        room(drain(s, stack)) >= room(s) - stack.len(),
        none_lost(s, drain(s, stack)),
        forall|k: int|
            0 <= k < stack.len() && s.seen((#[trigger] stack[k]).block.prev) ==> drain(
                s,
                stack,
            ).seen(stack[k].hash),
        forall|q: int|
            0 <= q < drain(s, stack).parked.len() ==> s.parked.contains(
                #[trigger] drain(s, stack).parked[q],
            ),
    decreases stack.len() + s.parked.len(),
{
    let t = drain(s, stack);
    if stack.len() == 0 {
        assert forall|k: int| 0 <= k < s.parked.len() implies t.parked.contains(
            #[trigger] s.parked[k],
        ) by {}
    } else {
        let hb = stack.last();
        let rest = stack.drop_last();
        if s.seen(hb.hash) || !s.seen(hb.block.prev) {
            lemma_drain(s, rest);
            assert forall|k: int|
                0 <= k < stack.len() && s.seen((#[trigger] stack[k]).block.prev) implies t.seen(
                stack[k].hash,
            ) by {
                if k < rest.len() {
                    assert(rest[k] == stack[k]);
                }
            }
        } else {
            let s1 = s.integrate(hb);
            let ready = sift(s.parked, leaves(hb.hash));
            let stack1 = rest + ready.reverse();
            lemma_integrate(s, hb);
            lemma_split_len(s.parked, hb.hash);
            lemma_sift(s.parked, leaves(hb.hash));
            lemma_sift(s.parked, stays(hb.hash));
            lemma_drain(s1, stack1);
            assert(extends(s, t)) by {
                assert forall|i: int| 0 <= i < s.entries.len() implies t.entries[i]
                    == s.entries[i] by {
                    assert(t.entries[i] == s1.entries[i]);
                }
            }
            assert(t.tip_work()@ >= s.tip_work()@);
            assert forall|k: int| 0 <= k < s.parked.len() implies t.seen(
                (#[trigger] s.parked[k]).hash,
            ) || t.parked.contains(s.parked[k]) by {
                let w = s.parked[k];
                if w.hash == hb.hash {
                    assert(s1.seen(w.hash));
                } else if w.block.prev == hb.hash {
                    assert(leaves(hb.hash)(w));
                    assert(ready.contains(w));
                    let i = choose|i: int| 0 <= i < ready.len() && ready[i] == w;
                    let j = rest.len() + (ready.len() - 1 - i);
                    assert(ready.reverse()[ready.len() - 1 - i] == w);
                    assert(stack1[j] == w);
                    assert(s1.seen(stack1[j].block.prev));
                } else {
                    assert(stays(hb.hash)(w));
                    assert(s1.parked.contains(w));
                    let i = choose|i: int| 0 <= i < s1.parked.len() && s1.parked[i] == w;
                    assert(t.seen(s1.parked[i].hash) || t.parked.contains(s1.parked[i]));
                }
            }
            assert forall|k: int|
                0 <= k < stack.len() && s.seen((#[trigger] stack[k]).block.prev) implies t.seen(
                stack[k].hash,
            ) by {
                if k < rest.len() {
                    assert(stack1[k] == stack[k]);
                    assert(s1.seen(stack1[k].block.prev));
                } else {
                    assert(s1.seen(hb.hash));
                }
            }
            assert forall|q: int| 0 <= q < t.parked.len() implies s.parked.contains(
                #[trigger] t.parked[q],
            ) by {
                let w = t.parked[q];
                assert(s1.parked.contains(w));
                let i = choose|i: int| 0 <= i < s1.parked.len() && s1.parked[i] == w;
                assert(s.parked.contains(s1.parked[i]));
            }
        }
    }
}

/// What handing a block to the engine makes of a well-formed state.
pub proof fn lemma_ingest(s: ChainView, hb: HashedBlock)
    requires
        s.wf(),
        room(s) >= 1,
    ensures
        s.ingest(hb).wf(),
        extends(s, s.ingest(hb)),
        forall|h: U256| s.seen(h) ==> s.ingest(hb).seen(h),
        s.ingest(hb).tip_work()@ >= s.tip_work()@,
        room(s.ingest(hb)) >= room(s) - 1,
        none_lost(s, s.ingest(hb)),
        s.ingest(hb).seen(hb.hash) <==> s.seen(hb.hash) || s.seen(hb.block.prev),
        !s.ingest(hb).seen(hb.hash) ==> s.ingest(hb).is_parked(hb.hash),
{
    let t = s.ingest(hb);
    if s.seen(hb.hash) {
        lemma_same_is_not_lost(s);
    } else if !s.seen(hb.block.prev) {
        lemma_park(s, hb);
        lemma_same_seen(s, t);
        if s.is_parked(hb.hash) {
            lemma_same_is_not_lost(s);
        } else {
            assert(t.parked[s.parked.len() as int].hash == hb.hash);
            assert forall|k: int| 0 <= k < s.parked.len() implies t.parked.contains(
                #[trigger] s.parked[k],
            ) by {
                assert(t.parked[k] == s.parked[k]);
            }
        }
    } else {
        let first = seq![hb];
        lemma_drain(s, first);
        assert(s.seen(first[0].block.prev));
    }
}

proof fn lemma_same_is_not_lost(s: ChainView)
    ensures
        none_lost(s, s),
{
    assert forall|k: int| 0 <= k < s.parked.len() implies s.parked.contains(
        #[trigger] s.parked[k],
    ) by {}
}

/// States with the same records have the same blocks in the chain.
pub proof fn lemma_same_seen(s: ChainView, t: ChainView)
    requires
        s.entries == t.entries,
    ensures
        forall|h: U256| s.seen(h) == t.seen(h),
        forall|h: U256| s.index_of(h) == t.index_of(h),
{
    assert forall|h: U256| s.seen(h) == t.seen(h) by {
        if s.seen(h) {
            assert(t.entries[s.index_of(h)].hash == h);
        }
        if t.seen(h) {
            assert(s.entries[t.index_of(h)].hash == h);
        }
    }
}

/// What handing blocks to the engine one after another makes of a
/// well-formed state.
pub proof fn lemma_ingest_all(s: ChainView, blocks: Seq<HashedBlock>)
    requires
        s.wf(),
        room(s) >= blocks.len(),
    ensures
        s.ingest_all(blocks).wf(),
        extends(s, s.ingest_all(blocks)),
        forall|h: U256| s.seen(h) ==> s.ingest_all(blocks).seen(h),
        s.ingest_all(blocks).tip_work()@ >= s.tip_work()@,
        room(s.ingest_all(blocks)) >= room(s) - blocks.len(),
    decreases blocks.len(),
{
    if blocks.len() > 0 {
        let mid = s.ingest_all(blocks.drop_last());
        lemma_ingest_all(s, blocks.drop_last());
        lemma_ingest(mid, blocks.last());
        let t = s.ingest_all(blocks);
        assert forall|i: int| 0 <= i < s.entries.len() implies t.entries[i] == s.entries[i] by {
            assert(t.entries[i] == mid.entries[i]);
        }
    }
}

/// A block that is taken in gets the record that follows from its parent's,
/// as the engine answers: one higher than the parent, with the target that
/// the parent sets, and heavier by the work of that target.
pub proof fn lemma_integrated_record(s: ChainView, hb: HashedBlock)
    requires
        s.wf(),
        room(s) >= 1,
        s.seen(hb.block.prev),
        !s.seen(hb.hash),
    ensures
        s.ingest(hb).record(hb.hash) == Some(
            s.policy.child(
                s.entries[s.index_of(hb.block.prev)],
                s.index_of(hb.block.prev) as usize,
                hb,
            ),
        ),
        s.outcome(hb) == IngestOutcome::Integrated(
            s.ingest(hb).height(hb.hash).unwrap(),
            s.ingest(hb).work(hb.hash).unwrap(),
        ),
        s.ingest(hb).height(hb.hash).unwrap() == s.height(hb.block.prev).unwrap() + 1,
        s.ingest(hb).target(hb.hash) == s.required_target(hb.block.prev),
        s.ingest(hb).work(hb.hash).unwrap()@ == s.work(hb.block.prev).unwrap()@
            + crate::lineage::work_of_target(s.ingest(hb).target(hb.hash).unwrap()@),
{
    let t = s.ingest(hb);
    let s1 = s.integrate(hb);
    let n = s.entries.len() as int;
    let p = s.index_of(hb.block.prev);
    let first = seq![hb];
    assert(first.last() == hb);
    lemma_integrate(s, hb);
    lemma_split_len(s.parked, hb.hash);
    let stack1 = first.drop_last() + sift(s.parked, leaves(hb.hash)).reverse();
    assert(t == drain(s1, stack1));
    lemma_drain(s1, stack1);
    assert(t.entries[n] == s1.entries[n]);
    lemma_index_of(t, n);
    assert(s.entries[p].sound());
    assert(s.entries[p].height <= p);
    crate::lineage::lemma_child(s.policy, s.entries[p], p as usize, hb);
}

/// Along a lineage work grows and height goes up by one: every block above
/// genesis is one higher than its parent and has more work behind it.
pub proof fn lemma_lineage_grows(s: ChainView, i: int)
    requires
        s.wf(),
        1 <= i < s.entries.len(),
    ensures
        0 <= s.entries[i].parent < i,
        s.entries[i].block.prev == s.entries[s.entries[i].parent as int].hash,
        s.entries[i].height == s.entries[s.entries[i].parent as int].height + 1,
        s.entries[i].work@ > s.entries[s.entries[i].parent as int].work@,
        s.mined_at(i) == s.mined_at(s.entries[i].parent as int).union(
            crate::txset::tx_set(crate::types::body_txs(s.entries[i].block.body.value@)),
        ),
        s.mined_at(s.entries[i].parent as int).subset_of(s.mined_at(i)),
{
    assert(s.linked(i));
    let p = s.entries[i].parent as int;
    assert(s.entries[p].sound());
    assert(s.entries[p].height <= p);
    crate::lineage::lemma_child(
        s.policy,
        s.entries[p],
        s.entries[i].parent,
        HashedBlock { hash: s.entries[i].hash, block: s.entries[i].block },
    );
}

/// A block is never both waiting and in the chain.
pub proof fn lemma_never_both(s: ChainView, hash: U256)
    requires
        s.wf(),
    ensures
        !(s.seen(hash) && s.is_parked(hash)),
{
    if s.is_parked(hash) {
        let k = choose|k: int| 0 <= k < s.parked.len() && (#[trigger] s.parked[k]).hash == hash;
        assert(!s.seen(s.parked[k].hash));
    }
}

/// Handing the engine a block a second time changes nothing. The second
/// answer is that the block is known already, unless the block waits for its
/// parent: then the answer names the missing parent again.
pub proof fn lemma_ingest_twice(s: ChainView, hb: HashedBlock)
    requires
        s.wf(),
        room(s) >= 1,
    ensures
        s.ingest(hb).ingest(hb) == s.ingest(hb),
        s.ingest(hb).seen(hb.hash) ==> s.ingest(hb).outcome(hb) == IngestOutcome::AlreadyKnown,
        !s.ingest(hb).seen(hb.hash) ==> s.ingest(hb).outcome(hb) == s.outcome(hb) && s.outcome(hb)
            == IngestOutcome::MissingParent(hb.block.prev),
{
    lemma_ingest(s, hb);
    let t = s.ingest(hb);
    if !s.seen(hb.hash) && !s.seen(hb.block.prev) {
        lemma_park(s, hb);
        lemma_same_seen(s, t);
    }
}

/// The tip never gets lighter: after a block is handed to the engine, the
/// work of the tip's chain is what it was or more.
pub proof fn lemma_tip_work_grows(s: ChainView, hb: HashedBlock)
    requires
        s.wf(),
        room(s) >= 1,
    ensures
        s.ingest(hb).wf(),
        s.ingest(hb).tip_work()@ >= s.tip_work()@,
{
    lemma_ingest(s, hb);
}

/// The tip is a block of the chain, and no block of the chain has more work
/// behind it than the tip.
pub proof fn lemma_tip_is_heaviest(s: ChainView)
    requires
        s.wf(),
    ensures
        s.seen(s.tip_hash()),
        s.work(s.tip_hash()) == Some(s.tip_work()),
        forall|h: U256| #[trigger] s.seen(h) ==> s.work(h).unwrap()@ <= s.tip_work()@,
{
    lemma_index_of(s, s.tip);
    assert forall|h: U256| #[trigger] s.seen(h) implies s.work(h).unwrap()@ <= s.tip_work()@ by {
        let i = s.index_of(h);
        assert(s.entries[i].work@ <= s.entries[s.tip].work@);
    }
}

/// The heaviest chain wins, whatever its length: a block of the chain that
/// has more work behind it than every other is the tip.
pub proof fn lemma_heaviest_wins(s: ChainView, hash: U256)
    requires
        s.wf(),
        s.seen(hash),
        forall|other: U256|
            #[trigger] s.seen(other) && other != hash ==> s.work(other).unwrap()@ < s.work(
                hash,
            ).unwrap()@,
    ensures
        s.tip_hash() == hash,
{
    lemma_tip_is_heaviest(s);
    assert(s.seen(s.tip_hash()));
}

/// A block that comes before its parent is not taken into the chain: the
/// tables stay as they were, and the block waits.
pub proof fn lemma_orphan_waits(s: ChainView, hb: HashedBlock)
    requires
        s.wf(),
        !s.seen(hb.hash),
        !s.seen(hb.block.prev),
    ensures
        s.ingest(hb).entries == s.entries,
        s.ingest(hb).tip == s.tip,
        !s.ingest(hb).seen(hb.hash),
        s.ingest(hb).is_parked(hb.hash),
        s.outcome(hb) == IngestOutcome::MissingParent(hb.block.prev),
{
    lemma_park(s, hb);
    lemma_same_seen(s, s.ingest(hb));
    if !s.is_parked(hb.hash) {
        assert(s.ingest(hb).parked[s.parked.len() as int].hash == hb.hash);
    }
}

/// Waiting blocks are resolved in the pass in which their parent comes:
/// after a block is handed to the engine, every block that waited, and the
/// block itself, is in the chain if its parent is.
pub proof fn lemma_orphans_resolved(s: ChainView, hb: HashedBlock)
    requires
        s.wf(),
        room(s) >= 1,
    ensures
        forall|k: int|
            0 <= k < s.parked.len() && s.ingest(hb).seen((#[trigger] s.parked[k]).block.prev)
                ==> s.ingest(hb).seen(s.parked[k].hash),
        s.ingest(hb).seen(hb.block.prev) ==> s.ingest(hb).seen(hb.hash),
        forall|q: int|
            0 <= q < s.ingest(hb).parked.len() ==> !s.ingest(hb).seen(
                (#[trigger] s.ingest(hb).parked[q]).block.prev,
            ),
{
    lemma_ingest(s, hb);
    let t = s.ingest(hb);
    assert forall|k: int|
        0 <= k < s.parked.len() && t.seen((#[trigger] s.parked[k]).block.prev) implies t.seen(
        s.parked[k].hash,
    ) by {
        let w = s.parked[k];
        if t.parked.contains(w) {
            let q = choose|q: int| 0 <= q < t.parked.len() && t.parked[q] == w;
            assert(!t.seen(t.parked[q].block.prev));
        }
    }
    if !s.seen(hb.hash) && !s.seen(hb.block.prev) {
        lemma_park(s, hb);
        lemma_same_seen(s, t);
    }
}

/// A transaction that was mined in the lineage of a block is not chosen for
/// a block on top of it, although it stays in the pool; and what is chosen
/// fits the budget.
pub proof fn lemma_selection_excludes_mined(s: ChainView, tip_hash: U256, budget: nat)
    ensures
        forall|i: int|
            0 <= i < s.selection(tip_hash, budget).len() ==> !s.mined(tip_hash).contains(
                #[trigger] s.selection(tip_hash, budget)[i],
            ),
        crate::pool::total_len(s.selection(tip_hash, budget)) <= budget,
{
    lemma_select_excludes_mined(crate::pool::pool_order(s.pool), s.mined(tip_hash), budget);
}

} // verus!
