//! The order in which the blocks of a chain arrive does not matter: whatever
//! it is, the engine ends in the state that it reaches when every block
//! comes after its parent.

use vstd::prelude::*;
use crate::laws::{lemma_ingest, lemma_same_seen, room};
use crate::model::{
    distinct_hashes, drain, leaves, lemma_integrate, lemma_park, lemma_sift, lemma_split_len, sift,
    stays, ChainView,
};
use crate::types::HashedBlock;
use crate::uint256::U256;

verus! {

/// `chain` is a chain on top of `s`: its first block is the child of a block
/// in the chain of `s`, each later block the child of the one before it; no
/// two of its blocks go by the same hash, and none is in the chain of `s`.
pub open spec fn is_chain_on(s: ChainView, chain: Seq<HashedBlock>) -> bool {
    &&& chain.len() > 0 ==> s.seen(chain[0].block.prev)
    &&& forall|j: int|
        1 <= j < chain.len() ==> (#[trigger] chain[j]).block.prev == chain[j - 1].hash
    &&& distinct_hashes(chain)
    &&& forall|j: int| 0 <= j < chain.len() ==> !s.seen((#[trigger] chain[j]).hash)
}

/// `a` and `b` hold the same blocks, in whatever order and however often.
pub open spec fn same_blocks(a: Seq<HashedBlock>, b: Seq<HashedBlock>) -> bool {
    &&& forall|i: int| 0 <= i < a.len() ==> b.contains(#[trigger] a[i])
    &&& forall|i: int| 0 <= i < b.len() ==> a.contains(#[trigger] b[i])
}

/// The state once the first `k` blocks of `chain` are taken into the chain
/// of `s`, each after its parent.
pub open spec fn grown(s: ChainView, chain: Seq<HashedBlock>, k: nat) -> ChainView
    decreases k,
{
    if k == 0 {
        s
    } else {
        grown(s, chain, (k - 1) as nat).integrate(chain[k - 1])
    }
}

/// The blocks that wait in `s` have nothing to do with `chain`: none goes by
/// the hash of a block of the chain, and none is the child of one.
pub open spec fn unrelated(s: ChainView, chain: Seq<HashedBlock>) -> bool {
    forall|q: int, j: int|
        0 <= q < s.parked.len() && 0 <= j < chain.len() ==> (#[trigger] s.parked[q]).hash
            != (#[trigger] chain[j]).hash && s.parked[q].block.prev != chain[j].hash
}

/// What the law starts from: a well-formed state, a chain on top of it that
/// the waiting blocks have nothing to do with, and tables with room for the
/// chain.
pub open spec fn setup(s: ChainView, chain: Seq<HashedBlock>) -> bool {
    &&& s.wf()
    &&& is_chain_on(s, chain)
    &&& unrelated(s, chain)
    &&& room(s) >= chain.len()
}

/// One of the first `k` blocks of `chain` goes by `hash`.
pub open spec fn before(chain: Seq<HashedBlock>, k: int, hash: U256) -> bool {
    exists|j: int| 0 <= j < k && j < chain.len() && (#[trigger] chain[j]).hash == hash
}

/// `w` is a block of `chain` that stands after the block at `k`.
pub open spec fn ahead(chain: Seq<HashedBlock>, k: int, w: HashedBlock) -> bool {
    exists|j: int| k < j < chain.len() && #[trigger] chain[j] == w
}

/// The block at `j` is among the first `k`, or waits in `u`.
pub open spec fn held(u: ChainView, chain: Seq<HashedBlock>, k: int, j: int) -> bool {
    j < k || u.is_parked(chain[j].hash)
}

/// The two states differ in the waiting blocks at most.
pub open spec fn same_shape(u: ChainView, g: ChainView) -> bool {
    &&& u.entries == g.entries
    &&& u.tip == g.tip
    &&& u.policy == g.policy
    &&& u.pool == g.pool
    &&& u.arrivals == g.arrivals
}

/// `u` holds the first `k` blocks of `chain` in its chain; the blocks that
/// waited in `s` wait in it as they did, and those that wait after them are
/// later blocks of `chain`, the next one not among them.
pub open spec fn on_track(s: ChainView, chain: Seq<HashedBlock>, u: ChainView, k: int) -> bool {
    &&& 0 <= k <= chain.len()
    &&& same_shape(u, grown(s, chain, k as nat))
    &&& u.wf()
    &&& s.parked.len() <= u.parked.len()
    &&& forall|q: int| 0 <= q < s.parked.len() ==> #[trigger] u.parked[q] == s.parked[q]
    &&& forall|q: int|
        s.parked.len() <= q < u.parked.len() ==> ahead(chain, k, #[trigger] u.parked[q])
}

/// Where `keep` holds of every element, `sift` keeps the sequence as it is.
pub proof fn lemma_sift_all(p: Seq<HashedBlock>, keep: spec_fn(HashedBlock) -> bool)
    requires
        forall|i: int| 0 <= i < p.len() ==> keep(#[trigger] p[i]),
    ensures
        sift(p, keep) == p,
    decreases p.len(),
{
    if p.len() > 0 {
        assert forall|i: int| 0 <= i < p.drop_last().len() implies keep(
            #[trigger] p.drop_last()[i],
        ) by {
            assert(p.drop_last()[i] == p[i]);
        }
        lemma_sift_all(p.drop_last(), keep);
        assert(keep(p[p.len() - 1]));
        assert(p.drop_last().push(p.last()) =~= p);
    } else {
        assert(sift(p, keep) =~= p);
    }
}

/// What `sift` keeps of two sequences joined is what it keeps of the one,
/// joined with what it keeps of the other.
pub proof fn lemma_sift_joined(
    a: Seq<HashedBlock>,
    b: Seq<HashedBlock>,
    keep: spec_fn(HashedBlock) -> bool,
)
    ensures
        sift(a + b, keep) == sift(a, keep) + sift(b, keep),
    decreases b.len(),
{
    if b.len() == 0 {
        assert(a + b =~= a);
        assert(sift(a, keep) + sift(b, keep) =~= sift(a, keep));
    } else {
        lemma_sift_joined(a, b.drop_last(), keep);
        assert((a + b).drop_last() =~= a + b.drop_last());
        assert((a + b).last() == b.last());
        if keep(b.last()) {
            assert((sift(a, keep) + sift(b.drop_last(), keep)).push(b.last()) =~= sift(a, keep)
                + sift(b.drop_last(), keep).push(b.last()));
        }
    }
}

/// Taking in a block of the chain leaves the blocks that waited in `s`
/// waiting as they did; the blocks that wait after them and go on waiting
/// are those of the later ones that go on waiting.
pub proof fn lemma_waiting_after(
    s: ChainView,
    chain: Seq<HashedBlock>,
    u: ChainView,
    k: int,
)
    requires
        unrelated(s, chain),
        0 <= k < chain.len(),
        s.parked.len() <= u.parked.len(),
        forall|q: int| 0 <= q < s.parked.len() ==> #[trigger] u.parked[q] == s.parked[q],
    ensures
        sift(u.parked, stays(chain[k].hash)) == s.parked + sift(
            u.parked.subrange(s.parked.len() as int, u.parked.len() as int),
            stays(chain[k].hash),
        ),
        sift(u.parked, leaves(chain[k].hash)) == sift(
            u.parked.subrange(s.parked.len() as int, u.parked.len() as int),
            leaves(chain[k].hash),
        ),
{
    let h = chain[k].hash;
    let a = s.parked;
    let b = u.parked.subrange(a.len() as int, u.parked.len() as int);
    assert(u.parked =~= a + b);
    lemma_sift_joined(a, b, stays(h));
    lemma_sift_joined(a, b, leaves(h));
    assert forall|i: int| 0 <= i < a.len() implies stays(h)(#[trigger] a[i]) by {
        assert(a[i].hash != chain[k].hash && a[i].block.prev != chain[k].hash);
    }
    lemma_sift_all(a, stays(h));
    lemma_sift(a, leaves(h));
    if sift(a, leaves(h)).len() > 0 {
        let w = sift(a, leaves(h))[0];
        let i = choose|i: int| 0 <= i < a.len() && a[i] == w;
        assert(a[i].block.prev != chain[k].hash);
        assert(leaves(h)(w));
    }
    assert(sift(a, leaves(h)) + sift(b, leaves(h)) =~= sift(b, leaves(h)));
}

/// Some block among the first `m` of `order` is the block `x`.
pub open spec fn arrived(order: Seq<HashedBlock>, m: int, x: HashedBlock) -> bool {
    exists|i: int| 0 <= i < m && i < order.len() && #[trigger] order[i] == x
}

/// What holds of the state with the first `k` blocks of a chain taken in.
pub proof fn lemma_grown(s: ChainView, chain: Seq<HashedBlock>, k: nat)
    requires
        setup(s, chain),
        k <= chain.len(),
    ensures
        grown(s, chain, k).wf(),
        grown(s, chain, k).entries.len() == s.entries.len() + k,
        grown(s, chain, k).parked == s.parked,
        grown(s, chain, k).policy == s.policy,
        grown(s, chain, k).pool == s.pool,
        grown(s, chain, k).arrivals == s.arrivals,
        forall|h: U256| grown(s, chain, k).seen(h) <==> s.seen(h) || before(chain, k as int, h),
    decreases k,
{
    let g = grown(s, chain, k);
    if k == 0 {
        assert forall|h: U256| g.seen(h) <==> s.seen(h) || before(chain, k as int, h) by {}
    } else {
        let f = grown(s, chain, (k - 1) as nat);
        let hb = chain[k - 1];
        lemma_grown(s, chain, (k - 1) as nat);
        lemma_next_is_due(s, chain, f, k - 1);
        lemma_integrate(f, hb);
        assert forall|i: int| 0 <= i < s.parked.len() implies stays(hb.hash)(
            #[trigger] s.parked[i],
        ) by {
            assert(s.parked[i].hash != chain[k - 1].hash && s.parked[i].block.prev != chain[k
                - 1].hash);
        }
        lemma_sift_all(s.parked, stays(hb.hash));
        assert forall|h: U256| g.seen(h) <==> s.seen(h) || before(chain, k as int, h) by {
            if before(chain, k as int, h) {
                let j = choose|j: int| 0 <= j < k && j < chain.len() && (#[trigger] chain[j]).hash == h;
                if j < k - 1 {
                    assert(before(chain, k - 1, h));
                }
            }
            if before(chain, k - 1, h) {
                let j = choose|j: int|
                    0 <= j < k - 1 && j < chain.len() && (#[trigger] chain[j]).hash == h;
                assert(chain[j].hash == h);
            }
            if h == hb.hash {
                assert(chain[k - 1].hash == h);
            }
        }
    }
}

/// In a state that has the records of the first `k` blocks of a chain, the
/// next block of the chain is not in the chain, and its parent is.
pub proof fn lemma_next_is_due(s: ChainView, chain: Seq<HashedBlock>, u: ChainView, k: int)
    requires
        is_chain_on(s, chain),
        0 <= k < chain.len(),
        forall|h: U256| u.seen(h) <==> s.seen(h) || before(chain, k, h),
    ensures
        !u.seen(chain[k].hash),
        u.seen(chain[k].block.prev),
{
    let hb = chain[k];
    if before(chain, k, hb.hash) {
        let j = choose|j: int| 0 <= j < k && j < chain.len() && (#[trigger] chain[j]).hash == hb.hash;
        assert(chain[j].hash != chain[k].hash);
    }
    if k > 0 {
        assert(chain[k].block.prev == chain[k - 1].hash);
        assert(before(chain, k, chain[k - 1].hash));
    }
}

/// A block of a chain whose parent is the block at `k` is the block at `k + 1`.
pub proof fn lemma_child_is_next(s: ChainView, chain: Seq<HashedBlock>, k: int, j: int)
    requires
        is_chain_on(s, chain),
        0 <= k < chain.len(),
        0 <= j < chain.len(),
        chain[j].block.prev == chain[k].hash,
    ensures
        j == k + 1,
{
    if j == 0 {
        assert(!s.seen(chain[k].hash));
    } else {
        assert(chain[j].block.prev == chain[j - 1].hash);
        if j - 1 < k {
            assert(chain[j - 1].hash != chain[k].hash);
        }
        if k < j - 1 {
            assert(chain[k].hash != chain[j - 1].hash);
        }
    }
}

/// Two blocks of a chain that go by the same hash stand at the same place.
pub proof fn lemma_same_place(chain: Seq<HashedBlock>, i: int, j: int)
    requires
        distinct_hashes(chain),
        0 <= i < chain.len(),
        0 <= j < chain.len(),
        chain[i].hash == chain[j].hash,
    ensures
        i == j,
{
    if i < j {
        assert(chain[i].hash != chain[j].hash);
    }
    if j < i {
        assert(chain[j].hash != chain[i].hash);
    }
}

/// The place in `chain` of a block that waits in a state on track: it is
/// after the next block to come.
pub proof fn lemma_waiting_place(
    s: ChainView,
    chain: Seq<HashedBlock>,
    u: ChainView,
    k: int,
    j: int,
)
    requires
        is_chain_on(s, chain),
        unrelated(s, chain),
        on_track(s, chain, u, k),
        0 <= j < chain.len(),
        u.is_parked(chain[j].hash),
    ensures
        k < j,
        u.parked.contains(chain[j]),
{
    let q = choose|q: int| 0 <= q < u.parked.len() && (#[trigger] u.parked[q]).hash == chain[j].hash;
    if q < s.parked.len() {
        assert(u.parked[q] == s.parked[q]);
        assert(s.parked[q].hash != chain[j].hash);
    }
    assert(ahead(chain, k, u.parked[q]));
    let i = choose|i: int| k < i < chain.len() && #[trigger] chain[i] == u.parked[q];
    lemma_same_place(chain, i, j);
}

/// When the next block of the chain comes, it is taken in together with the
/// blocks after it that wait, as far as they follow one another: the state
/// is on track again, further on, and every block that was held is held.
#[verifier::rlimit(40)]
pub proof fn lemma_drain_chain(s: ChainView, chain: Seq<HashedBlock>, u: ChainView, k: int) -> (k2:
    int)
    requires
        setup(s, chain),
        on_track(s, chain, u, k),
        k < chain.len(),
        room(u) >= 1,
    ensures
        k < k2 <= chain.len(),
        on_track(s, chain, drain(u, seq![chain[k]]), k2),
        forall|j: int|
            0 <= j < chain.len() && held(u, chain, k, j) ==> #[trigger] held(
                drain(u, seq![chain[k]]),
                chain,
                k2,
                j,
            ),
    decreases chain.len() - k,
{
    let hb = chain[k];
    let g = grown(s, chain, k as nat);
    lemma_grown(s, chain, k as nat);
    lemma_same_seen(u, g);
    lemma_next_is_due(s, chain, u, k);
    let u1 = u.integrate(hb);
    lemma_integrate(u, hb);
    assert(same_shape(u1, grown(s, chain, (k + 1) as nat))) by {
        assert(grown(s, chain, (k + 1) as nat) == g.integrate(chain[k]));
        assert(u1.entries =~= g.integrate(hb).entries);
    }
    let ready = sift(u.parked, leaves(hb.hash));
    lemma_sift(u.parked, leaves(hb.hash));
    lemma_sift(u.parked, stays(hb.hash));
    lemma_split_len(u.parked, hb.hash);
    assert forall|i: int| 0 <= i < ready.len() implies k + 1 < chain.len() && #[trigger] ready[i]
        == chain[k + 1] by {
        let w = ready[i];
        assert(leaves(hb.hash)(w));
        let q = choose|q: int| 0 <= q < u.parked.len() && u.parked[q] == w;
        if q < s.parked.len() {
            assert(u.parked[q] == s.parked[q]);
            assert(s.parked[q].block.prev != chain[k].hash);
        }
        assert(ahead(chain, k, u.parked[q]));
        let j = choose|j: int| k < j < chain.len() && #[trigger] chain[j] == w;
        lemma_child_is_next(s, chain, k, j);
    }
    assert(ready.len() <= 1) by {
        if ready.len() >= 2 {
            assert(ready[0].hash != ready[1].hash);
        }
    }
    let first = seq![hb];
    assert(first.last() == hb);
    assert(first.drop_last() =~= Seq::<HashedBlock>::empty());
    let stack1 = first.drop_last() + ready.reverse();
    assert(drain(u, first) == drain(u1, stack1));
    let later = u.parked.subrange(s.parked.len() as int, u.parked.len() as int);
    lemma_waiting_after(s, chain, u, k);
    lemma_sift(later, stays(hb.hash));
    assert forall|q: int| 0 <= q < s.parked.len() implies #[trigger] u1.parked[q]
        == s.parked[q] by {}
    assert forall|q: int| s.parked.len() <= q < u1.parked.len() implies ahead(
        chain,
        k + 1,
        #[trigger] u1.parked[q],
    ) by {
        let w = u1.parked[q];
        assert(w == sift(later, stays(hb.hash))[q - s.parked.len()]);
        assert(stays(hb.hash)(w));
        let q0 = choose|q0: int| 0 <= q0 < later.len() && later[q0] == w;
        assert(u.parked[s.parked.len() + q0] == w);
        assert(ahead(chain, k, u.parked[s.parked.len() + q0]));
        let j = choose|j: int| k < j < chain.len() && #[trigger] chain[j] == w;
        if j == k + 1 {
            assert(chain[j].block.prev == chain[j - 1].hash);
        }
        assert(k + 1 < j && chain[j] == w);
    }
    assert(on_track(s, chain, u1, k + 1));
    if ready.len() == 0 {
        assert(stack1 =~= Seq::<HashedBlock>::empty());
        assert forall|j: int| 0 <= j < chain.len() && held(u, chain, k, j) implies #[trigger] held(
            u1,
            chain,
            k + 1,
            j,
        ) by {
            if j >= k {
                lemma_waiting_place(s, chain, u, k, j);
                let w = chain[j];
                let q = choose|q: int| 0 <= q < u.parked.len() && u.parked[q] == w;
                if j == k + 1 {
                    assert(chain[j].block.prev == chain[j - 1].hash);
                    assert(leaves(hb.hash)(u.parked[q]));
                    assert(ready.contains(u.parked[q]));
                } else {
                    lemma_keeps_waiting(s, chain, u, k, j);
                }
            }
        }
        k + 1
    } else {
        assert(ready[0] == chain[k + 1]);
        assert(ready.reverse() =~= seq![chain[k + 1]]);
        assert(stack1 =~= seq![chain[k + 1]]);
        let k2 = lemma_drain_chain(s, chain, u1, k + 1);
        let t = drain(u1, seq![chain[k + 1]]);
        assert forall|j: int| 0 <= j < chain.len() && held(u, chain, k, j) implies #[trigger] held(
            t,
            chain,
            k2,
            j,
        ) by {
            if j > k + 1 {
                lemma_waiting_place(s, chain, u, k, j);
                lemma_keeps_waiting(s, chain, u, k, j);
                assert(held(u1, chain, k + 1, j));
            }
        }
        k2
    }
}

/// A block that waits and stands two or more after the block that is taken
/// in goes on waiting.
pub proof fn lemma_keeps_waiting(
    s: ChainView,
    chain: Seq<HashedBlock>,
    u: ChainView,
    k: int,
    j: int,
)
    requires
        is_chain_on(s, chain),
        0 <= k,
        k + 1 < j < chain.len(),
        u.parked.contains(chain[j]),
    ensures
        u.integrate(chain[k]).is_parked(chain[j].hash),
{
    let w = chain[j];
    let hb = chain[k];
    lemma_sift(u.parked, stays(hb.hash));
    assert(chain[j].block.prev == chain[j - 1].hash);
    assert(chain[k].hash != chain[j - 1].hash);
    assert(chain[k].hash != chain[j].hash);
    let q = choose|q: int| 0 <= q < u.parked.len() && u.parked[q] == w;
    assert(stays(hb.hash)(u.parked[q]));
    let kept = sift(u.parked, stays(hb.hash));
    assert(kept.contains(w));
    let r = choose|r: int| 0 <= r < kept.len() && kept[r] == w;
    assert(u.integrate(hb).parked[r].hash == w.hash);
}

/// When a block of the chain is handed to the engine, the state stays on
/// track; the block is held afterwards, and so is every block that was.
pub proof fn lemma_arrival(
    s: ChainView,
    chain: Seq<HashedBlock>,
    u: ChainView,
    k: int,
    jb: int,
) -> (k2: int)
    requires
        setup(s, chain),
        on_track(s, chain, u, k),
        0 <= jb < chain.len(),
        room(u) >= 1,
    ensures
        k <= k2 <= chain.len(),
        on_track(s, chain, u.ingest(chain[jb]), k2),
        held(u.ingest(chain[jb]), chain, k2, jb),
        forall|j: int|
            0 <= j < chain.len() && held(u, chain, k, j) ==> #[trigger] held(
                u.ingest(chain[jb]),
                chain,
                k2,
                j,
            ),
{
    let b = chain[jb];
    let g = grown(s, chain, k as nat);
    lemma_grown(s, chain, k as nat);
    lemma_same_seen(u, g);
    if jb < k {
        assert(before(chain, k, b.hash));
        k
    } else if jb == k {
        lemma_next_is_due(s, chain, u, k);
        lemma_drain_chain(s, chain, u, k)
    } else {
        assert(!u.seen(b.hash)) by {
            if before(chain, k, b.hash) {
                let j = choose|j: int|
                    0 <= j < k && j < chain.len() && (#[trigger] chain[j]).hash == b.hash;
                lemma_same_place(chain, j, jb);
            }
        }
        assert(!u.seen(b.block.prev)) by {
            assert(chain[jb].block.prev == chain[jb - 1].hash);
            if before(chain, k, b.block.prev) {
                let j = choose|j: int|
                    0 <= j < k && j < chain.len() && (#[trigger] chain[j]).hash == b.block.prev;
                lemma_same_place(chain, j, jb - 1);
            }
        }
        let t = u.park(b);
        lemma_park(u, b);
        if !u.is_parked(b.hash) {
            assert(t.parked[u.parked.len() as int].hash == b.hash);
            assert forall|q: int| 0 <= q < s.parked.len() implies #[trigger] t.parked[q]
                == s.parked[q] by {
                assert(t.parked[q] == u.parked[q]);
            }
            assert forall|q: int| s.parked.len() <= q < t.parked.len() implies ahead(
                chain,
                k,
                #[trigger] t.parked[q],
            ) by {
                if q < u.parked.len() {
                    assert(t.parked[q] == u.parked[q]);
                    assert(ahead(chain, k, u.parked[q]));
                } else {
                    assert(chain[jb] == t.parked[q]);
                }
            }
            assert forall|j: int| 0 <= j < chain.len() && held(u, chain, k, j) implies #[trigger] held(
                t,
                chain,
                k,
                j,
            ) by {
                if j >= k {
                    let q = choose|q: int|
                        0 <= q < u.parked.len() && (#[trigger] u.parked[q]).hash == chain[j].hash;
                    assert(t.parked[q].hash == chain[j].hash);
                }
            }
        }
        k
    }
}

/// After the first `m` blocks of `order` are handed to the engine, the state
/// is on track and holds every block that has arrived.
pub proof fn lemma_arrivals(
    s: ChainView,
    chain: Seq<HashedBlock>,
    order: Seq<HashedBlock>,
    m: int,
) -> (k: int)
    requires
        setup(s, chain),
        forall|i: int| 0 <= i < order.len() ==> chain.contains(#[trigger] order[i]),
        room(s) >= order.len(),
        0 <= m <= order.len(),
    ensures
        on_track(s, chain, s.ingest_all(order.take(m)), k),
        room(s.ingest_all(order.take(m))) >= room(s) - m,
        forall|j: int|
            0 <= j < chain.len() && arrived(order, m, #[trigger] chain[j]) ==> held(
                s.ingest_all(order.take(m)),
                chain,
                k,
                j,
            ),
    decreases m,
{
    if m == 0 {
        assert(order.take(0) =~= Seq::<HashedBlock>::empty());
        0
    } else {
        let k = lemma_arrivals(s, chain, order, m - 1);
        let u = s.ingest_all(order.take(m - 1));
        let b = order[m - 1];
        assert(order.take(m).drop_last() =~= order.take(m - 1));
        assert(order.take(m).last() == b);
        assert(s.ingest_all(order.take(m)) == u.ingest(b));
        assert(chain.contains(b));
        let jb = choose|jb: int| 0 <= jb < chain.len() && chain[jb] == b;
        let k2 = lemma_arrival(s, chain, u, k, jb);
        lemma_ingest(u, b);
        let t = u.ingest(b);
        assert forall|j: int| 0 <= j < chain.len() && arrived(order, m, #[trigger] chain[j]) implies held(
            t,
            chain,
            k2,
            j,
        ) by {
            let i = choose|i: int| 0 <= i < m && i < order.len() && #[trigger] order[i] == chain[j];
            if i < m - 1 {
                assert(arrived(order, m - 1, chain[j]));
                assert(held(u, chain, k, j));
                assert(held(t, chain, k2, j));
            } else {
                lemma_same_place(chain, j, jb);
            }
        }
        k2
    }
}

/// Once every block of a chain has been handed to the engine, in whatever
/// order and however often, the whole chain is in the chain, and the blocks
/// that wait are those that waited before.
pub proof fn lemma_all_arrived(s: ChainView, chain: Seq<HashedBlock>, order: Seq<HashedBlock>)
    requires
        setup(s, chain),
        same_blocks(order, chain),
        room(s) >= order.len(),
    ensures
        s.ingest_all(order) == grown(s, chain, chain.len()),
{
    let n = chain.len() as int;
    let k = lemma_arrivals(s, chain, order, order.len() as int);
    assert(order.take(order.len() as int) =~= order);
    let u = s.ingest_all(order);
    if k < n {
        assert(order.contains(chain[k]));
        let i = choose|i: int| 0 <= i < order.len() && order[i] == chain[k];
        assert(arrived(order, order.len() as int, chain[k]));
        assert(held(u, chain, k, k));
        lemma_waiting_place(s, chain, u, k, k);
    }
    if u.parked.len() > s.parked.len() {
        assert(ahead(chain, k, u.parked[s.parked.len() as int]));
    }
    lemma_grown(s, chain, chain.len());
    assert(u.parked =~= grown(s, chain, chain.len()).parked);
    assert(u =~= grown(s, chain, chain.len()));
}

/// The order of arrival does not matter. Take a well-formed state and a
/// chain on top of it that the waiting blocks of the state have nothing to
/// do with; a fresh node's state is such a state for every chain. Hand the
/// engine the blocks of the chain in any order, some of them more than once
/// if need be: it ends in the state it reaches when each block comes after
/// its parent. So the tip and the tables of heights, work and targets are
/// the same.
pub proof fn lemma_order_independence(
    s: ChainView,
    chain: Seq<HashedBlock>,
    order: Seq<HashedBlock>,
)
    requires
        s.wf(),
        is_chain_on(s, chain),
        unrelated(s, chain),
        same_blocks(order, chain),
        room(s) >= order.len(),
        room(s) >= chain.len(),
    ensures
        s.ingest_all(order) == s.ingest_all(chain),
        s.ingest_all(order).tip == s.ingest_all(chain).tip,
        s.ingest_all(order).entries == s.ingest_all(chain).entries,
        forall|h: U256|
            s.ingest_all(order).height(h) == s.ingest_all(chain).height(h) && s.ingest_all(
                order,
            ).work(h) == s.ingest_all(chain).work(h) && s.ingest_all(order).target(h)
                == s.ingest_all(chain).target(h),
{
    lemma_all_arrived(s, chain, order);
    assert(same_blocks(chain, chain)) by {
        assert forall|i: int| 0 <= i < chain.len() implies chain.contains(#[trigger] chain[i]) by {}
    }
    lemma_all_arrived(s, chain, chain);
}

} // verus!
