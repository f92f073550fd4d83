//! What the engine records of each block it has taken into the chain, and the
//! difficulty policy by which a block's target follows from its parent's.
//!
//! Targets are retargeted once per window of blocks. When the window that
//! just closed took less than half the time the policy allots to it, the
//! target is halved; when it took more than twice that time, the target is
//! doubled; otherwise it stays. A target is never put below `2^64 - 1`.

use vstd::prelude::*;
use crate::types::{Block, HashedBlock};
use crate::uint256::{limb1, limb3, modulus, u256, U256};

verus! {

/// The smallest target a block can have, `2^64 - 1`.
pub open spec fn target_floor() -> nat {
    (limb1() - 1) as nat
}

/// The work that one block of the given target adds to its chain:
/// `2^256 / (target + 1)`, and the largest word for a target of zero.
pub open spec fn work_of_target(target: nat) -> nat {
    if target == 0 {
        (modulus() - 1) as nat
    } else {
        modulus() / (target + 1)
    }
}

/// The target one step harder than `target`: half of it, but not below the floor.
pub open spec fn harder(target: nat) -> nat {
    if target / 2 < target_floor() {
        target_floor()
    } else {
        target / 2
    }
}

/// The target one step easier than `target`: twice it, but not above the
/// largest word.
pub open spec fn easier(target: nat) -> nat {
    if 2 * target >= modulus() {
        (modulus() - 1) as nat
    } else {
        2 * target
    }
}

/// The difficulty policy of a chain.
#[derive(Debug, Clone, Copy)]
pub struct Policy {
    /// The target of the genesis block.
    pub initial_target: U256,
    /// Number of blocks between two retargetings.
    pub window: u64,
    /// The time that the blocks of one window are meant to span.
    pub window_time: u64,
}

/// What is recorded of a block in the chain.
#[derive(Debug, Clone, Copy)]
pub struct Record {
    /// The hash the block goes by.
    pub hash: U256,
    pub block: Block,
    /// Position of the parent's record; the genesis record names itself.
    pub parent: usize,
    /// Number of blocks between this one and genesis.
    pub height: u64,
    /// The target the block had to meet.
    pub target: U256,
    /// Work of the whole chain from genesis up to this block.
    pub work: U256,
    /// Timestamp of the block that opened the window this block is in.
    pub anchor_time: u64,
}

impl Record {
    /// The bounds that every record of a chain keeps: its target is not
    /// below the floor, and its work is at most `2^192` for each block
    /// above genesis.
    pub open spec fn sound(self) -> bool {
        &&& self.target@ >= target_floor()
        &&& self.work@ <= self.height as nat * limb3()
    }

    /// Time from the opening of the record's window to the record's block; zero
    /// when the timestamps run backwards.
    pub open spec fn span(self) -> nat {
        if self.block.time >= self.anchor_time {
            (self.block.time - self.anchor_time) as nat
        } else {
            0
        }
    }
}

impl Policy {
    /// A policy is usable when its window has at least two blocks and its
    /// initial target is not below the floor.
    pub open spec fn valid(self) -> bool {
        &&& self.window >= 2
        &&& self.initial_target@ >= target_floor()
    }

    /// The target that follows `target` after a window that took `span`.
    pub open spec fn retarget(self, target: nat, span: nat) -> nat {
        if 2 * span < self.window_time {
            harder(target)
        } else if span > 2 * self.window_time {
            easier(target)
        } else {
            target
        }
    }

    /// The target of a block whose parent has the record `parent`: the
    /// parent's own, but for the first block of a window.
    pub open spec fn target_after(self, parent: Record) -> U256 {
        if (parent.height + 1) as u64 % self.window == 0 {
            U256::of(self.retarget(parent.target@, parent.span()))
        } else {
            parent.target
        }
    }

    /// The record of the genesis block.
    pub open spec fn genesis(self, hb: HashedBlock) -> Record {
        Record {
            hash: hb.hash,
            block: hb.block,
            parent: 0,
            height: 0,
            target: self.initial_target,
            work: U256::of(0),
            anchor_time: hb.block.time,
        }
    }

    /// The record of a block whose parent has the record `parent`, at
    /// position `parent_index`.
    pub open spec fn child(self, parent: Record, parent_index: usize, hb: HashedBlock) -> Record {
        let height = (parent.height + 1) as u64;
        let turn = height % self.window == 0;
        let target = self.target_after(parent);
        Record {
            hash: hb.hash,
            block: hb.block,
            parent: parent_index,
            height,
            target,
            work: U256::of(parent.work@ + work_of_target(target@)),
            anchor_time: if turn { hb.block.time } else { parent.anchor_time },
        }
    }

    /// Whether the policy is usable.
    pub fn is_valid(&self) -> (ok: bool)
        ensures
            ok == self.valid(),
    {
        let floor = U256 { l0: u64::MAX, l1: 0, l2: 0, l3: 0 };
        self.window >= 2 && !floor.gt(self.initial_target)
    }

    /// The record of the genesis block.
    pub fn genesis_record(&self, hb: HashedBlock) -> (r: Record)
        requires
            self.valid(),
        ensures
            r == self.genesis(hb),
            r.sound(),
            r.work@ == 0,
    {
        let zero = u256(0);
        Record {
            hash: hb.hash,
            block: hb.block,
            parent: 0,
            height: 0,
            target: self.initial_target,
            work: zero,
            anchor_time: hb.block.time,
        }
    }

    /// The target of a block whose parent has the record `parent`.
    pub fn next_target(&self, parent: &Record) -> (target: U256)
        requires
            self.valid(),
            parent.target@ >= target_floor(),
            parent.height < u64::MAX,
        ensures
            target == self.target_after(*parent),
            target@ >= target_floor(),
    {
        let height: u64 = parent.height + 1;
        if height % self.window != 0 {
            return parent.target;
        }
        let span: u64 = if parent.block.time >= parent.anchor_time {
            parent.block.time - parent.anchor_time
        } else {
            0
        };
        let allotted: u128 = self.window_time as u128;
        if 2 * (span as u128) < allotted {
            let floor = U256 { l0: u64::MAX, l1: 0, l2: 0, l3: 0 };
            match parent.target.checked_div(u256(2)) {
                Some(half) => {
                    let target = if floor.gt(half) { floor } else { half };
                    proof {
                        target.lemma_of_view();
                    }
                    target
                },
                None => parent.target,
            }
        } else if (span as u128) > 2 * allotted {
            let target = match parent.target.checked_add(parent.target) {
                Some(twice) => twice,
                None => U256::max_value(),
            };
            proof {
                target.lemma_of_view();
            }
            target
        } else {
            proof {
                parent.target.lemma_of_view();
            }
            parent.target
        }
    }

    /// The record of a block whose parent has the record `parent`, at
    /// position `parent_index`.
    pub fn child_record(&self, parent: &Record, parent_index: usize, hb: HashedBlock) -> (r: Record)
        requires
            self.valid(),
            parent.sound(),
            parent.height < u64::MAX,
        ensures
            r == self.child(*parent, parent_index, hb),
            r.sound(),
            r.height == parent.height + 1,
            r.work@ == parent.work@ + work_of_target(r.target@),
            r.work@ > parent.work@,
    {
        let height: u64 = parent.height + 1;
        let turn = height % self.window == 0;
        let target = self.next_target(parent);
        let step = work_from_target(target);
        proof {
            lemma_work_bounds(target@);
            assert((parent.height as nat + 1) * limb3() < modulus()) by (nonlinear_arith)
                requires
                    parent.height as nat + 1 <= 0xffff_ffff_ffff_ffff,
                    limb3() == 0x1_0000_0000_0000_0000_0000_0000_0000_0000_0000_0000_0000_0000nat,
                    modulus() == 0x1_0000_0000_0000_0000 * limb3(),
            ;
            assert((parent.height as nat + 1) * limb3() == parent.height as nat * limb3() + limb3())
                by (nonlinear_arith);
        }
        let work = match parent.work.checked_add(step) {
            Some(sum) => sum,
            None => parent.work,
        };
        proof {
            work.lemma_of_view();
        }
        Record {
            hash: hb.hash,
            block: hb.block,
            parent: parent_index,
            height,
            target,
            work,
            anchor_time: if turn { hb.block.time } else { parent.anchor_time },
        }
    }
}

/// What holds of the record of a block, given that its parent's record is
/// sound: it is sound too, one higher, and heavier by the work of its target.
pub proof fn lemma_child(policy: Policy, parent: Record, parent_index: usize, hb: HashedBlock)
    requires
        policy.valid(),
        parent.sound(),
        parent.height < u64::MAX,
    ensures
        policy.child(parent, parent_index, hb).sound(),
        policy.child(parent, parent_index, hb).height == parent.height + 1,
        policy.child(parent, parent_index, hb).work@ == parent.work@ + work_of_target(
            policy.child(parent, parent_index, hb).target@,
        ),
        policy.child(parent, parent_index, hb).work@ > parent.work@,
{
    let child = policy.child(parent, parent_index, hb);
    parent.target.lemma_bound();
    if (parent.height + 1) as u64 % policy.window == 0 {
        U256::lemma_view_of(policy.retarget(parent.target@, parent.span()));
    }
    child.target.lemma_bound();
    lemma_work_bounds(child.target@);
    assert((parent.height as nat + 1) * limb3() < modulus()) by (nonlinear_arith)
        requires
            parent.height as nat + 1 <= 0xffff_ffff_ffff_ffff,
            limb3() == 0x1_0000_0000_0000_0000_0000_0000_0000_0000_0000_0000_0000_0000nat,
            modulus() == 0x1_0000_0000_0000_0000 * limb3(),
    ;
    assert((parent.height as nat + 1) * limb3() == parent.height as nat * limb3() + limb3())
        by (nonlinear_arith);
    U256::lemma_view_of(parent.work@ + work_of_target(child.target@));
}

/// A block of a target at or above the floor adds at least one unit of work
/// and at most `2^192`.
pub proof fn lemma_work_bounds(target: nat)
    requires
        target >= target_floor(),
        target < modulus(),
    ensures
        1 <= work_of_target(target) <= limb3(),
{
    let m = modulus() as int;
    let d = (target + 1) as int;
    vstd::arithmetic::div_mod::lemma_div_non_zero(m, d);
    vstd::arithmetic::div_mod::lemma_div_is_ordered_by_denominator(m, limb1() as int, d);
    assert(m / (limb1() as int) == limb3()) by {
        vstd::arithmetic::div_mod::lemma_fundamental_div_mod_converse(
            m,
            limb1() as int,
            limb3() as int,
            0,
        );
    }
}

/// The work that one block of the given target adds to its chain.
pub fn work_from_target(target: U256) -> (work: U256)
    ensures
        work@ == work_of_target(target@),
{
    let max = U256::max_value();
    let one = u256(1);
    match target.checked_add(one) {
        None => {
            proof {
                vstd::arithmetic::div_mod::lemma_div_by_self(modulus() as int);
            }
            one
        },
        Some(divisor) => {
            let rest = match max.checked_sub(target) {
                Some(rest) => rest,
                None => max,
            };
            let quotient = match rest.checked_div(divisor) {
                Some(quotient) => quotient,
                None => max,
            };
            proof {
                let d = divisor@ as int;
                let m = modulus() as int;
                assert(rest@ == m - d);
                assert(1 + (m - d) / d == m / d) by {
                    vstd::arithmetic::div_mod::lemma_div_plus_one(m - d, d);
                    assert(d + (m - d) == m);
                }
                if target@ == 0 {
                    vstd::arithmetic::div_mod::lemma_div_basics(m);
                } else {
                    vstd::arithmetic::div_mod::lemma_div_is_ordered_by_denominator(m, 2, d);
                }
            }
            match quotient.checked_add(one) {
                Some(work) => work,
                None => max,
            }
        },
    }
}

} // verus!
