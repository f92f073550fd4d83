//! The values that cross the engine's boundary: blocks, transactions, peers
//! and the messages that carry them.

use vstd::prelude::*;
use crate::uint256::U256;

verus! {

/// Number of bytes in a block body.
pub const BODY_SIZE: usize = 1280;

/// A block is named by a 256-bit hash.
pub type Hash = U256;

/// A transaction is a string of bytes; two transactions are the same when
/// their bytes are.
pub type Transaction = Vec<u8>;

/// The payload of a block.
#[derive(Debug, Clone, Copy, PartialEq, Eq)]
pub struct Body {
    pub value: [u8; BODY_SIZE],
}

/// A block: the hash of its parent, a timestamp, a nonce, and a body.
#[derive(Debug, Clone, Copy)]
pub struct Block {
    pub prev: U256,
    pub time: u64,
    pub rand: u64,
    pub body: Body,
}

/// A block together with the hash it goes by.
#[derive(Debug, Clone, Copy)]
pub struct HashedBlock {
    pub hash: Hash,
    pub block: Block,
}

/// Where a peer can be reached.
#[derive(Debug, Clone, Copy, PartialEq, Eq, Structural)]
pub enum Address {
    IPv4 { val0: u8, val1: u8, val2: u8, val3: u8, port: u16 },
}

/// A peer and the time it was last heard of.
#[derive(Debug, Clone, Copy, PartialEq, Eq, Structural)]
pub struct Peer {
    pub seen_at: u64,
    pub address: Address,
}

/// What nodes say to each other.
#[derive(Debug)]
pub enum Message {
    PutPeers { peers: Vec<Address> },
    PutBlock { block: Block },
    AskBlock { bhash: Hash },
}

/// The byte strings of `txs`.
pub open spec fn tx_views(txs: Seq<Transaction>) -> Seq<Seq<u8>> {
    txs.map_values(|t: Transaction| t@)
}

/// The transactions written at `pos` and after, at most `count` of them: each
/// is one length byte and then that many bytes. Reading stops at the first
/// one that would run past the end.
pub open spec fn records(bytes: Seq<u8>, pos: int, count: nat) -> Seq<Seq<u8>>
    decreases count,
{
    if count == 0 || pos < 0 || pos >= bytes.len() {
        Seq::empty()
    } else {
        let end = pos + 1 + bytes[pos] as int;
        if end > bytes.len() {
            Seq::empty()
        } else {
            seq![bytes.subrange(pos + 1, end)] + records(bytes, end, (count - 1) as nat)
        }
    }
}

/// The transactions that a body carries: its first byte says how many, the
/// transactions follow.
pub open spec fn body_txs(bytes: Seq<u8>) -> Seq<Seq<u8>> {
    if bytes.len() == 0 {
        Seq::empty()
    } else {
        records(bytes, 1, bytes[0] as nat)
    }
}

impl Body {
    /// The transactions that the body carries, in the order it lists them.
    pub fn transactions(&self) -> (txs: Vec<Transaction>)
        ensures
            tx_views(txs@) == body_txs(self.value@),
    {
        let mut txs: Vec<Transaction> = Vec::new();
        let mut left: u8 = self.value[0];
        let mut pos: usize = 1;
        let ghost bytes = self.value@;
        assert(tx_views(txs@) =~= Seq::<Seq<u8>>::empty());
        while left > 0 && pos < BODY_SIZE
            invariant
                bytes == self.value@,
                bytes.len() == BODY_SIZE,
                1 <= pos <= BODY_SIZE,
                tx_views(txs@) + records(bytes, pos as int, left as nat) == body_txs(bytes),
            decreases left,
        {
            let len: usize = self.value[pos] as usize;
            let end: usize = pos + 1 + len;
            if end > BODY_SIZE {
                assert(records(bytes, pos as int, left as nat) =~= Seq::<Seq<u8>>::empty());
                assert(tx_views(txs@) + Seq::<Seq<u8>>::empty() =~= tx_views(txs@));
                return txs;
            }
            let mut tx: Transaction = Vec::new();
            let mut i: usize = pos + 1;
            while i < end
                invariant
                    bytes == self.value@,
                    pos + 1 <= i <= end <= BODY_SIZE,
                    tx@ == bytes.subrange(pos + 1, i as int),
                decreases end - i,
            {
                tx.push(self.value[i]);
                assert(tx@ =~= bytes.subrange(pos + 1, i + 1));
                i += 1;
            }
            proof {
                let before = tx_views(txs@);
                let rest = records(bytes, end as int, (left - 1) as nat);
                assert(records(bytes, pos as int, left as nat) == seq![tx@] + rest);
                assert(tx_views(txs@.push(tx)) =~= before.push(tx@));
                assert(before.push(tx@) + rest =~= before + (seq![tx@] + rest));
            }
            txs.push(tx);
            left -= 1;
            pos = end;
        }
        proof {
            assert(records(bytes, pos as int, left as nat) =~= Seq::<Seq<u8>>::empty());
            assert(tx_views(txs@) + Seq::<Seq<u8>>::empty() =~= tx_views(txs@));
        }
        txs
    }
}

} // verus!
