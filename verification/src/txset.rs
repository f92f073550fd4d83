//! Sets of transactions that share structure, so that the set of one block
//! can be built from its parent's without copying it. Kept in an
//! `im::HashSet`.

use vstd::prelude::*;
use crate::types::Transaction;

verus! {

/// `im::HashSet`, declared so that a set can be held and handed on. Nothing
/// of its inside is known; what it holds goes by the name below.
#[verifier::external_type_specification]
#[verifier::external_body]
#[verifier::reject_recursive_types(A)]
#[verifier::reject_recursive_types(S)]
pub struct ExImHashSet<A, S>(im::HashSet<A, S>);

/// The byte strings that a set of transactions holds.
pub uninterp spec fn txset_contents(set: im::HashSet<Vec<u8>>) -> Set<Seq<u8>>;

/// `im::HashSet::new`: a set that holds nothing.
#[verifier::external_body]
fn txset_new() -> (set: im::HashSet<Vec<u8>>)
    ensures
        txset_contents(set) == Set::<Seq<u8>>::empty(),
{
    im::HashSet::new()
}

/// `Clone` of `im::HashSet`: a set that holds what the given one holds.
#[verifier::external_body]
fn txset_clone(set: &im::HashSet<Vec<u8>>) -> (copy: im::HashSet<Vec<u8>>)
    ensures
        txset_contents(copy) == txset_contents(*set),
{
    set.clone()
}

/// `im::HashSet::insert`: afterwards the set holds the transaction as well.
#[verifier::external_body]
fn txset_insert(set: &mut im::HashSet<Vec<u8>>, tx: Vec<u8>)
    ensures
        txset_contents(*final(set)) == txset_contents(*old(set)).insert(tx@),
{
    set.insert(tx);
}

/// `im::HashSet::contains`: whether the set holds the transaction.
#[verifier::external_body]
fn txset_contains(set: &im::HashSet<Vec<u8>>, tx: &Vec<u8>) -> (found: bool)
    ensures
        found == txset_contents(*set).contains(tx@),
{
    set.contains(tx)
}

/// The byte strings among `txs`.
pub open spec fn tx_set(txs: Seq<Seq<u8>>) -> Set<Seq<u8>> {
    Set::new(|t: Seq<u8>| txs.contains(t))
}

/// A set of transactions.
pub struct TxSet {
    inner: im::HashSet<Vec<u8>>,
}

impl View for TxSet {
    type V = Set<Seq<u8>>;

    closed spec fn view(&self) -> Set<Seq<u8>> {
        txset_contents(self.inner)
    }
}

impl TxSet {
    /// The empty set.
    pub fn new() -> (set: TxSet)
        ensures
            set@ == Set::<Seq<u8>>::empty(),
    {
        TxSet { inner: txset_new() }
    }

    /// A set with the same transactions. It shares its storage with `self`.
    pub fn duplicate(&self) -> (copy: TxSet)
        ensures
            copy@ == self@,
    {
        TxSet { inner: txset_clone(&self.inner) }
    }

    /// Adds a transaction.
    pub fn insert(&mut self, tx: Transaction)
        ensures
            final(self)@ == old(self)@.insert(tx@),
    {
        txset_insert(&mut self.inner, tx);
    }

    /// Whether the set holds the transaction.
    pub fn contains(&self, tx: &Transaction) -> (found: bool)
        ensures
            found == self@.contains(tx@),
    {
        txset_contains(&self.inner, tx)
    }

    /// Adds every transaction of `txs`.
    pub fn extend(&mut self, txs: Vec<Transaction>)
        ensures
            final(self)@ == old(self)@.union(tx_set(crate::types::tx_views(txs@))),
    {
        let ghost start = self@;
        let ghost all = crate::types::tx_views(txs@);
        let mut i: usize = 0;
        while i < txs.len()
            invariant
                i <= txs.len(),
                all == crate::types::tx_views(txs@),
                self@ == start.union(tx_set(all.take(i as int))),
            decreases txs.len() - i,
        {
            let tx = txs[i].clone();
            assert(tx@ == all[i as int]);
            self.insert(tx);
            proof {
                let before = all.take(i as int);
                let after = all.take(i + 1);
                assert(after =~= before.push(all[i as int]));
                assert forall|t: Seq<u8>| tx_set(after).contains(t) <==> tx_set(before).insert(
                    all[i as int],
                ).contains(t) by {
                    if before.contains(t) {
                        let k = choose|k: int| 0 <= k < before.len() && before[k] == t;
                        assert(after[k] == t);
                    }
                    if after.contains(t) {
                        let k = choose|k: int| 0 <= k < after.len() && after[k] == t;
                        if k < i {
                            assert(before[k] == t);
                        }
                    }
                    if t == all[i as int] {
                        assert(after[i as int] == t);
                    }
                }
                assert(self@ =~= start.union(tx_set(after)));
            }
            i += 1;
        }
        assert(all.take(i as int) =~= all);
    }
}

} // verus!
