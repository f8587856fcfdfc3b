//! The memory pool: admissible, not-yet-confirmed transactions.
//!
//! The pool is a staging set keyed by transaction id. It never holds two
//! transactions with the same id, and no two pooled transactions may share
//! an input serial number — a double spend must not form inside the pool.
//! Checks against *confirmed* state belong to the ledger, which owns the
//! pool and consults it during admission.

use vstd::prelude::*;
use crate::transaction::{Transaction, ids_of, has_id, shares_serial, tx_shares_serial, list_contains};

verus! {

/// The staging set of pending transactions, in admission order.
#[derive(Clone, Debug)]
pub struct MemoryPool {
    pub transactions: Vec<Transaction>,
}

impl MemoryPool {
    /// The pooled transactions, in admission order.
    pub open spec fn txs(self) -> Seq<Transaction> {
        self.transactions@
    }

    /// The pool's internal invariant: ids unique, and no serial number
    /// claimed by two distinct pooled transactions.
    pub open spec fn wf(self) -> bool {
        &&& ids_of(self.txs()).no_duplicates()
        &&& forall|i: int, j: int| 0 <= i < j < self.txs().len()
                ==> !shares_serial(self.txs()[i], self.txs()[j])
    }

    /// An empty pool.
    pub fn new() -> (r: Self)
        ensures
            r.wf(),
            r.txs() == Seq::<Transaction>::empty(),
    {
        MemoryPool { transactions: Vec::new() }
    }

    /// How many transactions are pending.
    pub fn len(&self) -> (r: usize)
        ensures
            r == self.txs().len(),
    {
        self.transactions.len()
    }

    /// Whether a transaction with the given id is pooled.
    pub fn contains_id(&self, id: u64) -> (r: bool)
        ensures
            r == has_id(self.txs(), id),
    {
        let mut i: usize = 0;
        while i < self.transactions.len()
            invariant
                0 <= i <= self.transactions.len(),
                forall|k: int| 0 <= k < i ==> self.transactions@[k].id != id,
            decreases self.transactions.len() - i,
        {
            if self.transactions[i].id == id {
                return true;
            }
            i = i + 1;
        }
        false
    }

    /// Whether any pooled transaction shares an input serial number with `tx`.
    pub fn conflicts_with(&self, tx: &Transaction) -> (r: bool)
        ensures
            r == exists|i: int| 0 <= i < self.txs().len() && shares_serial(self.txs()[i], *tx),
    {
        let mut i: usize = 0;
        while i < self.transactions.len()
            invariant
                0 <= i <= self.transactions.len(),
                forall|k: int| 0 <= k < i ==> !shares_serial(self.transactions@[k], *tx),
            decreases self.transactions.len() - i,
        {
            if tx_shares_serial(&self.transactions[i], tx) {
                assert(shares_serial(self.txs()[i as int], *tx));
                return true;
            }
            i = i + 1;
        }
        false
    }

    /// Whether any pooled transaction spends the given serial number.
    pub fn spends(&self, serial: u64) -> (r: bool)
        ensures
            r == exists|i: int| 0 <= i < self.txs().len()
                && self.txs()[i].input_serials@.contains(serial),
    {
        let mut i: usize = 0;
        while i < self.transactions.len()
            invariant
                0 <= i <= self.transactions.len(),
                forall|k: int| 0 <= k < i ==> !self.transactions@[k].input_serials@.contains(serial),
            decreases self.transactions.len() - i,
        {
            if list_contains(&self.transactions[i].input_serials, serial) {
                assert(self.txs()[i as int].input_serials@.contains(serial));
                return true;
            }
            i = i + 1;
        }
        false
    }

    /// Stages a transaction already cleared of duplicate and conflict checks.
    pub fn insert(&mut self, tx: Transaction)
        requires
            old(self).wf(),
            !has_id(old(self).txs(), tx.id),
            !exists|i: int| 0 <= i < old(self).txs().len() && shares_serial(old(self).txs()[i], tx),
        ensures
            final(self).wf(),
            final(self).txs() == old(self).txs().push(tx),
    {
        proof {
            assert(ids_of(self.txs().push(tx)) =~= ids_of(self.txs()).push(tx.id));
            assert forall|i: int, j: int| 0 <= i < j < self.txs().push(tx).len()
                implies !shares_serial(self.txs().push(tx)[i], self.txs().push(tx)[j]) by {
                if j < self.txs().len() {
                    assert(self.txs().push(tx)[i] == self.txs()[i]);
                    assert(self.txs().push(tx)[j] == self.txs()[j]);
                } else {
                    assert(self.txs().push(tx)[j] == tx);
                    assert(!shares_serial(self.txs()[i], tx));
                }
            }
        }
        self.transactions.push(tx);
    }
}

} // verus!
