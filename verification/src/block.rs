//! Blocks: immutable, ordered batches of transactions.

use vstd::prelude::*;
use crate::record::Output;
use crate::transaction::{
    Transaction, commitments_of_txs, outputs_of_txs, serials_of_txs, lemma_outputs_push,
    lemma_serials_push,
};

verus! {

/// One block of the chain. `height` increases by one per block, and
/// `previous_hash` must equal the prior block's `hash`. `state_root` is the
/// protocol's commitment to global state as of this block; it is carried,
/// not recomputed, by the ledger core.
#[derive(Clone, Debug, PartialEq, Eq)]
pub struct Block {
    pub height: u32,
    pub hash: u64,
    pub previous_hash: u64,
    pub state_root: u64,
    pub transactions: Vec<Transaction>,
}

/// The commitments a block's transactions create, flattened in order.
pub open spec fn block_commitments(b: Block) -> Seq<u64> {
    commitments_of_txs(b.transactions@)
}

/// Collects every output of the given transactions, flattened in order.
pub fn collect_outputs(txs: &Vec<Transaction>) -> (r: Vec<Output>)
    ensures
        r@ == outputs_of_txs(txs@),
{
    let mut r: Vec<Output> = Vec::new();
    let mut i: usize = 0;
    while i < txs.len()
        invariant
            0 <= i <= txs.len(),
            r@ == outputs_of_txs(txs@.take(i as int)),
        decreases txs.len() - i,
    {
        let tx = &txs[i];
        let mut j: usize = 0;
        while j < tx.outputs.len()
            invariant
                0 <= i < txs.len(),
                0 <= j <= tx.outputs.len(),
                tx == txs@[i as int],
                r@ == outputs_of_txs(txs@.take(i as int)) + tx.outputs@.take(j as int),
            decreases tx.outputs.len() - j,
        {
            r.push(tx.outputs[j]);
            assert(tx.outputs@.take(j + 1) =~= tx.outputs@.take(j as int).push(tx.outputs@[j as int]));
            assert(r@ =~= outputs_of_txs(txs@.take(i as int)) + tx.outputs@.take(j + 1));
            j = j + 1;
        }
        proof {
            assert(tx.outputs@.take(tx.outputs@.len() as int) =~= tx.outputs@);
            assert(txs@.take(i + 1) =~= txs@.take(i as int).push(txs@[i as int]));
            lemma_outputs_push(txs@.take(i as int), txs@[i as int]);
        }
        i = i + 1;
    }
    proof {
        assert(txs@.take(txs@.len() as int) =~= txs@);
    }
    r
}

/// Collects every input serial number of the given transactions, flattened
/// in order.
pub fn collect_serials(txs: &Vec<Transaction>) -> (r: Vec<u64>)
    ensures
        r@ == serials_of_txs(txs@),
{
    let mut r: Vec<u64> = Vec::new();
    let mut i: usize = 0;
    while i < txs.len()
        invariant
            0 <= i <= txs.len(),
            r@ == serials_of_txs(txs@.take(i as int)),
        decreases txs.len() - i,
    {
        let tx = &txs[i];
        let mut j: usize = 0;
        while j < tx.input_serials.len()
            invariant
                0 <= i < txs.len(),
                0 <= j <= tx.input_serials.len(),
                tx == txs@[i as int],
                r@ == serials_of_txs(txs@.take(i as int)) + tx.input_serials@.take(j as int),
            decreases tx.input_serials.len() - j,
        {
            r.push(tx.input_serials[j]);
            assert(tx.input_serials@.take(j + 1)
                =~= tx.input_serials@.take(j as int).push(tx.input_serials@[j as int]));
            assert(r@ =~= serials_of_txs(txs@.take(i as int)) + tx.input_serials@.take(j + 1));
            j = j + 1;
        }
        proof {
            assert(tx.input_serials@.take(tx.input_serials@.len() as int) =~= tx.input_serials@);
            assert(txs@.take(i + 1) =~= txs@.take(i as int).push(txs@[i as int]));
            lemma_serials_push(txs@.take(i as int), txs@[i as int]);
        }
        i = i + 1;
    }
    proof {
        assert(txs@.take(txs@.len() as int) =~= txs@);
    }
    r
}

/// Collects every commitment the given transactions create, flattened in
/// order.
pub fn collect_commitments(txs: &Vec<Transaction>) -> (r: Vec<u64>)
    ensures
        r@ == commitments_of_txs(txs@),
{
    let outs = collect_outputs(txs);
    let mut r: Vec<u64> = Vec::new();
    let mut i: usize = 0;
    while i < outs.len()
        invariant
            0 <= i <= outs.len(),
            outs@ == outputs_of_txs(txs@),
            r@ == outs@.take(i as int).map_values(|o: Output| o.commitment),
        decreases outs.len() - i,
    {
        r.push(outs[i].commitment);
        assert(outs@.take(i + 1) =~= outs@.take(i as int).push(outs@[i as int]));
        assert(outs@.take(i + 1).map_values(|o: Output| o.commitment)
            =~= outs@.take(i as int).map_values(|o: Output| o.commitment).push(outs@[i as int].commitment));
        i = i + 1;
    }
    proof {
        assert(outs@.take(outs@.len() as int) =~= outs@);
    }
    r
}

} // verus!
