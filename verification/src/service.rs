//! The single-writer service discipline around the ledger.
//!
//! Every state-changing request travels an ordered, bounded queue; one
//! long-lived consumer drains it in strict arrival order and applies each
//! request under exclusive access to the ledger. The queue, the lock and
//! the consumer task belong to the host process; what the consumer *does*
//! with each dequeued request is this function, so the whole decision path
//! of a mutation is verified. Rejections are reported to the caller of the
//! application step; the queue's submitter only ever learns that the
//! request was enqueued, not how it fared.

use vstd::prelude::*;
use crate::errors::LedgerError;
use crate::ledger::Ledger;
use crate::transaction::Transaction;

verus! {

/// Recommended bound for the write queue; submissions beyond it experience
/// backpressure, not rejection.
pub const WRITE_QUEUE_CAPACITY: usize = 64;

/// One state-changing request, as carried by the write queue.
pub enum LedgerRequest {
    TransactionBroadcast(Transaction),
}

/// Applies one dequeued request against the ledger, exactly as the
/// consumer must: a broadcast transaction goes through pool admission, with
/// its verdict handed back for logging. The chain itself is never touched.
pub fn apply_request(ledger: &mut Ledger, request: LedgerRequest) -> (r: Result<(), LedgerError>)
    requires
        old(ledger).wf(),
    ensures
        final(ledger).wf(),
        final(ledger).blocks == old(ledger).blocks,
        ({
            match request {
                LedgerRequest::TransactionBroadcast(tx) => {
                    let dup = old(ledger).admission_duplicate(tx);
                    let conflict = old(ledger).admission_conflict(tx);
                    &&& (r == Ok::<(), LedgerError>(())) <==> (!dup && !conflict)
                    &&& (r == Err::<(), LedgerError>(LedgerError::Duplicate)) <==> dup
                    &&& (r == Err::<(), LedgerError>(LedgerError::DoubleSpend))
                        <==> (!dup && conflict)
                    &&& r is Ok ==> final(ledger).pool.txs() == old(ledger).pool.txs().push(tx)
                    &&& r is Err ==> final(ledger).pool.txs() == old(ledger).pool.txs()
                },
            }
        }),
{
    match request {
        LedgerRequest::TransactionBroadcast(tx) => ledger.add_to_memory_pool(tx),
    }
}

} // verus!
