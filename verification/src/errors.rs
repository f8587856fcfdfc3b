//! The error taxonomy of the ledger core.

use vstd::prelude::*;

verus! {

/// Every failure a ledger operation can report.
///
/// - `NotFound`: a queried height, hash, transaction id or commitment is absent.
/// - `Duplicate`: a transaction with the same id is already pooled or confirmed.
/// - `DoubleSpend`: an input serial number is already spent or claimed by a
///   pooled transaction.
/// - `QueueClosed`: the write queue's consumer has terminated.
/// - `DecodeError`: malformed bytes at the boundary.
#[derive(Clone, Copy, Debug, PartialEq, Eq, Structural)]
pub enum LedgerError {
    NotFound,
    Duplicate,
    DoubleSpend,
    QueueClosed,
    DecodeError,
}

impl LedgerError {
    /// A short human-readable name for the error, for logs and replies.
    pub fn message(&self) -> String {
        match self {
            LedgerError::NotFound => "not found".to_string(),
            LedgerError::Duplicate => "duplicate transaction".to_string(),
            LedgerError::DoubleSpend => "double spend".to_string(),
            LedgerError::QueueClosed => "queue closed".to_string(),
            LedgerError::DecodeError => "decode error".to_string(),
        }
    }
}

} // verus!
