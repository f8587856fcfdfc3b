//! A node-local ledger core for a blockchain with private, shielded records.
//!
//! The ledger owns the canonical chain of blocks, a memory pool of pending
//! transactions, and the derived indices needed to answer queries: latest
//! height and hash, block and transaction lookups, Merkle inclusion proofs
//! ("state paths") for record commitments, and owner-scoped record discovery
//! through view-key decryption attempts.
//!
//! All mutations are meant to be serialized through a single writer (see
//! `service`); reads take a consistent snapshot. The surrounding process
//! (HTTP routing, channels, locks) lives outside this crate.

pub mod errors;
pub mod record;
pub mod transaction;
pub mod block;
pub mod pool;
pub mod merkle;
pub mod ledger;
pub mod service;
pub mod bytes;
