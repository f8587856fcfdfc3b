//! Private records, their ciphertexts, and the owner-key operations on them.
//!
//! A record is a private unit of state. On chain it appears only as a public
//! commitment next to an opaque ciphertext; the plaintext is recoverable by
//! the holder of the matching view key alone. A serial number, derivable only
//! from the record and the owner's key, marks the record spent once it shows
//! up as a transaction input.
//!
//! The cipher here is a deterministic keyed mask over machine words. The
//! ledger logic relies on exactly two facts about it, both proved below: the
//! matching view key recovers the plaintext, and any other view key fails.

use vstd::prelude::*;

verus! {

/// Domain separator mixed into an address derivation.
pub const ADDR_DOMAIN: u64 = 0xa5d1_03c4_9e67_2b11;
/// Domain separator mixed into the data mask.
pub const PAD_DOMAIN: u64 = 0x3c8e_f4a2_517b_d609;
/// Domain separator mixed into a serial number derivation.
pub const SN_DOMAIN: u64 = 0x77e1_b02d_4af8_63c5;

/// The plaintext attributes of a record: the owner's address, a data word,
/// and the uniquifying nonce it was encrypted under.
#[derive(Clone, Copy, Debug, PartialEq, Eq, Structural)]
pub struct Record {
    pub owner: u64,
    pub data: u64,
    pub nonce: u64,
}

/// A record as it is stored on chain: an address tag and the masked data.
/// Opaque to anyone who does not hold a view key whose address equals `tag`.
#[derive(Clone, Copy, Debug, PartialEq, Eq, Structural)]
pub struct Ciphertext {
    pub tag: u64,
    pub nonce: u64,
    pub masked_data: u64,
}

/// One transaction output: a public commitment beside the record ciphertext.
#[derive(Clone, Copy, Debug, PartialEq, Eq, Structural)]
pub struct Output {
    pub commitment: u64,
    pub ciphertext: Ciphertext,
}

/// The classes of records a discovery scan may ask for.
#[derive(Clone, Copy, Debug, PartialEq, Eq, Structural)]
pub enum RecordsFilter {
    All,
    Spent,
    Unspent,
}

/// The address that a view key decrypts for.
pub open spec fn address_of(view_key: u64) -> u64 {
    view_key ^ ADDR_DOMAIN
}

/// The keystream word masking a record's data under a given nonce.
pub open spec fn pad_of(view_key: u64, nonce: u64) -> u64 {
    view_key ^ ((nonce << 23) | (nonce >> 41)) ^ PAD_DOMAIN
}

/// The serial number of a record with the given nonce, under the owner's key.
pub open spec fn serial_of(view_key: u64, nonce: u64) -> u64 {
    view_key ^ ((nonce << 47) | (nonce >> 17)) ^ SN_DOMAIN
}

/// Encryption of `data` under `view_key` and `nonce`.
pub open spec fn encrypt_spec(view_key: u64, data: u64, nonce: u64) -> Ciphertext {
    Ciphertext {
        tag: address_of(view_key),
        nonce: nonce,
        masked_data: data ^ pad_of(view_key, nonce),
    }
}

/// Decryption attempt: succeeds exactly when the key's address matches the tag.
pub open spec fn decrypt_spec(view_key: u64, c: Ciphertext) -> Option<Record> {
    if c.tag == address_of(view_key) {
        Some(Record { owner: c.tag, data: c.masked_data ^ pad_of(view_key, c.nonce), nonce: c.nonce })
    } else {
        None
    }
}

/// Computes the address for a view key.
pub fn derive_address(view_key: u64) -> (r: u64)
    ensures
        r == address_of(view_key),
{
    view_key ^ ADDR_DOMAIN
}

/// Computes the serial number of a record under the owner's view key.
pub fn derive_serial(view_key: u64, nonce: u64) -> (r: u64)
    ensures
        r == serial_of(view_key, nonce),
{
    view_key ^ ((nonce << 47) | (nonce >> 17)) ^ SN_DOMAIN
}

/// Encrypts a record's data to the owner of `view_key`.
pub fn encrypt_record(view_key: u64, data: u64, nonce: u64) -> (c: Ciphertext)
    ensures
        c == encrypt_spec(view_key, data, nonce),
{
    Ciphertext {
        tag: view_key ^ ADDR_DOMAIN,
        nonce: nonce,
        masked_data: data ^ (view_key ^ ((nonce << 23) | (nonce >> 41)) ^ PAD_DOMAIN),
    }
}

/// Attempts to decrypt a stored ciphertext with a view key.
pub fn try_decrypt(view_key: u64, c: &Ciphertext) -> (r: Option<Record>)
    ensures
        r == decrypt_spec(view_key, *c),
{
    if c.tag == view_key ^ ADDR_DOMAIN {
        Some(Record {
            owner: c.tag,
            data: c.masked_data ^ (view_key ^ ((c.nonce << 23) | (c.nonce >> 41)) ^ PAD_DOMAIN),
            nonce: c.nonce,
        })
    } else {
        None
    }
}

/// Decrypting a ciphertext with the view key it was encrypted under always
/// reproduces the original plaintext attributes.
pub proof fn lemma_decrypt_round_trip(view_key: u64, data: u64, nonce: u64)
    ensures
        decrypt_spec(view_key, encrypt_spec(view_key, data, nonce))
            == Some(Record { owner: address_of(view_key), data: data, nonce: nonce }),
{
    assert(forall|d: u64, p: u64| (d ^ p) ^ p == d) by (bit_vector);
}

/// Decrypting with any view key other than the one a ciphertext was
/// encrypted under never succeeds.
pub proof fn lemma_decrypt_wrong_key(owner_key: u64, other_key: u64, data: u64, nonce: u64)
    requires
        other_key != owner_key,
    ensures
        decrypt_spec(other_key, encrypt_spec(owner_key, data, nonce)) == None::<Record>,
{
    assert(forall|a: u64, b: u64, c: u64| a != b ==> a ^ c != b ^ c) by (bit_vector);
}

} // verus!
