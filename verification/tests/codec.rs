use ledger_core::errors::LedgerError;
use ledger_core::record::{encrypt_record, Ciphertext, Output, Record};
use ledger_core::transaction::Transaction;

#[test]
fn record_bytes_round_trip() {
    let r = Record { owner: 0x0102_0304_0506_0708, data: 0xffee_ddcc_bbaa_0099, nonce: 7 };
    let bytes = r.write_le();
    assert_eq!(bytes.len(), 24);
    // little-endian: least significant byte first
    assert_eq!(&bytes[0..8], &[0x08, 0x07, 0x06, 0x05, 0x04, 0x03, 0x02, 0x01]);
    assert_eq!(Record::read_le(&bytes), Ok(r));
}

#[test]
fn ciphertext_bytes_round_trip() {
    let c = Ciphertext { tag: 1, nonce: 0x8000_0000_0000_0001, masked_data: u64::MAX };
    let bytes = c.write_le();
    assert_eq!(bytes.len(), 24);
    assert_eq!(Ciphertext::read_le(&bytes), Ok(c));
}

#[test]
fn malformed_bytes_rejected() {
    let r = Record { owner: 1, data: 2, nonce: 3 };
    let mut bytes = r.write_le();
    bytes.push(0);
    assert_eq!(Record::read_le(&bytes), Err(LedgerError::DecodeError));
    let short: Vec<u8> = vec![1, 2, 3];
    assert_eq!(Record::read_le(&short), Err(LedgerError::DecodeError));
    assert_eq!(Ciphertext::read_le(&short), Err(LedgerError::DecodeError));
}

#[test]
fn transaction_bytes_round_trip() {
    let t = Transaction {
        id: 0xdead_beef,
        input_serials: vec![5, 6, u64::MAX],
        outputs: vec![
            Output { commitment: 101, ciphertext: encrypt_record(7, 1000, 1) },
            Output { commitment: 102, ciphertext: encrypt_record(8, 2000, 2) },
        ],
    };
    let bytes = t.write_le();
    // id (8) + count (8) + 3 serials + count (8) + 2 outputs of 32 bytes
    assert_eq!(bytes.len(), 24 + 3 * 8 + 2 * 32);
    assert_eq!(Transaction::read_le(&bytes), Ok(t));
}

#[test]
fn empty_transaction_round_trip() {
    let t = Transaction { id: 1, input_serials: vec![], outputs: vec![] };
    let bytes = t.write_le();
    assert_eq!(bytes.len(), 24);
    assert_eq!(Transaction::read_le(&bytes), Ok(t));
}

#[test]
fn malformed_transaction_bytes_rejected() {
    let t = Transaction { id: 9, input_serials: vec![1, 2], outputs: vec![] };
    let good = t.write_le();
    assert!(Transaction::read_le(&good).is_ok());
    // truncated
    let mut short = good.clone();
    short.pop();
    assert_eq!(Transaction::read_le(&short), Err(LedgerError::DecodeError));
    // trailing garbage
    let mut long = good.clone();
    long.push(0);
    assert_eq!(Transaction::read_le(&long), Err(LedgerError::DecodeError));
    // length prefix larger than the buffer can hold
    let mut lying = good.clone();
    lying[8] = 0xff;
    assert_eq!(Transaction::read_le(&lying), Err(LedgerError::DecodeError));
    // too short to even carry the header
    assert_eq!(
        Transaction::read_le(&vec![0u8; 10]),
        Err(LedgerError::DecodeError)
    );
}

#[test]
fn error_messages_name_each_failure() {
    assert_eq!(LedgerError::NotFound.message(), "not found");
    assert_eq!(LedgerError::Duplicate.message(), "duplicate transaction");
    assert_eq!(LedgerError::DoubleSpend.message(), "double spend");
    assert_eq!(LedgerError::QueueClosed.message(), "queue closed");
    assert_eq!(LedgerError::DecodeError.message(), "decode error");
}
