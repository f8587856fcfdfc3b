use ledger_core::block::Block;
use ledger_core::ledger::Ledger;
use ledger_core::record::{
    derive_address, derive_serial, encrypt_record, try_decrypt, Output, RecordsFilter,
};
use ledger_core::transaction::Transaction;

fn tx(id: u64, serials: Vec<u64>, outputs: Vec<Output>) -> Transaction {
    Transaction { id, input_serials: serials, outputs }
}

fn block(height: u32, hash: u64, previous_hash: u64, transactions: Vec<Transaction>) -> Block {
    Block { height, hash, previous_hash, state_root: 0, transactions }
}

#[test]
fn decrypt_round_trip() {
    let vk = 0x1111_2222_3333_4444;
    let c = encrypt_record(vk, 9876, 42);
    let rec = try_decrypt(vk, &c).expect("owner key must decrypt");
    assert_eq!(rec.owner, derive_address(vk));
    assert_eq!(rec.data, 9876);
    assert_eq!(rec.nonce, 42);
    // any other key fails
    assert_eq!(try_decrypt(vk + 1, &c), None);
    assert_eq!(try_decrypt(0, &c), None);
}

#[test]
fn address_and_serial_formulas() {
    let vk = 0x0102_0304_0506_0708;
    assert_eq!(derive_address(vk), vk ^ 0xa5d1_03c4_9e67_2b11);
    let nonce = 0x1000_0000_0000_0001;
    let rotated = (nonce << 47) | (nonce >> 17);
    assert_eq!(derive_serial(vk, nonce), vk ^ rotated ^ 0x77e1_b02d_4af8_63c5);
}

#[test]
fn records_scan_partition() {
    let vk = 0x1111;
    let other = 0x2222;
    let o1 = Output { commitment: 101, ciphertext: encrypt_record(vk, 1000, 1) };
    let o2 = Output { commitment: 102, ciphertext: encrypt_record(vk, 2000, 2) };
    let o3 = Output { commitment: 103, ciphertext: encrypt_record(other, 3000, 3) };
    let mut l = Ledger::new(block(0, 10, 0, vec![tx(1, vec![], vec![o1, o2, o3])]));
    // a later block spends the first record
    l.add_block(block(1, 20, 10, vec![tx(2, vec![derive_serial(vk, 1)], vec![])]));

    let all = l.find_records(vk, RecordsFilter::All);
    let spent = l.find_records(vk, RecordsFilter::Spent);
    let unspent = l.find_records(vk, RecordsFilter::Unspent);

    assert_eq!(all.len(), 2);
    assert_eq!(all[0].0, 101);
    assert_eq!(all[1].0, 102);
    assert_eq!(spent.len(), 1);
    assert_eq!(spent[0].0, 101);
    assert_eq!(spent[0].1.data, 1000);
    assert_eq!(unspent.len(), 1);
    assert_eq!(unspent[0].0, 102);
    assert_eq!(unspent[0].1.data, 2000);
    // partition: all = spent followed by unspent entries, no overlap
    for e in &all {
        let in_spent = spent.iter().any(|s| s == e);
        let in_unspent = unspent.iter().any(|u| u == e);
        assert!(in_spent ^ in_unspent);
    }
    assert_eq!(all.len(), spent.len() + unspent.len());

    // the other owner sees exactly their own record, still unspent
    let others = l.find_records(other, RecordsFilter::All);
    assert_eq!(others.len(), 1);
    assert_eq!(others[0].0, 103);
    assert_eq!(others[0].1.data, 3000);
    assert_eq!(l.find_records(other, RecordsFilter::Spent).len(), 0);
    assert_eq!(l.find_records(other, RecordsFilter::Unspent).len(), 1);

    // a stranger's key discovers nothing
    assert_eq!(l.find_records(0x9999, RecordsFilter::All).len(), 0);

    // repeated scans of a fixed chain state are identical
    assert_eq!(all, l.find_records(vk, RecordsFilter::All));
}
