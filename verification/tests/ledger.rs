use ledger_core::block::Block;
use ledger_core::errors::LedgerError;
use ledger_core::ledger::Ledger;
use ledger_core::record::Output;
use ledger_core::service::{apply_request, LedgerRequest};
use ledger_core::transaction::Transaction;

fn tx(id: u64, serials: Vec<u64>, outputs: Vec<Output>) -> Transaction {
    Transaction { id, input_serials: serials, outputs }
}

fn block(height: u32, hash: u64, previous_hash: u64, transactions: Vec<Transaction>) -> Block {
    Block { height, hash, previous_hash, state_root: 0, transactions }
}

#[test]
fn genesis_latest_queries() {
    let l = Ledger::new(block(0, 0xaa, 0, vec![]));
    assert_eq!(l.latest_height(), 0);
    assert_eq!(l.latest_hash(), 0xaa);
    assert_eq!(l.latest_block().unwrap().hash, 0xaa);
    assert_eq!(l.get_block(0).unwrap().hash, 0xaa);
    assert_eq!(l.get_block(1), Err(LedgerError::NotFound));
}

#[test]
fn chain_links_and_lookups() {
    let mut l = Ledger::new(block(0, 10, 0, vec![tx(1, vec![], vec![])]));
    l.add_block(block(1, 20, 10, vec![tx(2, vec![5], vec![]), tx(3, vec![6], vec![])]));
    l.add_block(block(2, 30, 20, vec![tx(4, vec![7], vec![])]));
    assert_eq!(l.latest_height(), 2);
    assert_eq!(l.latest_hash(), 30);
    for h in 0..=2u32 {
        let b = l.get_block(h).unwrap();
        assert_eq!(b.height, h);
        if h > 0 {
            let prev = l.get_block(h - 1).unwrap().hash;
            assert_eq!(l.get_block(h).unwrap().previous_hash, prev);
        }
    }
    assert_eq!(l.get_block(3), Err(LedgerError::NotFound));
    let txs = l.get_transactions(1).unwrap();
    assert_eq!(txs.len(), 2);
    assert_eq!(txs[0].id, 2);
    assert_eq!(txs[1].id, 3);
    assert_eq!(l.get_transactions(9), Err(LedgerError::NotFound));
    assert_eq!(l.get_transaction(3).unwrap().id, 3);
    assert_eq!(l.get_transaction(4).unwrap().id, 4);
    assert_eq!(l.get_transaction(99), Err(LedgerError::NotFound));
}

#[test]
fn pool_admission_and_rejections() {
    let mut l = Ledger::new(block(0, 10, 0, vec![tx(1, vec![50], vec![])]));
    // fresh transaction is admitted
    assert_eq!(l.add_to_memory_pool(tx(2, vec![5], vec![])), Ok(()));
    assert_eq!(l.pool.len(), 1);
    assert!(l.pool.contains_id(2));
    // identical id again: Duplicate, pool unchanged
    assert_eq!(
        l.add_to_memory_pool(tx(2, vec![99], vec![])),
        Err(LedgerError::Duplicate)
    );
    assert_eq!(l.pool.len(), 1);
    // id already confirmed in genesis: Duplicate
    assert_eq!(
        l.add_to_memory_pool(tx(1, vec![98], vec![])),
        Err(LedgerError::Duplicate)
    );
    // serial already claimed by a pooled transaction: DoubleSpend
    assert_eq!(
        l.add_to_memory_pool(tx(3, vec![5], vec![])),
        Err(LedgerError::DoubleSpend)
    );
    // serial already spent on chain: DoubleSpend
    assert_eq!(
        l.add_to_memory_pool(tx(4, vec![50], vec![])),
        Err(LedgerError::DoubleSpend)
    );
    assert_eq!(l.pool.len(), 1);
}

#[test]
fn consumer_applies_requests_in_order() {
    let mut l = Ledger::new(block(0, 10, 0, vec![]));
    // pool size never decreases over a run of sequential admissions
    let mut last = 0;
    for i in 0..8u64 {
        let r = apply_request(
            &mut l,
            LedgerRequest::TransactionBroadcast(tx(100 + i, vec![1000 + i], vec![])),
        );
        assert_eq!(r, Ok(()));
        let n = l.pool.len();
        assert!(n >= last);
        last = n;
    }
    assert_eq!(l.pool.len(), 8);
    // a rejected request leaves the pool size unchanged
    let r = apply_request(
        &mut l,
        LedgerRequest::TransactionBroadcast(tx(100, vec![2000], vec![])),
    );
    assert_eq!(r, Err(LedgerError::Duplicate));
    assert_eq!(l.pool.len(), 8);
}

#[test]
fn state_path_at_full_block_capacity() {
    // a block may carry up to 256 commitments, the local tree's capacity
    let mut outputs = Vec::new();
    for i in 0..256u64 {
        outputs.push(Output {
            commitment: 1000 + i,
            ciphertext: ledger_core::record::encrypt_record(3, i, i),
        });
    }
    let l = Ledger::new(block(0, 10, 0, vec![tx(1, vec![], outputs)]));
    let first = l.to_state_path(1000).unwrap();
    assert!(first.verify(1000));
    let last = l.to_state_path(1255).unwrap();
    assert!(last.verify(1255));
    assert_eq!(first.root, last.root);
    assert_eq!(l.to_state_path(1256), Err(LedgerError::NotFound));
}

#[test]
fn state_path_deterministic_and_verifies() {
    let o1 = Output { commitment: 101, ciphertext: ledger_core::record::encrypt_record(7, 1, 1) };
    let o2 = Output { commitment: 102, ciphertext: ledger_core::record::encrypt_record(7, 2, 2) };
    let mut l = Ledger::new(block(0, 10, 0, vec![tx(1, vec![], vec![o1])]));
    l.add_block(block(1, 20, 10, vec![tx(2, vec![], vec![o2])]));
    let p1 = l.to_state_path(101).unwrap();
    let p2 = l.to_state_path(101).unwrap();
    assert_eq!(p1, p2);
    assert!(p1.verify(101));
    assert!(!p1.verify(999));
    let q1 = l.to_state_path(102).unwrap();
    assert!(q1.verify(102));
    // both proofs commit to the ledger's own global root
    assert_eq!(p1.root, q1.root);
    assert_eq!(p1.root, l.state_root());
    assert_eq!(l.to_state_path(999), Err(LedgerError::NotFound));
}
