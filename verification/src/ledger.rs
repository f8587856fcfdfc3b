//! The ledger aggregate: canonical chain state, derived indices, the memory
//! pool, and every read and admission operation over them.
//!
//! The chain is the vector of blocks, indexed by height. Beside it the
//! ledger keeps derived indices — confirmed transaction ids, spent serial
//! numbers, all confirmed outputs, and per-block Merkle roots — each tied to
//! the chain by the well-formedness invariant, so queries stay simple scans
//! whose contracts speak about the chain itself.

use vstd::prelude::*;
use crate::errors::LedgerError;
use crate::record::{
    Record, Output, RecordsFilter, decrypt_spec, serial_of, try_decrypt, derive_serial,
};
use crate::transaction::{
    Transaction, ids_of, serials_of_txs, outputs_of_txs, commitments_of_txs, has_id,
    shares_serial, spends_from, list_contains, tx_spends_from, lemma_serials_add,
    lemma_outputs_add, lemma_seq_contains_add, lemma_concat_no_dup, lemma_has_id_add,
};
use crate::block::{Block, block_commitments, collect_commitments, collect_outputs, collect_serials};
use crate::merkle::{
    LOCAL_DEPTH, GLOBAL_DEPTH, StatePath, merkle_root, path_spec, path_fold, merkle_path,
    compute_root,
};
use crate::pool::MemoryPool;

verus! {

/// The chain can hold one block per `u32` height.
pub const MAX_BLOCKS: u64 = 0x1_0000_0000;
/// A block's transactions may create at most this many commitments, the
/// capacity of the per-block Merkle tree.
pub const MAX_BLOCK_COMMITMENTS: usize = 256;

/// All transactions confirmed by a chain of blocks, flattened in order.
pub open spec fn txs_of_chain(bs: Seq<Block>) -> Seq<Transaction>
    decreases bs.len(),
{
    if bs.len() == 0 {
        Seq::empty()
    } else {
        txs_of_chain(bs.drop_last()) + bs.last().transactions@
    }
}

/// The per-block Merkle roots of a chain, in order.
pub open spec fn roots_of_chain(bs: Seq<Block>) -> Seq<u64> {
    bs.map_values(|b: Block| merkle_root(block_commitments(b), LOCAL_DEPTH as nat))
}

/// A block the ledger can ingest: its commitments fit the per-block tree.
pub open spec fn wf_block(b: Block) -> bool {
    block_commitments(b).len() <= MAX_BLOCK_COMMITMENTS
}

/// The ledger aggregate.
pub struct Ledger {
    /// The chain, indexed by height.
    pub blocks: Vec<Block>,
    /// Pending transactions admitted but not yet confirmed.
    pub pool: MemoryPool,
    /// Derived: the ids of all confirmed transactions, in chain order.
    pub confirmed_ids: Vec<u64>,
    /// Derived: all spent serial numbers, in chain order.
    pub spent_serials: Vec<u64>,
    /// Derived: all confirmed outputs, in chain order.
    pub chain_outputs: Vec<Output>,
    /// Derived: the per-block Merkle roots, the leaves of the global tree.
    pub block_roots: Vec<u64>,
}

impl Ledger {
    /// The chain of blocks, by height.
    pub open spec fn chain(self) -> Seq<Block> {
        self.blocks@
    }

    /// All confirmed transactions, in chain order.
    pub open spec fn confirmed(self) -> Seq<Transaction> {
        txs_of_chain(self.blocks@)
    }

    /// All spent serial numbers, in chain order.
    pub open spec fn spent(self) -> Seq<u64> {
        serials_of_txs(self.confirmed())
    }

    /// All confirmed outputs, in chain order.
    pub open spec fn outputs(self) -> Seq<Output> {
        outputs_of_txs(self.confirmed())
    }

    /// The latest height as a mathematical integer.
    pub open spec fn height(self) -> int {
        self.chain().len() - 1
    }

    /// The well-formedness invariant of the whole aggregate.
    pub open spec fn wf(self) -> bool {
        &&& 1 <= self.blocks@.len() <= MAX_BLOCKS
        &&& forall|i: int| 0 <= i < self.blocks@.len()
                ==> (#[trigger] self.blocks@[i]).height as int == i
        &&& forall|i: int| 1 <= i < self.blocks@.len()
                ==> (#[trigger] self.blocks@[i]).previous_hash == self.blocks@[i - 1].hash
        &&& forall|i: int| 0 <= i < self.blocks@.len() ==> wf_block(#[trigger] self.blocks@[i])
        &&& self.confirmed_ids@ == ids_of(self.confirmed())
        &&& self.spent_serials@ == serials_of_txs(self.confirmed())
        &&& self.chain_outputs@ == outputs_of_txs(self.confirmed())
        &&& self.block_roots@ == roots_of_chain(self.blocks@)
        &&& ids_of(self.confirmed()).no_duplicates()
        &&& commitments_of_txs(self.confirmed()).no_duplicates()
        &&& self.pool.wf()
        &&& forall|i: int| 0 <= i < self.pool.txs().len()
                ==> !has_id(self.confirmed(), (#[trigger] self.pool.txs()[i]).id)
        &&& forall|i: int| 0 <= i < self.pool.txs().len()
                ==> !spends_from(#[trigger] self.pool.txs()[i], self.spent())
    }

    /// Whether a block may extend this ledger: correct height, linked hash,
    /// within capacity, protocol-valid contents (fresh unique ids and
    /// commitments), and no overlap with what the pool already stages.
    pub open spec fn extends(self, b: Block) -> bool {
        &&& self.blocks@.len() < MAX_BLOCKS
        &&& b.height as int == self.blocks@.len()
        &&& b.previous_hash == self.blocks@.last().hash
        &&& wf_block(b)
        &&& ids_of(b.transactions@).no_duplicates()
        &&& forall|k: int| 0 <= k < b.transactions@.len()
                ==> !has_id(self.confirmed(), (#[trigger] b.transactions@[k]).id)
        &&& commitments_of_txs(b.transactions@).no_duplicates()
        &&& forall|k: int| 0 <= k < commitments_of_txs(b.transactions@).len()
                ==> !commitments_of_txs(self.confirmed())
                    .contains(#[trigger] commitments_of_txs(b.transactions@)[k])
        &&& forall|i: int| 0 <= i < self.pool.txs().len()
                ==> !has_id(b.transactions@, (#[trigger] self.pool.txs()[i]).id)
        &&& forall|i: int| 0 <= i < self.pool.txs().len()
                ==> !spends_from(#[trigger] self.pool.txs()[i], serials_of_txs(b.transactions@))
    }

    /// Starts a ledger from its genesis block.
    pub fn new(genesis: Block) -> (r: Self)
        requires
            genesis.height == 0,
            wf_block(genesis),
            ids_of(genesis.transactions@).no_duplicates(),
            commitments_of_txs(genesis.transactions@).no_duplicates(),
        ensures
            r.wf(),
            r.chain() == seq![genesis],
            r.pool.txs() == Seq::<Transaction>::empty(),
    {
        proof {
            assert(seq![genesis].drop_last() =~= Seq::<Block>::empty());
            assert(seq![genesis].last() == genesis);
            assert(txs_of_chain(Seq::<Block>::empty()) == Seq::<Transaction>::empty());
            assert(txs_of_chain(seq![genesis])
                == txs_of_chain(Seq::<Block>::empty()) + genesis.transactions@);
            assert(Seq::<Transaction>::empty() + genesis.transactions@ =~= genesis.transactions@);
        }
        let confirmed_ids = collect_ids(&genesis.transactions);
        let spent_serials = collect_serials(&genesis.transactions);
        let chain_outputs = collect_outputs(&genesis.transactions);
        let cms = collect_commitments(&genesis.transactions);
        let root = compute_root(&cms, LOCAL_DEPTH);
        let mut block_roots: Vec<u64> = Vec::new();
        block_roots.push(root);
        let mut blocks: Vec<Block> = Vec::new();
        blocks.push(genesis);
        let r = Ledger {
            blocks,
            pool: MemoryPool::new(),
            confirmed_ids,
            spent_serials,
            chain_outputs,
            block_roots,
        };
        proof {
            assert(r.blocks@ =~= seq![genesis]);
            assert(r.block_roots@ =~= roots_of_chain(seq![genesis]));
        }
        r
    }

    /// Current chain height.
    pub fn latest_height(&self) -> (r: u32)
        requires
            self.wf(),
        ensures
            r as int == self.height(),
    {
        (self.blocks.len() - 1) as u32
    }

    /// Hash of the block at the latest height.
    pub fn latest_hash(&self) -> (r: u64)
        requires
            self.wf(),
        ensures
            r == self.chain().last().hash,
    {
        self.blocks[self.blocks.len() - 1].hash
    }

    /// The block at the latest height. The chain always holds its genesis,
    /// so under the invariant this cannot fail; the `Result` guards the
    /// caller against a corrupted store in an unverified setting.
    pub fn latest_block(&self) -> (r: Result<&Block, LedgerError>)
        requires
            self.wf(),
        ensures
            r matches Ok(b) && *b == self.chain().last(),
    {
        if self.blocks.len() == 0 {
            Err(LedgerError::NotFound)
        } else {
            Ok(&self.blocks[self.blocks.len() - 1])
        }
    }

    /// The block at the given height; `NotFound` above the latest height.
    pub fn get_block(&self, height: u32) -> (r: Result<&Block, LedgerError>)
        requires
            self.wf(),
        ensures
            height as int <= self.height()
                ==> (r matches Ok(b) && *b == self.chain()[height as int]),
            height as int > self.height() ==> r == Err::<&Block, LedgerError>(LedgerError::NotFound),
    {
        let h = height as usize;
        if h < self.blocks.len() {
            Ok(&self.blocks[h])
        } else {
            Err(LedgerError::NotFound)
        }
    }

    /// The transactions of the block at the given height, in block order;
    /// `NotFound` above the latest height.
    pub fn get_transactions(&self, height: u32) -> (r: Result<&Vec<Transaction>, LedgerError>)
        requires
            self.wf(),
        ensures
            height as int <= self.height()
                ==> (r matches Ok(v) && v@ == self.chain()[height as int].transactions@),
            height as int > self.height()
                ==> r == Err::<&Vec<Transaction>, LedgerError>(LedgerError::NotFound),
    {
        let h = height as usize;
        if h < self.blocks.len() {
            Ok(&self.blocks[h].transactions)
        } else {
            Err(LedgerError::NotFound)
        }
    }

    /// A candidate's id is already taken: pooled or confirmed.
    pub open spec fn admission_duplicate(self, tx: Transaction) -> bool {
        has_id(self.pool.txs(), tx.id) || has_id(self.confirmed(), tx.id)
    }

    /// A candidate spends a serial number already spent on chain or claimed
    /// by a pooled transaction.
    pub open spec fn admission_conflict(self, tx: Transaction) -> bool {
        spends_from(tx, self.spent())
            || exists|i: int| 0 <= i < self.pool.txs().len()
                && shares_serial(#[trigger] self.pool.txs()[i], tx)
    }

    /// Admits a transaction into the memory pool, or rejects it.
    ///
    /// `Duplicate` exactly when the id is already pooled or confirmed;
    /// otherwise `DoubleSpend` exactly when an input serial number is
    /// already spent on chain or claimed by a pooled transaction; otherwise
    /// the transaction is staged. The chain is never touched.
    pub fn add_to_memory_pool(&mut self, tx: Transaction) -> (r: Result<(), LedgerError>)
        requires
            old(self).wf(),
        ensures
            final(self).wf(),
            final(self).blocks == old(self).blocks,
            final(self).pool.txs().len() >= old(self).pool.txs().len(),
            ({
                let dup = old(self).admission_duplicate(tx);
                let conflict = old(self).admission_conflict(tx);
                &&& (r == Ok::<(), LedgerError>(())) <==> (!dup && !conflict)
                &&& (r == Err::<(), LedgerError>(LedgerError::Duplicate)) <==> dup
                &&& (r == Err::<(), LedgerError>(LedgerError::DoubleSpend)) <==> (!dup && conflict)
                &&& r is Ok ==> final(self).pool.txs() == old(self).pool.txs().push(tx)
                &&& r is Err ==> final(self).pool.txs() == old(self).pool.txs()
            }),
    {
        proof {
            lemma_map_contains_has_id(self.confirmed(), tx.id);
        }
        if self.pool.contains_id(tx.id) || list_contains(&self.confirmed_ids, tx.id) {
            return Err(LedgerError::Duplicate);
        }
        if tx_spends_from(&tx, &self.spent_serials) || self.pool.conflicts_with(&tx) {
            return Err(LedgerError::DoubleSpend);
        }
        proof {
            assert forall|i: int| 0 <= i < self.pool.txs().push(tx).len()
                implies !has_id(self.confirmed(), (#[trigger] self.pool.txs().push(tx)[i]).id)
                    && !spends_from(self.pool.txs().push(tx)[i], self.spent()) by {
                if i < self.pool.txs().len() {
                    assert(self.pool.txs().push(tx)[i] == self.pool.txs()[i]);
                } else {
                    assert(self.pool.txs().push(tx)[i] == tx);
                }
            }
        }
        self.pool.insert(tx);
        Ok(())
    }

    /// Appends an already protocol-validated block to the chain, updating
    /// every derived index. The memory pool is untouched.
    pub fn add_block(&mut self, b: Block)
        requires
            old(self).wf(),
            old(self).extends(b),
        ensures
            final(self).wf(),
            final(self).chain() == old(self).chain().push(b),
            final(self).pool == old(self).pool,
    {
        let mut new_ids = collect_ids(&b.transactions);
        let mut new_serials = collect_serials(&b.transactions);
        let mut new_outputs = collect_outputs(&b.transactions);
        let cms = collect_commitments(&b.transactions);
        let root = compute_root(&cms, LOCAL_DEPTH);
        let ghost old_chain = self.blocks@;
        let ghost old_confirmed = txs_of_chain(self.blocks@);
        self.confirmed_ids.append(&mut new_ids);
        self.spent_serials.append(&mut new_serials);
        self.chain_outputs.append(&mut new_outputs);
        self.block_roots.push(root);
        self.blocks.push(b);
        proof {
            let bt = b.transactions@;
            lemma_txs_of_chain_push(old_chain, b);
            lemma_serials_add(old_confirmed, bt);
            lemma_outputs_add(old_confirmed, bt);
            assert(ids_of(old_confirmed + bt) =~= ids_of(old_confirmed) + ids_of(bt));
            assert(commitments_of_txs(old_confirmed + bt)
                =~= commitments_of_txs(old_confirmed) + commitments_of_txs(bt));
            assert(self.block_roots@ =~= roots_of_chain(old_chain.push(b)));
            assert forall|i: int| 0 <= i < self.blocks@.len()
                implies (#[trigger] self.blocks@[i]).height as int == i
                    && wf_block(self.blocks@[i]) by {
                if i < old_chain.len() {
                    assert(self.blocks@[i] == old_chain[i]);
                } else {
                    assert(self.blocks@[i] == b);
                }
            }
            assert forall|i: int| 1 <= i < self.blocks@.len()
                implies (#[trigger] self.blocks@[i]).previous_hash == self.blocks@[i - 1].hash by {
                if i < old_chain.len() {
                    assert(self.blocks@[i] == old_chain[i]);
                    assert(self.blocks@[i - 1] == old_chain[i - 1]);
                } else {
                    assert(self.blocks@[i] == b);
                    assert(self.blocks@[i - 1] == old_chain.last());
                }
            }
            assert forall|k: int| 0 <= k < ids_of(bt).len()
                implies !ids_of(old_confirmed).contains(#[trigger] ids_of(bt)[k]) by {
                lemma_map_contains_has_id(old_confirmed, ids_of(bt)[k]);
                assert(ids_of(bt)[k] == bt[k].id);
            }
            lemma_concat_no_dup(ids_of(old_confirmed), ids_of(bt));
            lemma_concat_no_dup(commitments_of_txs(old_confirmed), commitments_of_txs(bt));
            assert forall|i: int| 0 <= i < self.pool.txs().len()
                implies !has_id(txs_of_chain(self.blocks@), (#[trigger] self.pool.txs()[i]).id)
                    && !spends_from(self.pool.txs()[i], serials_of_txs(txs_of_chain(self.blocks@))) by {
                lemma_has_id_add(old_confirmed, bt, self.pool.txs()[i].id);
                if spends_from(self.pool.txs()[i], serials_of_txs(old_confirmed) + serials_of_txs(bt)) {
                    let k = choose|k: int| 0 <= k < self.pool.txs()[i].input_serials@.len()
                        && (serials_of_txs(old_confirmed) + serials_of_txs(bt))
                            .contains(self.pool.txs()[i].input_serials@[k]);
                    lemma_seq_contains_add(
                        serials_of_txs(old_confirmed),
                        serials_of_txs(bt),
                        self.pool.txs()[i].input_serials@[k],
                    );
                    assert(false);
                }
            }
        }
    }

    /// The confirmed transaction with the given id, if one exists; pool-only
    /// transactions are not visible here.
    pub fn get_transaction(&self, id: u64) -> (r: Result<&Transaction, LedgerError>)
        requires
            self.wf(),
        ensures
            has_id(self.confirmed(), id)
                ==> (r matches Ok(t) && t.id == id && self.confirmed().contains(*t)),
            !has_id(self.confirmed(), id)
                ==> r == Err::<&Transaction, LedgerError>(LedgerError::NotFound),
    {
        let mut i: usize = 0;
        while i < self.blocks.len()
            invariant
                self.wf(),
                0 <= i <= self.blocks@.len(),
                forall|bi: int, j: int|
                    0 <= bi < i && 0 <= j < self.blocks@[bi].transactions@.len()
                        ==> (#[trigger] self.blocks@[bi].transactions@[j]).id != id,
            decreases self.blocks@.len() - i,
        {
            let txs = &self.blocks[i].transactions;
            let mut j: usize = 0;
            while j < txs.len()
                invariant
                    self.wf(),
                    0 <= i < self.blocks@.len(),
                    txs@ == self.blocks@[i as int].transactions@,
                    0 <= j <= txs@.len(),
                    forall|bi: int, k: int|
                        0 <= bi < i && 0 <= k < self.blocks@[bi].transactions@.len()
                            ==> (#[trigger] self.blocks@[bi].transactions@[k]).id != id,
                    forall|k: int| 0 <= k < j ==> (#[trigger] txs@[k]).id != id,
                decreases txs@.len() - j,
            {
                if txs[j].id == id {
                    proof {
                        lemma_chain_tx_index(self.blocks@, i as int, j as int);
                        let t = self.blocks@[i as int].transactions@[j as int];
                        let k = choose|k: int|
                            0 <= k < self.confirmed().len() && self.confirmed()[k] == t;
                        assert(self.confirmed()[k].id == id);
                    }
                    return Ok(&txs[j]);
                }
                j = j + 1;
            }
            i = i + 1;
        }
        proof {
            if has_id(self.confirmed(), id) {
                lemma_chain_id_witness(self.blocks@, id);
                assert(false);
            }
        }
        Err(LedgerError::NotFound)
    }
}

/// The commitment `c` sits at leaf `li` of block `bi`, both the first of
/// their kind in scan order.
pub open spec fn located(bs: Seq<Block>, c: u64, bi: int, li: int) -> bool {
    &&& 0 <= bi < bs.len()
    &&& 0 <= li < block_commitments(bs[bi]).len()
    &&& block_commitments(bs[bi])[li] == c
    &&& forall|k: int| 0 <= k < bi ==> !block_commitments(#[trigger] bs[k]).contains(c)
    &&& forall|k: int| 0 <= k < li ==> block_commitments(bs[bi])[k] != c
}

/// Whether any confirmed block created the given commitment.
pub open spec fn chain_has_commitment(bs: Seq<Block>, c: u64) -> bool {
    exists|bi: int| 0 <= bi < bs.len() && block_commitments(#[trigger] bs[bi]).contains(c)
}

/// What a correct state path for `c` looks like against the chain: sibling
/// hashes from the commitment's leaf to its block's local root, then from
/// that block's position in the global tree to the global root, which the
/// path carries.
pub open spec fn state_path_ok(l: Ledger, c: u64, p: StatePath) -> bool {
    exists|bi: int, li: int|
        #![trigger located(l.chain(), c, bi, li)]
        {
            &&& located(l.chain(), c, bi, li)
            &&& p.siblings@ == path_spec(
                block_commitments(l.chain()[bi]), li as nat, 0, LOCAL_DEPTH as nat,
            ) + path_spec(roots_of_chain(l.chain()), bi as nat, 0, GLOBAL_DEPTH as nat)
            &&& p.root == merkle_root(roots_of_chain(l.chain()), GLOBAL_DEPTH as nat)
        }
}

/// Whether a record of the given spent-ness passes the filter.
pub open spec fn include_record(filter: RecordsFilter, is_spent: bool) -> bool {
    match filter {
        RecordsFilter::All => true,
        RecordsFilter::Spent => is_spent,
        RecordsFilter::Unspent => !is_spent,
    }
}

/// The records the holder of `vk` discovers scanning `outs` in order:
/// every output whose ciphertext the key decrypts, classified spent or
/// unspent by its serial number's presence in `spent`, kept if the filter
/// admits it, and paired with its commitment.
pub open spec fn discovered(
    vk: u64,
    outs: Seq<Output>,
    spent: Seq<u64>,
    filter: RecordsFilter,
) -> Seq<(u64, Record)>
    decreases outs.len(),
{
    if outs.len() == 0 {
        Seq::empty()
    } else {
        let rest = discovered(vk, outs.drop_last(), spent, filter);
        let o = outs.last();
        match decrypt_spec(vk, o.ciphertext) {
            Option::None => rest,
            Option::Some(rec) => {
                if include_record(filter, spent.contains(serial_of(vk, rec.nonce))) {
                    rest.push((o.commitment, rec))
                } else {
                    rest
                }
            },
        }
    }
}

impl Ledger {
    /// Builds the Merkle inclusion proof for a commitment against the
    /// current global state tree; `NotFound` if no confirmed block created
    /// it. A returned path always folds back to its root.
    pub fn to_state_path(&self, commitment: u64) -> (r: Result<StatePath, LedgerError>)
        requires
            self.wf(),
        ensures
            chain_has_commitment(self.chain(), commitment)
                ==> (r matches Ok(p) && state_path_ok(*self, commitment, p)
                    && path_fold(commitment, p.siblings@) == p.root),
            !chain_has_commitment(self.chain(), commitment)
                ==> r == Err::<StatePath, LedgerError>(LedgerError::NotFound),
    {
        let mut bi: usize = 0;
        while bi < self.blocks.len()
            invariant
                self.wf(),
                0 <= bi <= self.blocks@.len(),
                forall|k: int| 0 <= k < bi
                    ==> !block_commitments(#[trigger] self.blocks@[k]).contains(commitment),
            decreases self.blocks@.len() - bi,
        {
            let cms = collect_commitments(&self.blocks[bi].transactions);
            let mut li: usize = 0;
            while li < cms.len()
                invariant
                    self.wf(),
                    0 <= bi < self.blocks@.len(),
                    cms@ == block_commitments(self.blocks@[bi as int]),
                    0 <= li <= cms@.len(),
                    forall|k: int| 0 <= k < bi
                        ==> !block_commitments(#[trigger] self.blocks@[k]).contains(commitment),
                    forall|k: int| 0 <= k < li ==> cms@[k] != commitment,
                decreases cms@.len() - li,
            {
                if cms[li] == commitment {
                    let mut sibs = merkle_path(&cms, li, LOCAL_DEPTH);
                    proof {
                        assert(self.block_roots@.len() == self.blocks@.len());
                    }
                    let mut gsibs = merkle_path(&self.block_roots, bi, GLOBAL_DEPTH);
                    let ghost local_path = sibs@;
                    let ghost global_path = gsibs@;
                    sibs.append(&mut gsibs);
                    let root = compute_root(&self.block_roots, GLOBAL_DEPTH);
                    let p = StatePath { siblings: sibs, root };
                    proof {
                        vstd::arithmetic::power2::lemma2_to64();
                        assert(located(self.chain(), commitment, bi as int, li as int));
                        assert(block_commitments(self.chain()[bi as int]).contains(commitment));
                        crate::merkle::lemma_path_fold_add(commitment, local_path, global_path);
                        crate::merkle::lemma_path_fold_root(cms@, li as nat, LOCAL_DEPTH as nat);
                        assert(roots_of_chain(self.chain())[bi as int]
                            == merkle_root(block_commitments(self.chain()[bi as int]),
                                LOCAL_DEPTH as nat));
                        crate::merkle::lemma_path_fold_root(
                            self.block_roots@, bi as nat, GLOBAL_DEPTH as nat,
                        );
                    }
                    return Ok(p);
                }
                li = li + 1;
            }
            proof {
                if block_commitments(self.blocks@[bi as int]).contains(commitment) {
                    let k = choose|k: int| 0 <= k < cms@.len() && cms@[k] == commitment;
                    assert(false);
                }
            }
            bi = bi + 1;
        }
        Err(LedgerError::NotFound)
    }

    /// The root of the current global state tree: every state path this
    /// ledger hands out folds back to it.
    pub fn state_root(&self) -> (r: u64)
        requires
            self.wf(),
        ensures
            r == merkle_root(roots_of_chain(self.chain()), GLOBAL_DEPTH as nat),
    {
        compute_root(&self.block_roots, GLOBAL_DEPTH)
    }

    /// Every record the holder of `view_key` can decrypt out of confirmed
    /// state, classified and filtered, in scan order, each under its
    /// commitment. A pure read.
    pub fn find_records(&self, view_key: u64, filter: RecordsFilter) -> (r: Vec<(u64, Record)>)
        requires
            self.wf(),
        ensures
            r@ == discovered(view_key, self.outputs(), self.spent(), filter),
    {
        let mut r: Vec<(u64, Record)> = Vec::new();
        let mut i: usize = 0;
        while i < self.chain_outputs.len()
            invariant
                self.wf(),
                0 <= i <= self.chain_outputs@.len(),
                r@ == discovered(view_key, self.chain_outputs@.take(i as int),
                    self.spent_serials@, filter),
            decreases self.chain_outputs@.len() - i,
        {
            let o = self.chain_outputs[i];
            match try_decrypt(view_key, &o.ciphertext) {
                Option::None => {},
                Option::Some(rec) => {
                    let sn = derive_serial(view_key, rec.nonce);
                    let sp = list_contains(&self.spent_serials, sn);
                    let inc = match filter {
                        RecordsFilter::All => true,
                        RecordsFilter::Spent => sp,
                        RecordsFilter::Unspent => !sp,
                    };
                    if inc {
                        r.push((o.commitment, rec));
                    }
                },
            }
            proof {
                assert(self.chain_outputs@.take(i + 1).drop_last()
                    =~= self.chain_outputs@.take(i as int));
                assert(self.chain_outputs@.take(i + 1).last() == self.chain_outputs@[i as int]);
            }
            i = i + 1;
        }
        proof {
            assert(self.chain_outputs@.take(self.chain_outputs@.len() as int)
                =~= self.chain_outputs@);
        }
        r
    }
}

/// For a fixed chain state and commitment, any two state paths meeting the
/// state-path contract are identical: proof construction is deterministic.
pub proof fn lemma_state_path_deterministic(l: Ledger, c: u64, p1: StatePath, p2: StatePath)
    requires
        l.wf(),
        state_path_ok(l, c, p1),
        state_path_ok(l, c, p2),
    ensures
        p1.siblings@ == p2.siblings@,
        p1.root == p2.root,
{
    let (b1, l1) = choose|bi: int, li: int|
        #![trigger located(l.chain(), c, bi, li)]
        {
            &&& located(l.chain(), c, bi, li)
            &&& p1.siblings@ == path_spec(
                block_commitments(l.chain()[bi]), li as nat, 0, LOCAL_DEPTH as nat,
            ) + path_spec(roots_of_chain(l.chain()), bi as nat, 0, GLOBAL_DEPTH as nat)
            &&& p1.root == merkle_root(roots_of_chain(l.chain()), GLOBAL_DEPTH as nat)
        };
    let (b2, l2) = choose|bi: int, li: int|
        #![trigger located(l.chain(), c, bi, li)]
        {
            &&& located(l.chain(), c, bi, li)
            &&& p2.siblings@ == path_spec(
                block_commitments(l.chain()[bi]), li as nat, 0, LOCAL_DEPTH as nat,
            ) + path_spec(roots_of_chain(l.chain()), bi as nat, 0, GLOBAL_DEPTH as nat)
            &&& p2.root == merkle_root(roots_of_chain(l.chain()), GLOBAL_DEPTH as nat)
        };
    if b1 < b2 {
        assert(block_commitments(l.chain()[b1]).contains(c));
        assert(false);
    }
    if b2 < b1 {
        assert(block_commitments(l.chain()[b2]).contains(c));
        assert(false);
    }
    assert(l1 == l2);
}

/// Everything a discovery scan returns passes the filter it was asked for,
/// judged by the record's own serial number.
pub proof fn lemma_discovered_classified(
    vk: u64,
    outs: Seq<Output>,
    spent: Seq<u64>,
    filter: RecordsFilter,
    x: (u64, Record),
)
    requires
        discovered(vk, outs, spent, filter).contains(x),
    ensures
        include_record(filter, spent.contains(serial_of(vk, x.1.nonce))),
    decreases outs.len(),
{
    if outs.len() == 0 {
    } else {
        let rest = discovered(vk, outs.drop_last(), spent, filter);
        let full = discovered(vk, outs, spent, filter);
        if full == rest {
            lemma_discovered_classified(vk, outs.drop_last(), spent, filter, x);
        } else {
            let k = choose|k: int| 0 <= k < full.len() && full[k] == x;
            if k < rest.len() {
                assert(rest[k] == x);
                assert(rest.contains(x));
                lemma_discovered_classified(vk, outs.drop_last(), spent, filter, x);
            }
        }
    }
}

/// The discovery scan partitions: the records returned for `All` are, as a
/// multiset, exactly those returned for `Spent` together with those
/// returned for `Unspent`.
pub proof fn lemma_records_partition(vk: u64, outs: Seq<Output>, spent: Seq<u64>)
    ensures
        discovered(vk, outs, spent, RecordsFilter::All).to_multiset()
            == discovered(vk, outs, spent, RecordsFilter::Spent).to_multiset()
                .add(discovered(vk, outs, spent, RecordsFilter::Unspent).to_multiset()),
    decreases outs.len(),
{
    broadcast use vstd::seq_lib::group_to_multiset_ensures;

    let all = discovered(vk, outs, spent, RecordsFilter::All);
    let sp = discovered(vk, outs, spent, RecordsFilter::Spent);
    let un = discovered(vk, outs, spent, RecordsFilter::Unspent);
    if outs.len() == 0 {
        assert(all.to_multiset() =~= sp.to_multiset().add(un.to_multiset()));
    } else {
        lemma_records_partition(vk, outs.drop_last(), spent);
        let ra = discovered(vk, outs.drop_last(), spent, RecordsFilter::All);
        let rs = discovered(vk, outs.drop_last(), spent, RecordsFilter::Spent);
        let ru = discovered(vk, outs.drop_last(), spent, RecordsFilter::Unspent);
        let o = outs.last();
        match decrypt_spec(vk, o.ciphertext) {
            Option::None => {},
            Option::Some(rec) => {
                let x = (o.commitment, rec);
                if spent.contains(serial_of(vk, rec.nonce)) {
                    assert(all == ra.push(x));
                    assert(sp == rs.push(x));
                    assert(un == ru);
                    assert(rs.to_multiset().insert(x).add(ru.to_multiset())
                        =~= rs.to_multiset().add(ru.to_multiset()).insert(x));
                } else {
                    assert(all == ra.push(x));
                    assert(sp == rs);
                    assert(un == ru.push(x));
                    assert(rs.to_multiset().add(ru.to_multiset().insert(x))
                        =~= rs.to_multiset().add(ru.to_multiset()).insert(x));
                }
            },
        }
    }
}

/// Every discovered pair takes its commitment from some scanned output.
pub proof fn lemma_discovered_in_outputs(
    vk: u64,
    outs: Seq<Output>,
    spent: Seq<u64>,
    filter: RecordsFilter,
    x: (u64, Record),
)
    requires
        discovered(vk, outs, spent, filter).contains(x),
    ensures
        exists|k: int| 0 <= k < outs.len() && (#[trigger] outs[k]).commitment == x.0,
    decreases outs.len(),
{
    if outs.len() == 0 {
    } else {
        let rest = discovered(vk, outs.drop_last(), spent, filter);
        let full = discovered(vk, outs, spent, filter);
        let in_rest = if full == rest {
            true
        } else {
            let k = choose|k: int| 0 <= k < full.len() && full[k] == x;
            if k < rest.len() {
                assert(rest[k] == x);
                true
            } else {
                false
            }
        };
        if in_rest {
            assert(rest.contains(x));
            lemma_discovered_in_outputs(vk, outs.drop_last(), spent, filter, x);
            let k = choose|k: int|
                0 <= k < outs.drop_last().len() && outs.drop_last()[k].commitment == x.0;
            assert(outs[k].commitment == x.0);
        } else {
            assert(outs[outs.len() - 1].commitment == x.0);
        }
    }
}

/// A scan over outputs with pairwise distinct commitments returns a list
/// without duplicates.
pub proof fn lemma_discovered_no_duplicates(
    vk: u64,
    outs: Seq<Output>,
    spent: Seq<u64>,
    filter: RecordsFilter,
)
    requires
        outs.map_values(|o: Output| o.commitment).no_duplicates(),
    ensures
        discovered(vk, outs, spent, filter).no_duplicates(),
    decreases outs.len(),
{
    if outs.len() == 0 {
    } else {
        let m = outs.map_values(|o: Output| o.commitment);
        let m2 = outs.drop_last().map_values(|o: Output| o.commitment);
        assert(m2 =~= m.drop_last());
        assert forall|i: int, j: int| 0 <= i < j < m2.len() implies m2[i] != m2[j] by {
            assert(m[i] != m[j]);
        }
        assert(m2.no_duplicates());
        lemma_discovered_no_duplicates(vk, outs.drop_last(), spent, filter);
        let rest = discovered(vk, outs.drop_last(), spent, filter);
        let full = discovered(vk, outs, spent, filter);
        if full != rest {
            let o = outs.last();
            match decrypt_spec(vk, o.ciphertext) {
                Option::None => {},
                Option::Some(rec) => {
                    let x = (o.commitment, rec);
                    if rest.contains(x) {
                        lemma_discovered_in_outputs(vk, outs.drop_last(), spent, filter, x);
                        let k = choose|k: int|
                            0 <= k < outs.drop_last().len()
                                && outs.drop_last()[k].commitment == x.0;
                        assert(outs.map_values(|o2: Output| o2.commitment)[k]
                            == outs.map_values(|o2: Output| o2.commitment)[outs.len() - 1]);
                        assert(false);
                    }
                },
            }
        }
    }
}

/// A serial number stands in the ledger's spent set exactly when some
/// confirmed transaction names it as an input.
pub proof fn lemma_spent_means_confirmed_spender(l: Ledger, s: u64)
    requires
        l.wf(),
    ensures
        l.spent().contains(s) <==> crate::transaction::spends_serial(l.confirmed(), s),
{
    crate::transaction::lemma_serials_contains(l.confirmed(), s);
}

/// The spent/unspent partition of record discovery against a well-formed
/// ledger: for any view key, the `All` listing is exactly the `Spent` and
/// `Unspent` listings together, the two never share an entry, and none of
/// the three lists an entry twice.
pub proof fn lemma_find_records_partition(l: Ledger, vk: u64)
    requires
        l.wf(),
    ensures
        discovered(vk, l.outputs(), l.spent(), RecordsFilter::All).to_multiset()
            == discovered(vk, l.outputs(), l.spent(), RecordsFilter::Spent).to_multiset()
                .add(discovered(vk, l.outputs(), l.spent(), RecordsFilter::Unspent).to_multiset()),
        forall|x: (u64, Record)|
            !(discovered(vk, l.outputs(), l.spent(), RecordsFilter::Spent).contains(x)
                && discovered(vk, l.outputs(), l.spent(), RecordsFilter::Unspent).contains(x)),
        discovered(vk, l.outputs(), l.spent(), RecordsFilter::All).no_duplicates(),
        discovered(vk, l.outputs(), l.spent(), RecordsFilter::Spent).no_duplicates(),
        discovered(vk, l.outputs(), l.spent(), RecordsFilter::Unspent).no_duplicates(),
{
    lemma_records_partition(vk, l.outputs(), l.spent());
    assert forall|x: (u64, Record)|
        !(discovered(vk, l.outputs(), l.spent(), RecordsFilter::Spent).contains(x)
            && discovered(vk, l.outputs(), l.spent(), RecordsFilter::Unspent).contains(x)) by {
        lemma_records_disjoint(vk, l.outputs(), l.spent(), x);
    }
    lemma_discovered_no_duplicates(vk, l.outputs(), l.spent(), RecordsFilter::All);
    lemma_discovered_no_duplicates(vk, l.outputs(), l.spent(), RecordsFilter::Spent);
    lemma_discovered_no_duplicates(vk, l.outputs(), l.spent(), RecordsFilter::Unspent);
}

/// A record never shows up in both the spent and the unspent listing.
pub proof fn lemma_records_disjoint(
    vk: u64,
    outs: Seq<Output>,
    spent: Seq<u64>,
    x: (u64, Record),
)
    ensures
        !(discovered(vk, outs, spent, RecordsFilter::Spent).contains(x)
            && discovered(vk, outs, spent, RecordsFilter::Unspent).contains(x)),
{
    if discovered(vk, outs, spent, RecordsFilter::Spent).contains(x)
        && discovered(vk, outs, spent, RecordsFilter::Unspent).contains(x) {
        lemma_discovered_classified(vk, outs, spent, RecordsFilter::Spent, x);
        lemma_discovered_classified(vk, outs, spent, RecordsFilter::Unspent, x);
    }
}

/// Appending a block appends its transactions to the chain's flattening.
pub proof fn lemma_txs_of_chain_push(bs: Seq<Block>, b: Block)
    ensures
        txs_of_chain(bs.push(b)) == txs_of_chain(bs) + b.transactions@,
{
    assert(bs.push(b).drop_last() =~= bs);
    assert(bs.push(b).last() == b);
}

/// Every transaction of every block occurs in the chain's flattening.
pub proof fn lemma_chain_tx_index(bs: Seq<Block>, i: int, j: int)
    requires
        0 <= i < bs.len(),
        0 <= j < bs[i].transactions@.len(),
    ensures
        txs_of_chain(bs).contains(bs[i].transactions@[j]),
    decreases bs.len(),
{
    let pre = txs_of_chain(bs.drop_last());
    if i == bs.len() - 1 {
        assert(txs_of_chain(bs)[pre.len() + j] == bs[i].transactions@[j]);
    } else {
        lemma_chain_tx_index(bs.drop_last(), i, j);
        assert(bs.drop_last()[i] == bs[i]);
        let t = bs[i].transactions@[j];
        let k = choose|k: int| 0 <= k < pre.len() && pre[k] == t;
        assert(txs_of_chain(bs)[k] == t);
    }
}

/// An id confirmed somewhere in the chain has a block and position carrying it.
pub proof fn lemma_chain_id_witness(bs: Seq<Block>, id: u64)
    requires
        has_id(txs_of_chain(bs), id),
    ensures
        exists|i: int, j: int|
            0 <= i < bs.len() && 0 <= j < bs[i].transactions@.len()
                && bs[i].transactions@[j].id == id,
    decreases bs.len(),
{
    let k = choose|k: int| 0 <= k < txs_of_chain(bs).len() && txs_of_chain(bs)[k].id == id;
    if bs.len() == 0 {
        assert(false);
    } else {
        let pre = txs_of_chain(bs.drop_last());
        if k < pre.len() {
            assert(pre[k].id == id);
            assert(has_id(pre, id));
            lemma_chain_id_witness(bs.drop_last(), id);
            let (i, j) = choose|i: int, j: int|
                0 <= i < bs.drop_last().len() && 0 <= j < bs.drop_last()[i].transactions@.len()
                    && bs.drop_last()[i].transactions@[j].id == id;
            assert(bs[i] == bs.drop_last()[i]);
            assert(bs[i].transactions@[j].id == id);
        } else {
            assert(bs[bs.len() - 1].transactions@[k - pre.len()].id == id);
        }
    }
}

/// The chain is well linked: every block above genesis names the hash of
/// the block below it, and every height up to the latest is populated.
pub proof fn lemma_chain_well_linked(l: Ledger)
    requires
        l.wf(),
    ensures
        forall|h: int| 0 <= h <= l.height() ==> (#[trigger] l.chain()[h]).height as int == h,
        forall|h: int| 1 <= h <= l.height()
            ==> (#[trigger] l.chain()[h]).previous_hash == l.chain()[h - 1].hash,
{
}

/// The ids of the given transactions, in order.
pub fn collect_ids(txs: &Vec<Transaction>) -> (r: Vec<u64>)
    ensures
        r@ == ids_of(txs@),
{
    let mut r: Vec<u64> = Vec::new();
    let mut i: usize = 0;
    while i < txs.len()
        invariant
            0 <= i <= txs.len(),
            r@ == ids_of(txs@.take(i as int)),
        decreases txs.len() - i,
    {
        r.push(txs[i].id);
        assert(txs@.take(i + 1) =~= txs@.take(i as int).push(txs@[i as int]));
        assert(ids_of(txs@.take(i + 1)) =~= ids_of(txs@.take(i as int)).push(txs@[i as int].id));
        i = i + 1;
    }
    assert(txs@.take(txs@.len() as int) =~= txs@);
    r
}

/// Membership in the id projection coincides with carrying the id.
pub proof fn lemma_map_contains_has_id(txs: Seq<Transaction>, id: u64)
    ensures
        ids_of(txs).contains(id) <==> has_id(txs, id),
{
    if has_id(txs, id) {
        let i = choose|i: int| 0 <= i < txs.len() && txs[i].id == id;
        assert(ids_of(txs)[i] == id);
    }
    if ids_of(txs).contains(id) {
        let i = choose|i: int| 0 <= i < ids_of(txs).len() && ids_of(txs)[i] == id;
        assert(txs[i].id == id);
    }
}

} // verus!
