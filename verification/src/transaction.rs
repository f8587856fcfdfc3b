//! Transactions: signed state transitions consuming and producing records.
//!
//! A transaction names the records it spends by their serial numbers and the
//! records it creates as commitment/ciphertext outputs. Its id is fixed by
//! the protocol as a deterministic function of its contents; the ledger core
//! treats the id as given and only enforces uniqueness.

use vstd::prelude::*;
use crate::record::Output;

verus! {

/// A state transition: inputs are spent serial numbers, outputs are the
/// freshly created records.
#[derive(Clone, Debug, PartialEq, Eq)]
pub struct Transaction {
    pub id: u64,
    pub input_serials: Vec<u64>,
    pub outputs: Vec<Output>,
}

/// The ids of a sequence of transactions, in order.
pub open spec fn ids_of(txs: Seq<Transaction>) -> Seq<u64> {
    txs.map_values(|t: Transaction| t.id)
}

/// All input serial numbers of a sequence of transactions, flattened in order.
pub open spec fn serials_of_txs(txs: Seq<Transaction>) -> Seq<u64>
    decreases txs.len(),
{
    if txs.len() == 0 {
        Seq::empty()
    } else {
        serials_of_txs(txs.drop_last()) + txs.last().input_serials@
    }
}

/// All outputs of a sequence of transactions, flattened in order.
pub open spec fn outputs_of_txs(txs: Seq<Transaction>) -> Seq<Output>
    decreases txs.len(),
{
    if txs.len() == 0 {
        Seq::empty()
    } else {
        outputs_of_txs(txs.drop_last()) + txs.last().outputs@
    }
}

/// The commitments created by a sequence of transactions, flattened in order.
pub open spec fn commitments_of_txs(txs: Seq<Transaction>) -> Seq<u64> {
    outputs_of_txs(txs).map_values(|o: Output| o.commitment)
}

/// Whether any transaction of the sequence carries the given id.
pub open spec fn has_id(txs: Seq<Transaction>, id: u64) -> bool {
    exists|i: int| 0 <= i < txs.len() && txs[i].id == id
}

/// Whether any transaction of the sequence spends the given serial number.
pub open spec fn spends_serial(txs: Seq<Transaction>, s: u64) -> bool {
    exists|i: int| 0 <= i < txs.len() && txs[i].input_serials@.contains(s)
}

/// Whether transactions `a` and `b` share an input serial number.
pub open spec fn shares_serial(a: Transaction, b: Transaction) -> bool {
    exists|k: int| 0 <= k < a.input_serials@.len() && b.input_serials@.contains(a.input_serials@[k])
}

/// Whether any input serial number of `t` occurs in the list `l`.
pub open spec fn spends_from(t: Transaction, l: Seq<u64>) -> bool {
    exists|k: int| 0 <= k < t.input_serials@.len() && l.contains(t.input_serials@[k])
}

/// Linear search for a serial number (or any word) in a list.
pub fn list_contains(l: &Vec<u64>, x: u64) -> (r: bool)
    ensures
        r == l@.contains(x),
{
    let mut i: usize = 0;
    while i < l.len()
        invariant
            0 <= i <= l.len(),
            forall|k: int| 0 <= k < i ==> l@[k] != x,
        decreases l.len() - i,
    {
        if l[i] == x {
            return true;
        }
        i = i + 1;
    }
    false
}

/// Whether any input serial number of `t` occurs in the list `l`.
pub fn tx_spends_from(t: &Transaction, l: &Vec<u64>) -> (r: bool)
    ensures
        r == spends_from(*t, l@),
{
    let mut i: usize = 0;
    while i < t.input_serials.len()
        invariant
            0 <= i <= t.input_serials.len(),
            forall|k: int| 0 <= k < i ==> !l@.contains(t.input_serials@[k]),
        decreases t.input_serials.len() - i,
    {
        if list_contains(l, t.input_serials[i]) {
            return true;
        }
        i = i + 1;
    }
    false
}

/// Whether transactions `a` and `b` share an input serial number.
pub fn tx_shares_serial(a: &Transaction, b: &Transaction) -> (r: bool)
    ensures
        r == shares_serial(*a, *b),
{
    let mut i: usize = 0;
    while i < a.input_serials.len()
        invariant
            0 <= i <= a.input_serials.len(),
            forall|k: int| 0 <= k < i ==> !b.input_serials@.contains(a.input_serials@[k]),
        decreases a.input_serials.len() - i,
    {
        if list_contains(&b.input_serials, a.input_serials[i]) {
            return true;
        }
        i = i + 1;
    }
    false
}

/// Appending one transaction extends the flattened serial numbers by its own.
pub proof fn lemma_serials_push(txs: Seq<Transaction>, t: Transaction)
    ensures
        serials_of_txs(txs.push(t)) == serials_of_txs(txs) + t.input_serials@,
{
    assert(txs.push(t).drop_last() =~= txs);
    assert(txs.push(t).last() == t);
}

/// Appending one transaction extends the flattened outputs by its own.
pub proof fn lemma_outputs_push(txs: Seq<Transaction>, t: Transaction)
    ensures
        outputs_of_txs(txs.push(t)) == outputs_of_txs(txs) + t.outputs@,
{
    assert(txs.push(t).drop_last() =~= txs);
    assert(txs.push(t).last() == t);
}

/// Flattened serial numbers distribute over concatenation.
pub proof fn lemma_serials_add(a: Seq<Transaction>, b: Seq<Transaction>)
    ensures
        serials_of_txs(a + b) == serials_of_txs(a) + serials_of_txs(b),
    decreases b.len(),
{
    if b.len() == 0 {
        assert(a + b =~= a);
        assert(serials_of_txs(a) + serials_of_txs(b) =~= serials_of_txs(a));
    } else {
        lemma_serials_add(a, b.drop_last());
        assert((a + b).drop_last() =~= a + b.drop_last());
        assert((a + b).last() == b.last());
        assert(
            (serials_of_txs(a) + serials_of_txs(b.drop_last())) + b.last().input_serials@
                =~= serials_of_txs(a) + (serials_of_txs(b.drop_last()) + b.last().input_serials@)
        );
    }
}

/// Flattened outputs distribute over concatenation.
pub proof fn lemma_outputs_add(a: Seq<Transaction>, b: Seq<Transaction>)
    ensures
        outputs_of_txs(a + b) == outputs_of_txs(a) + outputs_of_txs(b),
    decreases b.len(),
{
    if b.len() == 0 {
        assert(a + b =~= a);
        assert(outputs_of_txs(a) + outputs_of_txs(b) =~= outputs_of_txs(a));
    } else {
        lemma_outputs_add(a, b.drop_last());
        assert((a + b).drop_last() =~= a + b.drop_last());
        assert((a + b).last() == b.last());
        assert(
            (outputs_of_txs(a) + outputs_of_txs(b.drop_last())) + b.last().outputs@
                =~= outputs_of_txs(a) + (outputs_of_txs(b.drop_last()) + b.last().outputs@)
        );
    }
}

/// Membership in a concatenation splits over its parts.
pub proof fn lemma_seq_contains_add<A>(a: Seq<A>, b: Seq<A>, x: A)
    ensures
        (a + b).contains(x) <==> (a.contains(x) || b.contains(x)),
{
    if a.contains(x) {
        let i = choose|i: int| 0 <= i < a.len() && a[i] == x;
        assert((a + b)[i] == x);
    }
    if b.contains(x) {
        let i = choose|i: int| 0 <= i < b.len() && b[i] == x;
        assert((a + b)[a.len() + i] == x);
    }
    if (a + b).contains(x) {
        let i = choose|i: int| 0 <= i < (a + b).len() && (a + b)[i] == x;
        if i < a.len() {
            assert(a[i] == x);
        } else {
            assert(b[i - a.len()] == x);
        }
    }
}

/// Two duplicate-free sequences with no element in common concatenate to a
/// duplicate-free sequence.
pub proof fn lemma_concat_no_dup(a: Seq<u64>, b: Seq<u64>)
    requires
        a.no_duplicates(),
        b.no_duplicates(),
        forall|k: int| 0 <= k < b.len() ==> !a.contains(#[trigger] b[k]),
    ensures
        (a + b).no_duplicates(),
{
    assert forall|i: int, j: int| 0 <= i < j < (a + b).len()
        implies (a + b)[i] != (a + b)[j] by {
        if i < a.len() && j >= a.len() {
            assert(a[i] == (a + b)[i]);
            if (a + b)[i] == (a + b)[j] {
                assert(a.contains(b[j - a.len()]));
            }
        }
    }
}

/// An id occurs in a concatenation exactly when it occurs in one part.
pub proof fn lemma_has_id_add(a: Seq<Transaction>, b: Seq<Transaction>, id: u64)
    ensures
        has_id(a + b, id) <==> (has_id(a, id) || has_id(b, id)),
{
    if has_id(a, id) {
        let i = choose|i: int| 0 <= i < a.len() && a[i].id == id;
        assert((a + b)[i].id == id);
    }
    if has_id(b, id) {
        let i = choose|i: int| 0 <= i < b.len() && b[i].id == id;
        assert((a + b)[a.len() + i].id == id);
    }
    if has_id(a + b, id) {
        let i = choose|i: int| 0 <= i < (a + b).len() && (a + b)[i].id == id;
        if i < a.len() {
            assert(a[i].id == id);
        } else {
            assert(b[i - a.len()].id == id);
        }
    }
}

/// A serial number occurs in the flattening exactly when some transaction
/// of the sequence spends it.
pub proof fn lemma_serials_contains(txs: Seq<Transaction>, s: u64)
    ensures
        serials_of_txs(txs).contains(s) <==> spends_serial(txs, s),
    decreases txs.len(),
{
    if txs.len() == 0 {
    } else {
        lemma_serials_contains(txs.drop_last(), s);
        if spends_serial(txs, s) {
            let i = choose|i: int| 0 <= i < txs.len() && txs[i].input_serials@.contains(s);
            if i < txs.len() - 1 {
                assert(txs.drop_last()[i] == txs[i]);
                assert(spends_serial(txs.drop_last(), s));
                let j = choose|j: int| 0 <= j < serials_of_txs(txs.drop_last()).len()
                    && serials_of_txs(txs.drop_last())[j] == s;
                assert(serials_of_txs(txs)[j] == s);
            } else {
                let j = choose|j: int| 0 <= j < txs[i].input_serials@.len()
                    && txs[i].input_serials@[j] == s;
                assert(serials_of_txs(txs)[serials_of_txs(txs.drop_last()).len() + j] == s);
            }
        }
        if serials_of_txs(txs).contains(s) {
            let j = choose|j: int| 0 <= j < serials_of_txs(txs).len() && serials_of_txs(txs)[j] == s;
            if j < serials_of_txs(txs.drop_last()).len() {
                assert(serials_of_txs(txs.drop_last())[j] == s);
                let i = choose|i: int| 0 <= i < txs.drop_last().len()
                    && txs.drop_last()[i].input_serials@.contains(s);
                assert(txs[i] == txs.drop_last()[i]);
                assert(spends_serial(txs, s));
            } else {
                assert(txs.last().input_serials@[j - serials_of_txs(txs.drop_last()).len()] == s);
                assert(txs[txs.len() - 1].input_serials@.contains(s));
            }
        }
    }
}

} // verus!
