//! Fixed-width little-endian byte encoding for the ledger's entities.
//!
//! Every entity serializes to an ordered byte sequence and reads back
//! losslessly; malformed input is rejected with `DecodeError` before it
//! reaches any ledger state.

use vstd::prelude::*;
use crate::errors::LedgerError;
use crate::record::{Record, Ciphertext, Output};
use crate::transaction::Transaction;

verus! {

/// The eight little-endian bytes of a 64-bit word.
pub open spec fn u64_le_bytes(x: u64) -> Seq<u8> {
    seq![
        (x & 0xff) as u8,
        ((x >> 8) & 0xff) as u8,
        ((x >> 16) & 0xff) as u8,
        ((x >> 24) & 0xff) as u8,
        ((x >> 32) & 0xff) as u8,
        ((x >> 40) & 0xff) as u8,
        ((x >> 48) & 0xff) as u8,
        ((x >> 56) & 0xff) as u8,
    ]
}

/// The word read back from eight little-endian bytes.
pub open spec fn u64_from_le(s: Seq<u8>) -> u64
    recommends
        s.len() == 8,
{
    (s[0] as u64)
        | ((s[1] as u64) << 8)
        | ((s[2] as u64) << 16)
        | ((s[3] as u64) << 24)
        | ((s[4] as u64) << 32)
        | ((s[5] as u64) << 40)
        | ((s[6] as u64) << 48)
        | ((s[7] as u64) << 56)
}

/// A word survives the trip through its little-endian bytes.
pub proof fn lemma_u64_le_round_trip(x: u64)
    ensures
        u64_from_le(u64_le_bytes(x)) == x,
{
    assert(
        (((x & 0xff) as u8) as u64)
            | (((((x >> 8) & 0xff) as u8) as u64) << 8)
            | (((((x >> 16) & 0xff) as u8) as u64) << 16)
            | (((((x >> 24) & 0xff) as u8) as u64) << 24)
            | (((((x >> 32) & 0xff) as u8) as u64) << 32)
            | (((((x >> 40) & 0xff) as u8) as u64) << 40)
            | (((((x >> 48) & 0xff) as u8) as u64) << 48)
            | (((((x >> 56) & 0xff) as u8) as u64) << 56)
            == x
    ) by (bit_vector);
}

/// Appends the eight little-endian bytes of `x`.
pub fn write_u64_le(x: u64, out: &mut Vec<u8>)
    ensures
        final(out)@ == old(out)@ + u64_le_bytes(x),
{
    out.push((x & 0xff) as u8);
    out.push(((x >> 8) & 0xff) as u8);
    out.push(((x >> 16) & 0xff) as u8);
    out.push(((x >> 24) & 0xff) as u8);
    out.push(((x >> 32) & 0xff) as u8);
    out.push(((x >> 40) & 0xff) as u8);
    out.push(((x >> 48) & 0xff) as u8);
    out.push(((x >> 56) & 0xff) as u8);
    assert(out@ =~= old(out)@ + u64_le_bytes(x));
}

/// Reads the word at `offset`.
pub fn read_u64_le(bytes: &Vec<u8>, offset: usize) -> (r: u64)
    requires
        offset + 8 <= bytes@.len(),
    ensures
        r == u64_from_le(bytes@.subrange(offset as int, offset + 8)),
{
    let ghost s = bytes@.subrange(offset as int, offset + 8);
    let n: usize = bytes.len();
    assert(offset + 8 <= n);
    let r = (bytes[offset] as u64)
        | ((bytes[offset + 1] as u64) << 8)
        | ((bytes[offset + 2] as u64) << 16)
        | ((bytes[offset + 3] as u64) << 24)
        | ((bytes[offset + 4] as u64) << 32)
        | ((bytes[offset + 5] as u64) << 40)
        | ((bytes[offset + 6] as u64) << 48)
        | ((bytes[offset + 7] as u64) << 56);
    proof {
        assert(s[0] == bytes@[offset as int]);
        assert(s[1] == bytes@[offset + 1]);
        assert(s[2] == bytes@[offset + 2]);
        assert(s[3] == bytes@[offset + 3]);
        assert(s[4] == bytes@[offset + 4]);
        assert(s[5] == bytes@[offset + 5]);
        assert(s[6] == bytes@[offset + 6]);
        assert(s[7] == bytes@[offset + 7]);
    }
    r
}

/// The 24-byte encoding of a record: owner, data, nonce.
pub open spec fn record_bytes(r: Record) -> Seq<u8> {
    u64_le_bytes(r.owner) + u64_le_bytes(r.data) + u64_le_bytes(r.nonce)
}

/// The 24-byte encoding of a ciphertext: tag, nonce, masked data.
pub open spec fn ciphertext_bytes(c: Ciphertext) -> Seq<u8> {
    u64_le_bytes(c.tag) + u64_le_bytes(c.nonce) + u64_le_bytes(c.masked_data)
}

impl Record {
    /// Serializes the record, little-endian.
    pub fn write_le(&self) -> (r: Vec<u8>)
        ensures
            r@ == record_bytes(*self),
    {
        let mut out: Vec<u8> = Vec::new();
        write_u64_le(self.owner, &mut out);
        write_u64_le(self.data, &mut out);
        write_u64_le(self.nonce, &mut out);
        assert(out@ =~= record_bytes(*self));
        out
    }

    /// Reads a record back; exactly 24 bytes are accepted.
    pub fn read_le(bytes: &Vec<u8>) -> (r: Result<Record, LedgerError>)
        ensures
            bytes@.len() == 24 ==> r == Ok::<Record, LedgerError>(Record {
                owner: u64_from_le(bytes@.subrange(0, 8)),
                data: u64_from_le(bytes@.subrange(8, 16)),
                nonce: u64_from_le(bytes@.subrange(16, 24)),
            }),
            bytes@.len() != 24 ==> r == Err::<Record, LedgerError>(LedgerError::DecodeError),
    {
        if bytes.len() != 24 {
            return Err(LedgerError::DecodeError);
        }
        Ok(Record {
            owner: read_u64_le(bytes, 0),
            data: read_u64_le(bytes, 8),
            nonce: read_u64_le(bytes, 16),
        })
    }
}

impl Ciphertext {
    /// Serializes the ciphertext, little-endian.
    pub fn write_le(&self) -> (r: Vec<u8>)
        ensures
            r@ == ciphertext_bytes(*self),
    {
        let mut out: Vec<u8> = Vec::new();
        write_u64_le(self.tag, &mut out);
        write_u64_le(self.nonce, &mut out);
        write_u64_le(self.masked_data, &mut out);
        assert(out@ =~= ciphertext_bytes(*self));
        out
    }

    /// Reads a ciphertext back; exactly 24 bytes are accepted.
    pub fn read_le(bytes: &Vec<u8>) -> (r: Result<Ciphertext, LedgerError>)
        ensures
            bytes@.len() == 24 ==> r == Ok::<Ciphertext, LedgerError>(Ciphertext {
                tag: u64_from_le(bytes@.subrange(0, 8)),
                nonce: u64_from_le(bytes@.subrange(8, 16)),
                masked_data: u64_from_le(bytes@.subrange(16, 24)),
            }),
            bytes@.len() != 24 ==> r == Err::<Ciphertext, LedgerError>(LedgerError::DecodeError),
    {
        if bytes.len() != 24 {
            return Err(LedgerError::DecodeError);
        }
        Ok(Ciphertext {
            tag: read_u64_le(bytes, 0),
            nonce: read_u64_le(bytes, 8),
            masked_data: read_u64_le(bytes, 16),
        })
    }
}

/// Eight bytes survive the trip through the word they spell.
pub proof fn lemma_le_bytes_inverse(s: Seq<u8>)
    requires
        s.len() == 8,
    ensures
        u64_le_bytes(u64_from_le(s)) == s,
{
    let b0 = s[0];
    let b1 = s[1];
    let b2 = s[2];
    let b3 = s[3];
    let b4 = s[4];
    let b5 = s[5];
    let b6 = s[6];
    let b7 = s[7];
    let x = u64_from_le(s);
    assert(x == (b0 as u64) | ((b1 as u64) << 8) | ((b2 as u64) << 16) | ((b3 as u64) << 24)
        | ((b4 as u64) << 32) | ((b5 as u64) << 40) | ((b6 as u64) << 48) | ((b7 as u64) << 56));
    let y = (b0 as u64) | ((b1 as u64) << 8) | ((b2 as u64) << 16) | ((b3 as u64) << 24)
        | ((b4 as u64) << 32) | ((b5 as u64) << 40) | ((b6 as u64) << 48) | ((b7 as u64) << 56);
    assert((y & 0xff) as u8 == b0 && ((y >> 8) & 0xff) as u8 == b1
        && ((y >> 16) & 0xff) as u8 == b2 && ((y >> 24) & 0xff) as u8 == b3
        && ((y >> 32) & 0xff) as u8 == b4 && ((y >> 40) & 0xff) as u8 == b5
        && ((y >> 48) & 0xff) as u8 == b6 && ((y >> 56) & 0xff) as u8 == b7) by (bit_vector)
        requires y == (b0 as u64) | ((b1 as u64) << 8) | ((b2 as u64) << 16) | ((b3 as u64) << 24)
            | ((b4 as u64) << 32) | ((b5 as u64) << 40) | ((b6 as u64) << 48) | ((b7 as u64) << 56);
    assert(u64_le_bytes(x) =~= s);
}

/// The flattened little-endian bytes of a list of words.
pub open spec fn words_bytes(s: Seq<u64>) -> Seq<u8>
    decreases s.len(),
{
    if s.len() == 0 {
        Seq::empty()
    } else {
        words_bytes(s.drop_last()) + u64_le_bytes(s.last())
    }
}

/// The 32-byte encoding of one output: commitment, then ciphertext.
pub open spec fn output_bytes(o: Output) -> Seq<u8> {
    u64_le_bytes(o.commitment) + ciphertext_bytes(o.ciphertext)
}

/// The flattened encodings of a list of outputs.
pub open spec fn outputs_bytes(s: Seq<Output>) -> Seq<u8>
    decreases s.len(),
{
    if s.len() == 0 {
        Seq::empty()
    } else {
        outputs_bytes(s.drop_last()) + output_bytes(s.last())
    }
}

/// The encoding of a transaction: id, then the length-prefixed input
/// serial numbers, then the length-prefixed outputs.
pub open spec fn transaction_bytes(t: Transaction) -> Seq<u8> {
    u64_le_bytes(t.id)
        + u64_le_bytes(t.input_serials@.len() as u64)
        + words_bytes(t.input_serials@)
        + u64_le_bytes(t.outputs@.len() as u64)
        + outputs_bytes(t.outputs@)
}

/// Word lists flatten to eight bytes per word.
pub proof fn lemma_words_bytes_len(s: Seq<u64>)
    ensures
        words_bytes(s).len() == 8 * s.len(),
    decreases s.len(),
{
    if s.len() > 0 {
        lemma_words_bytes_len(s.drop_last());
    }
}

/// Output lists flatten to thirty-two bytes per output.
pub proof fn lemma_outputs_bytes_len(s: Seq<Output>)
    ensures
        outputs_bytes(s).len() == 32 * s.len(),
    decreases s.len(),
{
    if s.len() > 0 {
        lemma_outputs_bytes_len(s.drop_last());
    }
}

/// The pieces a transaction's encoding is made of, at their offsets.
pub proof fn lemma_transaction_bytes_shape(t: Transaction)
    ensures
        transaction_bytes(t).len() == 24 + 8 * t.input_serials@.len() + 32 * t.outputs@.len(),
        transaction_bytes(t).subrange(0, 8) == u64_le_bytes(t.id),
        transaction_bytes(t).subrange(8, 16) == u64_le_bytes(t.input_serials@.len() as u64),
        transaction_bytes(t).subrange(16, 16 + 8 * (t.input_serials@.len() as int))
            == words_bytes(t.input_serials@),
        transaction_bytes(t).subrange(
            16 + 8 * (t.input_serials@.len() as int),
            24 + 8 * (t.input_serials@.len() as int),
        ) == u64_le_bytes(t.outputs@.len() as u64),
        transaction_bytes(t).subrange(
            24 + 8 * (t.input_serials@.len() as int),
            transaction_bytes(t).len() as int,
        ) == outputs_bytes(t.outputs@),
{
    lemma_words_bytes_len(t.input_serials@);
    lemma_outputs_bytes_len(t.outputs@);
    let ser = words_bytes(t.input_serials@);
    let outs = outputs_bytes(t.outputs@);
    let whole = transaction_bytes(t);
    assert(whole.subrange(0, 8) =~= u64_le_bytes(t.id));
    assert(whole.subrange(8, 16) =~= u64_le_bytes(t.input_serials@.len() as u64));
    assert(whole.subrange(16, 16 + ser.len() as int) =~= ser);
    assert(whole.subrange(16 + ser.len() as int, 24 + ser.len() as int)
        =~= u64_le_bytes(t.outputs@.len() as u64));
    assert(whole.subrange(24 + ser.len() as int, whole.len() as int) =~= outs);
}

/// Equal flattenings of equally many words name equal words.
pub proof fn lemma_words_bytes_injective(a: Seq<u64>, b: Seq<u64>)
    requires
        a.len() == b.len(),
        words_bytes(a) == words_bytes(b),
    ensures
        a == b,
    decreases a.len(),
{
    if a.len() > 0 {
        lemma_words_bytes_len(a.drop_last());
        lemma_words_bytes_len(b.drop_last());
        let n = words_bytes(a.drop_last()).len() as int;
        assert(words_bytes(a.drop_last()) =~= words_bytes(a).subrange(0, n));
        assert(words_bytes(b.drop_last()) =~= words_bytes(b).subrange(0, n));
        lemma_words_bytes_injective(a.drop_last(), b.drop_last());
        assert(u64_le_bytes(a.last()) =~= words_bytes(a).subrange(n, n + 8));
        assert(u64_le_bytes(b.last()) =~= words_bytes(b).subrange(n, n + 8));
        lemma_u64_le_round_trip(a.last());
        lemma_u64_le_round_trip(b.last());
        assert(a.last() == b.last());
        assert(a =~= a.drop_last().push(a.last()));
        assert(b =~= b.drop_last().push(b.last()));
    } else {
        assert(a =~= b);
    }
}

/// Equal flattenings of equally many outputs name equal outputs.
pub proof fn lemma_outputs_bytes_injective(a: Seq<Output>, b: Seq<Output>)
    requires
        a.len() == b.len(),
        outputs_bytes(a) == outputs_bytes(b),
    ensures
        a == b,
    decreases a.len(),
{
    if a.len() > 0 {
        lemma_outputs_bytes_len(a.drop_last());
        lemma_outputs_bytes_len(b.drop_last());
        let n = outputs_bytes(a.drop_last()).len() as int;
        assert(outputs_bytes(a.drop_last()) =~= outputs_bytes(a).subrange(0, n));
        assert(outputs_bytes(b.drop_last()) =~= outputs_bytes(b).subrange(0, n));
        lemma_outputs_bytes_injective(a.drop_last(), b.drop_last());
        let oa = a.last();
        let ob = b.last();
        assert(output_bytes(oa) =~= outputs_bytes(a).subrange(n, n + 32));
        assert(output_bytes(ob) =~= outputs_bytes(b).subrange(n, n + 32));
        assert(u64_le_bytes(oa.commitment) =~= output_bytes(oa).subrange(0, 8));
        assert(u64_le_bytes(oa.ciphertext.tag) =~= output_bytes(oa).subrange(8, 16));
        assert(u64_le_bytes(oa.ciphertext.nonce) =~= output_bytes(oa).subrange(16, 24));
        assert(u64_le_bytes(oa.ciphertext.masked_data) =~= output_bytes(oa).subrange(24, 32));
        assert(u64_le_bytes(ob.commitment) =~= output_bytes(ob).subrange(0, 8));
        assert(u64_le_bytes(ob.ciphertext.tag) =~= output_bytes(ob).subrange(8, 16));
        assert(u64_le_bytes(ob.ciphertext.nonce) =~= output_bytes(ob).subrange(16, 24));
        assert(u64_le_bytes(ob.ciphertext.masked_data) =~= output_bytes(ob).subrange(24, 32));
        lemma_u64_le_round_trip(oa.commitment);
        lemma_u64_le_round_trip(oa.ciphertext.tag);
        lemma_u64_le_round_trip(oa.ciphertext.nonce);
        lemma_u64_le_round_trip(oa.ciphertext.masked_data);
        lemma_u64_le_round_trip(ob.commitment);
        lemma_u64_le_round_trip(ob.ciphertext.tag);
        lemma_u64_le_round_trip(ob.ciphertext.nonce);
        lemma_u64_le_round_trip(ob.ciphertext.masked_data);
        assert(oa == ob);
        assert(a =~= a.drop_last().push(a.last()));
        assert(b =~= b.drop_last().push(b.last()));
    } else {
        assert(a =~= b);
    }
}

/// Two transactions agreeing in everything their encodings can carry.
pub open spec fn tx_eqv(t1: Transaction, t2: Transaction) -> bool {
    &&& t1.id == t2.id
    &&& t1.input_serials@ == t2.input_serials@
    &&& t1.outputs@ == t2.outputs@
}

/// Within any byte budget a real buffer can hold, the encoding names its
/// transaction: equal encodings mean equal contents.
pub proof fn lemma_transaction_bytes_injective(t1: Transaction, t2: Transaction)
    requires
        transaction_bytes(t1) == transaction_bytes(t2),
        transaction_bytes(t1).len() < 0x1_0000_0000_0000_0000,
    ensures
        tx_eqv(t1, t2),
{
    lemma_transaction_bytes_shape(t1);
    lemma_transaction_bytes_shape(t2);
    let l1 = t1.input_serials@.len();
    let l2 = t2.input_serials@.len();
    lemma_u64_le_round_trip(l1 as u64);
    lemma_u64_le_round_trip(l2 as u64);
    assert(l1 as u64 == l2 as u64);
    assert(8 * l1 < 0x1_0000_0000_0000_0000);
    assert(8 * l2 < 0x1_0000_0000_0000_0000);
    assert(l1 == l2);
    lemma_u64_le_round_trip(t1.outputs@.len() as u64);
    lemma_u64_le_round_trip(t2.outputs@.len() as u64);
    assert(t1.outputs@.len() as u64 == t2.outputs@.len() as u64);
    assert(32 * t1.outputs@.len() < 0x1_0000_0000_0000_0000);
    assert(32 * t2.outputs@.len() < 0x1_0000_0000_0000_0000);
    assert(t1.outputs@.len() == t2.outputs@.len());
    lemma_u64_le_round_trip(t1.id);
    lemma_u64_le_round_trip(t2.id);
    assert(t1.id == t2.id);
    lemma_words_bytes_injective(t1.input_serials@, t2.input_serials@);
    lemma_outputs_bytes_injective(t1.outputs@, t2.outputs@);
}

/// What every transaction whose encoding a byte string equals must look
/// like: its lengths and length fields, pinned by the string itself.
proof fn lemma_match_fields(bytes: Seq<u8>, t: Transaction)
    requires
        bytes == transaction_bytes(t),
        bytes.len() < 0x1_0000_0000_0000_0000,
    ensures
        bytes.len() == 24 + 8 * t.input_serials@.len() + 32 * t.outputs@.len(),
        t.input_serials@.len() as u64 == u64_from_le(bytes.subrange(8, 16)),
        t.input_serials@.len() < 0x1_0000_0000_0000_0000,
        t.outputs@.len() < 0x1_0000_0000_0000_0000,
        t.outputs@.len() as u64 == u64_from_le(bytes.subrange(
            16 + 8 * (t.input_serials@.len() as int),
            24 + 8 * (t.input_serials@.len() as int),
        )),
{
    lemma_transaction_bytes_shape(t);
    lemma_u64_le_round_trip(t.input_serials@.len() as u64);
    lemma_u64_le_round_trip(t.outputs@.len() as u64);
}

impl Transaction {
    /// Serializes the transaction, little-endian throughout.
    pub fn write_le(&self) -> (r: Vec<u8>)
        ensures
            r@ == transaction_bytes(*self),
    {
        let mut out: Vec<u8> = Vec::new();
        write_u64_le(self.id, &mut out);
        write_u64_le(self.input_serials.len() as u64, &mut out);
        let ghost head = u64_le_bytes(self.id)
            + u64_le_bytes(self.input_serials@.len() as u64);
        proof {
            assert(out@ =~= head + words_bytes(self.input_serials@.take(0)));
        }
        let mut i: usize = 0;
        while i < self.input_serials.len()
            invariant
                0 <= i <= self.input_serials@.len(),
                head == u64_le_bytes(self.id)
                    + u64_le_bytes(self.input_serials@.len() as u64),
                out@ == head + words_bytes(self.input_serials@.take(i as int)),
            decreases self.input_serials@.len() - i,
        {
            write_u64_le(self.input_serials[i], &mut out);
            proof {
                let pre = self.input_serials@.take(i as int);
                let cur = self.input_serials@.take(i + 1);
                assert(cur.drop_last() =~= pre);
                assert(cur.last() == self.input_serials@[i as int]);
                assert(out@ =~= head + words_bytes(cur));
            }
            i = i + 1;
        }
        proof {
            assert(self.input_serials@.take(self.input_serials@.len() as int)
                =~= self.input_serials@);
        }
        write_u64_le(self.outputs.len() as u64, &mut out);
        let ghost head2 = head + words_bytes(self.input_serials@)
            + u64_le_bytes(self.outputs@.len() as u64);
        proof {
            assert(out@ =~= head2 + outputs_bytes(self.outputs@.take(0)));
        }
        let mut j: usize = 0;
        while j < self.outputs.len()
            invariant
                0 <= j <= self.outputs@.len(),
                head2 == u64_le_bytes(self.id)
                    + u64_le_bytes(self.input_serials@.len() as u64)
                    + words_bytes(self.input_serials@)
                    + u64_le_bytes(self.outputs@.len() as u64),
                out@ == head2 + outputs_bytes(self.outputs@.take(j as int)),
            decreases self.outputs@.len() - j,
        {
            let o = self.outputs[j];
            write_u64_le(o.commitment, &mut out);
            write_u64_le(o.ciphertext.tag, &mut out);
            write_u64_le(o.ciphertext.nonce, &mut out);
            write_u64_le(o.ciphertext.masked_data, &mut out);
            proof {
                let pre = self.outputs@.take(j as int);
                let cur = self.outputs@.take(j + 1);
                assert(cur.drop_last() =~= pre);
                assert(cur.last() == self.outputs@[j as int]);
                assert(out@ =~= head2 + outputs_bytes(cur));
            }
            j = j + 1;
        }
        proof {
            assert(self.outputs@.take(self.outputs@.len() as int) =~= self.outputs@);
            assert(out@ =~= transaction_bytes(*self));
        }
        out
    }

    /// Reads a transaction back. Exactly the canonical encodings are
    /// accepted: parsing succeeds precisely on `write_le`'s output for some
    /// transaction, and then returns that transaction's contents; anything
    /// else is `DecodeError`.
    pub fn read_le(bytes: &Vec<u8>) -> (r: Result<Transaction, LedgerError>)
        ensures
            (r matches Ok(t) ==> bytes@ == transaction_bytes(t)),
            forall|t: Transaction| bytes@ == #[trigger] transaction_bytes(t)
                ==> (r matches Ok(t2) && tx_eqv(t2, t)),
            r is Err ==> r == Err::<Transaction, LedgerError>(LedgerError::DecodeError),
    {
        let total: usize = bytes.len();
        if total < 16 {
            proof {
                assert forall|t: Transaction| bytes@ == #[trigger] transaction_bytes(t)
                    implies false by {
                    lemma_transaction_bytes_shape(t);
                }
            }
            return Err(LedgerError::DecodeError);
        }
        let id = read_u64_le(bytes, 0);
        let ns64 = read_u64_le(bytes, 8);
        if ns64 > ((total - 16) / 8) as u64 {
            proof {
                assert forall|t: Transaction| bytes@ == #[trigger] transaction_bytes(t)
                    implies false by {
                    lemma_match_fields(bytes@, t);
                    let l = t.input_serials@.len() as int;
                    assert(l == ns64 as int);
                    assert(8 * l <= total - 24);
                    assert(l <= (total - 16) / 8);
                }
            }
            return Err(LedgerError::DecodeError);
        }
        let ns = ns64 as usize;
        let serials_end: usize = 16 + 8 * ns;
        assert(serials_end <= total);
        if total - serials_end < 8 {
            proof {
                assert forall|t: Transaction| bytes@ == #[trigger] transaction_bytes(t)
                    implies false by {
                    lemma_match_fields(bytes@, t);
                    assert(t.input_serials@.len() as int == ns as int);
                }
            }
            return Err(LedgerError::DecodeError);
        }
        let no64 = read_u64_le(bytes, serials_end);
        let outs_start: usize = serials_end + 8;
        if no64 > ((total - outs_start) / 32) as u64 {
            proof {
                assert forall|t: Transaction| bytes@ == #[trigger] transaction_bytes(t)
                    implies false by {
                    lemma_match_fields(bytes@, t);
                    assert(t.input_serials@.len() as int == ns as int);
                    let o = t.outputs@.len() as int;
                    assert(o == no64 as int);
                    assert(32 * o <= total - outs_start);
                    assert(o <= (total - outs_start) / 32);
                }
            }
            return Err(LedgerError::DecodeError);
        }
        let no = no64 as usize;
        if total - outs_start != 32 * no {
            proof {
                assert forall|t: Transaction| bytes@ == #[trigger] transaction_bytes(t)
                    implies false by {
                    lemma_match_fields(bytes@, t);
                    assert(t.input_serials@.len() as int == ns as int);
                    assert(t.outputs@.len() as int == no as int);
                }
            }
            return Err(LedgerError::DecodeError);
        }
        let mut input_serials: Vec<u64> = Vec::new();
        proof {
            assert(words_bytes(input_serials@) =~= bytes@.subrange(16, 16));
        }
        let mut i: usize = 0;
        while i < ns
            invariant
                0 <= i <= ns,
                total == bytes@.len(),
                16 + 8 * ns <= total,
                input_serials@.len() == i,
                words_bytes(input_serials@) == bytes@.subrange(16, 16 + 8 * (i as int)),
            decreases ns - i,
        {
            let s = read_u64_le(bytes, 16 + 8 * i);
            let ghost pre = input_serials@;
            input_serials.push(s);
            proof {
                let seg = bytes@.subrange(16 + 8 * (i as int), 16 + 8 * (i as int) + 8);
                lemma_le_bytes_inverse(seg);
                assert(input_serials@.drop_last() =~= pre);
                assert(input_serials@.last() == s);
                assert(bytes@.subrange(16, 16 + 8 * (i + 1))
                    =~= bytes@.subrange(16, 16 + 8 * (i as int)) + seg);
                assert(words_bytes(input_serials@) =~= bytes@.subrange(16, 16 + 8 * (i + 1)));
            }
            i = i + 1;
        }
        let mut outputs: Vec<Output> = Vec::new();
        proof {
            assert(outputs_bytes(outputs@)
                =~= bytes@.subrange(outs_start as int, outs_start as int));
        }
        let mut j: usize = 0;
        while j < no
            invariant
                0 <= j <= no,
                total == bytes@.len(),
                outs_start + 32 * no == total,
                outputs@.len() == j,
                outputs_bytes(outputs@)
                    == bytes@.subrange(outs_start as int, outs_start + 32 * (j as int)),
            decreases no - j,
        {
            let base = outs_start + 32 * j;
            let c = read_u64_le(bytes, base);
            let tag = read_u64_le(bytes, base + 8);
            let nonce = read_u64_le(bytes, base + 16);
            let masked = read_u64_le(bytes, base + 24);
            let o = Output {
                commitment: c,
                ciphertext: Ciphertext { tag: tag, nonce: nonce, masked_data: masked },
            };
            let ghost pre = outputs@;
            outputs.push(o);
            proof {
                let b = base as int;
                lemma_le_bytes_inverse(bytes@.subrange(b, b + 8));
                lemma_le_bytes_inverse(bytes@.subrange(b + 8, b + 16));
                lemma_le_bytes_inverse(bytes@.subrange(b + 16, b + 24));
                lemma_le_bytes_inverse(bytes@.subrange(b + 24, b + 32));
                assert(output_bytes(o) =~= bytes@.subrange(b, b + 32));
                assert(outputs@.drop_last() =~= pre);
                assert(outputs@.last() == o);
                assert(bytes@.subrange(outs_start as int, b + 32)
                    =~= bytes@.subrange(outs_start as int, b) + bytes@.subrange(b, b + 32));
                assert(outputs_bytes(outputs@) =~= bytes@.subrange(outs_start as int, b + 32));
            }
            j = j + 1;
        }
        let t = Transaction { id: id, input_serials: input_serials, outputs: outputs };
        proof {
            lemma_le_bytes_inverse(bytes@.subrange(0, 8));
            lemma_le_bytes_inverse(bytes@.subrange(8, 16));
            lemma_le_bytes_inverse(bytes@.subrange(serials_end as int, outs_start as int));
            assert(u64_le_bytes(t.id) =~= bytes@.subrange(0, 8));
            assert(t.input_serials@.len() as u64 == ns64);
            assert(u64_le_bytes(t.input_serials@.len() as u64) =~= bytes@.subrange(8, 16));
            assert(t.outputs@.len() as u64 == no64);
            assert(u64_le_bytes(t.outputs@.len() as u64)
                =~= bytes@.subrange(serials_end as int, outs_start as int));
            assert(bytes@ =~= bytes@.subrange(0, 8) + bytes@.subrange(8, 16)
                + bytes@.subrange(16, serials_end as int)
                + bytes@.subrange(serials_end as int, outs_start as int)
                + bytes@.subrange(outs_start as int, total as int));
            assert(bytes@ =~= transaction_bytes(t));
            assert forall|t2: Transaction| bytes@ == #[trigger] transaction_bytes(t2)
                implies tx_eqv(t, t2) by {
                lemma_transaction_bytes_injective(t, t2);
            }
        }
        Ok(t)
    }
}

/// A record's encoding reads back to the record itself, byte for byte.
pub proof fn lemma_record_round_trip(r: Record)
    ensures
        record_bytes(r).len() == 24,
        u64_from_le(record_bytes(r).subrange(0, 8)) == r.owner,
        u64_from_le(record_bytes(r).subrange(8, 16)) == r.data,
        u64_from_le(record_bytes(r).subrange(16, 24)) == r.nonce,
{
    assert(record_bytes(r).subrange(0, 8) =~= u64_le_bytes(r.owner));
    assert(record_bytes(r).subrange(8, 16) =~= u64_le_bytes(r.data));
    assert(record_bytes(r).subrange(16, 24) =~= u64_le_bytes(r.nonce));
    lemma_u64_le_round_trip(r.owner);
    lemma_u64_le_round_trip(r.data);
    lemma_u64_le_round_trip(r.nonce);
}

/// A ciphertext's encoding reads back to the ciphertext itself.
pub proof fn lemma_ciphertext_round_trip(c: Ciphertext)
    ensures
        ciphertext_bytes(c).len() == 24,
        u64_from_le(ciphertext_bytes(c).subrange(0, 8)) == c.tag,
        u64_from_le(ciphertext_bytes(c).subrange(8, 16)) == c.nonce,
        u64_from_le(ciphertext_bytes(c).subrange(16, 24)) == c.masked_data,
{
    assert(ciphertext_bytes(c).subrange(0, 8) =~= u64_le_bytes(c.tag));
    assert(ciphertext_bytes(c).subrange(8, 16) =~= u64_le_bytes(c.nonce));
    assert(ciphertext_bytes(c).subrange(16, 24) =~= u64_le_bytes(c.masked_data));
    lemma_u64_le_round_trip(c.tag);
    lemma_u64_le_round_trip(c.nonce);
    lemma_u64_le_round_trip(c.masked_data);
}

} // verus!
