//! Blocks: hash-addressed containers of transactions with chain linkage.
//! A block's stored hash is the hex SHA-256 digest of the canonical text of
//! its other fields, in the fixed order: index, timestamp, previous hash,
//! nonce, transactions.

use vstd::prelude::*;
use vstd::string::*;
use crate::hashing::{hex_encode, sha256_digest, sha256_of, spec_hex, utf8_bytes, utf8_of};
use crate::text::{chars_to_string, push_dec, push_str_chars, spec_dec};
use crate::timefmt::{rfc3339_of, rfc3339_utc, MAX_TIMESTAMP};
use crate::transaction::{spec_tx_text, Transaction, TxView};

verus! {

pub struct Block {
    pub index: u32,
    pub timestamp: u64,
    pub transactions: Vec<Transaction>,
    pub previous_hash: String,
    pub hash: String,
    pub nonce: u64,
}

/// The mathematical value of a block.
#[verifier::ext_equal]
pub struct BlockView {
    pub index: u32,
    pub timestamp: u64,
    pub transactions: Seq<TxView>,
    pub previous_hash: Seq<char>,
    pub hash: Seq<char>,
    pub nonce: u64,
}

/// The values of a sequence of transactions.
pub open spec fn txs_view(s: Seq<Transaction>) -> Seq<TxView> {
    s.map_values(|t: Transaction| t@)
}

impl View for Block {
    type V = BlockView;

    open spec fn view(&self) -> BlockView {
        BlockView {
            index: self.index,
            timestamp: self.timestamp,
            transactions: txs_view(self.transactions@),
            previous_hash: self.previous_hash@,
            hash: self.hash@,
            nonce: self.nonce,
        }
    }
}

/// The concatenated canonical texts of a sequence of transactions.
pub open spec fn spec_txs_text(txs: Seq<TxView>) -> Seq<char>
    decreases txs.len(),
{
    if txs.len() == 0 {
        Seq::empty()
    } else {
        spec_txs_text(txs.drop_last()) + spec_tx_text(txs.last())
    }
}

/// The canonical text a block's hash is computed over.
pub open spec fn spec_block_text(
    index: u32,
    timestamp: u64,
    previous_hash: Seq<char>,
    nonce: u64,
    txs: Seq<TxView>,
) -> Seq<char> {
    spec_dec(index as nat) + rfc3339_of(timestamp) + previous_hash + spec_dec(nonce as nat)
        + spec_txs_text(txs)
}

/// The stored hash of a block: hex of the SHA-256 digest of the canonical
/// text of its other fields.
pub open spec fn spec_block_hash(
    index: u32,
    timestamp: u64,
    previous_hash: Seq<char>,
    nonce: u64,
    txs: Seq<TxView>,
) -> Seq<char> {
    spec_hex(sha256_of(utf8_of(spec_block_text(index, timestamp, previous_hash, nonce, txs))))
}

/// A well-formed block: the timestamp is in the supported range and the
/// stored hash is the digest of the other fields.
pub open spec fn spec_block_wf(b: BlockView) -> bool {
    &&& b.timestamp <= MAX_TIMESTAMP
    &&& b.hash == spec_block_hash(b.index, b.timestamp, b.previous_hash, b.nonce, b.transactions)
}

/// Appends the canonical texts of `txs`, in order, to `out`.
pub fn push_txs_text(out: &mut Vec<char>, txs: &Vec<Transaction>)
    ensures
        final(out)@ == old(out)@ + spec_txs_text(txs_view(txs@)),
{
    let n = txs.len();
    let mut i: usize = 0;
    while i < n
        invariant
            n == txs@.len(),
            i <= n,
            out@ == old(out)@ + spec_txs_text(txs_view(txs@).subrange(0, i as int)),
        decreases n - i,
    {
        txs[i].push_text(out);
        proof {
            let tv = txs_view(txs@);
            assert(tv.subrange(0, i + 1).drop_last() =~= tv.subrange(0, i as int));
            assert(tv.subrange(0, i + 1).last() == tv[i as int]);
            assert(old(out)@ + spec_txs_text(tv.subrange(0, i as int)) + spec_tx_text(tv[i as int])
                =~= old(out)@ + spec_txs_text(tv.subrange(0, i + 1)));
        }
        i = i + 1;
    }
    assert(txs_view(txs@).subrange(0, n as int) =~= txs_view(txs@));
}

/// Computes the stored hash of a block from its fields.
pub fn calculate_hash(
    index: u32,
    timestamp: u64,
    transactions: &Vec<Transaction>,
    previous_hash: &String,
    nonce: u64,
) -> (h: String)
    requires
        timestamp <= MAX_TIMESTAMP,
    ensures
        h@ == spec_block_hash(index, timestamp, previous_hash@, nonce, txs_view(transactions@)),
{
    let mut v: Vec<char> = Vec::new();
    push_dec(&mut v, index as u64);
    let ts = rfc3339_utc(timestamp);
    push_str_chars(&mut v, ts.as_str());
    push_str_chars(&mut v, previous_hash.as_str());
    push_dec(&mut v, nonce);
    push_txs_text(&mut v, transactions);
    assert(v@ =~= spec_block_text(
        index,
        timestamp,
        previous_hash@,
        nonce,
        txs_view(transactions@),
    ));
    let text = chars_to_string(&v);
    let bytes = utf8_bytes(text.as_str());
    let digest = sha256_digest(bytes.as_slice());
    hex_encode(digest.as_slice())
}

impl Block {
    /// Builds a block; the stored hash is computed from the other fields.
    pub fn new(
        index: u32,
        timestamp: u64,
        transactions: Vec<Transaction>,
        previous_hash: String,
        nonce: u64,
    ) -> (b: Block)
        requires
            timestamp <= MAX_TIMESTAMP,
        ensures
            b@.index == index,
            b@.timestamp == timestamp,
            b@.transactions == txs_view(transactions@),
            b@.previous_hash == previous_hash@,
            b@.nonce == nonce,
            spec_block_wf(b@),
    {
        let hash = calculate_hash(index, timestamp, &transactions, &previous_hash, nonce);
        Block { index, timestamp, transactions, previous_hash, hash, nonce }
    }

    /// The hash recomputed from the block's stored fields.
    pub fn recomputed_hash(&self) -> (h: String)
        requires
            self@.timestamp <= MAX_TIMESTAMP,
        ensures
            h@ == spec_block_hash(
                self@.index,
                self@.timestamp,
                self@.previous_hash,
                self@.nonce,
                self@.transactions,
            ),
    {
        calculate_hash(self.index, self.timestamp, &self.transactions, &self.previous_hash, self.nonce)
    }

    /// A copy equal to `self` in every field.
    pub fn duplicate(&self) -> (b: Block)
        ensures
            b@ == self@,
    {
        let mut txs: Vec<Transaction> = Vec::new();
        let n = self.transactions.len();
        let mut i: usize = 0;
        while i < n
            invariant
                n == self.transactions@.len(),
                i <= n,
                txs@.len() == i,
                txs_view(txs@) == txs_view(self.transactions@).subrange(0, i as int),
            decreases n - i,
        {
            txs.push(self.transactions[i].duplicate());
            assert(txs_view(txs@) =~= txs_view(self.transactions@).subrange(0, i + 1));
            i = i + 1;
        }
        assert(txs_view(self.transactions@).subrange(0, n as int) =~= txs_view(
            self.transactions@,
        ));
        let b = Block {
            index: self.index,
            timestamp: self.timestamp,
            transactions: txs,
            previous_hash: self.previous_hash.clone(),
            hash: self.hash.clone(),
            nonce: self.nonce,
        };
        assert(b@ =~= self@);
        b
    }
}

/// Recomputing a block's hash from its stored fields reproduces the stored
/// hash: for a well-formed block the stored hash is a deterministic function
/// of the other fields.
pub proof fn lemma_block_hash_deterministic(b: BlockView)
    requires
        spec_block_wf(b),
    ensures
        b.hash == spec_block_hash(b.index, b.timestamp, b.previous_hash, b.nonce, b.transactions),
{
}

} // verus!
