//! The ledger: an append-only block sequence, a mempool of pending
//! transactions, and a fixed difficulty. Mining drains the mempool into a
//! new sealed block; validity walks the chain checking linkage, stored-hash
//! integrity and the proof-of-work predicate on every non-genesis block.

use vstd::prelude::*;
use vstd::string::*;
use crate::block::{spec_block_wf, spec_txs_text, txs_view, Block, BlockView};
use crate::hashing::{utf8_bytes, utf8_of};
use crate::pow::{spec_pow_digest, spec_pow_ok, ProofOfWork};
use crate::text::{chars_to_string, push_dec, push_str_chars, spec_dec};
use crate::timefmt::{clamp_timestamp, now_timestamp, rfc3339_of, rfc3339_utc, MAX_TIMESTAMP};
use crate::transaction::{spec_tx_valid, Transaction, TxView};

verus! {

/// The difficulty a fresh chain is constructed with.
pub const DEFAULT_DIFFICULTY: u64 = 3;

pub struct Blockchain {
    pub blocks: Vec<Block>,
    pub unconfirmed_transactions: Vec<Transaction>,
    pub difficulty: u64,
}

/// The mathematical value of the ledger.
#[verifier::ext_equal]
pub struct ChainView {
    pub blocks: Seq<BlockView>,
    pub unconfirmed_transactions: Seq<TxView>,
    pub difficulty: u64,
}

/// The values of a sequence of blocks.
pub open spec fn blocks_view(s: Seq<Block>) -> Seq<BlockView> {
    s.map_values(|b: Block| b@)
}

impl View for Blockchain {
    type V = ChainView;

    open spec fn view(&self) -> ChainView {
        ChainView {
            blocks: blocks_view(self.blocks@),
            unconfirmed_transactions: txs_view(self.unconfirmed_transactions@),
            difficulty: self.difficulty,
        }
    }
}

/// The text a block's nonce search is run over: every field but the nonce,
/// in the fixed order index, timestamp, previous hash, transactions.
pub open spec fn spec_seal_text(
    index: u32,
    timestamp: u64,
    previous_hash: Seq<char>,
    txs: Seq<TxView>,
) -> Seq<char> {
    spec_dec(index as nat) + rfc3339_of(timestamp) + previous_hash + spec_txs_text(txs)
}

/// No nonce at all makes the search digest of `data` meet the difficulty.
pub open spec fn spec_pow_unsatisfiable(difficulty: u64, data: Seq<u8>) -> bool {
    forall|m: u64| !spec_pow_ok(difficulty, #[trigger] spec_pow_digest(data, m))
}

/// Whether a block passes the proof-of-work gate at the given difficulty:
/// its timestamp is in the supported range and the search digest of its
/// sealed fields and nonce meets the difficulty.
pub open spec fn spec_block_pow_ok(difficulty: u64, b: BlockView) -> bool {
    &&& b.timestamp <= MAX_TIMESTAMP
    &&& spec_pow_ok(
        difficulty,
        spec_pow_digest(
            utf8_of(spec_seal_text(b.index, b.timestamp, b.previous_hash, b.transactions)),
            b.nonce,
        ),
    )
}

/// Chain integrity: every non-genesis block links to its predecessor's
/// stored hash, stores the hash its own fields recompute to, and passes the
/// proof-of-work gate.
pub open spec fn spec_chain_valid(c: ChainView) -> bool {
    forall|i: int|
        1 <= i < c.blocks.len() ==> {
            &&& (#[trigger] c.blocks[i]).previous_hash == c.blocks[i - 1].hash
            &&& spec_block_wf(c.blocks[i])
            &&& spec_block_pow_ok(c.difficulty, c.blocks[i])
        }
}

/// The bytes the nonce search for a candidate block is run over.
pub fn seal_data(
    index: u32,
    timestamp: u64,
    txs: &Vec<Transaction>,
    previous_hash: &String,
) -> (r: Vec<u8>)
    requires
        timestamp <= MAX_TIMESTAMP,
    ensures
        r@ == utf8_of(spec_seal_text(index, timestamp, previous_hash@, txs_view(txs@))),
{
    let mut v: Vec<char> = Vec::new();
    push_dec(&mut v, index as u64);
    let ts = rfc3339_utc(timestamp);
    push_str_chars(&mut v, ts.as_str());
    push_str_chars(&mut v, previous_hash.as_str());
    crate::block::push_txs_text(&mut v, txs);
    assert(v@ =~= spec_seal_text(index, timestamp, previous_hash@, txs_view(txs@)));
    let text = chars_to_string(&v);
    utf8_bytes(text.as_str())
}

/// Copies of the given transactions, equal value by value.
fn duplicate_txs(txs: &Vec<Transaction>) -> (r: Vec<Transaction>)
    ensures
        txs_view(r@) == txs_view(txs@),
{
    let n = txs.len();
    let mut r: Vec<Transaction> = Vec::new();
    let mut i: usize = 0;
    while i < n
        invariant
            n == txs@.len(),
            i <= n,
            r@.len() == i,
            txs_view(r@) == txs_view(txs@).subrange(0, i as int),
        decreases n - i,
    {
        r.push(txs[i].duplicate());
        assert(txs_view(r@) =~= txs_view(txs@).subrange(0, i + 1));
        i = i + 1;
    }
    assert(txs_view(txs@).subrange(0, n as int) =~= txs_view(txs@));
    r
}

impl Blockchain {
    /// A fresh chain: one genesis block with index zero, no transactions,
    /// nonce zero and a fixed linkage placeholder; an empty mempool; the
    /// default difficulty. The fresh chain is valid.
    pub fn new() -> (c: Blockchain)
        ensures
            c@.blocks.len() == 1,
            c@.blocks[0].index == 0,
            c@.blocks[0].transactions.len() == 0,
            c@.blocks[0].nonce == 0,
            c@.blocks[0].previous_hash == "0"@,
            spec_block_wf(c@.blocks[0]),
            c@.unconfirmed_transactions.len() == 0,
            c@.difficulty == DEFAULT_DIFFICULTY,
            spec_chain_valid(c@),
    {
        let ts = clamp_timestamp(now_timestamp());
        let genesis = Block::new(0, ts, Vec::new(), "0".to_owned(), 0);
        let mut blocks: Vec<Block> = Vec::new();
        blocks.push(genesis);
        let c = Blockchain {
            blocks,
            unconfirmed_transactions: Vec::new(),
            difficulty: DEFAULT_DIFFICULTY,
        };
        assert(c@.blocks =~= seq![c.blocks@[0]@]);
        assert(c@.unconfirmed_transactions =~= Seq::<TxView>::empty());
        c
    }

    /// Appends the transaction to the mempool iff it is valid; reports
    /// whether it was accepted. A rejection changes nothing.
    pub fn add_transaction(&mut self, transaction: Transaction) -> (r: bool)
        ensures
            r == spec_tx_valid(transaction@),
            r ==> final(self)@.unconfirmed_transactions == old(
                self,
            )@.unconfirmed_transactions.push(transaction@),
            !r ==> final(self)@.unconfirmed_transactions == old(self)@.unconfirmed_transactions,
            final(self)@.blocks == old(self)@.blocks,
            final(self)@.difficulty == old(self)@.difficulty,
    {
        if transaction.is_valid() {
            self.unconfirmed_transactions.push(transaction);
            assert(txs_view(self.unconfirmed_transactions@) =~= txs_view(
                old(self).unconfirmed_transactions@,
            ).push(transaction@));
            true
        } else {
            false
        }
    }

    /// Mines a block: none if the mempool is empty (nothing changes), or if
    /// the block index space is exhausted, or if no nonce at all satisfies
    /// the difficulty for the candidate; otherwise the mempool is drained
    /// into a new sealed block appended to the chain, and a copy of that
    /// block is returned. A valid chain stays valid.
    pub fn mine_block(&mut self) -> (r: Option<Block>)
        requires
            old(self).blocks@.len() >= 1,
        ensures
            r is None ==> final(self)@ == old(self)@,
            old(self)@.unconfirmed_transactions.len() == 0 ==> r is None,
            r is None ==> old(self)@.unconfirmed_transactions.len() == 0 || old(
                self,
            )@.blocks.last().index == u32::MAX || (exists|ts: u64|
                ts <= MAX_TIMESTAMP && #[trigger] spec_pow_unsatisfiable(
                    old(self)@.difficulty,
                    utf8_of(
                        spec_seal_text(
                            (old(self)@.blocks.last().index + 1) as u32,
                            ts,
                            old(self)@.blocks.last().hash,
                            old(self)@.unconfirmed_transactions,
                        ),
                    ),
                )),
            r matches Some(b) ==> {
                &&& old(self)@.unconfirmed_transactions.len() > 0
                &&& final(self)@.unconfirmed_transactions.len() == 0
                &&& final(self)@.blocks == old(self)@.blocks.push(b@)
                &&& final(self)@.difficulty == old(self)@.difficulty
                &&& b@.index == old(self)@.blocks.last().index + 1
                &&& b@.previous_hash == old(self)@.blocks.last().hash
                &&& b@.transactions == old(self)@.unconfirmed_transactions
                &&& spec_block_wf(b@)
                &&& spec_block_pow_ok(old(self)@.difficulty, b@)
                &&& (spec_chain_valid(old(self)@) ==> spec_chain_valid(final(self)@))
            },
    {
        if self.unconfirmed_transactions.len() == 0 {
            return None;
        }
        let last = self.blocks.len() - 1;
        if self.blocks[last].index == u32::MAX {
            return None;
        }
        let index = self.blocks[last].index + 1;
        let timestamp = clamp_timestamp(now_timestamp());
        let txs = duplicate_txs(&self.unconfirmed_transactions);
        let previous_hash = self.blocks[last].hash.clone();
        let data = seal_data(index, timestamp, &txs, &previous_hash);
        let pow = ProofOfWork::new(self.difficulty);
        let nonce = match pow.run(data.as_slice()) {
            Some(nonce) => nonce,
            None => {
                proof {
                    assert(self@.blocks.last() == self.blocks@[self.blocks@.len() - 1]@);
                    assert(txs_view(txs@) == old(self)@.unconfirmed_transactions);
                    assert(previous_hash@ == old(self)@.blocks.last().hash);
                    assert(index == (old(self)@.blocks.last().index + 1) as u32);
                    assert(timestamp <= MAX_TIMESTAMP && spec_pow_unsatisfiable(
                        old(self)@.difficulty,
                        utf8_of(
                            spec_seal_text(
                                (old(self)@.blocks.last().index + 1) as u32,
                                timestamp,
                                old(self)@.blocks.last().hash,
                                old(self)@.unconfirmed_transactions,
                            ),
                        ),
                    ));
                }
                return None;
            },
        };
        let block = Block::new(index, timestamp, txs, previous_hash, nonce);
        let out = block.duplicate();
        self.blocks.push(block);
        self.unconfirmed_transactions.clear();
        proof {
            let oldc = old(self)@;
            let newc = self@;
            assert(newc.blocks =~= oldc.blocks.push(out@));
            assert(newc.unconfirmed_transactions =~= Seq::<TxView>::empty());
            assert(spec_block_pow_ok(oldc.difficulty, out@));
            if spec_chain_valid(oldc) {
                assert forall|i: int| 1 <= i < newc.blocks.len() implies {
                    &&& (#[trigger] newc.blocks[i]).previous_hash == newc.blocks[i - 1].hash
                    &&& spec_block_pow_ok(newc.difficulty, newc.blocks[i])
                } by {
                    if i < newc.blocks.len() - 1 {
                        assert(oldc.blocks[i].previous_hash == oldc.blocks[i - 1].hash);
                        assert(spec_block_pow_ok(oldc.difficulty, oldc.blocks[i]));
                    } else {
                        assert(newc.blocks[i] == out@);
                        assert(newc.blocks[i - 1] == oldc.blocks.last());
                    }
                }
            }
        }
        Some(out)
    }

    /// Walks the chain and reports integrity: linkage, stored-hash
    /// well-formedness and proof of work for every non-genesis block, false
    /// at the first violation.
    pub fn is_valid(&self) -> (r: bool)
        ensures
            r == spec_chain_valid(self@),
    {
        let pow = ProofOfWork::new(self.difficulty);
        let n = self.blocks.len();
        let mut i: usize = 1;
        while i < n
            invariant
                n == self.blocks@.len(),
                1 <= i,
                pow.difficulty == self.difficulty,
                forall|j: int|
                    1 <= j < i ==> {
                        &&& (#[trigger] self@.blocks[j]).previous_hash == self@.blocks[j - 1].hash
                        &&& spec_block_wf(self@.blocks[j])
                        &&& spec_block_pow_ok(self@.difficulty, self@.blocks[j])
                    },
            decreases n - i,
        {
            let b = &self.blocks[i];
            proof {
                assert(self@.blocks[i as int] == self.blocks@[i as int]@);
                assert(self@.blocks[i as int - 1] == self.blocks@[i as int - 1]@);
            }
            let linked = b.previous_hash == self.blocks[i - 1].hash;
            if !linked {
                assert(!spec_chain_valid(self@)) by {
                    assert(self@.blocks[i as int].previous_hash != self@.blocks[i as int
                        - 1].hash);
                }
                return false;
            }
            if b.timestamp > MAX_TIMESTAMP {
                assert(!spec_chain_valid(self@)) by {
                    assert(!spec_block_wf(self@.blocks[i as int]));
                }
                return false;
            }
            let recomputed = b.recomputed_hash();
            if !(recomputed == b.hash) {
                assert(!spec_chain_valid(self@)) by {
                    assert(!spec_block_wf(self@.blocks[i as int]));
                }
                return false;
            }
            let data = seal_data(b.index, b.timestamp, &b.transactions, &b.previous_hash);
            if !pow.validate(data.as_slice(), b.nonce) {
                assert(!spec_chain_valid(self@)) by {
                    assert(!spec_block_pow_ok(self@.difficulty, self@.blocks[i as int]));
                }
                return false;
            }
            i = i + 1;
        }
        true
    }

    /// The block at the given position, or none when out of range.
    pub fn get_block(&self, index: usize) -> (r: Option<&Block>)
        ensures
            index < self@.blocks.len() ==> (r matches Some(b) && b@ == self@.blocks[index as int]),
            index >= self@.blocks.len() ==> r is None,
    {
        if index < self.blocks.len() {
            Some(&self.blocks[index])
        } else {
            None
        }
    }

    /// A snapshot of the pending transactions, in arrival order.
    pub fn get_transactions(&self) -> (r: Vec<Transaction>)
        ensures
            txs_view(r@) == self@.unconfirmed_transactions,
    {
        duplicate_txs(&self.unconfirmed_transactions)
    }
}

impl Default for Blockchain {
    /// The same chain `Blockchain::new` builds.
    fn default() -> (c: Self)
        ensures
            c@.blocks.len() == 1,
            c@.blocks[0].index == 0,
            c@.blocks[0].transactions.len() == 0,
            c@.blocks[0].nonce == 0,
            c@.blocks[0].previous_hash == "0"@,
            spec_block_wf(c@.blocks[0]),
            c@.unconfirmed_transactions.len() == 0,
            c@.difficulty == DEFAULT_DIFFICULTY,
            spec_chain_valid(c@),
    {
        Self::new()
    }
}

} // verus!
