//! Balance queries: an address's balance is the sum of credits minus the
//! sum of debits across all confirmed transactions, computed by replay over
//! the chain.

use vstd::prelude::*;
use vstd::string::*;
use crate::block::BlockView;
use crate::blockchain::{Blockchain, ChainView};
use crate::transaction::TxView;

verus! {

/// What a single transaction credits to the address.
pub open spec fn spec_tx_credit(t: TxView, a: Seq<char>) -> int {
    if t.to_address == a {
        t.amount as int
    } else {
        0
    }
}

/// What a single transaction debits from the address.
pub open spec fn spec_tx_debit(t: TxView, a: Seq<char>) -> int {
    if t.from_address == a {
        t.amount as int
    } else {
        0
    }
}

/// Total credits to the address over a transaction sequence.
pub open spec fn spec_credits(txs: Seq<TxView>, a: Seq<char>) -> int
    decreases txs.len(),
{
    if txs.len() == 0 {
        0
    } else {
        spec_credits(txs.drop_last(), a) + spec_tx_credit(txs.last(), a)
    }
}

/// Total debits from the address over a transaction sequence.
pub open spec fn spec_debits(txs: Seq<TxView>, a: Seq<char>) -> int
    decreases txs.len(),
{
    if txs.len() == 0 {
        0
    } else {
        spec_debits(txs.drop_last(), a) + spec_tx_debit(txs.last(), a)
    }
}

/// Total credits to the address over all blocks.
pub open spec fn spec_chain_credits(blocks: Seq<BlockView>, a: Seq<char>) -> int
    decreases blocks.len(),
{
    if blocks.len() == 0 {
        0
    } else {
        spec_chain_credits(blocks.drop_last(), a) + spec_credits(blocks.last().transactions, a)
    }
}

/// Total debits from the address over all blocks.
pub open spec fn spec_chain_debits(blocks: Seq<BlockView>, a: Seq<char>) -> int
    decreases blocks.len(),
{
    if blocks.len() == 0 {
        0
    } else {
        spec_chain_debits(blocks.drop_last(), a) + spec_debits(blocks.last().transactions, a)
    }
}

/// The balance of an address: confirmed credits minus confirmed debits.
pub open spec fn spec_balance(c: ChainView, a: Seq<char>) -> int {
    spec_chain_credits(c.blocks, a) - spec_chain_debits(c.blocks, a)
}

proof fn lemma_sums_nonneg(txs: Seq<TxView>, a: Seq<char>)
    ensures
        spec_credits(txs, a) >= 0,
        spec_debits(txs, a) >= 0,
    decreases txs.len(),
{
    if txs.len() > 0 {
        lemma_sums_nonneg(txs.drop_last(), a);
    }
}

proof fn lemma_sums_prefix(txs: Seq<TxView>, a: Seq<char>, i: int)
    requires
        0 <= i <= txs.len(),
    ensures
        spec_credits(txs.subrange(0, i), a) <= spec_credits(txs, a),
        spec_debits(txs.subrange(0, i), a) <= spec_debits(txs, a),
    decreases txs.len() - i,
{
    if i == txs.len() {
        assert(txs.subrange(0, i) =~= txs);
    } else {
        lemma_sums_prefix(txs, a, i + 1);
        assert(txs.subrange(0, i + 1).drop_last() =~= txs.subrange(0, i));
        assert(txs.subrange(0, i + 1).last() == txs[i]);
        lemma_sums_nonneg(txs.subrange(0, i), a);
    }
}

proof fn lemma_chain_sums_prefix(blocks: Seq<BlockView>, a: Seq<char>, i: int)
    requires
        0 <= i <= blocks.len(),
    ensures
        spec_chain_credits(blocks.subrange(0, i), a) <= spec_chain_credits(blocks, a),
        spec_chain_debits(blocks.subrange(0, i), a) <= spec_chain_debits(blocks, a),
    decreases blocks.len() - i,
{
    if i == blocks.len() {
        assert(blocks.subrange(0, i) =~= blocks);
    } else {
        lemma_chain_sums_prefix(blocks, a, i + 1);
        assert(blocks.subrange(0, i + 1).drop_last() =~= blocks.subrange(0, i));
        assert(blocks.subrange(0, i + 1).last() == blocks[i]);
        lemma_sums_nonneg(blocks[i].transactions, a);
    }
}

impl Blockchain {
    /// The balance of the address, exactly, or none when a running total
    /// leaves the machine range.
    pub fn get_balance(&self, address: &String) -> (r: Option<i128>)
        ensures
            r matches Some(b) ==> b == spec_balance(self@, address@),
            r is None ==> spec_chain_credits(self@.blocks, address@) > u128::MAX
                || spec_chain_debits(self@.blocks, address@) > u128::MAX || spec_balance(
                self@,
                address@,
            ) > i128::MAX || spec_balance(self@, address@) < -(i128::MAX as int),
    {
        
        let mut credits: u128 = 0;
        let mut debits: u128 = 0;
        let nb = self.blocks.len();
        let mut bi: usize = 0;
        while bi < nb
            invariant
                nb == self.blocks@.len(),
                bi <= nb,
                credits == spec_chain_credits(self@.blocks.subrange(0, bi as int), address@),
                debits == spec_chain_debits(self@.blocks.subrange(0, bi as int), address@),
            decreases nb - bi,
        {
            proof {
                assert(self@.blocks[bi as int] == self.blocks@[bi as int]@);
            }
            let txs = &self.blocks[bi].transactions;
            let ghost tv = self@.blocks[bi as int].transactions;
            let nt = txs.len();
            let mut ti: usize = 0;
            while ti < nt
                invariant
                    nb == self.blocks@.len(),
                    bi < nb,
                    tv == self@.blocks[bi as int].transactions,
                    txs == &self.blocks@[bi as int].transactions,
                    self@.blocks[bi as int] == self.blocks@[bi as int]@,
                    nt == txs@.len(),
                    ti <= nt,
                    credits == spec_chain_credits(self@.blocks.subrange(0, bi as int), address@)
                        + spec_credits(tv.subrange(0, ti as int), address@),
                    debits == spec_chain_debits(self@.blocks.subrange(0, bi as int), address@)
                        + spec_debits(tv.subrange(0, ti as int), address@),
                decreases nt - ti,
            {
                let t = &txs[ti];
                proof {
                    assert(tv[ti as int] == txs@[ti as int]@);
                    assert(tv.subrange(0, ti as int + 1).drop_last() =~= tv.subrange(
                        0,
                        ti as int,
                    ));
                    assert(tv.subrange(0, ti as int + 1).last() == tv[ti as int]);
                }
                if t.to_address == *address {
                    if (t.amount as u128) > u128::MAX - credits {
                        proof {
                            assert(spec_tx_credit(tv[ti as int], address@) == t.amount as int);
                            assert(spec_credits(tv.subrange(0, ti as int + 1), address@) == credits
                                - spec_chain_credits(self@.blocks.subrange(0, bi as int), address@)
                                + t.amount as int);
                            lemma_sums_prefix(tv, address@, ti as int + 1);
                            assert(self@.blocks.subrange(0, bi as int + 1).drop_last()
                                =~= self@.blocks.subrange(0, bi as int));
                            assert(self@.blocks.subrange(0, bi as int + 1).last()
                                == self@.blocks[bi as int]);
                            assert(spec_chain_credits(self@.blocks.subrange(0, bi as int + 1), address@)
                                == spec_chain_credits(self@.blocks.subrange(0, bi as int), address@)
                                + spec_credits(tv, address@));
                            lemma_chain_sums_prefix(self@.blocks, address@, bi as int + 1);
                            assert(spec_chain_credits(self@.blocks, address@) > u128::MAX);
                        }
                        return None;
                    }
                    credits = credits + (t.amount as u128);
                }
                if t.from_address == *address {
                    if (t.amount as u128) > u128::MAX - debits {
                        proof {
                            assert(spec_tx_debit(tv[ti as int], address@) == t.amount as int);
                            assert(spec_debits(tv.subrange(0, ti as int + 1), address@) == debits
                                - spec_chain_debits(self@.blocks.subrange(0, bi as int), address@)
                                + t.amount as int);
                            lemma_sums_prefix(tv, address@, ti as int + 1);
                            assert(self@.blocks.subrange(0, bi as int + 1).drop_last()
                                =~= self@.blocks.subrange(0, bi as int));
                            assert(self@.blocks.subrange(0, bi as int + 1).last()
                                == self@.blocks[bi as int]);
                            assert(spec_chain_debits(self@.blocks.subrange(0, bi as int + 1), address@)
                                == spec_chain_debits(self@.blocks.subrange(0, bi as int), address@)
                                + spec_debits(tv, address@));
                            lemma_chain_sums_prefix(self@.blocks, address@, bi as int + 1);
                            assert(spec_chain_debits(self@.blocks, address@) > u128::MAX);
                        }
                        return None;
                    }
                    debits = debits + (t.amount as u128);
                }
                ti = ti + 1;
            }
            proof {
                assert(tv.subrange(0, nt as int) =~= tv);
                assert(self@.blocks.subrange(0, bi as int + 1).drop_last() =~= self@.blocks.subrange(
                    0,
                    bi as int,
                ));
                assert(self@.blocks.subrange(0, bi as int + 1).last() == self@.blocks[bi as int]);
            }
            bi = bi + 1;
        }
        proof {
            assert(self@.blocks.subrange(0, nb as int) =~= self@.blocks);
        }
        if credits >= debits {
            let diff = credits - debits;
            if diff > i128::MAX as u128 {
                None
            } else {
                Some(diff as i128)
            }
        } else {
            let diff = debits - credits;
            if diff > i128::MAX as u128 {
                None
            } else {
                Some(-(diff as i128))
            }
        }
    }
}

} // verus!
