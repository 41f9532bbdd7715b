//! Transactions: transfer records with a validity predicate, plus the
//! coinbase (mining reward) variant, which has no real sender.

use vstd::prelude::*;
use vstd::string::*;
use crate::text::{chars_to_string, push_dec, push_str_chars, spec_dec};

verus! {

/// The fixed reward credited by a coinbase transaction.
pub const MINING_REWARD: u64 = 100;

pub struct Transaction {
    pub from_address: String,
    pub to_address: String,
    pub amount: u64,
    pub coinbase: bool,
}

/// The mathematical value of a transaction.
#[verifier::ext_equal]
pub struct TxView {
    pub from_address: Seq<char>,
    pub to_address: Seq<char>,
    pub amount: u64,
    pub coinbase: bool,
}

impl View for Transaction {
    type V = TxView;

    open spec fn view(&self) -> TxView {
        TxView {
            from_address: self.from_address@,
            to_address: self.to_address@,
            amount: self.amount,
            coinbase: self.coinbase,
        }
    }
}

/// Valid iff both addresses are non-empty and the amount is strictly
/// positive; a coinbase transaction is always valid.
pub open spec fn spec_tx_valid(t: TxView) -> bool {
    t.coinbase || (t.from_address.len() > 0 && t.to_address.len() > 0 && t.amount > 0)
}

/// The canonical text of a transaction, as it enters the hashed payloads.
pub open spec fn spec_tx_text(t: TxView) -> Seq<char> {
    (if t.coinbase {
        seq!['c']
    } else {
        seq!['t']
    }) + t.from_address + seq!['-', '>'] + t.to_address + seq![':'] + spec_dec(t.amount as nat)
}

impl Transaction {
    pub fn new(from_address: String, to_address: String, amount: u64) -> (t: Transaction)
        ensures
            t@ == (TxView {
                from_address: from_address@,
                to_address: to_address@,
                amount,
                coinbase: false,
            }),
    {
        Transaction { from_address, to_address, amount, coinbase: false }
    }

    /// The mining reward: no real sender, a fixed amount, always valid.
    pub fn new_coinbase() -> (t: Transaction)
        ensures
            t@ == (TxView {
                from_address: ""@,
                to_address: "miner"@,
                amount: MINING_REWARD,
                coinbase: true,
            }),
            spec_tx_valid(t@),
    {
        Transaction {
            from_address: "".to_owned(),
            to_address: "miner".to_owned(),
            amount: MINING_REWARD,
            coinbase: true,
        }
    }

    pub fn is_valid(&self) -> (r: bool)
        ensures
            r == spec_tx_valid(self@),
    {
        self.coinbase || (self.from_address.as_str().unicode_len() > 0
            && self.to_address.as_str().unicode_len() > 0 && self.amount > 0)
    }

    /// A copy equal to `self` in every field.
    pub fn duplicate(&self) -> (t: Transaction)
        ensures
            t@ == self@,
    {
        Transaction {
            from_address: self.from_address.clone(),
            to_address: self.to_address.clone(),
            amount: self.amount,
            coinbase: self.coinbase,
        }
    }

    /// Appends the canonical text of the transaction to `out`.
    pub fn push_text(&self, out: &mut Vec<char>)
        ensures
            final(out)@ == old(out)@ + spec_tx_text(self@),
    {
        if self.coinbase {
            out.push('c');
        } else {
            out.push('t');
        }
        push_str_chars(out, self.from_address.as_str());
        out.push('-');
        out.push('>');
        push_str_chars(out, self.to_address.as_str());
        out.push(':');
        push_dec(out, self.amount);
        assert(out@ == old(out)@ + spec_tx_text(self@)) by {
            assert(old(out)@ + (if self.coinbase {
                seq!['c']
            } else {
                seq!['t']
            }) + self.from_address@ + seq!['-', '>'] + self.to_address@ + seq![':'] + spec_dec(
                self.amount as nat,
            ) =~= old(out)@ + spec_tx_text(self@));
        }
    }

    /// The canonical text of the transaction.
    pub fn to_string(&self) -> (s: String)
        ensures
            s@ == spec_tx_text(self@),
    {
        let mut v: Vec<char> = Vec::new();
        self.push_text(&mut v);
        chars_to_string(&v)
    }
}

} // verus!
