//! A single-node append-only ledger: blocks linked by digests, a pending
//! transaction pool, and a proof-of-work gate on block creation.

pub mod balance;
pub mod block;
pub mod blockchain;
pub mod codec;
pub mod hashing;
pub mod messages;
pub mod pow;
pub mod roundtrip;
pub mod text;
pub mod timefmt;
pub mod transaction;
