use chainbridgex::blockchain::{seal_data, Blockchain, DEFAULT_DIFFICULTY};
use chainbridgex::pow::ProofOfWork;
use chainbridgex::transaction::{Transaction, MINING_REWARD};

#[test]
fn fresh_chain_shape_and_validity() {
    let chain = Blockchain::new();
    assert_eq!(chain.blocks.len(), 1);
    assert_eq!(chain.blocks[0].index, 0);
    assert!(chain.blocks[0].transactions.is_empty());
    assert_eq!(chain.blocks[0].nonce, 0);
    assert_eq!(chain.blocks[0].previous_hash, "0");
    assert_eq!(chain.difficulty, DEFAULT_DIFFICULTY);
    assert!(chain.unconfirmed_transactions.is_empty());
    assert!(chain.is_valid());
}

#[test]
fn default_matches_new_shape() {
    let chain = Blockchain::default();
    assert_eq!(chain.blocks.len(), 1);
    assert_eq!(chain.blocks[0].index, 0);
    assert!(chain.blocks[0].transactions.is_empty());
    assert_eq!(chain.blocks[0].nonce, 0);
    assert_eq!(chain.blocks[0].previous_hash, "0");
    assert!(chain.unconfirmed_transactions.is_empty());
    assert_eq!(chain.difficulty, DEFAULT_DIFFICULTY);
    assert!(chain.is_valid());
}

#[test]
fn corrupted_stored_hash_is_detected() {
    let mut chain = Blockchain::new();
    chain.difficulty = 1;
    chain.add_transaction(Transaction::new("A".to_string(), "B".to_string(), 10));
    chain.mine_block().expect("minable");
    assert!(chain.is_valid());
    chain.blocks[1].hash = "0".repeat(64);
    assert!(!chain.is_valid());
}

#[test]
fn add_valid_transaction_grows_mempool() {
    let mut chain = Blockchain::new();
    let t = Transaction::new("alice".to_string(), "bob".to_string(), 10);
    assert!(t.is_valid());
    assert!(chain.add_transaction(t));
    assert_eq!(chain.unconfirmed_transactions.len(), 1);
    let t2 = Transaction::new("bob".to_string(), "carol".to_string(), 1);
    assert!(chain.add_transaction(t2));
    assert_eq!(chain.unconfirmed_transactions.len(), 2);
}

#[test]
fn add_invalid_transaction_is_rejected() {
    let mut chain = Blockchain::new();
    let empty_from = Transaction::new("".to_string(), "bob".to_string(), 10);
    assert!(!empty_from.is_valid());
    assert!(!chain.add_transaction(empty_from));
    assert_eq!(chain.unconfirmed_transactions.len(), 0);

    let empty_to = Transaction::new("alice".to_string(), "".to_string(), 10);
    assert!(!chain.add_transaction(empty_to));
    assert_eq!(chain.unconfirmed_transactions.len(), 0);

    let zero_amount = Transaction::new("alice".to_string(), "bob".to_string(), 0);
    assert!(!chain.add_transaction(zero_amount));
    assert_eq!(chain.unconfirmed_transactions.len(), 0);
}

#[test]
fn coinbase_is_always_valid() {
    let t = Transaction::new_coinbase();
    assert!(t.is_valid());
    assert_eq!(t.amount, MINING_REWARD);
    assert!(t.coinbase);
    assert_eq!(t.from_address, "");
    let odd = Transaction {
        from_address: "".to_string(),
        to_address: "".to_string(),
        amount: 0,
        coinbase: true,
    };
    assert!(odd.is_valid());
}

#[test]
fn mine_on_empty_mempool_is_none() {
    let mut chain = Blockchain::new();
    let before = chain.blocks.len();
    assert!(chain.mine_block().is_none());
    assert_eq!(chain.blocks.len(), before);
    assert!(chain.unconfirmed_transactions.is_empty());
}

#[test]
fn mine_one_block_end_to_end() {
    let mut chain = Blockchain::new();
    chain.difficulty = 1;
    let t = Transaction::new("A".to_string(), "B".to_string(), 10);
    assert!(chain.add_transaction(t));
    let block = chain.mine_block().expect("difficulty one must be minable");

    assert_eq!(block.index, 1);
    assert_eq!(block.transactions.len(), 1);
    assert_eq!(block.transactions[0].from_address, "A");
    assert_eq!(block.transactions[0].to_address, "B");
    assert_eq!(block.transactions[0].amount, 10);
    assert_eq!(block.previous_hash, chain.blocks[0].hash);
    assert!(chain.unconfirmed_transactions.is_empty());
    assert_eq!(chain.blocks.len(), 2);

    let pow = ProofOfWork::new(1);
    let data = seal_data(block.index, block.timestamp, &block.transactions, &block.previous_hash);
    assert!(pow.validate(&data, block.nonce));
    assert!(chain.is_valid());

    chain.blocks[1].previous_hash = "deadbeef".to_string();
    assert!(!chain.is_valid());
}

#[test]
fn recomputed_hash_matches_stored_and_detects_tampering() {
    let mut chain = Blockchain::new();
    chain.difficulty = 1;
    chain.add_transaction(Transaction::new("A".to_string(), "B".to_string(), 10));
    chain.mine_block().expect("minable");

    let recomputed = chain.blocks[1].recomputed_hash();
    assert_eq!(recomputed, chain.blocks[1].hash);

    chain.blocks[1].transactions[0].amount = 11;
    let tampered = chain.blocks[1].recomputed_hash();
    assert_ne!(tampered, chain.blocks[1].hash);
    assert!(!chain.is_valid());
}

#[test]
fn block_hash_is_64_lowercase_hex_digits() {
    let chain = Blockchain::new();
    let hash = &chain.blocks[0].hash;
    assert_eq!(hash.len(), 64);
    assert!(hash.chars().all(|c| c.is_ascii_hexdigit() && !c.is_ascii_uppercase()));
}

#[test]
fn timestamp_changes_the_hash() {
    let a = chainbridgex::block::Block::new(0, 1_700_000_000, Vec::new(), "p".to_string(), 0);
    let b = chainbridgex::block::Block::new(0, 1_700_000_001, Vec::new(), "p".to_string(), 0);
    assert_ne!(a.hash, b.hash);
}

#[test]
fn pow_difficulty_zero_accepts_first_nonce() {
    let pow = ProofOfWork::new(0);
    let nonce = pow.run(b"anything").expect("zero difficulty always passes");
    assert_eq!(nonce, 0);
    assert!(pow.validate(b"anything", 0));
}

#[test]
fn pow_run_finds_validating_nonce() {
    let pow = ProofOfWork::new(1);
    let nonce = pow.run(b"some sealed payload").expect("difficulty one is minable");
    assert!(pow.validate(b"some sealed payload", nonce));
    for earlier in 0..nonce {
        assert!(!pow.validate(b"some sealed payload", earlier));
    }
}

#[test]
fn get_block_in_and_out_of_range() {
    let chain = Blockchain::new();
    assert!(chain.get_block(0).is_some());
    assert_eq!(chain.get_block(0).unwrap().index, 0);
    assert!(chain.get_block(1).is_none());
    assert!(chain.get_block(100).is_none());
}

#[test]
fn get_transactions_snapshots_the_mempool() {
    let mut chain = Blockchain::new();
    chain.add_transaction(Transaction::new("A".to_string(), "B".to_string(), 7));
    let snapshot = chain.get_transactions();
    assert_eq!(snapshot.len(), 1);
    assert_eq!(snapshot[0].from_address, "A");
    assert_eq!(snapshot[0].to_address, "B");
    assert_eq!(snapshot[0].amount, 7);
}

#[test]
fn balance_is_credits_minus_debits() {
    let mut chain = Blockchain::new();
    chain.difficulty = 1;
    chain.add_transaction(Transaction::new("A".to_string(), "B".to_string(), 10));
    chain.mine_block().expect("minable");
    chain.add_transaction(Transaction::new("B".to_string(), "A".to_string(), 3));
    chain.mine_block().expect("minable");

    assert_eq!(chain.get_balance(&"A".to_string()), Some(-7));
    assert_eq!(chain.get_balance(&"B".to_string()), Some(7));
    assert_eq!(chain.get_balance(&"nobody".to_string()), Some(0));
}

#[test]
fn mining_reward_credits_the_miner() {
    let mut chain = Blockchain::new();
    chain.difficulty = 1;
    chain.add_transaction(Transaction::new_coinbase());
    chain.add_transaction(Transaction::new("A".to_string(), "B".to_string(), 2));
    chain.mine_block().expect("minable");
    assert_eq!(chain.get_balance(&"miner".to_string()), Some(MINING_REWARD as i128));
}

#[test]
fn pending_transactions_do_not_count_toward_balance() {
    let mut chain = Blockchain::new();
    chain.add_transaction(Transaction::new("A".to_string(), "B".to_string(), 10));
    assert_eq!(chain.get_balance(&"B".to_string()), Some(0));
}
