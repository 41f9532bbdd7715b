use chainbridgex::block::Block;
use chainbridgex::blockchain::Blockchain;
use chainbridgex::text::dec_string;
use chainbridgex::timefmt::rfc3339_utc;
use chainbridgex::transaction::Transaction;

#[test]
fn decimal_text_is_exact() {
    assert_eq!(dec_string(0), "0");
    assert_eq!(dec_string(7), "7");
    assert_eq!(dec_string(12345), "12345");
    assert_eq!(dec_string(u64::MAX), "18446744073709551615");
}

#[test]
fn rfc3339_of_epoch() {
    assert_eq!(rfc3339_utc(0), "1970-01-01T00:00:00+00:00");
}

#[test]
fn transaction_json_is_canonical() {
    let t = Transaction::new("a".to_string(), "b".to_string(), 5);
    assert_eq!(
        t.to_json(),
        "{\"from_address\":\"a\",\"to_address\":\"b\",\"amount\":5,\"coinbase\":false}"
    );
    let c = Transaction::new_coinbase();
    assert_eq!(
        c.to_json(),
        "{\"from_address\":\"\",\"to_address\":\"miner\",\"amount\":100,\"coinbase\":true}"
    );
}

#[test]
fn block_round_trip_preserves_every_field() {
    let t = Transaction::new("alice".to_string(), "bob".to_string(), 42);
    let block = Block::new(3, 1_700_000_000, vec![t], "prevhash".to_string(), 99);
    let text = block.to_json();
    let back = Block::from_json(&text).expect("canonical text must decode");
    assert_eq!(back.index, block.index);
    assert_eq!(back.timestamp, block.timestamp);
    assert_eq!(back.previous_hash, block.previous_hash);
    assert_eq!(back.hash, block.hash);
    assert_eq!(back.nonce, block.nonce);
    assert_eq!(back.transactions.len(), 1);
    assert_eq!(back.transactions[0].from_address, "alice");
    assert_eq!(back.transactions[0].to_address, "bob");
    assert_eq!(back.transactions[0].amount, 42);
    assert!(!back.transactions[0].coinbase);
}

#[test]
fn block_round_trip_with_escaped_characters() {
    let t = Transaction::new("a\"quote".to_string(), "b\\slash".to_string(), 1);
    let block = Block::new(0, 0, vec![t], "p".to_string(), 0);
    let text = block.to_json();
    let back = Block::from_json(&text).expect("escaped text must decode");
    assert_eq!(back.transactions[0].from_address, "a\"quote");
    assert_eq!(back.transactions[0].to_address, "b\\slash");
    assert_eq!(back.hash, block.hash);
}

#[test]
fn chain_round_trip_preserves_every_field() {
    let mut chain = Blockchain::new();
    chain.difficulty = 1;
    chain.add_transaction(Transaction::new("A".to_string(), "B".to_string(), 10));
    chain.mine_block().expect("minable");
    chain.add_transaction(Transaction::new("B".to_string(), "C".to_string(), 4));

    let text = chain.to_json();
    let back = Blockchain::from_json(&text).expect("canonical text must decode");
    assert_eq!(back.difficulty, 1);
    assert_eq!(back.blocks.len(), 2);
    for i in 0..2 {
        assert_eq!(back.blocks[i].index, chain.blocks[i].index);
        assert_eq!(back.blocks[i].timestamp, chain.blocks[i].timestamp);
        assert_eq!(back.blocks[i].previous_hash, chain.blocks[i].previous_hash);
        assert_eq!(back.blocks[i].hash, chain.blocks[i].hash);
        assert_eq!(back.blocks[i].nonce, chain.blocks[i].nonce);
        assert_eq!(back.blocks[i].transactions.len(), chain.blocks[i].transactions.len());
    }
    assert_eq!(back.unconfirmed_transactions.len(), 1);
    assert_eq!(back.unconfirmed_transactions[0].from_address, "B");
    assert_eq!(back.unconfirmed_transactions[0].to_address, "C");
    assert_eq!(back.unconfirmed_transactions[0].amount, 4);
    assert!(back.is_valid());
}

#[test]
fn chain_to_string_equals_to_json() {
    let chain = Blockchain::new();
    assert_eq!(chain.to_string(), chain.to_json());
}

#[test]
fn malformed_text_is_rejected() {
    assert!(Block::from_json("").is_err());
    assert!(Block::from_json("{").is_err());
    assert!(Block::from_json("nonsense").is_err());
    assert!(Block::from_json("[1,2]").is_err());
    assert!(Blockchain::from_json("{\"blocks\":[]").is_err());
    assert!(Blockchain::from_json("").is_err());
}

#[test]
fn trailing_garbage_is_rejected() {
    let block = Block::new(0, 0, Vec::new(), "p".to_string(), 0);
    let mut text = block.to_json();
    let ok = Block::from_json(&text);
    assert!(ok.is_ok());
    text.push(' ');
    assert!(Block::from_json(&text).is_err());
}

#[test]
fn non_canonical_number_is_rejected() {
    let block = Block::new(7, 0, Vec::new(), "p".to_string(), 0);
    let text = block.to_json().replace("\"index\":7", "\"index\":07");
    assert!(Block::from_json(&text).is_err());
}
