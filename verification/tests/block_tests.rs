use blockchain::block::Block;
use blockchain::chain::Blockchain;
use blockchain::errors::ChainError;
use blockchain::transactions::{TXInput, TXOutput, Transaction};

fn temp_db() -> sled::Db {
    sled::Config::new().temporary(true).open().unwrap()
}

fn coinbase(to: &str, data: &str) -> Transaction {
    Transaction::new_coinbase(to.to_string(), data.to_string()).unwrap()
}

#[test]
fn digest_matches_stored_hash() {
    let db = temp_db();
    let mut bc = Blockchain::new(db).unwrap();
    bc.add_block(vec![coinbase("a", "x")]).unwrap();
    bc.add_block(vec![coinbase("b", "y")]).unwrap();
    for block in bc.get_blocks() {
        assert!(block.check_integrity());
        let hash = block.get_hash();
        assert_eq!(hash.len(), 64);
        assert!(hash.starts_with("0000"));
        assert_eq!(block.compute_hash(), hash);
    }
}

#[test]
fn mined_block_carries_its_fields() {
    let txs = vec![coinbase("miner", "payload")];
    let block = Block::new_block(txs, "".to_string(), 0).unwrap();
    assert_eq!(block.get_height(), 0);
    assert_eq!(block.get_prev_hash(), "");
    assert_eq!(block.get_transaction().len(), 1);
    assert!(block.check_integrity());
}

#[test]
fn tamper_detection() {
    let db = temp_db();
    let mut bc = Blockchain::new(db).unwrap();
    bc.add_block(vec![coinbase("a", "x")]).unwrap();
    let blocks = bc.get_blocks();
    let good = &blocks[1];
    assert!(good.check_integrity());

    let mut m = good.clone();
    m.timestamp += 1;
    assert_ne!(m.compute_hash(), m.hash);
    assert!(!m.check_integrity());

    // The digest covers (prev_hash, transactions, timestamp, difficulty,
    // nonce); the height is not part of it, so a height edit alone is the
    // one change this detection cannot see.
    let mut m = good.clone();
    m.nonce += 1;
    assert!(!m.check_integrity());

    let mut m = good.clone();
    m.prev_block_hash = "00".to_string();
    assert!(!m.check_integrity());

    let mut m = good.clone();
    m.transactions.push(coinbase("intruder", "loot"));
    assert!(!m.check_integrity());

    let mut m = good.clone();
    m.hash = "deadbeef".to_string();
    assert!(!m.check_integrity());
}

#[test]
fn coinbase_shape() {
    let t = coinbase("bob", "hi");
    assert!(t.is_coinbase());
    assert_eq!(t.vin.len(), 1);
    assert_eq!(t.vin[0].txid, "");
    assert_eq!(t.vin[0].vout, -1);
    assert!(t.vin[0].can_be_unlock_with("hi"));
    assert_eq!(t.vout.len(), 1);
    assert_eq!(t.vout[0].value, 100);
    assert!(t.vout[0].can_be_unlock_with("bob"));
    assert!(!t.vout[0].can_be_unlock_with("alice"));
}

#[test]
fn coinbase_default_message() {
    let t = Transaction::new_coinbase("bob".to_string(), String::new()).unwrap();
    assert_eq!(t.vin[0].script_sig, "Reward to 'bob'");
}

#[test]
fn empty_coinbase_rejected() {
    match Transaction::new_coinbase(String::new(), String::new()) {
        Err(ChainError::InvalidCoinbase) => {}
        other => panic!("expected rejection, got {:?}", other),
    }
}

#[test]
fn transaction_id_is_content_digest() {
    let mut a = Transaction {
        id: String::new(),
        vin: vec![TXInput { txid: "t".to_string(), vout: 0, script_sig: "s".to_string() }],
        vout: vec![TXOutput { value: 7, script_pub_key: "k".to_string() }],
    };
    let mut b = a.clone();
    a.set_id().unwrap();
    b.set_id().unwrap();
    assert_eq!(a.id, b.id);
    assert_eq!(a.id.len(), 64);

    let mut c = a.clone();
    c.vout[0].value = 8;
    c.set_id().unwrap();
    assert_ne!(a.id, c.id);
}

#[test]
fn non_coinbase_recognized() {
    let t = Transaction {
        id: String::new(),
        vin: vec![TXInput { txid: "t".to_string(), vout: 0, script_sig: "s".to_string() }],
        vout: vec![],
    };
    assert!(!t.is_coinbase());
}
