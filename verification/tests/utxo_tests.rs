use blockchain::chain::Blockchain;
use blockchain::transactions::{TXInput, TXOutput, Transaction};

fn temp_db() -> sled::Db {
    sled::Config::new().temporary(true).open().unwrap()
}

fn coinbase(to: &str, data: &str) -> Transaction {
    Transaction::new_coinbase(to.to_string(), data.to_string()).unwrap()
}

#[test]
fn utxo_coinbase_only() {
    let db = temp_db();
    let mut bc = Blockchain::new(db).unwrap();
    bc.add_block(vec![coinbase("alice", "one")]).unwrap();
    bc.add_block(vec![coinbase("alice", "two")]).unwrap();

    let alice = bc.find_UTXO("alice");
    assert_eq!(alice.len(), 2);
    for out in &alice {
        assert_eq!(out.value, 100);
        assert_eq!(out.script_pub_key, "alice");
    }

    // The genesis coinbase is awarded to "0".
    let zero = bc.find_UTXO("0");
    assert_eq!(zero.len(), 1);
    assert_eq!(zero[0].value, 100);

    assert!(bc.find_UTXO("nobody").is_empty());
}

#[test]
fn spend_moves_output() {
    let db = temp_db();
    let mut bc = Blockchain::new(db).unwrap();
    bc.add_block(vec![coinbase("origin", "seed")]).unwrap();
    let t1 = bc.get_blocks()[1].get_transaction()[0].clone();
    assert_eq!(bc.find_UTXO("origin").len(), 1);

    // T2 spends output 0 of T1 entirely to alice.
    let mut t2 = Transaction {
        id: String::new(),
        vin: vec![TXInput {
            txid: t1.id.clone(),
            vout: 0,
            script_sig: "origin".to_string(),
        }],
        vout: vec![TXOutput { value: 100, script_pub_key: "alice".to_string() }],
    };
    t2.set_id().unwrap();
    bc.add_block(vec![t2.clone()]).unwrap();

    assert!(bc.find_UTXO("origin").is_empty());
    let alice = bc.find_UTXO("alice");
    assert_eq!(alice.len(), 1);
    assert_eq!(alice[0].value, 100);
    assert_eq!(alice[0].script_pub_key, "alice");
}

#[test]
fn utxo_scan_order_is_newest_first() {
    let db = temp_db();
    let mut bc = Blockchain::new(db).unwrap();
    bc.add_block(vec![Transaction {
        id: "old".to_string(),
        vin: vec![TXInput { txid: String::new(), vout: -1, script_sig: "m".to_string() }],
        vout: vec![TXOutput { value: 1, script_pub_key: "carol".to_string() }],
    }])
    .unwrap();
    bc.add_block(vec![Transaction {
        id: "new".to_string(),
        vin: vec![TXInput { txid: String::new(), vout: -1, script_sig: "m".to_string() }],
        vout: vec![TXOutput { value: 2, script_pub_key: "carol".to_string() }],
    }])
    .unwrap();
    let outs = bc.find_UTXO("carol");
    assert_eq!(outs.len(), 2);
    assert_eq!(outs[0].value, 2);
    assert_eq!(outs[1].value, 1);
}
