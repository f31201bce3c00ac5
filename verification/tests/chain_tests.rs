use blockchain::chain::Blockchain;
use blockchain::errors::ChainError;
use blockchain::transactions::Transaction;

fn temp_db() -> sled::Db {
    sled::Config::new().temporary(true).open().unwrap()
}

fn coinbase(to: &str, data: &str) -> Transaction {
    Transaction::new_coinbase(to.to_string(), data.to_string()).unwrap()
}

#[test]
fn test_blockchain() {
    let db = temp_db();
    let mut b = Blockchain::new(db).unwrap();
    b.add_block(vec![coinbase("someone", "data")]).unwrap();
    assert_eq!(b.get_blocks().len(), 2);
}

#[test]
fn test_add_block() {
    let db = temp_db();
    let mut b = Blockchain::new(db).unwrap();
    b.add_block(vec![coinbase("someone", "data 1")]).unwrap();
    b.add_block(vec![coinbase("someone", "data 2")]).unwrap();
    b.add_block(vec![coinbase("someone", "data 3")]).unwrap();
    let (blocks, tip) = b.get_data();
    assert_eq!(blocks.len(), 4);
    assert_eq!(*tip, blocks[3].hash);
}

#[test]
fn blockchain_test_add_block() {
    let db = temp_db();
    let mut b = Blockchain::new(db).unwrap();
    b.add_block(vec![]).unwrap();
    b.add_block(vec![]).unwrap();
    b.add_block(vec![]).unwrap();
    let (blocks, tip) = b.get_data();
    assert_eq!(blocks.len(), 4);
    assert_eq!(*tip, blocks[3].hash);
}

#[test]
fn prev_hash_resolves_to_parent() {
    let db = temp_db();
    let mut bc = Blockchain::new(db).unwrap();
    bc.add_block(vec![coinbase("a", "x")]).unwrap();
    bc.add_block(vec![coinbase("b", "y")]).unwrap();
    let blocks = bc.get_blocks();
    for i in 1..blocks.len() {
        let parent = bc
            .get_block_by_hash(blocks[i].get_prev_hash())
            .unwrap()
            .unwrap();
        assert_eq!(parent.get_height(), blocks[i].get_height() - 1);
        assert_eq!(parent.get_hash(), blocks[i].get_prev_hash());
    }
}

#[test]
fn backward_reversed_equals_forward() {
    let db = temp_db();
    let mut bc = Blockchain::new(db).unwrap();
    bc.add_block(vec![coinbase("a", "x")]).unwrap();
    bc.add_block(vec![coinbase("b", "y")]).unwrap();
    let mut back = bc.blocks_newest_first().unwrap();
    let fwd = bc.blocks_oldest_first().unwrap();
    back.reverse();
    assert_eq!(back.len(), fwd.len());
    for i in 0..back.len() {
        assert_eq!(back[i].get_hash(), fwd[i].get_hash());
    }
}

#[test]
fn open_twice_same_tip_and_genesis() {
    let db = temp_db();
    let mut bc1 = Blockchain::new(db.clone()).unwrap();
    bc1.add_block(vec![coinbase("a", "x")]).unwrap();
    let tip1 = bc1.get_last_block().unwrap().get_hash();
    let gen1 = bc1.get_genesis_block().unwrap().get_hash();
    drop(bc1);
    let bc2 = Blockchain::new(db).unwrap();
    let tip2 = bc2.get_last_block().unwrap().get_hash();
    let gen2 = bc2.get_genesis_block().unwrap().get_hash();
    assert_eq!(tip1, tip2);
    assert_eq!(gen1, gen2);
}

#[test]
fn end_to_end_scenario() {
    let db = temp_db();
    let mut bc = Blockchain::new(db).unwrap();
    let genesis = bc.get_genesis_block().unwrap();
    assert_eq!(genesis.get_height(), 0);
    assert_eq!(genesis.get_prev_hash(), "");
    assert_eq!(bc.get_blocks().len(), 1);

    bc.add_block(vec![coinbase("user", "a")]).unwrap();
    let tip_a = bc.get_last_block().unwrap();
    assert_eq!(tip_a.get_height(), 1);
    assert_eq!(tip_a.get_prev_hash(), genesis.get_hash());

    bc.add_block(vec![coinbase("user", "b")]).unwrap();
    let tip_b = bc.get_last_block().unwrap();
    assert_eq!(tip_b.get_height(), 2);

    let mut it = bc.iter();
    let b2 = it.next().unwrap().unwrap();
    let b1 = it.next().unwrap().unwrap();
    let b0 = it.next().unwrap().unwrap();
    assert!(it.next().unwrap().is_none());
    assert_eq!(b2.get_height(), 2);
    assert_eq!(b1.get_height(), 1);
    assert_eq!(b0.get_height(), 0);
    assert_eq!(b0.get_hash(), genesis.get_hash());

    let mut fw = bc.iter();
    let f0 = fw.next_back().unwrap().unwrap();
    let f1 = fw.next_back().unwrap().unwrap();
    let f2 = fw.next_back().unwrap().unwrap();
    assert!(fw.next_back().unwrap().is_none());
    assert_eq!(f0.get_height(), 0);
    assert_eq!(f1.get_height(), 1);
    assert_eq!(f2.get_height(), 2);
    assert_eq!(f2.get_hash(), tip_b.get_hash());
}

#[test]
fn corrupt_tip_pointer_rejected() {
    let db = temp_db();
    db.insert("LAST", &b"garbage"[..]).unwrap();
    match Blockchain::new(db) {
        Err(ChainError::Corrupt) => {}
        other => panic!("expected a corrupt store, got {:?}", other.map(|_| ())),
    }
}

#[test]
fn height_index_fallback_returns_tip() {
    let db = temp_db();
    let handle = db.clone();
    let mut bc = Blockchain::new(db).unwrap();
    bc.add_block(vec![coinbase("a", "x")]).unwrap();
    bc.add_block(vec![coinbase("b", "y")]).unwrap();
    // A dangling index entry whose recorded hash is too short to be real:
    // the lookup falls back to the tip instead of failing.
    let short = [3u8, 0, 0, 0, 0, 0, 0, 0, 97, 98, 99];
    handle.insert("7", &short[..]).unwrap();
    let got = bc.get_block_with_prev_height(7).unwrap().unwrap();
    assert_eq!(got.get_hash(), bc.get_last_block().unwrap().get_hash());
}
