use vstd::prelude::*;
use vstd::utf8::{encode_utf8, is_ascii_chars, is_ascii_chars_encode_utf8};
use crate::block::{
    Block, BlockView, block_wf, decode_block, encode_block, spec_dec_block, spec_enc_block,
    view_blocks,
};
use crate::codec::{dec_full_str, decode_str_value, enc_str, encode_str_value, lemma_dec_full_str};
use crate::digest::is_hex_char;
use crate::errors::ChainError;
use crate::kv::{kv_flush, kv_get, kv_insert, kv_view};
use crate::transactions::{Transaction, view_transactions};

verus! {

// ---------------------------------------------------------------------------
// The persisted key space.
//
// Four families of keys share the store: the tip pointer "LAST", the genesis
// pointer "FIRST", one key per block (the 64 hex characters of its hash), and
// one key per height (its decimal digits). The lemmas below separate them.
// ---------------------------------------------------------------------------

/// The key a block is stored under: the UTF-8 bytes of its hash.
pub open spec fn hash_key(h: Seq<char>) -> Seq<u8> {
    encode_utf8(h)
}

/// The bytes of the literal key "LAST".
pub open spec fn last_key() -> Seq<u8> {
    seq![76u8, 65u8, 83u8, 84u8]
}

/// The bytes of the literal key "FIRST".
pub open spec fn first_key() -> Seq<u8> {
    seq![70u8, 73u8, 82u8, 83u8, 84u8]
}

/// The key of the height index entry for `n`: its decimal digits.
pub open spec fn height_key(n: u64) -> Seq<u8>
    decreases n,
{
    if n < 10 {
        seq![(48 + n) as u8]
    } else {
        height_key(n / 10).push((48 + n % 10) as u8)
    }
}

fn last_key_bytes() -> (r: Vec<u8>)
    ensures
        r@ == last_key(),
{
    let mut v: Vec<u8> = Vec::new();
    v.push(76);
    v.push(65);
    v.push(83);
    v.push(84);
    proof {
        assert(v@ =~= last_key());
    }
    v
}

fn first_key_bytes() -> (r: Vec<u8>)
    ensures
        r@ == first_key(),
{
    let mut v: Vec<u8> = Vec::new();
    v.push(70);
    v.push(73);
    v.push(82);
    v.push(83);
    v.push(84);
    proof {
        assert(v@ =~= first_key());
    }
    v
}

fn height_key_bytes(n: u64) -> (r: Vec<u8>)
    ensures
        r@ == height_key(n),
    decreases n,
{
    if n < 10 {
        let mut v: Vec<u8> = Vec::new();
        v.push((48 + n) as u8);
        proof {
            assert(v@ =~= height_key(n));
        }
        v
    } else {
        let mut v = height_key_bytes(n / 10);
        v.push((48 + n % 10) as u8);
        v
    }
}

proof fn lemma_height_key_digits(n: u64)
    ensures
        height_key(n).len() >= 1,
        forall|i: int| 0 <= i < height_key(n).len() ==> 48 <= #[trigger] height_key(n)[i] <= 57,
    decreases n,
{
    if n >= 10 {
        lemma_height_key_digits(n / 10);
    }
}

proof fn lemma_height_key_len(n: u64)
    ensures
        (n as int) < 10 ==> height_key(n).len() <= 1,
        (n as int) < 100 ==> height_key(n).len() <= 2,
        (n as int) < 1000 ==> height_key(n).len() <= 3,
        (n as int) < 10000 ==> height_key(n).len() <= 4,
        (n as int) < 100000 ==> height_key(n).len() <= 5,
        (n as int) < 1000000 ==> height_key(n).len() <= 6,
        (n as int) < 10000000 ==> height_key(n).len() <= 7,
        (n as int) < 100000000 ==> height_key(n).len() <= 8,
        (n as int) < 1000000000 ==> height_key(n).len() <= 9,
        (n as int) < 10000000000 ==> height_key(n).len() <= 10,
        (n as int) < 100000000000 ==> height_key(n).len() <= 11,
        (n as int) < 1000000000000 ==> height_key(n).len() <= 12,
        (n as int) < 10000000000000 ==> height_key(n).len() <= 13,
        (n as int) < 100000000000000 ==> height_key(n).len() <= 14,
        (n as int) < 1000000000000000 ==> height_key(n).len() <= 15,
        (n as int) < 10000000000000000 ==> height_key(n).len() <= 16,
        (n as int) < 100000000000000000 ==> height_key(n).len() <= 17,
        (n as int) < 1000000000000000000 ==> height_key(n).len() <= 18,
        (n as int) < 10000000000000000000 ==> height_key(n).len() <= 19,
        height_key(n).len() <= 20,
    decreases n,
{
    if n >= 10 {
        lemma_height_key_len(n / 10);
    }
}

proof fn lemma_height_key_injective(a: u64, b: u64)
    requires
        height_key(a) == height_key(b),
    ensures
        a == b,
    decreases a,
{
    lemma_height_key_digits(a);
    lemma_height_key_digits(b);
    if a < 10 && b < 10 {
        assert(height_key(a) == seq![(48 + a) as u8]);
        assert(height_key(b) == seq![(48 + b) as u8]);
        assert(seq![(48 + a) as u8][0] == (48 + a) as u8);
        assert(seq![(48 + b) as u8][0] == (48 + b) as u8);
        assert((48 + a) as u8 == (48 + b) as u8);
        assert(a == b);
    } else if a < 10 {
        assert(height_key(b).len() >= 2) by {
            lemma_height_key_digits(b / 10);
        }
    } else if b < 10 {
        assert(height_key(a).len() >= 2) by {
            lemma_height_key_digits(a / 10);
        }
    } else {
        let ka = height_key(a / 10);
        let kb = height_key(b / 10);
        assert(height_key(a) == ka.push((48 + a % 10) as u8));
        assert(height_key(b) == kb.push((48 + b % 10) as u8));
        let la = height_key(a).len() as int;
        assert(height_key(a)[la - 1] == (48 + a % 10) as u8);
        assert(height_key(b)[la - 1] == (48 + b % 10) as u8);
        assert(a % 10 == b % 10);
        assert forall|i: int| 0 <= i < ka.len() implies ka[i] == kb[i] by {
            assert(height_key(a)[i] == ka[i]);
            assert(height_key(b)[i] == kb[i]);
        }
        assert(ka =~= kb);
        lemma_height_key_injective(a / 10, b / 10);
        vstd::arithmetic::div_mod::lemma_fundamental_div_mod(a as int, 10);
        vstd::arithmetic::div_mod::lemma_fundamental_div_mod(b as int, 10);
    }
}

/// A well-formed block hash: 64 hexadecimal characters.
pub open spec fn hashlike(h: Seq<char>) -> bool {
    h.len() == 64 && forall|i: int| 0 <= i < 64 ==> is_hex_char(#[trigger] h[i])
}

proof fn lemma_hash_key_len(h: Seq<char>)
    requires
        hashlike(h),
    ensures
        hash_key(h).len() == 64,
{
    assert(is_ascii_chars(h)) by {
        assert forall|i: int| 0 <= i < h.len() implies '\0' <= #[trigger] h[i] <= '\u{7f}' by {
            assert(is_hex_char(h[i]));
        }
    }
    is_ascii_chars_encode_utf8(h);
}

/// The four key families never collide.
proof fn lemma_keys_distinct(h: Seq<char>, n: u64)
    requires
        hashlike(h),
    ensures
        hash_key(h) != last_key(),
        hash_key(h) != first_key(),
        hash_key(h) != height_key(n),
        last_key() != first_key(),
        last_key() != height_key(n),
        first_key() != height_key(n),
{
    lemma_hash_key_len(h);
    lemma_height_key_len(n);
    lemma_height_key_digits(n);
    assert(last_key().len() == 4);
    assert(first_key().len() == 5);
    if height_key(n).len() == 4 {
        assert(height_key(n)[0] != last_key()[0]);
    }
    if height_key(n).len() == 5 {
        assert(height_key(n)[0] != first_key()[0]);
    }
}

// ---------------------------------------------------------------------------
// The chain store.
// ---------------------------------------------------------------------------

/// A sound block record sits under `h`: present, decodable, stored under its
/// own hash, and internally consistent.
pub open spec fn good_record(kv: Map<Seq<u8>, Seq<u8>>, h: Seq<char>) -> bool {
    &&& kv.contains_key(hash_key(h))
    &&& match spec_dec_block(kv[hash_key(h)]) {
        Some(b) => b.hash == h && block_wf(b),
        None => false,
    }
}

/// The persistent chain: the blocks oldest-first, the hash of the tip, and
/// the handle of the key-value store every block is mirrored in.
pub struct Blockchain {
    blocks: Vec<Block>,
    current_hash: String,
    db: sled::Db,
}

/// The blocks link into a proof-of-work chain: heights are the positions,
/// each block names its parent's hash, the genesis has no parent, and every
/// block is sealed (`block_wf`).
pub open spec fn chain_linked(c: Seq<BlockView>) -> bool {
    &&& c.len() >= 1
    &&& c[0].prev_block_hash.len() == 0
    &&& forall|i: int| 0 <= i < c.len() ==> (#[trigger] c[i]).height == i
    &&& forall|i: int| 1 <= i < c.len() ==> (#[trigger] c[i]).prev_block_hash == c[i - 1].hash
    &&& forall|i: int| 0 <= i < c.len() ==> block_wf(#[trigger] c[i])
}

/// The store mirrors the chain: every block sits under its hash, "LAST" and
/// "FIRST" resolve to the tip and genesis hashes, and the height index maps
/// each height below the tip to the hash of the block one above it.
pub open spec fn store_ok(c: Seq<BlockView>, kv: Map<Seq<u8>, Seq<u8>>) -> bool {
    &&& forall|i: int|
        0 <= i < c.len() ==> {
            &&& kv.contains_key(hash_key((#[trigger] c[i]).hash))
            &&& spec_dec_block(kv[hash_key(c[i].hash)]) == Some(c[i])
        }
    &&& kv.contains_key(last_key())
    &&& dec_full_str(kv[last_key()]) == Some(c.last().hash)
    &&& kv.contains_key(first_key())
    &&& dec_full_str(kv[first_key()]) == Some(c[0].hash)
    &&& forall|h: int|
        0 <= h < c.len() - 1 ==> {
            &&& kv.contains_key(#[trigger] height_key(h as u64))
            &&& dec_full_str(kv[height_key(h as u64)]) == Some(c[h + 1].hash)
        }
}

impl Blockchain {
    /// The chain this store holds, as mathematical blocks, oldest first.
    pub closed spec fn chain(self) -> Seq<BlockView> {
        view_blocks(self.blocks@)
    }

    /// What the backing store holds.
    pub closed spec fn kv(self) -> Map<Seq<u8>, Seq<u8>> {
        kv_view(self.db)
    }

    /// The cached hash of the tip.
    pub closed spec fn tip_hash(self) -> Seq<char> {
        self.current_hash@
    }

    /// The store's invariant: a linked chain, faithfully mirrored, with the
    /// cached tip hash naming the last block.
    pub open spec fn wf(self) -> bool {
        &&& chain_linked(self.chain())
        &&& store_ok(self.chain(), self.kv())
        &&& self.tip_hash() == self.chain().last().hash
    }

    /// Initializes a chain in `db`: mines the genesis block around a coinbase
    /// awarding `address`, and writes the block, "LAST" and "FIRST". Existing
    /// contents of those keys are overwritten.
    pub fn create_blockchain(db: sled::Db, address: String) -> (r: Result<Blockchain, ChainError>)
        ensures
            r matches Ok(bc) ==> {
                &&& bc.wf()
                &&& bc.chain().len() == 1
                &&& bc.chain()[0].height == 0
                &&& bc.chain()[0].prev_block_hash.len() == 0
                &&& bc.chain()[0].transactions.len() == 1
                &&& crate::transactions::spec_is_coinbase(bc.chain()[0].transactions[0])
                &&& bc.chain()[0].transactions[0].vout.len() == 1
                &&& bc.chain()[0].transactions[0].vout[0].value
                    == crate::transactions::COINBASE_REWARD
                &&& bc.chain()[0].transactions[0].vout[0].script_pub_key == address@
            },
            r matches Err(e) ==> e == ChainError::StoreUnavailable || e == ChainError::ClockError
                || e == ChainError::NonceExhausted,
    {
        let mut db = db;
        proof {
            reveal_strlit("Genesis transaction");
        }
        let cbtx = match Transaction::new_coinbase(address, "Genesis transaction".to_owned()) {
            Ok(t) => t,
            Err(_) => {
                proof {
                    assert(false);
                }
                return Err(ChainError::StoreUnavailable);
            },
        };
        let genesis = match Block::new_genesis_block(cbtx) {
            Ok(b) => b,
            Err(e) => {
                return Err(e);
            },
        };
        let genesis_hash = genesis.get_hash();
        let genesis_bytes = encode_block(&genesis);
        let hash_value = encode_str_value(genesis_hash.as_str());
        let gkey = genesis_hash.as_str().as_bytes();
        if let Err(_) = kv_insert(&mut db, gkey, genesis_bytes.as_slice()) {
            return Err(ChainError::StoreUnavailable);
        }
        let lk = last_key_bytes();
        if let Err(_) = kv_insert(&mut db, lk.as_slice(), hash_value.as_slice()) {
            return Err(ChainError::StoreUnavailable);
        }
        let fk = first_key_bytes();
        if let Err(_) = kv_insert(&mut db, fk.as_slice(), hash_value.as_slice()) {
            return Err(ChainError::StoreUnavailable);
        }
        if let Err(_) = kv_flush(&mut db) {
            return Err(ChainError::StoreUnavailable);
        }
        let bc = Blockchain { blocks: vec![genesis], current_hash: genesis_hash, db };
        proof {
            let g = bc.chain()[0];
            assert(bc.chain() =~= seq![g]);
            lemma_keys_distinct(g.hash, 0);
            crate::block::lemma_dec_block(g);
            lemma_dec_full_str(g.hash);
            assert(bc.kv()[hash_key(g.hash)] == spec_enc_block(g));
            assert(bc.kv()[last_key()] == enc_str(g.hash));
            assert(bc.kv()[first_key()] == enc_str(g.hash));
        }
        Ok(bc)
    }

    /// Reads the block stored under `hash` and revalidates it: present,
    /// decodable, stored under its own hash, and internally consistent.
    fn fetch_block(db: &sled::Db, hash: &String) -> (r: Result<Block, ChainError>)
        ensures
            r matches Ok(b) ==> {
                &&& kv_view(*db).contains_key(hash_key(hash@))
                &&& spec_dec_block(kv_view(*db)[hash_key(hash@)]) == Some(b@)
                &&& b@.hash == hash@
                &&& block_wf(b@)
            },
            r matches Err(e) ==> e == ChainError::StoreUnavailable || (e == ChainError::Corrupt
                && !good_record(kv_view(*db), hash@)),
    {
        let key = hash.as_str().as_bytes();
        match kv_get(db, key) {
            Err(_) => Err(ChainError::StoreUnavailable),
            Ok(None) => Err(ChainError::Corrupt),
            Ok(Some(bytes)) => match decode_block(bytes.as_slice()) {
                None => Err(ChainError::Corrupt),
                Some(b) => {
                    if !(b.hash == *hash) {
                        return Err(ChainError::Corrupt);
                    }
                    if !b.check_integrity() {
                        return Err(ChainError::Corrupt);
                    }
                    Ok(b)
                },
            },
        }
    }

    /// Opens the chain held in `db`. With no tip pointer present, a fresh
    /// chain is initialized, its genesis coinbase awarded to "0". Otherwise
    /// the stored chain is replayed and revalidated block by block: a block
    /// contradicting its own digest, a broken link or height, or an index
    /// entry disagreeing with the chain surfaces as `Corrupt`. An
    /// already-initialized store is never written to.
    #[verifier::rlimit(100)]
    pub fn new(db: sled::Db) -> (r: Result<Blockchain, ChainError>)
        ensures
            r matches Ok(bc) ==> bc.wf(),
            r matches Ok(bc) ==> (kv_view(db).contains_key(last_key()) ==> bc.kv() == kv_view(
                db,
            )),
            r matches Ok(bc) ==> (!kv_view(db).contains_key(last_key()) ==> bc.chain().len()
                == 1),
            r matches Err(e) ==> e == ChainError::StoreUnavailable || e == ChainError::Corrupt
                || e == ChainError::ClockError || e == ChainError::NonceExhausted,
    {
        let lk = last_key_bytes();
        let tip_bytes = match kv_get(&db, lk.as_slice()) {
            Err(_) => {
                return Err(ChainError::StoreUnavailable);
            },
            Ok(None) => {
                return Self::create_blockchain(db, "0".to_owned());
            },
            Ok(Some(v)) => v,
        };
        let tip_hash = match decode_str_value(tip_bytes.as_slice()) {
            Some(s) => s,
            None => {
                return Err(ChainError::Corrupt);
            },
        };
        let tip = match Self::fetch_block(&db, &tip_hash) {
            Ok(b) => b,
            Err(e) => {
                return Err(e);
            },
        };
        let mut expected: usize = tip.get_height();
        let mut cursor: String = tip.get_prev_hash();
        let mut rev: Vec<Block> = Vec::new();
        rev.push(tip);
        loop
            invariant
                rev@.len() >= 1,
                rev@[0]@.hash == tip_hash@,
                forall|k: int| 0 <= k < rev@.len() ==> block_wf((#[trigger] rev@[k])@),
                forall|k: int|
                    0 <= k < rev@.len() ==> (#[trigger] rev@[k])@.height == expected + (rev@.len()
                        - 1 - k),
                forall|k: int|
                    0 <= k < rev@.len() ==> {
                        &&& kv_view(db).contains_key(hash_key((#[trigger] rev@[k])@.hash))
                        &&& spec_dec_block(kv_view(db)[hash_key(rev@[k]@.hash)]) == Some(rev@[k]@)
                    },
                forall|k: int|
                    0 <= k < rev@.len() - 1 ==> (#[trigger] rev@[k])@.prev_block_hash == rev@[k
                        + 1]@.hash,
                cursor@ == rev@[rev@.len() - 1]@.prev_block_hash,
            ensures
                rev@.len() >= 1,
                rev@[0]@.hash == tip_hash@,
                forall|k: int| 0 <= k < rev@.len() ==> block_wf((#[trigger] rev@[k])@),
                forall|k: int|
                    0 <= k < rev@.len() ==> (#[trigger] rev@[k])@.height == expected + (rev@.len()
                        - 1 - k),
                forall|k: int|
                    0 <= k < rev@.len() ==> {
                        &&& kv_view(db).contains_key(hash_key((#[trigger] rev@[k])@.hash))
                        &&& spec_dec_block(kv_view(db)[hash_key(rev@[k]@.hash)]) == Some(rev@[k]@)
                    },
                forall|k: int|
                    0 <= k < rev@.len() - 1 ==> (#[trigger] rev@[k])@.prev_block_hash == rev@[k
                        + 1]@.hash,
                rev@[rev@.len() - 1]@.prev_block_hash.len() == 0,
            decreases expected,
        {
            if cursor.as_str().is_empty() {
                break;
            }
            if expected == 0 {
                return Err(ChainError::Corrupt);
            }
            let b = match Self::fetch_block(&db, &cursor) {
                Ok(b) => b,
                Err(e) => {
                    return Err(e);
                },
            };
            if b.get_height() != expected - 1 {
                return Err(ChainError::Corrupt);
            }
            proof {
                lemma_walk_step(rev@, b, kv_view(db), tip_hash@, expected as int);
            }
            expected = expected - 1;
            cursor = b.get_prev_hash();
            rev.push(b);
        }
        if expected != 0 {
            return Err(ChainError::Corrupt);
        }
        // The walk must have ended at the recorded genesis.
        let glen = rev.len();
        let genesis_hash = rev[glen - 1].get_hash();
        let fk = first_key_bytes();
        match kv_get(&db, fk.as_slice()) {
            Err(_) => {
                return Err(ChainError::StoreUnavailable);
            },
            Ok(None) => {
                return Err(ChainError::Corrupt);
            },
            Ok(Some(v)) => match decode_str_value(v.as_slice()) {
                None => {
                    return Err(ChainError::Corrupt);
                },
                Some(fs) => {
                    if !(fs == genesis_hash) {
                        return Err(ChainError::Corrupt);
                    }
                },
            },
        }
        // Oldest first.
        let ghost rev0 = rev@;
        let mut blocks: Vec<Block> = Vec::new();
        while rev.len() > 0
            invariant
                rev@ == rev0.subrange(0, rev0.len() - blocks@.len()),
                blocks@.len() <= rev0.len(),
                forall|j: int|
                    0 <= j < blocks@.len() ==> #[trigger] blocks@[j] == rev0[rev0.len() - 1 - j],
            decreases rev@.len(),
        {
            proof {
                assert(rev@.last() == rev0[rev0.len() - 1 - blocks@.len()]);
                assert(rev0.subrange(0, rev0.len() - blocks@.len()).drop_last() =~= rev0.subrange(
                    0,
                    rev0.len() - (blocks@.len() + 1),
                ));
            }
            if let Some(b) = rev.pop() {
                blocks.push(b);
            }
        }
        // The height index must agree with the chain.
        let n = blocks.len();
        let mut h: usize = 0;
        while h < n - 1
            invariant
                n == blocks@.len(),
                n >= 1,
                h <= n - 1,
                forall|g: int|
                    0 <= g < h ==> {
                        &&& kv_view(db).contains_key(#[trigger] height_key(g as u64))
                        &&& dec_full_str(kv_view(db)[height_key(g as u64)]) == Some(
                            blocks@[g + 1]@.hash,
                        )
                    },
            decreases n - h,
        {
            let hk = height_key_bytes(h as u64);
            match kv_get(&db, hk.as_slice()) {
                Err(_) => {
                    return Err(ChainError::StoreUnavailable);
                },
                Ok(None) => {
                    return Err(ChainError::Corrupt);
                },
                Ok(Some(v)) => match decode_str_value(v.as_slice()) {
                    None => {
                        return Err(ChainError::Corrupt);
                    },
                    Some(s) => {
                        let want = blocks[h + 1].get_hash();
                        if !(s == want) {
                            return Err(ChainError::Corrupt);
                        }
                    },
                },
            }
            h += 1;
        }
        proof {
            lemma_replay_wf(rev0, blocks@, kv_view(db), tip_hash@);
        }
        let bc = Blockchain { blocks, current_hash: tip_hash, db };
        Ok(bc)
    }

    /// Mines a block over `data` on top of the stored tip and appends it:
    /// the block is written under its hash, "LAST" moves to it, and the
    /// height index gains the entry for the old tip's height. The store is
    /// authoritative: the tip is re-read from it, never from memory. On an
    /// error the store may be left mid-update, as the keys are not written
    /// atomically; the value should then be dropped or reopened.
    pub fn add_block(&mut self, data: Vec<Transaction>) -> (r: Result<(), ChainError>)
        requires
            old(self).wf(),
            old(self).chain().len() < usize::MAX,
        ensures
            r matches Ok(()) ==> {
                &&& final(self).wf()
                &&& final(self).chain().len() == old(self).chain().len() + 1
                &&& final(self).chain().subrange(0, old(self).chain().len() as int) == old(self).chain()
                &&& final(self).chain().last().transactions == view_transactions(data@)
                &&& final(self).chain().last().height == old(self).chain().len()
                &&& final(self).chain().last().prev_block_hash == old(self).chain().last().hash
                &&& final(self).tip_hash() == final(self).chain().last().hash
            },
            r matches Err(e) ==> e == ChainError::StoreUnavailable || e == ChainError::Corrupt
                || e == ChainError::ClockError || e == ChainError::NonceExhausted,
    {
        let lk = last_key_bytes();
        let tip_bytes = match kv_get(&self.db, lk.as_slice()) {
            Err(_) => {
                return Err(ChainError::StoreUnavailable);
            },
            Ok(None) => {
                proof {
                    assert(false);
                }
                return Err(ChainError::NotFound);
            },
            Ok(Some(v)) => v,
        };
        let tip_hash = match decode_str_value(tip_bytes.as_slice()) {
            Some(s) => s,
            None => {
                proof {
                    assert(false);
                }
                return Err(ChainError::Corrupt);
            },
        };
        let last_block = match Self::fetch_block(&self.db, &tip_hash) {
            Ok(b) => b,
            Err(e) => {
                return Err(e);
            },
        };
        proof {
            assert(last_block@ == old(self).chain().last());
        }
        let last_height = last_block.get_height();
        let nb = match Block::new_block(data, last_block.get_hash(), last_height + 1) {
            Ok(b) => b,
            Err(e) => {
                return Err(e);
            },
        };
        let nb_hash = nb.get_hash();
        // Never overwrite an existing record: a colliding digest means the
        // store can no longer be trusted.
        match kv_get(&self.db, nb_hash.as_str().as_bytes()) {
            Err(_) => {
                return Err(ChainError::StoreUnavailable);
            },
            Ok(Some(_)) => {
                return Err(ChainError::Corrupt);
            },
            Ok(None) => {},
        }
        let nb_bytes = encode_block(&nb);
        if let Err(_) = kv_insert(&mut self.db, nb_hash.as_str().as_bytes(), nb_bytes.as_slice()) {
            return Err(ChainError::StoreUnavailable);
        }
        let hv = encode_str_value(nb_hash.as_str());
        if let Err(_) = kv_insert(&mut self.db, lk.as_slice(), hv.as_slice()) {
            return Err(ChainError::StoreUnavailable);
        }
        let hk = height_key_bytes(last_height as u64);
        if let Err(_) = kv_insert(&mut self.db, hk.as_slice(), hv.as_slice()) {
            return Err(ChainError::StoreUnavailable);
        }
        proof {
            crate::block::lemma_dec_block(nb@);
            lemma_dec_full_str(nb@.hash);
            lemma_append_wf(
                old(self).chain(),
                old(self).kv(),
                nb@,
                kv_view(self.db),
                spec_enc_block(nb@),
                enc_str(nb@.hash),
            );
        }
        let ghost prev_blocks = self.blocks@;
        self.blocks.push(nb);
        self.current_hash = nb_hash;
        proof {
            crate::block::lemma_view_blocks_push(prev_blocks, self.blocks@.last());
            assert(self.chain().subrange(0, old(self).chain().len() as int) =~= old(self).chain());
        }
        Ok(())
    }

    /// The block stored under `hash`, if any; `Corrupt` when a record is
    /// present but does not decode.
    pub fn get_block_by_hash(&self, hash: String) -> (r: Result<Option<Block>, ChainError>)
        ensures
            match r {
                Ok(Some(b)) => self.kv().contains_key(hash_key(hash@)) && spec_dec_block(
                    self.kv()[hash_key(hash@)],
                ) == Some(b@),
                Ok(None) => !self.kv().contains_key(hash_key(hash@)),
                Err(e) => e == ChainError::StoreUnavailable || (e == ChainError::Corrupt
                    && self.kv().contains_key(hash_key(hash@)) && spec_dec_block(
                    self.kv()[hash_key(hash@)],
                ) is None),
            },
    {
        match kv_get(&self.db, hash.as_str().as_bytes()) {
            Err(_) => Err(ChainError::StoreUnavailable),
            Ok(None) => Ok(None),
            Ok(Some(bytes)) => match decode_block(bytes.as_slice()) {
                Some(b) => Ok(Some(b)),
                None => Err(ChainError::Corrupt),
            },
        }
    }

    /// The tip: the block "LAST" points to. Under the store invariant only
    /// a backend failure can keep it from being returned.
    pub fn get_last_block(&self) -> (r: Result<Block, ChainError>)
        requires
            self.wf(),
        ensures
            r matches Ok(b) ==> b@ == self.chain().last(),
            r matches Err(e) ==> e == ChainError::StoreUnavailable,
    {
        let lk = last_key_bytes();
        let tip_bytes = match kv_get(&self.db, lk.as_slice()) {
            Err(_) => {
                return Err(ChainError::StoreUnavailable);
            },
            Ok(None) => {
                proof {
                    assert(false);
                }
                return Err(ChainError::NotFound);
            },
            Ok(Some(v)) => v,
        };
        let tip_hash = match decode_str_value(tip_bytes.as_slice()) {
            Some(s) => s,
            None => {
                proof {
                    assert(false);
                }
                return Err(ChainError::Corrupt);
            },
        };
        match Self::fetch_block(&self.db, &tip_hash) {
            Ok(b) => Ok(b),
            Err(e) => {
                proof {
                    if e != ChainError::StoreUnavailable {
                        assert(false);
                    }
                }
                Err(e)
            },
        }
    }

    /// The genesis: the block "FIRST" points to.
    pub fn get_genesis_block(&self) -> (r: Result<Block, ChainError>)
        requires
            self.wf(),
        ensures
            r matches Ok(b) ==> b@ == self.chain()[0],
            r matches Err(e) ==> e == ChainError::StoreUnavailable,
    {
        let fk = first_key_bytes();
        let first_bytes = match kv_get(&self.db, fk.as_slice()) {
            Err(_) => {
                return Err(ChainError::StoreUnavailable);
            },
            Ok(None) => {
                proof {
                    assert(false);
                }
                return Err(ChainError::NotFound);
            },
            Ok(Some(v)) => v,
        };
        let first_hash = match decode_str_value(first_bytes.as_slice()) {
            Some(s) => s,
            None => {
                proof {
                    assert(false);
                }
                return Err(ChainError::Corrupt);
            },
        };
        match Self::fetch_block(&self.db, &first_hash) {
            Ok(b) => Ok(b),
            Err(e) => {
                proof {
                    if e != ChainError::StoreUnavailable {
                        assert(false);
                    }
                }
                Err(e)
            },
        }
    }

    /// Resolves the block one height above `height` through the height
    /// index, exactly as `spec_height_lookup` describes — including the two
    /// defensive fallbacks to the tip.
    pub fn get_block_with_prev_height(&self, height: usize) -> (r: Result<
        Option<Block>,
        ChainError,
    >)
        requires
            self.wf(),
        ensures
            r matches Ok(o) ==> match (o, spec_height_lookup(
                self.kv(),
                self.chain().last(),
                height as u64,
            )) {
                (Some(b), Some(bv)) => b@ == bv,
                (None, None) => true,
                _ => false,
            },
            r matches Err(e) ==> e == ChainError::StoreUnavailable,
    {
        let hk = height_key_bytes(height as u64);
        match kv_get(&self.db, hk.as_slice()) {
            Err(_) => Err(ChainError::StoreUnavailable),
            Ok(None) => Ok(None),
            Ok(Some(v)) => match decode_str_value(v.as_slice()) {
                None => Ok(None),
                Some(s) => {
                    if s.as_str().unicode_len() < 5 {
                        // The recorded hash is too short to be real: the
                        // index is off; fall back to the tip.
                        match self.get_last_block() {
                            Ok(b) => Ok(Some(b)),
                            Err(e) => Err(e),
                        }
                    } else {
                        match kv_get(&self.db, s.as_str().as_bytes()) {
                            Err(_) => Err(ChainError::StoreUnavailable),
                            Ok(None) => match self.get_last_block() {
                                Ok(b) => Ok(Some(b)),
                                Err(e) => Err(e),
                            },
                            Ok(Some(bytes)) => match decode_block(bytes.as_slice()) {
                                Some(b) => Ok(Some(b)),
                                None => Ok(None),
                            },
                        }
                    }
                },
            },
        }
    }

    /// A cursor over this chain, starting at the tip for backward steps and
    /// at the genesis for forward ones.
    pub fn iter(&self) -> (it: BlockchainIter<'_>)
        requires
            self.wf(),
        ensures
            it.wf_iter(),
            it.store() == *self,
            it.back_pos() == self.chain().len() - 1,
            it.fwd_height() == 0,
    {
        BlockchainIter {
            current_hash: self.current_hash.clone(),
            height: 0,
            bc: self,
            pos: Ghost(self.chain().len() - 1),
        }
    }

    /// Every block, newest first, read back from the store by following the
    /// hash links from the tip.
    pub fn blocks_newest_first(&self) -> (r: Result<Vec<Block>, ChainError>)
        requires
            self.wf(),
        ensures
            r matches Ok(v) ==> view_blocks(v@) == self.chain().reverse(),
            r matches Err(e) ==> e == ChainError::StoreUnavailable,
    {
        let mut it = self.iter();
        let mut out: Vec<Block> = Vec::new();
        loop
            invariant
                it.wf_iter(),
                it.bc == self,
                view_blocks(out@) == self.chain().subrange(
                    it.pos@ + 1,
                    self.chain().len() as int,
                ).reverse(),
            ensures
                it.pos@ < 0,
                view_blocks(out@) == self.chain().subrange(
                    it.pos@ + 1,
                    self.chain().len() as int,
                ).reverse(),
            decreases it.pos@ + 1,
        {
            let ghost p = it.pos@;
            match it.next() {
                Ok(Some(b)) => {
                    let ghost prev = out@;
                    out.push(b);
                    proof {
                        crate::block::lemma_view_blocks_push(prev, b);
                        let c = self.chain();
                        let nn = c.len() as int;
                        assert(c.subrange(p, nn).reverse() =~= c.subrange(p + 1, nn).reverse().push(
                            c[p],
                        ));
                    }
                },
                Ok(None) => {
                    break;
                },
                Err(e) => {
                    return Err(e);
                },
            }
        }
        proof {
            assert(self.chain().subrange(0, self.chain().len() as int) =~= self.chain());
        }
        Ok(out)
    }

    /// Every block, oldest first, read back from the store through the
    /// height index.
    pub fn blocks_oldest_first(&self) -> (r: Result<Vec<Block>, ChainError>)
        requires
            self.wf(),
        ensures
            r matches Ok(v) ==> view_blocks(v@) == self.chain(),
            r matches Err(e) ==> e == ChainError::StoreUnavailable,
    {
        let mut it = self.iter();
        let mut out: Vec<Block> = Vec::new();
        loop
            invariant
                it.wf_iter(),
                it.bc == self,
                view_blocks(out@) == self.chain().subrange(0, it.height as int),
            ensures
                it.height >= self.chain().len(),
                view_blocks(out@) == self.chain().subrange(0, it.height as int),
            decreases self.chain().len() - it.height,
        {
            let ghost h = it.height as int;
            match it.next_back() {
                Ok(Some(b)) => {
                    let ghost prev = out@;
                    out.push(b);
                    proof {
                        crate::block::lemma_view_blocks_push(prev, b);
                        assert(self.chain().subrange(0, h + 1) =~= self.chain().subrange(
                            0,
                            h,
                        ).push(self.chain()[h]));
                    }
                },
                Ok(None) => {
                    break;
                },
                Err(e) => {
                    return Err(e);
                },
            }
        }
        proof {
            assert(self.chain().subrange(0, self.chain().len() as int) =~= self.chain());
        }
        Ok(out)
    }

    /// The in-memory copy of the chain's blocks, oldest first.
    pub fn get_blocks(&self) -> (r: Vec<Block>)
        ensures
            view_blocks(r@) == self.chain(),
    {
        let mut out: Vec<Block> = Vec::new();
        let mut i: usize = 0;
        while i < self.blocks.len()
            invariant
                i <= self.blocks@.len(),
                view_blocks(out@) == self.chain().subrange(0, i as int),
            decreases self.blocks@.len() - i,
        {
            let b = copy_block(&self.blocks[i]);
            let ghost prev = out@;
            out.push(b);
            proof {
                crate::block::lemma_view_blocks_push(prev, b);
                assert(self.chain().subrange(0, i + 1) =~= self.chain().subrange(
                    0,
                    i as int,
                ).push(self.chain()[i as int]));
            }
            i += 1;
        }
        proof {
            assert(self.chain().subrange(0, self.chain().len() as int) =~= self.chain());
        }
        out
    }

    /// The blocks and the tip hash, borrowed.
    pub fn get_data(&self) -> (r: (&Vec<Block>, &String))
        ensures
            view_blocks(r.0@) == self.chain(),
            r.1@ == self.tip_hash(),
    {
        (&self.blocks, &self.current_hash)
    }
}

/// What resolving height `n` through the index yields: the hash recorded
/// under `n`'s decimal key names the block one above that height. A missing
/// or undecodable entry yields nothing; a recorded hash too short to be real
/// (shorter than 5 characters), or one whose block record is missing, falls
/// back to the tip — a defensive quirk of the index, kept deliberately.
pub open spec fn spec_height_lookup(
    kv: Map<Seq<u8>, Seq<u8>>,
    tip: BlockView,
    n: u64,
) -> Option<BlockView> {
    if !kv.contains_key(height_key(n)) {
        None
    } else {
        match dec_full_str(kv[height_key(n)]) {
            None => None,
            Some(h) => if h.len() < 5 {
                Some(tip)
            } else if !kv.contains_key(hash_key(h)) {
                Some(tip)
            } else {
                spec_dec_block(kv[hash_key(h)])
            },
        }
    }
}

/// A cursor over a chain store. Backward steps (`next`) follow each block's
/// parent hash from the tip; forward steps (`next_back`) resolve heights
/// through the height index. The two directions keep separate cursors, and
/// neither ever writes to the store.
pub struct BlockchainIter<'a> {
    current_hash: String,
    height: usize,
    bc: &'a Blockchain,
    pos: Ghost<int>,
}

impl<'a> BlockchainIter<'a> {
    /// The chain this cursor walks.
    pub closed spec fn store(self) -> Blockchain {
        *self.bc
    }

    /// The backward cursor: the index of the block `next` yields, or -1
    /// when the walk is done.
    pub closed spec fn back_pos(self) -> int {
        self.pos@
    }

    /// The forward cursor: the height `next_back` yields.
    pub closed spec fn fwd_height(self) -> int {
        self.height as int
    }

    pub open spec fn wf_iter(self) -> bool {
        &&& self.store().wf()
        &&& -1 <= self.back_pos() < self.store().chain().len()
        &&& (self.back_pos() >= 0 ==> self.current_hash_view() == self.store().chain()[self.back_pos()].hash)
        &&& (self.back_pos() < 0 ==> self.current_hash_view().len() == 0)
        &&& 0 <= self.fwd_height() <= self.store().chain().len()
    }

    pub closed spec fn current_hash_view(self) -> Seq<char> {
        self.current_hash@
    }

    /// One backward step: yields the block at the cursor and moves to its
    /// parent; `None` once the walk has passed the genesis.
    pub fn next(&mut self) -> (r: Result<Option<Block>, ChainError>)
        requires
            old(self).wf_iter(),
        ensures
            final(self).wf_iter(),
            final(self).store() == old(self).store(),
            final(self).fwd_height() == old(self).fwd_height(),
            match r {
                Ok(Some(b)) => {
                    &&& old(self).back_pos() >= 0
                    &&& b@ == old(self).store().chain()[old(self).back_pos()]
                    &&& final(self).back_pos() == old(self).back_pos() - 1
                },
                Ok(None) => old(self).back_pos() < 0 && final(self).back_pos() == old(self).back_pos(),
                Err(e) => e == ChainError::StoreUnavailable && final(self).back_pos() == old(self).back_pos() && final(self).current_hash_view() == old(self).current_hash_view(),
            },
    {
        if self.current_hash.as_str().is_empty() {
            proof {
                if self.pos@ >= 0 {
                    assert(block_wf(self.bc.chain()[self.pos@]));
                }
            }
            return Ok(None);
        }
        proof {
            assert(self.pos@ >= 0);
        }
        let b = match Blockchain::fetch_block(&self.bc.db, &self.current_hash) {
            Ok(b) => b,
            Err(e) => {
                proof {
                    let c = self.bc.chain();
                    let p = self.pos@;
                    assert(spec_dec_block(
                        kv_view(self.bc.db)[hash_key(c[p].hash)],
                    ) == Some(c[p]));
                    if e != ChainError::StoreUnavailable {
                        assert(!good_record(kv_view(self.bc.db), self.current_hash@));
                        assert(false);
                    }
                }
                return Err(ChainError::StoreUnavailable);
            },
        };
        proof {
            let c = self.bc.chain();
            let p = self.pos@;
            assert(spec_dec_block(kv_view(self.bc.db)[hash_key(c[p].hash)]) == Some(c[p]));
            assert(b@ == c[p]);
        }
        self.current_hash = b.get_prev_hash();
        proof {
            self.pos@ = self.pos@ - 1;
        }
        Ok(Some(b))
    }

    /// One forward step: yields the block at the forward height and moves
    /// up; `None` once past the tip. The genesis comes straight from its
    /// pointer; every later block resolves through the height index.
    #[verifier::rlimit(100)]
    pub fn next_back(&mut self) -> (r: Result<Option<Block>, ChainError>)
        requires
            old(self).wf_iter(),
        ensures
            final(self).wf_iter(),
            final(self).store() == old(self).store(),
            final(self).back_pos() == old(self).back_pos(),
            final(self).current_hash_view() == old(self).current_hash_view(),
            match r {
                Ok(Some(b)) => {
                    &&& old(self).fwd_height() < old(self).store().chain().len()
                    &&& b@ == old(self).store().chain()[old(self).fwd_height()]
                    &&& final(self).fwd_height() == old(self).fwd_height() + 1
                },
                Ok(None) => old(self).fwd_height() >= old(self).store().chain().len() && final(self).fwd_height() == old(self).fwd_height(),
                Err(e) => e == ChainError::StoreUnavailable && final(self).fwd_height() == old(self).fwd_height(),
            },
    {
        if self.height >= self.bc.blocks.len() {
            return Ok(None);
        }
        if self.height == 0 {
            match self.bc.get_genesis_block() {
                Ok(b) => {
                    self.height = 1;
                    Ok(Some(b))
                },
                Err(e) => Err(e),
            }
        } else {
            let h = self.height - 1;
            proof {
                lemma_height_lookup_in_range(*self.bc, h as int);
            }
            match self.bc.get_block_with_prev_height(h) {
                Ok(Some(b)) => {
                    self.height = self.height + 1;
                    Ok(Some(b))
                },
                Ok(None) => {
                    proof {
                        assert(false);
                    }
                    Ok(None)
                },
                Err(e) => Err(e),
            }
        }
    }
}

/// Below the tip, the height index resolves every height to the next block.
proof fn lemma_height_lookup_in_range(bc: Blockchain, h: int)
    requires
        bc.wf(),
        0 <= h < bc.chain().len() - 1,
    ensures
        spec_height_lookup(bc.kv(), bc.chain().last(), h as u64) == Some(bc.chain()[h + 1]),
{
    let c = bc.chain();
    let kv = bc.kv();
    assert(kv.contains_key(height_key(h as u64)));
    assert(dec_full_str(kv[height_key(h as u64)]) == Some(c[h + 1].hash));
    assert(block_wf(c[h + 1]));
    assert(c[h + 1].hash.len() == 64);
    assert(kv.contains_key(hash_key(c[h + 1].hash)));
    assert(spec_dec_block(kv[hash_key(c[h + 1].hash)]) == Some(c[h + 1]));
}

// ---------------------------------------------------------------------------
// Laws of the chain store.
// ---------------------------------------------------------------------------

/// In a valid chain every stored block validates: recomputing the digest
/// from its stored fields reproduces the stored hash, and that hash's
/// leading `TARGET_HEXT` characters are all '0'.
pub proof fn lemma_stored_blocks_validate(bc: Blockchain, i: int)
    requires
        bc.wf(),
        0 <= i < bc.chain().len(),
    ensures
        bc.chain()[i].hash == crate::digest::sha256_hex(crate::block::block_hash_input(
            bc.chain()[i],
        )),
        crate::block::spec_pow_ok(bc.chain()[i].hash),
{
    assert(block_wf(bc.chain()[i]));
}

/// For every non-genesis block, the store resolves its parent hash to a
/// block exactly one height below it.
pub proof fn lemma_prev_hash_resolves(bc: Blockchain, i: int)
    requires
        bc.wf(),
        1 <= i < bc.chain().len(),
    ensures
        bc.kv().contains_key(hash_key(bc.chain()[i].prev_block_hash)),
        spec_dec_block(bc.kv()[hash_key(bc.chain()[i].prev_block_hash)]) == Some(bc.chain()[i - 1]),
        bc.chain()[i - 1].height == bc.chain()[i].height - 1,
{
    assert(bc.chain()[i].prev_block_hash == bc.chain()[i - 1].hash);
    assert(spec_dec_block(bc.kv()[hash_key(bc.chain()[i - 1].hash)]) == Some(bc.chain()[i - 1]));
}

/// Opening the same store contents twice lands on the same tip hash and
/// the same genesis hash: a store determines them.
pub proof fn lemma_open_deterministic(a: Blockchain, b: Blockchain)
    requires
        a.wf(),
        b.wf(),
        a.kv() == b.kv(),
    ensures
        a.tip_hash() == b.tip_hash(),
        a.chain().last().hash == b.chain().last().hash,
        a.chain()[0].hash == b.chain()[0].hash,
{
    assert(Some(a.chain().last().hash) == dec_full_str(a.kv()[last_key()]));
    assert(Some(b.chain().last().hash) == dec_full_str(b.kv()[last_key()]));
    assert(Some(a.chain()[0].hash) == dec_full_str(a.kv()[first_key()]));
    assert(Some(b.chain()[0].hash) == dec_full_str(b.kv()[first_key()]));
}

/// Backward iteration from the tip, reversed, is forward iteration by
/// height: `blocks_newest_first` yields the chain reversed,
/// `blocks_oldest_first` yields it as is, and reversing the former equals
/// the latter.
pub proof fn lemma_backward_reversed_is_forward(bc: Blockchain)
    requires
        bc.wf(),
    ensures
        bc.chain().reverse().reverse() == bc.chain(),
{
    assert(bc.chain().reverse().reverse() =~= bc.chain());
}

/// One step of the replay walk: reading the parent of the oldest block seen
/// so far extends every walk invariant by one block.
proof fn lemma_walk_step(
    prev: Seq<Block>,
    b: Block,
    kv: Map<Seq<u8>, Seq<u8>>,
    tip_hash: Seq<char>,
    expected: int,
)
    requires
        prev.len() >= 1,
        expected >= 1,
        prev[0]@.hash == tip_hash,
        forall|k: int| 0 <= k < prev.len() ==> block_wf((#[trigger] prev[k])@),
        forall|k: int|
            0 <= k < prev.len() ==> (#[trigger] prev[k])@.height == expected + (prev.len() - 1
                - k),
        forall|k: int|
            0 <= k < prev.len() ==> {
                &&& kv.contains_key(hash_key((#[trigger] prev[k])@.hash))
                &&& spec_dec_block(kv[hash_key(prev[k]@.hash)]) == Some(prev[k]@)
            },
        forall|k: int|
            0 <= k < prev.len() - 1 ==> (#[trigger] prev[k])@.prev_block_hash == prev[k + 1]@.hash,
        block_wf(b@),
        kv.contains_key(hash_key(b@.hash)),
        spec_dec_block(kv[hash_key(b@.hash)]) == Some(b@),
        b@.hash == prev[prev.len() - 1]@.prev_block_hash,
        b@.height == expected - 1,
    ensures
        prev.push(b)[0]@.hash == tip_hash,
        forall|k: int| 0 <= k < prev.push(b).len() ==> block_wf((#[trigger] prev.push(b)[k])@),
        forall|k: int|
            0 <= k < prev.push(b).len() ==> (#[trigger] prev.push(b)[k])@.height == (expected - 1)
                + (prev.push(b).len() - 1 - k),
        forall|k: int|
            0 <= k < prev.push(b).len() ==> {
                &&& kv.contains_key(hash_key((#[trigger] prev.push(b)[k])@.hash))
                &&& spec_dec_block(kv[hash_key(prev.push(b)[k]@.hash)]) == Some(prev.push(b)[k]@)
            },
        forall|k: int|
            0 <= k < prev.push(b).len() - 1 ==> (#[trigger] prev.push(b)[k])@.prev_block_hash
                == prev.push(b)[k + 1]@.hash,
        prev.push(b)[prev.push(b).len() - 1]@.prev_block_hash == b@.prev_block_hash,
{
    let r2 = prev.push(b);
    assert forall|k: int| 0 <= k < r2.len() implies block_wf((#[trigger] r2[k])@) by {
        if k < prev.len() {
            assert(r2[k] == prev[k]);
        } else {
            assert(r2[k] == b);
        }
    }
    assert forall|k: int| 0 <= k < r2.len() implies (#[trigger] r2[k])@.height == (expected - 1) + (
    r2.len() - 1 - k) by {
        if k < prev.len() {
            assert(r2[k] == prev[k]);
        } else {
            assert(r2[k] == b);
        }
    }
    assert forall|k: int|
        0 <= k < r2.len() implies {
            &&& kv.contains_key(hash_key((#[trigger] r2[k])@.hash))
            &&& spec_dec_block(kv[hash_key(r2[k]@.hash)]) == Some(r2[k]@)
        } by {
        if k < prev.len() {
            assert(r2[k] == prev[k]);
            assert(kv.contains_key(hash_key(prev[k]@.hash)));
        } else {
            assert(r2[k] == b);
        }
    }
    assert forall|k: int|
        0 <= k < r2.len() - 1 implies (#[trigger] r2[k])@.prev_block_hash == r2[k + 1]@.hash by {
        assert(r2[k] == prev[k]);
        if k < prev.len() - 1 {
            assert(r2[k + 1] == prev[k + 1]);
        } else {
            assert(r2[k + 1] == b);
        }
    }
}

/// A replayed walk, reversed, is a well-formed store: the blocks read
/// newest-to-oldest satisfy, oldest-first, the chain and mirror invariants.
proof fn lemma_replay_wf(
    rev0: Seq<Block>,
    blocks: Seq<Block>,
    kv: Map<Seq<u8>, Seq<u8>>,
    tip_hash: Seq<char>,
)
    requires
        rev0.len() >= 1,
        blocks.len() == rev0.len(),
        forall|j: int| 0 <= j < blocks.len() ==> #[trigger] blocks[j] == rev0[rev0.len() - 1 - j],
        rev0[0]@.hash == tip_hash,
        forall|k: int| 0 <= k < rev0.len() ==> block_wf((#[trigger] rev0[k])@),
        forall|k: int|
            0 <= k < rev0.len() ==> (#[trigger] rev0[k])@.height == rev0.len() - 1 - k,
        forall|k: int|
            0 <= k < rev0.len() ==> {
                &&& kv.contains_key(hash_key((#[trigger] rev0[k])@.hash))
                &&& spec_dec_block(kv[hash_key(rev0[k]@.hash)]) == Some(rev0[k]@)
            },
        forall|k: int|
            0 <= k < rev0.len() - 1 ==> (#[trigger] rev0[k])@.prev_block_hash == rev0[k + 1]@.hash,
        rev0[rev0.len() - 1]@.prev_block_hash.len() == 0,
        kv.contains_key(last_key()),
        dec_full_str(kv[last_key()]) == Some(tip_hash),
        kv.contains_key(first_key()),
        dec_full_str(kv[first_key()]) == Some(rev0[rev0.len() - 1]@.hash),
        forall|g: int|
            0 <= g < blocks.len() - 1 ==> {
                &&& kv.contains_key(#[trigger] height_key(g as u64))
                &&& dec_full_str(kv[height_key(g as u64)]) == Some(blocks[g + 1]@.hash)
            },
    ensures
        chain_linked(view_blocks(blocks)),
        store_ok(view_blocks(blocks), kv),
        view_blocks(blocks).last().hash == tip_hash,
{
    let c = view_blocks(blocks);
    let n0 = rev0.len() as int;
    assert(c.len() == n0);
    assert forall|j: int| 0 <= j < n0 implies c[j] == rev0[n0 - 1 - j]@ by {
        assert(blocks[j] == rev0[n0 - 1 - j]);
    }
    assert(c[0] == rev0[n0 - 1]@);
    assert(c.last() == rev0[0]@);
    assert forall|i: int| 0 <= i < n0 implies (#[trigger] c[i]).height == i by {
        assert(c[i] == rev0[n0 - 1 - i]@);
        assert(rev0[n0 - 1 - i]@.height == n0 - 1 - (n0 - 1 - i));
    }
    assert forall|i: int| 1 <= i < n0 implies (#[trigger] c[i]).prev_block_hash == c[i
        - 1].hash by {
        let k = n0 - 1 - i;
        assert(c[i] == rev0[k]@);
        assert(c[i - 1] == rev0[k + 1]@);
        assert(rev0[k]@.prev_block_hash == rev0[k + 1]@.hash);
    }
    assert forall|i: int| 0 <= i < n0 implies block_wf(#[trigger] c[i]) by {
        assert(c[i] == rev0[n0 - 1 - i]@);
    }
    assert forall|i: int|
        0 <= i < n0 implies {
            &&& kv.contains_key(hash_key((#[trigger] c[i]).hash))
            &&& spec_dec_block(kv[hash_key(c[i].hash)]) == Some(c[i])
        } by {
        assert(c[i] == rev0[n0 - 1 - i]@);
        assert(kv.contains_key(hash_key(rev0[n0 - 1 - i]@.hash)));
    }
    assert forall|g: int|
        0 <= g < c.len() - 1 implies {
            &&& kv.contains_key(#[trigger] height_key(g as u64))
            &&& dec_full_str(kv[height_key(g as u64)]) == Some(c[g + 1].hash)
        } by {
        assert(blocks[g + 1] == rev0[n0 - 1 - (g + 1)]);
        assert(c[g + 1] == blocks[g + 1]@);
    }
}

/// Appending a freshly mined block whose record, tip pointer and index entry
/// have just been written preserves the chain and mirror invariants.
proof fn lemma_append_wf(
    c: Seq<BlockView>,
    kv0: Map<Seq<u8>, Seq<u8>>,
    nb: BlockView,
    kv3: Map<Seq<u8>, Seq<u8>>,
    bbytes: Seq<u8>,
    hbytes: Seq<u8>,
)
    requires
        chain_linked(c),
        store_ok(c, kv0),
        block_wf(nb),
        nb.height == c.len(),
        c.len() < usize::MAX,
        nb.prev_block_hash == c.last().hash,
        !kv0.contains_key(hash_key(nb.hash)),
        spec_dec_block(bbytes) == Some(nb),
        dec_full_str(hbytes) == Some(nb.hash),
        kv3 == kv0.insert(hash_key(nb.hash), bbytes).insert(last_key(), hbytes).insert(
            height_key((c.len() - 1) as u64),
            hbytes,
        ),
    ensures
        chain_linked(c.push(nb)),
        store_ok(c.push(nb), kv3),
{
    let c2 = c.push(nb);
    let hk_new = height_key((c.len() - 1) as u64);
    let k_nb = hash_key(nb.hash);
    assert(hashlike(nb.hash));
    lemma_keys_distinct(nb.hash, (c.len() - 1) as u64);
    assert(chain_linked(c2)) by {
        assert(c2[0] == c[0]);
        assert forall|i: int| 0 <= i < c2.len() implies (#[trigger] c2[i]).height == i by {
            if i < c.len() {
                assert(c2[i] == c[i]);
            }
        }
        assert forall|i: int| 1 <= i < c2.len() implies (#[trigger] c2[i]).prev_block_hash == c2[i
            - 1].hash by {
            if i < c.len() {
                assert(c2[i] == c[i]);
                assert(c2[i - 1] == c[i - 1]);
            } else {
                assert(c2[i - 1] == c[i - 1]);
            }
        }
        assert forall|i: int| 0 <= i < c2.len() implies block_wf(#[trigger] c2[i]) by {
            if i < c.len() {
                assert(c2[i] == c[i]);
            }
        }
    }
    assert forall|i: int|
        0 <= i < c2.len() implies {
            &&& kv3.contains_key(hash_key((#[trigger] c2[i]).hash))
            &&& spec_dec_block(kv3[hash_key(c2[i].hash)]) == Some(c2[i])
        } by {
        if i < c.len() {
            assert(c2[i] == c[i]);
            let ki = hash_key(c[i].hash);
            assert(kv0.contains_key(ki));
            assert(ki != k_nb);
            assert(hashlike(c[i].hash));
            lemma_keys_distinct(c[i].hash, (c.len() - 1) as u64);
            assert(kv3[ki] == kv0[ki]);
        } else {
            assert(c2[i] == nb);
            assert(kv3[k_nb] == bbytes);
        }
    }
    assert(c2.last() == nb);
    assert(kv3[last_key()] == hbytes);
    assert(c2[0] == c[0]);
    assert(kv3[first_key()] == kv0[first_key()]) by {
        lemma_keys_distinct(nb.hash, (c.len() - 1) as u64);
    }
    assert forall|h: int|
        0 <= h < c2.len() - 1 implies {
            &&& kv3.contains_key(#[trigger] height_key(h as u64))
            &&& dec_full_str(kv3[height_key(h as u64)]) == Some(c2[h + 1].hash)
        } by {
        let kh = height_key(h as u64);
        if h < c.len() - 1 {
            lemma_keys_distinct(nb.hash, h as u64);
            if kh == hk_new {
                lemma_height_key_injective(h as u64, (c.len() - 1) as u64);
            }
            assert(kh != hk_new);
            assert(kv3[kh] == kv0[kh]);
            assert(c2[h + 1] == c[h + 1]);
        } else {
            assert(h == c.len() - 1);
            assert(kv3[kh] == hbytes);
            assert(c2[h + 1] == nb);
        }
    }
}

/// A field-for-field copy with the same mathematical value. The derived
/// `Clone` carries no specification, so the library copies by hand where a
/// contract depends on it.
fn copy_block(b: &Block) -> (r: Block)
    ensures
        r@ == b@,
{
    let mut txs: Vec<Transaction> = Vec::new();
    let mut i: usize = 0;
    while i < b.transactions.len()
        invariant
            i <= b.transactions@.len(),
            crate::transactions::view_transactions(txs@) == crate::transactions::view_transactions(
                b.transactions@,
            ).subrange(0, i as int),
        decreases b.transactions@.len() - i,
    {
        let t = copy_tx(&b.transactions[i]);
        let ghost prev = txs@;
        txs.push(t);
        proof {
            let all = crate::transactions::view_transactions(b.transactions@);
            crate::transactions::lemma_view_transactions_push(prev, t);
            assert(all.subrange(0, i + 1) =~= all.subrange(0, i as int).push(all[i as int]));
        }
        i += 1;
    }
    proof {
        let all = crate::transactions::view_transactions(b.transactions@);
        assert(all.subrange(0, all.len() as int) =~= all);
    }
    Block {
        timestamp: b.timestamp,
        transactions: txs,
        prev_block_hash: b.prev_block_hash.clone(),
        hash: b.hash.clone(),
        height: b.height,
        nonce: b.nonce,
    }
}

fn copy_tx(t: &Transaction) -> (r: Transaction)
    ensures
        r@ == t@,
{
    let mut vin: Vec<crate::transactions::TXInput> = Vec::new();
    let mut i: usize = 0;
    while i < t.vin.len()
        invariant
            i <= t.vin@.len(),
            crate::transactions::view_inputs(vin@) == crate::transactions::view_inputs(
                t.vin@,
            ).subrange(0, i as int),
        decreases t.vin@.len() - i,
    {
        let src = &t.vin[i];
        let c = crate::transactions::TXInput {
            txid: src.txid.clone(),
            vout: src.vout,
            script_sig: src.script_sig.clone(),
        };
        proof {
            assert(c@ == src@);
        }
        let ghost prev = vin@;
        vin.push(c);
        proof {
            let all = crate::transactions::view_inputs(t.vin@);
            crate::transactions::lemma_view_inputs_push(prev, c);
            assert(all.subrange(0, i + 1) =~= all.subrange(0, i as int).push(all[i as int]));
        }
        i += 1;
    }
    let mut vout: Vec<crate::transactions::TXOutput> = Vec::new();
    let mut j: usize = 0;
    while j < t.vout.len()
        invariant
            j <= t.vout@.len(),
            crate::transactions::view_outputs(vout@) == crate::transactions::view_outputs(
                t.vout@,
            ).subrange(0, j as int),
        decreases t.vout@.len() - j,
    {
        let src = &t.vout[j];
        let c = crate::transactions::TXOutput {
            value: src.value,
            script_pub_key: src.script_pub_key.clone(),
        };
        proof {
            assert(c@ == src@);
        }
        let ghost prev = vout@;
        vout.push(c);
        proof {
            let all = crate::transactions::view_outputs(t.vout@);
            crate::transactions::lemma_view_outputs_push(prev, c);
            assert(all.subrange(0, j + 1) =~= all.subrange(0, j as int).push(all[j as int]));
        }
        j += 1;
    }
    proof {
        let ai = crate::transactions::view_inputs(t.vin@);
        assert(ai.subrange(0, ai.len() as int) =~= ai);
        let ao = crate::transactions::view_outputs(t.vout@);
        assert(ao.subrange(0, ao.len() as int) =~= ao);
    }
    Transaction { id: t.id.clone(), vin, vout }
}

} // verus!
