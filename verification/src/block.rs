use vstd::prelude::*;
use crate::clock::now_millis;
use crate::codec::{
    chunk_at, dec_i32_at, dec_str_at, dec_txs_at, dec_u128_at, dec_u64_at, enc_i32, enc_str,
    enc_txs, enc_u128, enc_u64, lemma_chunk_split, lemma_dec_i32, lemma_dec_str, lemma_dec_txs,
    lemma_dec_u128, lemma_dec_u64, read_i32, read_string, read_txs, read_u128, read_u64,
    write_i32, write_str, write_txs, write_u128, write_u64,
};
use crate::digest::{is_hex_char, sha256_hex, sha256_hex_string};
use crate::errors::ChainError;
use crate::transactions::{Transaction, TransactionView, view_transactions};

verus! {

/// How many leading hexadecimal characters of a block digest the
/// proof-of-work search drives to zero.
pub const TARGET_HEXT: usize = 4;

/// A block: sealed by a proof-of-work search, immutable after construction,
/// persisted verbatim. Its `hash` is always the digest of the other fields;
/// see `block_wf`.
#[derive(Debug, Clone)]
pub struct Block {
    pub timestamp: u128,
    pub transactions: Vec<Transaction>,
    pub prev_block_hash: String,
    pub hash: String,
    pub height: usize,
    pub nonce: i32,
}

/// The mathematical value of a `Block`.
pub ghost struct BlockView {
    pub timestamp: u128,
    pub transactions: Seq<TransactionView>,
    pub prev_block_hash: Seq<char>,
    pub hash: Seq<char>,
    pub height: usize,
    pub nonce: i32,
}

impl View for Block {
    type V = BlockView;

    open spec fn view(&self) -> BlockView {
        BlockView {
            timestamp: self.timestamp,
            transactions: view_transactions(self.transactions@),
            prev_block_hash: self.prev_block_hash@,
            hash: self.hash@,
            height: self.height,
            nonce: self.nonce,
        }
    }
}

/// The values of a sequence of blocks.
pub open spec fn view_blocks(s: Seq<Block>) -> Seq<BlockView> {
    s.map_values(|b: Block| b@)
}

pub proof fn lemma_view_blocks_push(s: Seq<Block>, x: Block)
    ensures
        view_blocks(s.push(x)) == view_blocks(s).push(x@),
{
    assert(view_blocks(s.push(x)) =~= view_blocks(s).push(x@));
}

/// The bytes a block's digest is computed over: every field but the digest
/// itself, in fixed order, with the difficulty baked in.
pub open spec fn block_hash_input(b: BlockView) -> Seq<u8> {
    enc_str(b.prev_block_hash) + enc_u64(b.transactions.len() as u64) + enc_txs(b.transactions)
        + enc_u128(b.timestamp) + enc_u64(TARGET_HEXT as u64) + enc_i32(b.nonce)
}

/// The proof-of-work predicate: a 64-character digest whose leading
/// `TARGET_HEXT` characters are all '0'.
pub open spec fn spec_pow_ok(h: Seq<char>) -> bool {
    h.len() == 64 && forall|i: int| 0 <= i < TARGET_HEXT ==> #[trigger] h[i] == '0'
}

/// A well-formed block: its stored hash really is the digest of its other
/// fields, and that digest satisfies the proof-of-work predicate.
pub open spec fn block_wf(b: BlockView) -> bool {
    &&& b.hash == sha256_hex(block_hash_input(b))
    &&& spec_pow_ok(b.hash)
    &&& forall|i: int| 0 <= i < 64 ==> is_hex_char(#[trigger] b.hash[i])
}

/// The same block with another nonce (and whatever hash).
pub open spec fn with_nonce(b: BlockView, n: i32) -> BlockView {
    BlockView { nonce: n, ..b }
}

impl Block {
    /// The canonical digest input of this block's current fields.
    fn prepare_hash_data(&self) -> (r: Vec<u8>)
        ensures
            r@ == block_hash_input(self@),
    {
        let mut data: Vec<u8> = Vec::new();
        write_str(&mut data, self.prev_block_hash.as_str());
        write_txs(&mut data, &self.transactions);
        write_u128(&mut data, self.timestamp);
        write_u64(&mut data, TARGET_HEXT as u64);
        write_i32(&mut data, self.nonce);
        proof {
            assert(data@ =~= block_hash_input(self@));
        }
        data
    }

    /// Recomputes this block's digest from its stored fields.
    pub fn compute_hash(&self) -> (r: String)
        ensures
            r@ == sha256_hex(block_hash_input(self@)),
            r@.len() == 64,
            forall|i: int| 0 <= i < 64 ==> is_hex_char(#[trigger] r@[i]),
    {
        let data = self.prepare_hash_data();
        sha256_hex_string(data.as_slice())
    }

    /// Whether the digest of the current fields meets the proof-of-work
    /// predicate. Pure: reads the block, touches nothing.
    pub fn validate(&self) -> (r: bool)
        ensures
            r == spec_pow_ok(sha256_hex(block_hash_input(self@))),
    {
        let h = self.compute_hash();
        let hs = h.as_str();
        let mut i: usize = 0;
        while i < TARGET_HEXT
            invariant
                i <= TARGET_HEXT,
                hs@ == sha256_hex(block_hash_input(self@)),
                hs@.len() == 64,
                forall|j: int| 0 <= j < i ==> #[trigger] hs@[j] == '0',
            decreases TARGET_HEXT - i,
        {
            if hs.get_char(i) != '0' {
                return false;
            }
            i += 1;
        }
        true
    }

    /// The proof-of-work search: starting at the current nonce, finds the
    /// least nonce whose digest satisfies the predicate, stamps the block
    /// with that digest, and reports exhaustion if no nonce in range works.
    fn run_proof_of_work(&mut self) -> (r: Result<(), ChainError>)
        ensures
            r matches Ok(()) ==> {
                &&& final(self).timestamp == old(self).timestamp
                &&& final(self)@.transactions == old(self)@.transactions
                &&& final(self)@.prev_block_hash == old(self)@.prev_block_hash
                &&& final(self).height == old(self).height
                &&& final(self).nonce >= old(self).nonce
                &&& block_wf(final(self)@)
                &&& forall|j: i32|
                    old(self).nonce <= j < final(self).nonce ==> !spec_pow_ok(
                        sha256_hex(block_hash_input(with_nonce(old(self)@, j))),
                    )
            },
            r matches Err(e) ==> {
                &&& e == ChainError::NonceExhausted
                &&& forall|j: i32|
                    j >= old(self).nonce ==> !spec_pow_ok(
                        sha256_hex(block_hash_input(with_nonce(old(self)@, j))),
                    )
            },
    {
        loop
            invariant
                self.timestamp == old(self).timestamp,
                self@.transactions == old(self)@.transactions,
                self@.prev_block_hash == old(self)@.prev_block_hash,
                self.height == old(self).height,
                self.nonce >= old(self).nonce,
                forall|j: i32|
                    old(self).nonce <= j < self.nonce ==> !spec_pow_ok(
                        sha256_hex(block_hash_input(with_nonce(old(self)@, j))),
                    ),
            decreases i32::MAX - self.nonce,
        {
            proof {
                assert(block_hash_input(self@) == block_hash_input(
                    with_nonce(old(self)@, self.nonce),
                ));
            }
            if self.validate() {
                let h = self.compute_hash();
                self.hash = h;
                return Ok(());
            }
            if self.nonce == i32::MAX {
                return Err(ChainError::NonceExhausted);
            }
            self.nonce = self.nonce + 1;
        }
    }

    /// Mines a block over `data` on top of `prev_block_hash` at `height`.
    /// The timestamp is read once, before the search begins. Fails only if
    /// the clock is unavailable or the nonce range is exhausted.
    pub fn new_block(data: Vec<Transaction>, prev_block_hash: String, height: usize) -> (r:
        Result<Block, ChainError>)
        ensures
            r matches Ok(b) ==> {
                &&& block_wf(b@)
                &&& b@.transactions == view_transactions(data@)
                &&& b@.prev_block_hash == prev_block_hash@
                &&& b@.height == height
            },
            r matches Err(e) ==> e == ChainError::ClockError || e == ChainError::NonceExhausted,
    {
        let timestamp = match now_millis() {
            Some(t) => t,
            None => {
                return Err(ChainError::ClockError);
            },
        };
        let mut block = Block {
            timestamp,
            transactions: data,
            prev_block_hash,
            hash: String::new(),
            height,
            nonce: 0,
        };
        match block.run_proof_of_work() {
            Ok(()) => Ok(block),
            Err(e) => Err(e),
        }
    }

    /// Mines the genesis block: height 0, empty previous hash, carrying the
    /// designated coinbase transaction.
    pub fn new_genesis_block(cbtx: Transaction) -> (r: Result<Block, ChainError>)
        ensures
            r matches Ok(b) ==> {
                &&& block_wf(b@)
                &&& b@.transactions == seq![cbtx@]
                &&& b@.prev_block_hash.len() == 0
                &&& b@.height == 0
            },
            r matches Err(e) ==> e == ChainError::ClockError || e == ChainError::NonceExhausted,
    {
        let txs = vec![cbtx];
        proof {
            assert(view_transactions(txs@) =~= seq![txs@[0]@]);
        }
        Block::new_block(txs, String::new(), 0)
    }

    /// Pure revalidation: whether the stored hash is exactly the digest of
    /// the other fields and meets the proof-of-work predicate.
    pub fn check_integrity(&self) -> (r: bool)
        ensures
            r == block_wf(self@),
    {
        let digest = self.compute_hash();
        if digest == self.hash {
            self.validate()
        } else {
            false
        }
    }

    pub fn get_hash(&self) -> (r: String)
        ensures
            r@ == self@.hash,
    {
        self.hash.clone()
    }

    pub fn get_prev_hash(&self) -> (r: String)
        ensures
            r@ == self@.prev_block_hash,
    {
        self.prev_block_hash.clone()
    }

    pub fn get_height(&self) -> (r: usize)
        ensures
            r == self@.height,
    {
        self.height
    }

    pub fn get_transaction(&self) -> (r: &Vec<Transaction>)
        ensures
            view_transactions(r@) == self@.transactions,
    {
        &self.transactions
    }
}

// ---------------------------------------------------------------------------
// The persisted form of a block, in the canonical encoding.
// ---------------------------------------------------------------------------

pub open spec fn spec_enc_block(b: BlockView) -> Seq<u8> {
    enc_u128(b.timestamp) + enc_u64(b.transactions.len() as u64) + enc_txs(b.transactions)
        + enc_str(b.prev_block_hash) + enc_str(b.hash) + enc_u64(b.height as u64) + enc_i32(b.nonce)
}

pub open spec fn spec_block_bounded(b: BlockView) -> bool {
    &&& crate::codec::str_bounded(b.prev_block_hash)
    &&& crate::codec::str_bounded(b.hash)
    &&& crate::codec::txs_bounded(b.transactions)
}

#[verifier::opaque]
pub open spec fn dec_block_view_at(b: Seq<u8>, p: int) -> Option<(BlockView, int)> {
    match dec_u128_at(b, p) {
        Some((ts, p1)) => match dec_u64_at(b, p1) {
            Some((ntx, p2)) => match dec_txs_at(b, p2, ntx as nat) {
                Some((txs, p3)) => match dec_str_at(b, p3) {
                    Some((prev, p4)) => match dec_str_at(b, p4) {
                        Some((hash, p5)) => match dec_u64_at(b, p5) {
                            Some((h, p6)) => if h <= usize::MAX {
                                match dec_i32_at(b, p6) {
                                    Some((nonce, p7)) => Some((
                                        BlockView {
                                            timestamp: ts,
                                            transactions: txs,
                                            prev_block_hash: prev,
                                            hash,
                                            height: h as usize,
                                            nonce,
                                        },
                                        p7,
                                    )),
                                    None => None,
                                }
                            } else {
                                None
                            },
                            None => None,
                        },
                        None => None,
                    },
                    None => None,
                },
                None => None,
            },
            None => None,
        },
        None => None,
    }
}

/// What a stored byte string means as a block: the whole string must decode,
/// with nothing left over.
#[verifier::opaque]
pub open spec fn spec_dec_block(bytes: Seq<u8>) -> Option<BlockView> {
    match dec_block_view_at(bytes, 0) {
        Some((bv, p)) => if p == bytes.len() {
            Some(bv)
        } else {
            None
        },
        None => None,
    }
}

/// Decoding a block's encoding yields the block back: the persisted form is
/// lossless.
pub proof fn lemma_dec_block(bv: BlockView)
    requires
        spec_block_bounded(bv),
    ensures
        spec_dec_block(spec_enc_block(bv)) == Some(bv),
{
    reveal(dec_block_view_at);
    reveal(spec_dec_block);
    vstd::bytes::lemma_auto_spec_u32_to_from_le_bytes();
    vstd::bytes::lemma_auto_spec_u64_to_from_le_bytes();
    vstd::bytes::lemma_auto_spec_u128_to_from_le_bytes();
    let b = spec_enc_block(bv);
    let a1 = enc_u128(bv.timestamp);
    let a2 = enc_u64(bv.transactions.len() as u64);
    let a3 = enc_txs(bv.transactions);
    let a4 = enc_str(bv.prev_block_hash);
    let a5 = enc_str(bv.hash);
    let a6 = enc_u64(bv.height as u64);
    let a7 = enc_i32(bv.nonce);
    assert(b =~= a1 + (a2 + (a3 + (a4 + (a5 + (a6 + a7))))));
    assert(chunk_at(b, 0, a1 + (a2 + (a3 + (a4 + (a5 + (a6 + a7))))))) by {
        assert(b.subrange(0, b.len() as int) =~= b);
    }
    lemma_chunk_split(b, 0, a1, a2 + (a3 + (a4 + (a5 + (a6 + a7)))));
    lemma_dec_u128(b, 0, bv.timestamp);
    let p1 = a1.len() as int;
    lemma_chunk_split(b, p1, a2, a3 + (a4 + (a5 + (a6 + a7))));
    lemma_dec_u64(b, p1, bv.transactions.len() as u64);
    let p2 = p1 + 8;
    lemma_chunk_split(b, p2, a3, a4 + (a5 + (a6 + a7)));
    lemma_dec_txs(b, p2, bv.transactions);
    let p3 = p2 + a3.len();
    lemma_chunk_split(b, p3, a4, a5 + (a6 + a7));
    lemma_dec_str(b, p3, bv.prev_block_hash);
    let p4 = p3 + a4.len();
    lemma_chunk_split(b, p4, a5, a6 + a7);
    lemma_dec_str(b, p4, bv.hash);
    let p5 = p4 + a5.len();
    lemma_chunk_split(b, p5, a6, a7);
    lemma_dec_u64(b, p5, bv.height as u64);
    let p6 = p5 + 8;
    lemma_dec_i32(b, p6, bv.nonce);
}

/// Serializes a block into its canonical persisted form.
pub fn encode_block(blk: &Block) -> (r: Vec<u8>)
    ensures
        r@ == spec_enc_block(blk@),
        spec_block_bounded(blk@),
{
    let mut data: Vec<u8> = Vec::new();
    write_u128(&mut data, blk.timestamp);
    write_txs(&mut data, &blk.transactions);
    write_str(&mut data, blk.prev_block_hash.as_str());
    write_str(&mut data, blk.hash.as_str());
    write_u64(&mut data, blk.height as u64);
    write_i32(&mut data, blk.nonce);
    proof {
        assert(data@ =~= spec_enc_block(blk@));
    }
    data
}

/// Deserializes a block from its persisted form; `None` on any malformed
/// input, including trailing bytes.
pub fn decode_block(bytes: &[u8]) -> (r: Option<Block>)
    ensures
        match r {
            Some(blk) => spec_dec_block(bytes@) == Some(blk@),
            None => spec_dec_block(bytes@) is None,
        },
{
    proof {
        reveal(dec_block_view_at);
        reveal(spec_dec_block);
    }
    match read_u128(bytes, 0) {
        Some((timestamp, p1)) => match read_u64(bytes, p1) {
            Some((ntx, p2)) => match read_txs(bytes, p2, ntx) {
                Some((transactions, p3)) => match read_string(bytes, p3) {
                    Some((prev_block_hash, p4)) => match read_string(bytes, p4) {
                        Some((hash, p5)) => match read_u64(bytes, p5) {
                            Some((h, p6)) => {
                                if h <= usize::MAX as u64 {
                                    match read_i32(bytes, p6) {
                                        Some((nonce, p7)) => {
                                            if p7 == bytes.len() {
                                                Some(Block {
                                                    timestamp,
                                                    transactions,
                                                    prev_block_hash,
                                                    hash,
                                                    height: h as usize,
                                                    nonce,
                                                })
                                            } else {
                                                None
                                            }
                                        },
                                        None => None,
                                    }
                                } else {
                                    None
                                }
                            },
                            None => None,
                        },
                        None => None,
                    },
                    None => None,
                },
                None => None,
            },
            None => None,
        },
        None => None,
    }
}

} // verus!
