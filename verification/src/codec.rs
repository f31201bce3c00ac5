use vstd::prelude::*;
use vstd::bytes::{
    lemma_auto_spec_u128_to_from_le_bytes, lemma_auto_spec_u32_to_from_le_bytes,
    lemma_auto_spec_u64_to_from_le_bytes, spec_u128_from_le_bytes, spec_u128_to_le_bytes,
    spec_u32_from_le_bytes, spec_u32_to_le_bytes, spec_u64_from_le_bytes, spec_u64_to_le_bytes,
    u128_from_le_bytes, u128_to_le_bytes, u32_from_le_bytes, u32_to_le_bytes, u64_from_le_bytes,
    u64_to_le_bytes,
};
use vstd::slice::{slice_subrange, slice_to_vec};
use crate::transactions::{TXInput, TXInputView, TXOutput, TXOutputView, Transaction, TransactionView, view_inputs, view_outputs, view_transactions};
use vstd::utf8::{decode_utf8, encode_utf8, encode_utf8_decode_utf8, encode_utf8_valid_utf8, valid_utf8};

verus! {

// Blocks are hashed over and persisted in a canonical, deterministic binary
// encoding with a fixed field order: little-endian fixed-width integers and
// length-prefixed byte strings. Any change to it changes every block hash.

// ---------------------------------------------------------------------------
// Specification of the encoding
// ---------------------------------------------------------------------------

pub open spec fn enc_u32(x: u32) -> Seq<u8> {
    spec_u32_to_le_bytes(x)
}

pub open spec fn enc_u64(x: u64) -> Seq<u8> {
    spec_u64_to_le_bytes(x)
}

pub open spec fn enc_u128(x: u128) -> Seq<u8> {
    spec_u128_to_le_bytes(x)
}

/// Signed 32-bit values are stored biased by 2^31, which keeps the byte
/// image a plain unsigned little-endian number.
pub open spec fn i32_bias(v: i32) -> u32 {
    (v + 0x8000_0000) as u32
}

pub open spec fn enc_i32(v: i32) -> Seq<u8> {
    enc_u32(i32_bias(v))
}

/// A byte string: its length as u64, then the bytes themselves.
pub open spec fn enc_bytes(b: Seq<u8>) -> Seq<u8> {
    enc_u64(b.len() as u64) + b
}

/// A character string: the length-prefixed UTF-8 bytes of its characters.
pub open spec fn enc_str(s: Seq<char>) -> Seq<u8> {
    enc_bytes(encode_utf8(s))
}

/// The encoding is faithful only while the length prefix does not truncate.
pub open spec fn str_bounded(s: Seq<char>) -> bool {
    encode_utf8(s).len() <= u64::MAX
}

// ---------------------------------------------------------------------------
// Specification of decoding: each reader takes the buffer and a position and
// yields the decoded value with the position one past it, or nothing.
// ---------------------------------------------------------------------------

pub open spec fn dec_u32_at(b: Seq<u8>, p: int) -> Option<(u32, int)> {
    if 0 <= p && p + 4 <= b.len() {
        Some((spec_u32_from_le_bytes(b.subrange(p, p + 4)), p + 4))
    } else {
        None
    }
}

pub open spec fn dec_u64_at(b: Seq<u8>, p: int) -> Option<(u64, int)> {
    if 0 <= p && p + 8 <= b.len() {
        Some((spec_u64_from_le_bytes(b.subrange(p, p + 8)), p + 8))
    } else {
        None
    }
}

pub open spec fn dec_u128_at(b: Seq<u8>, p: int) -> Option<(u128, int)> {
    if 0 <= p && p + 16 <= b.len() {
        Some((spec_u128_from_le_bytes(b.subrange(p, p + 16)), p + 16))
    } else {
        None
    }
}

pub open spec fn dec_i32_at(b: Seq<u8>, p: int) -> Option<(i32, int)> {
    match dec_u32_at(b, p) {
        Some((u, q)) => Some(((u - 0x8000_0000) as i32, q)),
        None => None,
    }
}

pub open spec fn dec_bytes_at(b: Seq<u8>, p: int) -> Option<(Seq<u8>, int)> {
    match dec_u64_at(b, p) {
        Some((n, q)) => if q + n <= b.len() {
            Some((b.subrange(q, q + n), q + n))
        } else {
            None
        },
        None => None,
    }
}

pub open spec fn dec_str_at(b: Seq<u8>, p: int) -> Option<(Seq<char>, int)> {
    match dec_bytes_at(b, p) {
        Some((bs, q)) => if valid_utf8(bs) {
            Some((decode_utf8(bs), q))
        } else {
            None
        },
        None => None,
    }
}

// ---------------------------------------------------------------------------
// Reading an encoded value back: decoding undoes encoding.
// ---------------------------------------------------------------------------

/// The bytes of `mid` sit in `b` at position `p` as one chunk.
pub open spec fn chunk_at(b: Seq<u8>, p: int, mid: Seq<u8>) -> bool {
    0 <= p && p + mid.len() <= b.len() && b.subrange(p, p + mid.len()) == mid
}

pub proof fn lemma_chunk_split(b: Seq<u8>, p: int, m1: Seq<u8>, m2: Seq<u8>)
    requires
        chunk_at(b, p, m1 + m2),
    ensures
        chunk_at(b, p, m1),
        chunk_at(b, p + m1.len(), m2),
{
    let whole = b.subrange(p, p + m1.len() + m2.len());
    assert forall|i: int| 0 <= i < m1.len() implies b[p + i] == m1[i] by {
        assert(whole[i] == (m1 + m2)[i]);
    }
    assert forall|i: int| 0 <= i < m2.len() implies b[p + m1.len() + i] == m2[i] by {
        assert(whole[m1.len() + i] == (m1 + m2)[m1.len() + i]);
    }
    assert(b.subrange(p, p + m1.len()) =~= m1);
    assert(b.subrange(p + m1.len(), p + m1.len() + m2.len()) =~= m2);
}

pub proof fn lemma_dec_u32(b: Seq<u8>, p: int, x: u32)
    requires
        chunk_at(b, p, enc_u32(x)),
    ensures
        dec_u32_at(b, p) == Some((x, p + 4)),
{
    lemma_auto_spec_u32_to_from_le_bytes();
    assert(b.subrange(p, p + 4) == enc_u32(x));
}

pub proof fn lemma_dec_u64(b: Seq<u8>, p: int, x: u64)
    requires
        chunk_at(b, p, enc_u64(x)),
    ensures
        dec_u64_at(b, p) == Some((x, p + 8)),
{
    lemma_auto_spec_u64_to_from_le_bytes();
    assert(b.subrange(p, p + 8) == enc_u64(x));
}

pub proof fn lemma_dec_u128(b: Seq<u8>, p: int, x: u128)
    requires
        chunk_at(b, p, enc_u128(x)),
    ensures
        dec_u128_at(b, p) == Some((x, p + 16)),
{
    lemma_auto_spec_u128_to_from_le_bytes();
    assert(b.subrange(p, p + 16) == enc_u128(x));
}

pub proof fn lemma_dec_i32(b: Seq<u8>, p: int, v: i32)
    requires
        chunk_at(b, p, enc_i32(v)),
    ensures
        dec_i32_at(b, p) == Some((v, p + 4)),
{
    lemma_dec_u32(b, p, i32_bias(v));
}

pub proof fn lemma_dec_bytes(b: Seq<u8>, p: int, bs: Seq<u8>)
    requires
        chunk_at(b, p, enc_bytes(bs)),
        bs.len() <= u64::MAX,
    ensures
        dec_bytes_at(b, p) == Some((bs, p + enc_bytes(bs).len())),
{
    lemma_auto_spec_u64_to_from_le_bytes();
    lemma_chunk_split(b, p, enc_u64(bs.len() as u64), bs);
    lemma_dec_u64(b, p, bs.len() as u64);
    assert(b.subrange(p + 8, p + 8 + bs.len()) == bs);
}

pub proof fn lemma_dec_str(b: Seq<u8>, p: int, s: Seq<char>)
    requires
        chunk_at(b, p, enc_str(s)),
        str_bounded(s),
    ensures
        dec_str_at(b, p) == Some((s, p + enc_str(s).len())),
{
    lemma_dec_bytes(b, p, encode_utf8(s));
    encode_utf8_valid_utf8(s);
    encode_utf8_decode_utf8(s);
}

// ---------------------------------------------------------------------------
// Executable writers: each appends the encoding of one value to `dst`.
// ---------------------------------------------------------------------------

pub(crate) fn push_slice(dst: &mut Vec<u8>, src: &[u8])
    ensures
        final(dst)@ == old(dst)@ + src@,
{
    let mut i: usize = 0;
    while i < src.len()
        invariant
            i <= src@.len(),
            dst@ == old(dst)@ + src@.subrange(0, i as int),
        decreases src@.len() - i,
    {
        dst.push(src[i]);
        assert(src@.subrange(0, i + 1) =~= src@.subrange(0, i as int).push(src@[i as int]));
        i += 1;
    }
    assert(src@.subrange(0, src@.len() as int) =~= src@);
}

pub(crate) fn write_u32(dst: &mut Vec<u8>, x: u32)
    ensures
        final(dst)@ == old(dst)@ + enc_u32(x),
{
    let bytes = u32_to_le_bytes(x);
    push_slice(dst, bytes.as_slice());
}

pub(crate) fn write_u64(dst: &mut Vec<u8>, x: u64)
    ensures
        final(dst)@ == old(dst)@ + enc_u64(x),
{
    let bytes = u64_to_le_bytes(x);
    push_slice(dst, bytes.as_slice());
}

pub(crate) fn write_u128(dst: &mut Vec<u8>, x: u128)
    ensures
        final(dst)@ == old(dst)@ + enc_u128(x),
{
    let bytes = u128_to_le_bytes(x);
    push_slice(dst, bytes.as_slice());
}

pub(crate) fn write_i32(dst: &mut Vec<u8>, v: i32)
    ensures
        final(dst)@ == old(dst)@ + enc_i32(v),
{
    let biased: u32 = ((v as i64) + 0x8000_0000i64) as u32;
    assert(biased == i32_bias(v));
    write_u32(dst, biased);
}

pub(crate) fn write_bytes(dst: &mut Vec<u8>, src: &[u8])
    requires
        src@.len() <= u64::MAX,
    ensures
        final(dst)@ == old(dst)@ + enc_bytes(src@),
{
    write_u64(dst, src.len() as u64);
    push_slice(dst, src);
    assert(dst@ =~= old(dst)@ + enc_bytes(src@));
}

pub(crate) fn write_str(dst: &mut Vec<u8>, s: &str)
    ensures
        final(dst)@ == old(dst)@ + enc_str(s@),
        str_bounded(s@),
{
    let bytes = s.as_bytes();
    let n: usize = bytes.len();
    proof {
        assert(bytes@.len() == n);
        assert(n <= u64::MAX);
    }
    write_bytes(dst, bytes);
}

// ---------------------------------------------------------------------------
// Executable readers: each mirrors the specification decoder exactly.
// ---------------------------------------------------------------------------

pub(crate) fn read_u32(b: &[u8], p: usize) -> (r: Option<(u32, usize)>)
    ensures
        match r {
            Some((x, q)) => dec_u32_at(b@, p as int) == Some((x, q as int)),
            None => dec_u32_at(b@, p as int) is None,
        },
{
    if p <= b.len() && b.len() - p >= 4 {
        let s = slice_subrange(b, p, p + 4);
        Some((u32_from_le_bytes(s), p + 4))
    } else {
        None
    }
}

pub(crate) fn read_u64(b: &[u8], p: usize) -> (r: Option<(u64, usize)>)
    ensures
        match r {
            Some((x, q)) => dec_u64_at(b@, p as int) == Some((x, q as int)),
            None => dec_u64_at(b@, p as int) is None,
        },
{
    if p <= b.len() && b.len() - p >= 8 {
        let s = slice_subrange(b, p, p + 8);
        Some((u64_from_le_bytes(s), p + 8))
    } else {
        None
    }
}

pub(crate) fn read_u128(b: &[u8], p: usize) -> (r: Option<(u128, usize)>)
    ensures
        match r {
            Some((x, q)) => dec_u128_at(b@, p as int) == Some((x, q as int)),
            None => dec_u128_at(b@, p as int) is None,
        },
{
    if p <= b.len() && b.len() - p >= 16 {
        let s = slice_subrange(b, p, p + 16);
        Some((u128_from_le_bytes(s), p + 16))
    } else {
        None
    }
}

pub(crate) fn read_i32(b: &[u8], p: usize) -> (r: Option<(i32, usize)>)
    ensures
        match r {
            Some((v, q)) => dec_i32_at(b@, p as int) == Some((v, q as int)),
            None => dec_i32_at(b@, p as int) is None,
        },
{
    match read_u32(b, p) {
        Some((u, q)) => {
            let v: i32 = ((u as i64) - 0x8000_0000i64) as i32;
            Some((v, q))
        },
        None => None,
    }
}

pub(crate) fn read_bytes(b: &[u8], p: usize) -> (r: Option<(Vec<u8>, usize)>)
    ensures
        match r {
            Some((v, q)) => dec_bytes_at(b@, p as int) == Some((v@, q as int)),
            None => dec_bytes_at(b@, p as int) is None,
        },
{
    match read_u64(b, p) {
        Some((n, q)) => {
            if n <= (b.len() - q) as u64 {
                let m = n as usize;
                let s = slice_subrange(b, q, q + m);
                Some((slice_to_vec(s), q + m))
            } else {
                None
            }
        },
        None => None,
    }
}

pub(crate) fn read_string(b: &[u8], p: usize) -> (r: Option<(String, usize)>)
    ensures
        match r {
            Some((s, q)) => dec_str_at(b@, p as int) == Some((s@, q as int)),
            None => dec_str_at(b@, p as int) is None,
        },
{
    match read_bytes(b, p) {
        Some((bytes, q)) => match String::from_utf8(bytes) {
            Ok(s) => Some((s, q)),
            Err(_) => None,
        },
        None => None,
    }
}

// ---------------------------------------------------------------------------
// A whole value stored as one string: used for the pointer records.
// ---------------------------------------------------------------------------

/// What a stored byte string means as a character string: the whole string
/// must decode, with nothing left over.
#[verifier::opaque]
pub open spec fn dec_full_str(bytes: Seq<u8>) -> Option<Seq<char>> {
    match dec_str_at(bytes, 0) {
        Some((s, p)) => if p == bytes.len() {
            Some(s)
        } else {
            None
        },
        None => None,
    }
}

pub proof fn lemma_dec_full_str(s: Seq<char>)
    requires
        str_bounded(s),
    ensures
        dec_full_str(enc_str(s)) == Some(s),
{
    reveal(dec_full_str);
    let b = enc_str(s);
    assert(b.subrange(0, b.len() as int) =~= b);
    lemma_dec_str(b, 0, s);
}

pub(crate) fn encode_str_value(s: &str) -> (r: Vec<u8>)
    ensures
        r@ == enc_str(s@),
        str_bounded(s@),
{
    let mut v: Vec<u8> = Vec::new();
    write_str(&mut v, s);
    proof {
        assert(v@ =~= enc_str(s@));
    }
    v
}

pub(crate) fn decode_str_value(bytes: &[u8]) -> (r: Option<String>)
    ensures
        match r {
            Some(s) => dec_full_str(bytes@) == Some(s@),
            None => dec_full_str(bytes@) is None,
        },
{
    proof {
        reveal(dec_full_str);
    }
    match read_string(bytes, 0) {
        Some((s, p)) => if p == bytes.len() {
            Some(s)
        } else {
            None
        },
        None => None,
    }
}

// ---------------------------------------------------------------------------
// Transactions in the canonical encoding.
// ---------------------------------------------------------------------------

pub open spec fn enc_input(i: TXInputView) -> Seq<u8> {
    enc_str(i.txid) + enc_i32(i.vout) + enc_str(i.script_sig)
}

pub open spec fn enc_output(o: TXOutputView) -> Seq<u8> {
    enc_i32(o.value) + enc_str(o.script_pub_key)
}

pub open spec fn enc_inputs(s: Seq<TXInputView>) -> Seq<u8>
    decreases s.len(),
{
    if s.len() == 0 {
        Seq::<u8>::empty()
    } else {
        enc_input(s[0]) + enc_inputs(s.drop_first())
    }
}

pub open spec fn enc_outputs(s: Seq<TXOutputView>) -> Seq<u8>
    decreases s.len(),
{
    if s.len() == 0 {
        Seq::<u8>::empty()
    } else {
        enc_output(s[0]) + enc_outputs(s.drop_first())
    }
}

/// A transaction's inputs and outputs, each list prefixed by its count.
/// This is the part of a transaction that its identifier is the digest of:
/// everything but the identifier itself.
pub open spec fn enc_payload(vin: Seq<TXInputView>, vout: Seq<TXOutputView>) -> Seq<u8> {
    enc_u64(vin.len() as u64) + enc_inputs(vin) + enc_u64(vout.len() as u64) + enc_outputs(vout)
}

pub open spec fn enc_tx(t: TransactionView) -> Seq<u8> {
    enc_str(t.id) + enc_payload(t.vin, t.vout)
}

pub open spec fn enc_txs(s: Seq<TransactionView>) -> Seq<u8>
    decreases s.len(),
{
    if s.len() == 0 {
        Seq::<u8>::empty()
    } else {
        enc_tx(s[0]) + enc_txs(s.drop_first())
    }
}

pub open spec fn input_bounded(i: TXInputView) -> bool {
    str_bounded(i.txid) && str_bounded(i.script_sig)
}

pub open spec fn output_bounded(o: TXOutputView) -> bool {
    str_bounded(o.script_pub_key)
}

pub open spec fn inputs_bounded(s: Seq<TXInputView>) -> bool {
    s.len() <= u64::MAX && forall|k: int| 0 <= k < s.len() ==> input_bounded(#[trigger] s[k])
}

pub open spec fn outputs_bounded(s: Seq<TXOutputView>) -> bool {
    s.len() <= u64::MAX && forall|k: int| 0 <= k < s.len() ==> output_bounded(#[trigger] s[k])
}

pub open spec fn tx_bounded(t: TransactionView) -> bool {
    str_bounded(t.id) && inputs_bounded(t.vin) && outputs_bounded(t.vout)
}

pub open spec fn txs_bounded(s: Seq<TransactionView>) -> bool {
    s.len() <= u64::MAX && forall|k: int| 0 <= k < s.len() ==> tx_bounded(#[trigger] s[k])
}

pub open spec fn dec_input_at(b: Seq<u8>, p: int) -> Option<(TXInputView, int)> {
    match dec_str_at(b, p) {
        Some((txid, p1)) => match dec_i32_at(b, p1) {
            Some((vout, p2)) => match dec_str_at(b, p2) {
                Some((sig, p3)) => Some((TXInputView { txid, vout, script_sig: sig }, p3)),
                None => None,
            },
            None => None,
        },
        None => None,
    }
}

pub open spec fn dec_output_at(b: Seq<u8>, p: int) -> Option<(TXOutputView, int)> {
    match dec_i32_at(b, p) {
        Some((value, p1)) => match dec_str_at(b, p1) {
            Some((spk, p2)) => Some((TXOutputView { value, script_pub_key: spk }, p2)),
            None => None,
        },
        None => None,
    }
}

/// Prefixing a decoded tail with already-decoded items.
pub open spec fn dec_prepend<T>(pre: Seq<T>, o: Option<(Seq<T>, int)>) -> Option<(Seq<T>, int)> {
    match o {
        Some((rest, q)) => Some((pre + rest, q)),
        None => None,
    }
}

pub open spec fn dec_inputs_at(b: Seq<u8>, p: int, n: nat) -> Option<(Seq<TXInputView>, int)>
    decreases n,
{
    if n == 0 {
        Some((Seq::<TXInputView>::empty(), p))
    } else {
        match dec_input_at(b, p) {
            Some((i, q)) => dec_prepend(seq![i], dec_inputs_at(b, q, (n - 1) as nat)),
            None => None,
        }
    }
}

pub open spec fn dec_outputs_at(b: Seq<u8>, p: int, n: nat) -> Option<(Seq<TXOutputView>, int)>
    decreases n,
{
    if n == 0 {
        Some((Seq::<TXOutputView>::empty(), p))
    } else {
        match dec_output_at(b, p) {
            Some((o, q)) => dec_prepend(seq![o], dec_outputs_at(b, q, (n - 1) as nat)),
            None => None,
        }
    }
}

pub open spec fn dec_tx_at(b: Seq<u8>, p: int) -> Option<(TransactionView, int)> {
    match dec_str_at(b, p) {
        Some((id, p1)) => match dec_u64_at(b, p1) {
            Some((nin, p2)) => match dec_inputs_at(b, p2, nin as nat) {
                Some((vin, p3)) => match dec_u64_at(b, p3) {
                    Some((nout, p4)) => match dec_outputs_at(b, p4, nout as nat) {
                        Some((vout, p5)) => Some((TransactionView { id, vin, vout }, p5)),
                        None => None,
                    },
                    None => None,
                },
                None => None,
            },
            None => None,
        },
        None => None,
    }
}

pub open spec fn dec_txs_at(b: Seq<u8>, p: int, n: nat) -> Option<(Seq<TransactionView>, int)>
    decreases n,
{
    if n == 0 {
        Some((Seq::<TransactionView>::empty(), p))
    } else {
        match dec_tx_at(b, p) {
            Some((t, q)) => dec_prepend(seq![t], dec_txs_at(b, q, (n - 1) as nat)),
            None => None,
        }
    }
}

pub proof fn lemma_dec_input(b: Seq<u8>, p: int, i: TXInputView)
    requires
        chunk_at(b, p, enc_input(i)),
        input_bounded(i),
    ensures
        dec_input_at(b, p) == Some((i, p + enc_input(i).len())),
{
    lemma_auto_spec_u32_to_from_le_bytes();
    lemma_auto_spec_u64_to_from_le_bytes();
    assert(enc_input(i) =~= enc_str(i.txid) + (enc_i32(i.vout) + enc_str(i.script_sig)));
    lemma_chunk_split(b, p, enc_str(i.txid), enc_i32(i.vout) + enc_str(i.script_sig));
    lemma_dec_str(b, p, i.txid);
    let p1 = p + enc_str(i.txid).len();
    lemma_chunk_split(b, p1, enc_i32(i.vout), enc_str(i.script_sig));
    lemma_dec_i32(b, p1, i.vout);
    lemma_dec_str(b, p1 + 4, i.script_sig);
}

pub proof fn lemma_dec_output(b: Seq<u8>, p: int, o: TXOutputView)
    requires
        chunk_at(b, p, enc_output(o)),
        output_bounded(o),
    ensures
        dec_output_at(b, p) == Some((o, p + enc_output(o).len())),
{
    lemma_auto_spec_u32_to_from_le_bytes();
    lemma_chunk_split(b, p, enc_i32(o.value), enc_str(o.script_pub_key));
    lemma_dec_i32(b, p, o.value);
    lemma_dec_str(b, p + 4, o.script_pub_key);
}

pub proof fn lemma_dec_inputs(b: Seq<u8>, p: int, s: Seq<TXInputView>)
    requires
        chunk_at(b, p, enc_inputs(s)),
        forall|k: int| 0 <= k < s.len() ==> input_bounded(#[trigger] s[k]),
    ensures
        dec_inputs_at(b, p, s.len()) == Some((s, p + enc_inputs(s).len())),
    decreases s.len(),
{
    if s.len() == 0 {
        assert(s =~= Seq::<TXInputView>::empty());
    } else {
        lemma_chunk_split(b, p, enc_input(s[0]), enc_inputs(s.drop_first()));
        lemma_dec_input(b, p, s[0]);
        let q = p + enc_input(s[0]).len();
        lemma_dec_inputs(b, q, s.drop_first());
        assert(seq![s[0]] + s.drop_first() =~= s);
    }
}

pub proof fn lemma_dec_outputs(b: Seq<u8>, p: int, s: Seq<TXOutputView>)
    requires
        chunk_at(b, p, enc_outputs(s)),
        forall|k: int| 0 <= k < s.len() ==> output_bounded(#[trigger] s[k]),
    ensures
        dec_outputs_at(b, p, s.len()) == Some((s, p + enc_outputs(s).len())),
    decreases s.len(),
{
    if s.len() == 0 {
        assert(s =~= Seq::<TXOutputView>::empty());
    } else {
        lemma_chunk_split(b, p, enc_output(s[0]), enc_outputs(s.drop_first()));
        lemma_dec_output(b, p, s[0]);
        let q = p + enc_output(s[0]).len();
        lemma_dec_outputs(b, q, s.drop_first());
        assert(seq![s[0]] + s.drop_first() =~= s);
    }
}

pub proof fn lemma_dec_tx(b: Seq<u8>, p: int, t: TransactionView)
    requires
        chunk_at(b, p, enc_tx(t)),
        tx_bounded(t),
    ensures
        dec_tx_at(b, p) == Some((t, p + enc_tx(t).len())),
{
    lemma_auto_spec_u32_to_from_le_bytes();
    lemma_auto_spec_u64_to_from_le_bytes();
    let a1 = enc_str(t.id);
    let a2 = enc_u64(t.vin.len() as u64);
    let a3 = enc_inputs(t.vin);
    let a4 = enc_u64(t.vout.len() as u64);
    let a5 = enc_outputs(t.vout);
    assert(enc_tx(t) =~= a1 + (a2 + (a3 + (a4 + a5))));
    lemma_chunk_split(b, p, a1, a2 + (a3 + (a4 + a5)));
    lemma_dec_str(b, p, t.id);
    let p1 = p + a1.len();
    lemma_chunk_split(b, p1, a2, a3 + (a4 + a5));
    lemma_dec_u64(b, p1, t.vin.len() as u64);
    let p2 = p1 + 8;
    lemma_chunk_split(b, p2, a3, a4 + a5);
    lemma_dec_inputs(b, p2, t.vin);
    let p3 = p2 + a3.len();
    lemma_chunk_split(b, p3, a4, a5);
    lemma_dec_u64(b, p3, t.vout.len() as u64);
    let p4 = p3 + 8;
    lemma_dec_outputs(b, p4, t.vout);
}

pub proof fn lemma_dec_txs(b: Seq<u8>, p: int, s: Seq<TransactionView>)
    requires
        chunk_at(b, p, enc_txs(s)),
        forall|k: int| 0 <= k < s.len() ==> tx_bounded(#[trigger] s[k]),
    ensures
        dec_txs_at(b, p, s.len()) == Some((s, p + enc_txs(s).len())),
    decreases s.len(),
{
    if s.len() == 0 {
        assert(s =~= Seq::<TransactionView>::empty());
    } else {
        lemma_chunk_split(b, p, enc_tx(s[0]), enc_txs(s.drop_first()));
        lemma_dec_tx(b, p, s[0]);
        let q = p + enc_tx(s[0]).len();
        lemma_dec_txs(b, q, s.drop_first());
        assert(seq![s[0]] + s.drop_first() =~= s);
    }
}

// ---------------------------------------------------------------------------
// Executable transaction writers.
// ---------------------------------------------------------------------------

pub(crate) fn write_input(dst: &mut Vec<u8>, i: &TXInput)
    ensures
        final(dst)@ == old(dst)@ + enc_input(i@),
        input_bounded(i@),
{
    write_str(dst, i.txid.as_str());
    write_i32(dst, i.vout);
    write_str(dst, i.script_sig.as_str());
    assert(final(dst)@ =~= old(dst)@ + enc_input(i@));
}

pub(crate) fn write_output(dst: &mut Vec<u8>, o: &TXOutput)
    ensures
        final(dst)@ == old(dst)@ + enc_output(o@),
        output_bounded(o@),
{
    write_i32(dst, o.value);
    write_str(dst, o.script_pub_key.as_str());
    assert(final(dst)@ =~= old(dst)@ + enc_output(o@));
}

proof fn lemma_enc_inputs_push(s: Seq<TXInputView>, x: TXInputView)
    ensures
        enc_inputs(s.push(x)) == enc_inputs(s) + enc_input(x),
    decreases s.len(),
{
    if s.len() == 0 {
        assert(s.push(x).drop_first() =~= Seq::<TXInputView>::empty());
        assert(s.push(x)[0] == x);
        assert(enc_inputs(s.push(x)) == enc_input(x) + enc_inputs(Seq::<TXInputView>::empty()));
        assert(enc_inputs(s.push(x)) =~= enc_inputs(s) + enc_input(x));
    } else {
        assert(s.push(x).drop_first() =~= s.drop_first().push(x));
        assert(s.push(x)[0] == s[0]);
        assert(enc_inputs(s.push(x)) == enc_input(s[0]) + enc_inputs(s.drop_first().push(x)));
        lemma_enc_inputs_push(s.drop_first(), x);
        assert(enc_inputs(s.push(x)) =~= enc_inputs(s) + enc_input(x));
    }
}

proof fn lemma_enc_outputs_push(s: Seq<TXOutputView>, x: TXOutputView)
    ensures
        enc_outputs(s.push(x)) == enc_outputs(s) + enc_output(x),
    decreases s.len(),
{
    if s.len() == 0 {
        assert(s.push(x).drop_first() =~= Seq::<TXOutputView>::empty());
        assert(s.push(x)[0] == x);
        assert(enc_outputs(s.push(x)) == enc_output(x) + enc_outputs(Seq::<TXOutputView>::empty()));
        assert(enc_outputs(s.push(x)) =~= enc_outputs(s) + enc_output(x));
    } else {
        assert(s.push(x).drop_first() =~= s.drop_first().push(x));
        assert(s.push(x)[0] == s[0]);
        assert(enc_outputs(s.push(x)) == enc_output(s[0]) + enc_outputs(s.drop_first().push(x)));
        lemma_enc_outputs_push(s.drop_first(), x);
        assert(enc_outputs(s.push(x)) =~= enc_outputs(s) + enc_output(x));
    }
}

pub(crate) proof fn lemma_enc_txs_push(s: Seq<TransactionView>, x: TransactionView)
    ensures
        enc_txs(s.push(x)) == enc_txs(s) + enc_tx(x),
    decreases s.len(),
{
    if s.len() == 0 {
        assert(s.push(x).drop_first() =~= Seq::<TransactionView>::empty());
        assert(s.push(x)[0] == x);
        assert(enc_txs(s.push(x)) == enc_tx(x) + enc_txs(Seq::<TransactionView>::empty()));
        assert(enc_txs(s.push(x)) =~= enc_txs(s) + enc_tx(x));
    } else {
        assert(s.push(x).drop_first() =~= s.drop_first().push(x));
        assert(s.push(x)[0] == s[0]);
        assert(enc_txs(s.push(x)) == enc_tx(s[0]) + enc_txs(s.drop_first().push(x)));
        lemma_enc_txs_push(s.drop_first(), x);
        assert(enc_txs(s.push(x)) =~= enc_txs(s) + enc_tx(x));
    }
}

pub(crate) fn write_inputs(dst: &mut Vec<u8>, v: &Vec<TXInput>)
    ensures
        final(dst)@ == old(dst)@ + enc_u64(v@.len() as u64) + enc_inputs(view_inputs(v@)),
        inputs_bounded(view_inputs(v@)),
{
    let n = v.len();
    write_u64(dst, n as u64);
    let mut k: usize = 0;
    while k < n
        invariant
            k <= n,
            n == v@.len(),
            dst@ == old(dst)@ + enc_u64(v@.len() as u64) + enc_inputs(view_inputs(v@.subrange(0, k as int))),
            forall|j: int| 0 <= j < k ==> input_bounded(#[trigger] view_inputs(v@)[j]),
        decreases n - k,
    {
        write_input(dst, &v[k]);
        proof {
            let pre = v@.subrange(0, k as int);
            assert(view_inputs(v@.subrange(0, k + 1)) =~= view_inputs(pre).push(v@[k as int]@));
            lemma_enc_inputs_push(view_inputs(pre), v@[k as int]@);
            assert(view_inputs(v@)[k as int] == v@[k as int]@);
        }
        k += 1;
    }
    proof {
        assert(v@.subrange(0, v@.len() as int) =~= v@);
        assert(view_inputs(v@).len() == v@.len());
    }
}

pub(crate) fn write_outputs(dst: &mut Vec<u8>, v: &Vec<TXOutput>)
    ensures
        final(dst)@ == old(dst)@ + enc_u64(v@.len() as u64) + enc_outputs(view_outputs(v@)),
        outputs_bounded(view_outputs(v@)),
{
    let n = v.len();
    write_u64(dst, n as u64);
    let mut k: usize = 0;
    while k < n
        invariant
            k <= n,
            n == v@.len(),
            dst@ == old(dst)@ + enc_u64(v@.len() as u64) + enc_outputs(view_outputs(v@.subrange(0, k as int))),
            forall|j: int| 0 <= j < k ==> output_bounded(#[trigger] view_outputs(v@)[j]),
        decreases n - k,
    {
        write_output(dst, &v[k]);
        proof {
            let pre = v@.subrange(0, k as int);
            assert(view_outputs(v@.subrange(0, k + 1)) =~= view_outputs(pre).push(v@[k as int]@));
            lemma_enc_outputs_push(view_outputs(pre), v@[k as int]@);
            assert(view_outputs(v@)[k as int] == v@[k as int]@);
        }
        k += 1;
    }
    proof {
        assert(v@.subrange(0, v@.len() as int) =~= v@);
        assert(view_outputs(v@).len() == v@.len());
    }
}

/// Writes the identifier-free part of a transaction: what `Transaction`
/// identifiers are the digest of.
pub(crate) fn write_payload(dst: &mut Vec<u8>, vin: &Vec<TXInput>, vout: &Vec<TXOutput>)
    ensures
        final(dst)@ == old(dst)@ + enc_payload(view_inputs(vin@), view_outputs(vout@)),
        inputs_bounded(view_inputs(vin@)),
        outputs_bounded(view_outputs(vout@)),
{
    write_inputs(dst, vin);
    write_outputs(dst, vout);
    assert(final(dst)@ =~= old(dst)@ + enc_payload(view_inputs(vin@), view_outputs(vout@)));
}

pub(crate) fn write_tx(dst: &mut Vec<u8>, t: &Transaction)
    ensures
        final(dst)@ == old(dst)@ + enc_tx(t@),
        tx_bounded(t@),
{
    write_str(dst, t.id.as_str());
    write_payload(dst, &t.vin, &t.vout);
    assert(final(dst)@ =~= old(dst)@ + enc_tx(t@));
}

pub(crate) fn write_txs(dst: &mut Vec<u8>, v: &Vec<Transaction>)
    ensures
        final(dst)@ == old(dst)@ + enc_u64(v@.len() as u64) + enc_txs(view_transactions(v@)),
        txs_bounded(view_transactions(v@)),
{
    let n = v.len();
    write_u64(dst, n as u64);
    let mut k: usize = 0;
    while k < n
        invariant
            k <= n,
            n == v@.len(),
            dst@ == old(dst)@ + enc_u64(v@.len() as u64) + enc_txs(view_transactions(v@.subrange(0, k as int))),
            forall|j: int| 0 <= j < k ==> tx_bounded(#[trigger] view_transactions(v@)[j]),
        decreases n - k,
    {
        write_tx(dst, &v[k]);
        proof {
            let pre = v@.subrange(0, k as int);
            assert(view_transactions(v@.subrange(0, k + 1)) =~= view_transactions(pre).push(v@[k as int]@));
            lemma_enc_txs_push(view_transactions(pre), v@[k as int]@);
            assert(view_transactions(v@)[k as int] == v@[k as int]@);
        }
        k += 1;
    }
    proof {
        assert(v@.subrange(0, v@.len() as int) =~= v@);
        assert(view_transactions(v@).len() == v@.len());
    }
}

// ---------------------------------------------------------------------------
// Executable transaction readers.
// ---------------------------------------------------------------------------

pub(crate) fn read_input(b: &[u8], p: usize) -> (r: Option<(TXInput, usize)>)
    ensures
        match r {
            Some((i, q)) => dec_input_at(b@, p as int) == Some((i@, q as int)),
            None => dec_input_at(b@, p as int) is None,
        },
{
    match read_string(b, p) {
        Some((txid, p1)) => match read_i32(b, p1) {
            Some((vout, p2)) => match read_string(b, p2) {
                Some((script_sig, p3)) => Some((TXInput { txid, vout, script_sig }, p3)),
                None => None,
            },
            None => None,
        },
        None => None,
    }
}

pub(crate) fn read_output(b: &[u8], p: usize) -> (r: Option<(TXOutput, usize)>)
    ensures
        match r {
            Some((o, q)) => dec_output_at(b@, p as int) == Some((o@, q as int)),
            None => dec_output_at(b@, p as int) is None,
        },
{
    match read_i32(b, p) {
        Some((value, p1)) => match read_string(b, p1) {
            Some((script_pub_key, p2)) => Some((TXOutput { value, script_pub_key }, p2)),
            None => None,
        },
        None => None,
    }
}

proof fn lemma_prepend_step<T>(pre: Seq<T>, x: T, o: Option<(Seq<T>, int)>)
    ensures
        dec_prepend(pre, dec_prepend(seq![x], o)) == dec_prepend(pre.push(x), o),
{
    match o {
        Some((rest, q)) => {
            assert(pre + (seq![x] + rest) =~= pre.push(x) + rest);
        },
        None => {},
    }
}

pub(crate) fn read_inputs(b: &[u8], p: usize, n: u64) -> (r: Option<(Vec<TXInput>, usize)>)
    ensures
        match r {
            Some((v, q)) => dec_inputs_at(b@, p as int, n as nat) == Some((view_inputs(v@), q as int)),
            None => dec_inputs_at(b@, p as int, n as nat) is None,
        },
{
    let mut res: Vec<TXInput> = Vec::new();
    let mut pos: usize = p;
    let mut i: u64 = 0;
    proof {
        assert(view_inputs(res@) =~= Seq::<TXInputView>::empty());
    }
    while i < n
        invariant
            i <= n,
            dec_inputs_at(b@, p as int, n as nat) == dec_prepend(
                view_inputs(res@),
                dec_inputs_at(b@, pos as int, (n - i) as nat),
            ),
        decreases n - i,
    {
        match read_input(b, pos) {
            Some((inp, q)) => {
                proof {
                    lemma_prepend_step(view_inputs(res@), inp@, dec_inputs_at(b@, q as int, (n - i - 1) as nat));
                    assert(view_inputs(res@.push(inp)) =~= view_inputs(res@).push(inp@));
                }
                res.push(inp);
                pos = q;
                i += 1;
            },
            None => {
                return None;
            },
        }
    }
    proof {
        assert(view_inputs(res@) + Seq::<TXInputView>::empty() =~= view_inputs(res@));
    }
    Some((res, pos))
}

pub(crate) fn read_outputs(b: &[u8], p: usize, n: u64) -> (r: Option<(Vec<TXOutput>, usize)>)
    ensures
        match r {
            Some((v, q)) => dec_outputs_at(b@, p as int, n as nat) == Some((view_outputs(v@), q as int)),
            None => dec_outputs_at(b@, p as int, n as nat) is None,
        },
{
    let mut res: Vec<TXOutput> = Vec::new();
    let mut pos: usize = p;
    let mut i: u64 = 0;
    proof {
        assert(view_outputs(res@) =~= Seq::<TXOutputView>::empty());
    }
    while i < n
        invariant
            i <= n,
            dec_outputs_at(b@, p as int, n as nat) == dec_prepend(
                view_outputs(res@),
                dec_outputs_at(b@, pos as int, (n - i) as nat),
            ),
        decreases n - i,
    {
        match read_output(b, pos) {
            Some((out, q)) => {
                proof {
                    lemma_prepend_step(view_outputs(res@), out@, dec_outputs_at(b@, q as int, (n - i - 1) as nat));
                    assert(view_outputs(res@.push(out)) =~= view_outputs(res@).push(out@));
                }
                res.push(out);
                pos = q;
                i += 1;
            },
            None => {
                return None;
            },
        }
    }
    proof {
        assert(view_outputs(res@) + Seq::<TXOutputView>::empty() =~= view_outputs(res@));
    }
    Some((res, pos))
}

pub(crate) fn read_tx(b: &[u8], p: usize) -> (r: Option<(Transaction, usize)>)
    ensures
        match r {
            Some((t, q)) => dec_tx_at(b@, p as int) == Some((t@, q as int)),
            None => dec_tx_at(b@, p as int) is None,
        },
{
    match read_string(b, p) {
        Some((id, p1)) => match read_u64(b, p1) {
            Some((nin, p2)) => match read_inputs(b, p2, nin) {
                Some((vin, p3)) => match read_u64(b, p3) {
                    Some((nout, p4)) => match read_outputs(b, p4, nout) {
                        Some((vout, p5)) => Some((Transaction { id, vin, vout }, p5)),
                        None => None,
                    },
                    None => None,
                },
                None => None,
            },
            None => None,
        },
        None => None,
    }
}

pub(crate) fn read_txs(b: &[u8], p: usize, n: u64) -> (r: Option<(Vec<Transaction>, usize)>)
    ensures
        match r {
            Some((v, q)) => dec_txs_at(b@, p as int, n as nat) == Some((view_transactions(v@), q as int)),
            None => dec_txs_at(b@, p as int, n as nat) is None,
        },
{
    let mut res: Vec<Transaction> = Vec::new();
    let mut pos: usize = p;
    let mut i: u64 = 0;
    proof {
        assert(view_transactions(res@) =~= Seq::<TransactionView>::empty());
    }
    while i < n
        invariant
            i <= n,
            dec_txs_at(b@, p as int, n as nat) == dec_prepend(
                view_transactions(res@),
                dec_txs_at(b@, pos as int, (n - i) as nat),
            ),
        decreases n - i,
    {
        match read_tx(b, pos) {
            Some((t, q)) => {
                proof {
                    lemma_prepend_step(view_transactions(res@), t@, dec_txs_at(b@, q as int, (n - i - 1) as nat));
                    assert(view_transactions(res@.push(t)) =~= view_transactions(res@).push(t@));
                }
                res.push(t);
                pos = q;
                i += 1;
            },
            None => {
                return None;
            },
        }
    }
    proof {
        assert(view_transactions(res@) + Seq::<TransactionView>::empty() =~= view_transactions(res@));
    }
    Some((res, pos))
}

// ---------------------------------------------------------------------------
// The one std conversion the readers need and vstd does not specify.
// ---------------------------------------------------------------------------

#[verifier::external_type_specification]
#[verifier::external_body]
pub struct ExFromUtf8Error(std::string::FromUtf8Error);

/// Relies on std's String::from_utf8: it succeeds exactly on valid UTF-8 and
/// returns the string whose characters decode those bytes.
pub assume_specification[ String::from_utf8 ](vec: Vec<u8>) -> (r: Result<
    String,
    std::string::FromUtf8Error,
>)
    ensures
        match r {
            Ok(s) => valid_utf8(vec@) && s@ == decode_utf8(vec@),
            Err(_) => !valid_utf8(vec@),
        },
;

} // verus!
