use vstd::prelude::*;
use crate::block::{Block, BlockView, view_blocks};
use crate::chain::Blockchain;
use crate::transactions::{
    spec_is_coinbase, view_outputs, TXOutput, TXOutputView, TransactionView,
};

verus! {

// ---------------------------------------------------------------------------
// What "unspent" means.
//
// A transaction spends the pair (txid, idx) for an address when one of its
// inputs references that output and carries that address as unlocking data;
// coinbase inputs reference nothing and spend nothing. An output is kept for
// an address when it is locked to the address and no transaction anywhere in
// the chain spends it.
// ---------------------------------------------------------------------------

/// The first `nj` inputs of `t` include a spend of `(txid, idx)` for `addr`.
pub open spec fn tx_spends_upto(
    t: TransactionView,
    addr: Seq<char>,
    txid: Seq<char>,
    idx: int,
    nj: int,
) -> bool {
    &&& !spec_is_coinbase(t)
    &&& exists|j: int|
        0 <= j < nj && j < t.vin.len() && (#[trigger] t.vin[j]).txid == txid && t.vin[j].vout
            == idx && t.vin[j].script_sig == addr
}

/// `t` spends `(txid, idx)` for `addr`.
pub open spec fn spec_spends(t: TransactionView, addr: Seq<char>, txid: Seq<char>, idx: int) -> bool {
    tx_spends_upto(t, addr, txid, idx, t.vin.len() as int)
}

/// One of the first `nt` transactions of `b` spends `(txid, idx)` for `addr`.
pub open spec fn block_spent_upto(
    b: BlockView,
    addr: Seq<char>,
    txid: Seq<char>,
    idx: int,
    nt: int,
) -> bool {
    exists|t: int|
        0 <= t < nt && t < b.transactions.len() && spec_spends(
            #[trigger] b.transactions[t],
            addr,
            txid,
            idx,
        )
}

/// One of the first `nb` blocks holds a spend of `(txid, idx)` for `addr`.
pub open spec fn chain_spent_upto(
    c: Seq<BlockView>,
    addr: Seq<char>,
    txid: Seq<char>,
    idx: int,
    nb: int,
) -> bool {
    exists|b: int|
        0 <= b < nb && b < c.len() && block_spent_upto(
            #[trigger] c[b],
            addr,
            txid,
            idx,
            c[b].transactions.len() as int,
        )
}

/// Some transaction in the chain spends `(txid, idx)` for `addr`.
pub open spec fn spec_spent(c: Seq<BlockView>, addr: Seq<char>, txid: Seq<char>, idx: int) -> bool {
    chain_spent_upto(c, addr, txid, idx, c.len() as int)
}

/// The output `idx` of `t` is kept for `addr`: locked to the address and
/// never spent anywhere in the chain.
pub open spec fn utxo_keeps(c: Seq<BlockView>, addr: Seq<char>, t: TransactionView, idx: int) -> bool {
    &&& 0 <= idx < t.vout.len()
    &&& t.vout[idx].script_pub_key == addr
    &&& !spec_spent(c, addr, t.id, idx)
}

// The unspent outputs, in the order the scan yields them: blocks newest to
// oldest, transactions in block order, outputs in index order.

pub open spec fn spec_tx_utxo(
    c: Seq<BlockView>,
    addr: Seq<char>,
    t: TransactionView,
    upto: int,
) -> Seq<TXOutputView>
    decreases upto,
{
    if upto <= 0 {
        Seq::<TXOutputView>::empty()
    } else {
        spec_tx_utxo(c, addr, t, upto - 1) + if utxo_keeps(c, addr, t, upto - 1) {
            seq![t.vout[upto - 1]]
        } else {
            Seq::<TXOutputView>::empty()
        }
    }
}

pub open spec fn spec_block_utxo(
    c: Seq<BlockView>,
    addr: Seq<char>,
    b: BlockView,
    upto: int,
) -> Seq<TXOutputView>
    decreases upto,
{
    if upto <= 0 {
        Seq::<TXOutputView>::empty()
    } else {
        spec_block_utxo(c, addr, b, upto - 1) + spec_tx_utxo(
            c,
            addr,
            b.transactions[upto - 1],
            b.transactions[upto - 1].vout.len() as int,
        )
    }
}

/// The outputs kept after scanning the newest `m` blocks.
pub open spec fn spec_utxo_scan(c: Seq<BlockView>, addr: Seq<char>, m: int) -> Seq<TXOutputView>
    decreases m,
{
    if m <= 0 {
        Seq::<TXOutputView>::empty()
    } else {
        spec_utxo_scan(c, addr, m - 1) + spec_block_utxo(
            c,
            addr,
            c[c.len() - m],
            c[c.len() - m].transactions.len() as int,
        )
    }
}

/// Every output in the chain locked to `addr` and spent by no transaction.
pub open spec fn spec_utxo(c: Seq<BlockView>, addr: Seq<char>) -> Seq<TXOutputView> {
    spec_utxo_scan(c, addr, c.len() as int)
}

// ---------------------------------------------------------------------------
// The executable scan: one pass to collect every spend, one to keep the
// outputs that match the address and escaped them. Interleaving the two in
// a single backward pass would miss spends recorded after the output they
// refer to; the split makes the result order-independent.
// ---------------------------------------------------------------------------

/// The pair `(txid, idx)` occurs in the spend list.
pub open spec fn listed(l: Seq<(String, i32)>, txid: Seq<char>, idx: int) -> bool {
    exists|k: int| 0 <= k < l.len() && (#[trigger] l[k]).0@ == txid && l[k].1 == idx
}

fn spent_contains(l: &Vec<(String, i32)>, txid: &String, idx: i32) -> (r: bool)
    ensures
        r == listed(l@, txid@, idx as int),
{
    let mut k: usize = 0;
    while k < l.len()
        invariant
            k <= l@.len(),
            forall|m: int| 0 <= m < k ==> !((#[trigger] l@[m]).0@ == txid@ && l@[m].1 == idx),
        decreases l@.len() - k,
    {
        let entry = &l[k];
        if entry.1 == idx && entry.0 == *txid {
            return true;
        }
        k += 1;
    }
    false
}

proof fn lemma_listed_push(l: Seq<(String, i32)>, e: (String, i32))
    ensures
        forall|txid: Seq<char>, idx: int|
            #[trigger] listed(l.push(e), txid, idx) <==> (listed(l, txid, idx) || (txid == e.0@
                && idx == e.1 as int)),
{
    assert forall|txid: Seq<char>, idx: int| #[trigger] listed(l.push(e), txid, idx) implies (
    listed(l, txid, idx) || (txid == e.0@ && idx == e.1 as int)) by {
        let k = choose|k: int|
            0 <= k < l.push(e).len() && (#[trigger] l.push(e)[k]).0@ == txid && l.push(e)[k].1
                == idx;
        if k < l.len() {
            assert(l[k].0@ == txid && l[k].1 == idx);
        }
    }
    assert forall|txid: Seq<char>, idx: int| (listed(l, txid, idx) || (txid == e.0@ && idx == e.1
        as int)) implies #[trigger] listed(l.push(e), txid, idx) by {
        if listed(l, txid, idx) {
            let k = choose|k: int| 0 <= k < l.len() && (#[trigger] l[k]).0@ == txid && l[k].1 == idx;
            assert(l.push(e)[k].0@ == txid && l.push(e)[k].1 == idx);
        } else {
            assert(l.push(e)[l.len() as int].0@ == txid && l.push(e)[l.len() as int].1 == idx);
        }
    }
}

proof fn lemma_tx_spends_step(t: TransactionView, addr: Seq<char>, txid: Seq<char>, idx: int, j: int)
    requires
        0 <= j < t.vin.len(),
        !spec_is_coinbase(t),
    ensures
        tx_spends_upto(t, addr, txid, idx, j + 1) <==> (tx_spends_upto(t, addr, txid, idx, j) || (
        t.vin[j].txid == txid && t.vin[j].vout == idx && t.vin[j].script_sig == addr)),
{
    if tx_spends_upto(t, addr, txid, idx, j + 1) {
        let w = choose|w: int|
            0 <= w < j + 1 && w < t.vin.len() && (#[trigger] t.vin[w]).txid == txid && t.vin[w].vout
                == idx && t.vin[w].script_sig == addr;
        if w < j {
            assert(tx_spends_upto(t, addr, txid, idx, j));
        }
    }
}

proof fn lemma_block_spent_step(b: BlockView, addr: Seq<char>, txid: Seq<char>, idx: int, t: int)
    requires
        0 <= t < b.transactions.len(),
    ensures
        block_spent_upto(b, addr, txid, idx, t + 1) <==> (block_spent_upto(b, addr, txid, idx, t)
            || spec_spends(b.transactions[t], addr, txid, idx)),
{
    if block_spent_upto(b, addr, txid, idx, t + 1) {
        let w = choose|w: int|
            0 <= w < t + 1 && w < b.transactions.len() && spec_spends(
                #[trigger] b.transactions[w],
                addr,
                txid,
                idx,
            );
        if w < t {
            assert(block_spent_upto(b, addr, txid, idx, t));
        }
    }
}

proof fn lemma_chain_spent_step(c: Seq<BlockView>, addr: Seq<char>, txid: Seq<char>, idx: int, b: int)
    requires
        0 <= b < c.len(),
    ensures
        chain_spent_upto(c, addr, txid, idx, b + 1) <==> (chain_spent_upto(c, addr, txid, idx, b)
            || block_spent_upto(c[b], addr, txid, idx, c[b].transactions.len() as int)),
{
    if chain_spent_upto(c, addr, txid, idx, b + 1) {
        let w = choose|w: int|
            0 <= w < b + 1 && w < c.len() && block_spent_upto(
                #[trigger] c[w],
                addr,
                txid,
                idx,
                c[w].transactions.len() as int,
            );
        if w < b {
            assert(chain_spent_upto(c, addr, txid, idx, b));
        }
    }
}

/// The first pass: every `(txid, index)` pair that any input in the chain
/// spends with `address` as its unlocking data, collected into a list.
fn find_spent_outputs(blocks: &Vec<Block>, address: &str) -> (r: Vec<(String, i32)>)
    ensures
        forall|txid: Seq<char>, idx: int|
            #[trigger] listed(r@, txid, idx) <==> spec_spent(
                view_blocks(blocks@),
                address@,
                txid,
                idx,
            ),
{
    let ghost c = view_blocks(blocks@);
    let mut spends: Vec<(String, i32)> = Vec::new();
    let mut i: usize = 0;
    while i < blocks.len()
        invariant
            i <= blocks@.len(),
            c == view_blocks(blocks@),
            forall|txid: Seq<char>, idx: int|
                #[trigger] listed(spends@, txid, idx) <==> chain_spent_upto(
                    c,
                    address@,
                    txid,
                    idx,
                    i as int,
                ),
        decreases blocks@.len() - i,
    {
        let blk = &blocks[i];
        let ghost bv = c[i as int];
        proof {
            assert(bv == blk@);
        }
        let mut t: usize = 0;
        while t < blk.transactions.len()
            invariant
                t <= blk.transactions@.len(),
                bv == blk@,
                forall|txid: Seq<char>, idx: int|
                    #[trigger] listed(spends@, txid, idx) <==> (chain_spent_upto(
                        c,
                        address@,
                        txid,
                        idx,
                        i as int,
                    ) || block_spent_upto(bv, address@, txid, idx, t as int)),
            decreases blk.transactions@.len() - t,
        {
            let tx = &blk.transactions[t];
            let ghost tv = bv.transactions[t as int];
            proof {
                assert(tv == tx@);
            }
            if !tx.is_coinbase() {
                let mut j: usize = 0;
                while j < tx.vin.len()
                    invariant
                        j <= tx.vin@.len(),
                        tv == tx@,
                        !spec_is_coinbase(tv),
                        forall|txid: Seq<char>, idx: int|
                            #[trigger] listed(spends@, txid, idx) <==> (chain_spent_upto(
                                c,
                                address@,
                                txid,
                                idx,
                                i as int,
                            ) || block_spent_upto(bv, address@, txid, idx, t as int)
                                || tx_spends_upto(tv, address@, txid, idx, j as int)),
                    decreases tx.vin@.len() - j,
                {
                    let inp = &tx.vin[j];
                    let unlocks = inp.can_be_unlock_with(address);
                    if unlocks {
                        let entry = (inp.txid.clone(), inp.vout);
                        let ghost prev = spends@;
                        proof {
                            assert(entry.0@ == tv.vin[j as int].txid);
                        }
                        spends.push(entry);
                        proof {
                            lemma_listed_push(prev, entry);
                            assert forall|txid: Seq<char>, idx: int|
                                #[trigger] listed(spends@, txid, idx) <==> (chain_spent_upto(
                                    c,
                                    address@,
                                    txid,
                                    idx,
                                    i as int,
                                ) || block_spent_upto(bv, address@, txid, idx, t as int)
                                    || tx_spends_upto(tv, address@, txid, idx, j + 1)) by {
                                lemma_tx_spends_step(tv, address@, txid, idx, j as int);
                            }
                        }
                    } else {
                        proof {
                            assert forall|txid: Seq<char>, idx: int|
                                #[trigger] listed(spends@, txid, idx) <==> (chain_spent_upto(
                                    c,
                                    address@,
                                    txid,
                                    idx,
                                    i as int,
                                ) || block_spent_upto(bv, address@, txid, idx, t as int)
                                    || tx_spends_upto(tv, address@, txid, idx, j + 1)) by {
                                lemma_tx_spends_step(tv, address@, txid, idx, j as int);
                            }
                        }
                    }
                    j += 1;
                }
                proof {
                    assert forall|txid: Seq<char>, idx: int|
                        #[trigger] listed(spends@, txid, idx) <==> (chain_spent_upto(
                            c,
                            address@,
                            txid,
                            idx,
                            i as int,
                        ) || block_spent_upto(bv, address@, txid, idx, t + 1)) by {
                        lemma_block_spent_step(bv, address@, txid, idx, t as int);
                        assert(spec_spends(bv.transactions[t as int], address@, txid, idx)
                            <==> tx_spends_upto(tv, address@, txid, idx, tv.vin.len() as int));
                    }
                }
            } else {
                proof {
                    assert forall|txid: Seq<char>, idx: int|
                        #[trigger] listed(spends@, txid, idx) <==> (chain_spent_upto(
                            c,
                            address@,
                            txid,
                            idx,
                            i as int,
                        ) || block_spent_upto(bv, address@, txid, idx, t + 1)) by {
                        lemma_block_spent_step(bv, address@, txid, idx, t as int);
                    }
                }
            }
            t += 1;
        }
        proof {
            assert forall|txid: Seq<char>, idx: int|
                #[trigger] listed(spends@, txid, idx) <==> chain_spent_upto(
                    c,
                    address@,
                    txid,
                    idx,
                    i + 1,
                ) by {
                lemma_chain_spent_step(c, address@, txid, idx, i as int);
                assert(block_spent_upto(c[i as int], address@, txid, idx, c[i as int].transactions.len() as int)
                    <==> block_spent_upto(bv, address@, txid, idx, blk.transactions@.len() as int));
            }
        }
        i += 1;
    }
    spends
}

impl Blockchain {
    /// Every unspent output locked to `address`: outputs the chain created
    /// for the address that no later transaction has spent, in scan order
    /// (newest block first). Pure: the store is not touched.
    #[allow(non_snake_case)]
    pub fn find_UTXO(&self, address: &str) -> (r: Vec<TXOutput>)
        ensures
            view_outputs(r@) == spec_utxo(self.chain(), address@),
    {
        let blocks = self.get_data().0;
        let ghost c = self.chain();
        let spends = find_spent_outputs(blocks, address);
        let mut out: Vec<TXOutput> = Vec::new();
        let n = blocks.len();
        let mut m: usize = 0;
        while m < n
            invariant
                m <= n,
                n == blocks@.len(),
                c == view_blocks(blocks@),
                forall|txid: Seq<char>, idx: int|
                    #[trigger] listed(spends@, txid, idx) <==> spec_spent(c, address@, txid, idx),
                view_outputs(out@) == spec_utxo_scan(c, address@, m as int),
            decreases n - m,
        {
            let bi = n - 1 - m;
            let blk = &blocks[bi];
            let ghost bv = c[bi as int];
            proof {
                assert(bv == blk@);
            }
            let mut t: usize = 0;
            while t < blk.transactions.len()
                invariant
                    t <= blk.transactions@.len(),
                    bv == blk@,
                    c == view_blocks(blocks@),
                    forall|txid: Seq<char>, idx: int|
                        #[trigger] listed(spends@, txid, idx) <==> spec_spent(
                            c,
                            address@,
                            txid,
                            idx,
                        ),
                    view_outputs(out@) == spec_utxo_scan(c, address@, m as int) + spec_block_utxo(
                        c,
                        address@,
                        bv,
                        t as int,
                    ),
                decreases blk.transactions@.len() - t,
            {
                let tx = &blk.transactions[t];
                let ghost tv = bv.transactions[t as int];
                proof {
                    assert(tv == tx@);
                }
                let mut idx: usize = 0;
                while idx < tx.vout.len()
                    invariant
                        idx <= tx.vout@.len(),
                        tv == tx@,
                        c == view_blocks(blocks@),
                        forall|txid: Seq<char>, jdx: int|
                            #[trigger] listed(spends@, txid, jdx) <==> spec_spent(
                                c,
                                address@,
                                txid,
                                jdx,
                            ),
                        view_outputs(out@) == spec_utxo_scan(c, address@, m as int)
                            + spec_block_utxo(c, address@, bv, t as int) + spec_tx_utxo(
                            c,
                            address@,
                            tv,
                            idx as int,
                        ),
                    decreases tx.vout@.len() - idx,
                {
                    let o = &tx.vout[idx];
                    let matches_addr = o.can_be_unlock_with(address);
                    let is_spent = if idx <= (i32::MAX as usize) {
                        spent_contains(&spends, &tx.id, idx as i32)
                    } else {
                        false
                    };
                    proof {
                        if idx > (i32::MAX as usize) {
                            if spec_spent(c, address@, tv.id, idx as int) {
                                let w = choose|w: int|
                                    0 <= w < c.len() && block_spent_upto(
                                        #[trigger] c[w],
                                        address@,
                                        tv.id,
                                        idx as int,
                                        c[w].transactions.len() as int,
                                    );
                                let wt = choose|wt: int|
                                    0 <= wt < c[w].transactions.len() && spec_spends(
                                        #[trigger] c[w].transactions[wt],
                                        address@,
                                        tv.id,
                                        idx as int,
                                    );
                                assert(false);
                            }
                        }
                        assert(is_spent == spec_spent(c, address@, tv.id, idx as int));
                    }
                    if matches_addr && !is_spent {
                        let ghost prev = out@;
                        out.push(TXOutput { value: o.value, script_pub_key: o.script_pub_key.clone() });
                        proof {
                            crate::transactions::lemma_view_outputs_push(prev, out@.last());
                            assert(utxo_keeps(c, address@, tv, idx as int));
                            assert(view_outputs(out@) =~= spec_utxo_scan(c, address@, m as int)
                                + spec_block_utxo(c, address@, bv, t as int) + spec_tx_utxo(
                                c,
                                address@,
                                tv,
                                idx + 1,
                            ));
                        }
                    } else {
                        proof {
                            assert(!utxo_keeps(c, address@, tv, idx as int));
                            assert(view_outputs(out@) =~= spec_utxo_scan(c, address@, m as int)
                                + spec_block_utxo(c, address@, bv, t as int) + spec_tx_utxo(
                                c,
                                address@,
                                tv,
                                idx + 1,
                            ));
                        }
                    }
                    idx += 1;
                }
                proof {
                    assert(view_outputs(out@) =~= spec_utxo_scan(c, address@, m as int)
                        + spec_block_utxo(c, address@, bv, t + 1));
                }
                t += 1;
            }
            proof {
                assert(c[c.len() - (m + 1)] == bv);
                assert(view_outputs(out@) =~= spec_utxo_scan(c, address@, m + 1));
            }
            m += 1;
        }
        out
    }
}

// ---------------------------------------------------------------------------
// Laws of the unspent-output scan.
// ---------------------------------------------------------------------------

/// In a chain of coinbase transactions only, nothing is ever spent: an
/// output is kept for an address exactly when it is locked to it. Every
/// coinbase award therefore stays in the unspent set.
pub proof fn lemma_utxo_all_coinbase(c: Seq<BlockView>, addr: Seq<char>)
    requires
        forall|b: int, t: int|
            0 <= b < c.len() && 0 <= t < c[b].transactions.len() ==> spec_is_coinbase(
                #[trigger] c[b].transactions[t],
            ),
    ensures
        forall|txid: Seq<char>, idx: int| !#[trigger] spec_spent(c, addr, txid, idx),
        forall|t: TransactionView, idx: int|
            #[trigger] utxo_keeps(c, addr, t, idx) <==> (0 <= idx < t.vout.len()
                && t.vout[idx].script_pub_key == addr),
{
    assert forall|txid: Seq<char>, idx: int| !#[trigger] spec_spent(c, addr, txid, idx) by {
        if spec_spent(c, addr, txid, idx) {
            let b = choose|b: int|
                0 <= b < c.len() && block_spent_upto(
                    #[trigger] c[b],
                    addr,
                    txid,
                    idx,
                    c[b].transactions.len() as int,
                );
            let t = choose|t: int|
                0 <= t < c[b].transactions.len() && spec_spends(
                    #[trigger] c[b].transactions[t],
                    addr,
                    txid,
                    idx,
                );
            assert(spec_is_coinbase(c[b].transactions[t]));
            assert(false);
        }
    }
}

proof fn lemma_tx_utxo_contains(
    c: Seq<BlockView>,
    addr: Seq<char>,
    t: TransactionView,
    i: int,
    upto: int,
)
    requires
        utxo_keeps(c, addr, t, i),
        i < upto <= t.vout.len(),
    ensures
        spec_tx_utxo(c, addr, t, upto).contains(t.vout[i]),
    decreases upto,
{
    if i == upto - 1 {
        let s = spec_tx_utxo(c, addr, t, upto);
        assert(s[s.len() - 1] == t.vout[i]);
    } else {
        lemma_tx_utxo_contains(c, addr, t, i, upto - 1);
        let s0 = spec_tx_utxo(c, addr, t, upto - 1);
        let k = choose|k: int| 0 <= k < s0.len() && s0[k] == t.vout[i];
        assert(spec_tx_utxo(c, addr, t, upto)[k] == t.vout[i]);
    }
}

proof fn lemma_block_utxo_contains(
    c: Seq<BlockView>,
    addr: Seq<char>,
    b: BlockView,
    ti: int,
    i: int,
    upto: int,
)
    requires
        0 <= ti < upto <= b.transactions.len(),
        utxo_keeps(c, addr, b.transactions[ti], i),
    ensures
        spec_block_utxo(c, addr, b, upto).contains(b.transactions[ti].vout[i]),
    decreases upto,
{
    let out = b.transactions[ti].vout[i];
    if ti == upto - 1 {
        let t = b.transactions[ti];
        lemma_tx_utxo_contains(c, addr, t, i, t.vout.len() as int);
        let s1 = spec_tx_utxo(c, addr, t, t.vout.len() as int);
        let k = choose|k: int| 0 <= k < s1.len() && s1[k] == out;
        let s0 = spec_block_utxo(c, addr, b, upto - 1);
        assert(spec_block_utxo(c, addr, b, upto)[s0.len() + k] == out);
    } else {
        lemma_block_utxo_contains(c, addr, b, ti, i, upto - 1);
        let s0 = spec_block_utxo(c, addr, b, upto - 1);
        let k = choose|k: int| 0 <= k < s0.len() && s0[k] == out;
        assert(spec_block_utxo(c, addr, b, upto)[k] == out);
    }
}

proof fn lemma_scan_contains(
    c: Seq<BlockView>,
    addr: Seq<char>,
    bi: int,
    ti: int,
    i: int,
    m: int,
)
    requires
        0 <= bi < c.len(),
        0 <= ti < c[bi].transactions.len(),
        utxo_keeps(c, addr, c[bi].transactions[ti], i),
        c.len() - bi <= m <= c.len(),
    ensures
        spec_utxo_scan(c, addr, m).contains(c[bi].transactions[ti].vout[i]),
    decreases m,
{
    let out = c[bi].transactions[ti].vout[i];
    if c.len() - m == bi {
        let b = c[bi];
        lemma_block_utxo_contains(c, addr, b, ti, i, b.transactions.len() as int);
        let s1 = spec_block_utxo(c, addr, b, b.transactions.len() as int);
        let k = choose|k: int| 0 <= k < s1.len() && s1[k] == out;
        let s0 = spec_utxo_scan(c, addr, m - 1);
        assert(spec_utxo_scan(c, addr, m)[s0.len() + k] == out);
    } else {
        lemma_scan_contains(c, addr, bi, ti, i, m - 1);
        let s0 = spec_utxo_scan(c, addr, m - 1);
        let k = choose|k: int| 0 <= k < s0.len() && s0[k] == out;
        assert(spec_utxo_scan(c, addr, m)[k] == out);
    }
}

/// A kept output really is returned: whatever sits in the chain, is locked
/// to the address, and is spent nowhere, occurs in the unspent-output set.
pub proof fn lemma_utxo_contains(c: Seq<BlockView>, addr: Seq<char>, bi: int, ti: int, i: int)
    requires
        0 <= bi < c.len(),
        0 <= ti < c[bi].transactions.len(),
        utxo_keeps(c, addr, c[bi].transactions[ti], i),
    ensures
        spec_utxo(c, addr).contains(c[bi].transactions[ti].vout[i]),
{
    lemma_scan_contains(c, addr, bi, ti, i, c.len() as int);
}

/// The spend law. Let T1 sit at `(b1, t1)` and T2 at `(b2, t2)`, where T2's
/// input `j` spends T1's output 0 with `origin` as its unlocking data, T2's
/// output 0 is locked to `a`, and nothing in the chain spends that output.
/// Then T1's output 0 is no longer kept for `origin`, while T2's output 0
/// is kept for `a` and occurs in `a`'s unspent-output set.
pub proof fn lemma_spend_law(
    c: Seq<BlockView>,
    origin: Seq<char>,
    a: Seq<char>,
    b1: int,
    t1: int,
    b2: int,
    t2: int,
    j: int,
)
    requires
        0 <= b1 < c.len(),
        0 <= t1 < c[b1].transactions.len(),
        0 <= b2 < c.len(),
        0 <= t2 < c[b2].transactions.len(),
        !spec_is_coinbase(c[b2].transactions[t2]),
        0 <= j < c[b2].transactions[t2].vin.len(),
        c[b2].transactions[t2].vin[j].txid == c[b1].transactions[t1].id,
        c[b2].transactions[t2].vin[j].vout == 0,
        c[b2].transactions[t2].vin[j].script_sig == origin,
        c[b2].transactions[t2].vout.len() >= 1,
        c[b2].transactions[t2].vout[0].script_pub_key == a,
        !spec_spent(c, a, c[b2].transactions[t2].id, 0),
    ensures
        spec_spent(c, origin, c[b1].transactions[t1].id, 0),
        !utxo_keeps(c, origin, c[b1].transactions[t1], 0),
        utxo_keeps(c, a, c[b2].transactions[t2], 0),
        spec_utxo(c, a).contains(c[b2].transactions[t2].vout[0]),
{
    let spender = c[b2].transactions[t2];
    let spent_id = c[b1].transactions[t1].id;
    assert(spender.vin[j].txid == spent_id && spender.vin[j].vout == 0
        && spender.vin[j].script_sig == origin);
    assert(spec_spends(spender, origin, spent_id, 0));
    assert(block_spent_upto(c[b2], origin, spent_id, 0, c[b2].transactions.len() as int));
    assert(spec_spent(c, origin, spent_id, 0));
    lemma_utxo_contains(c, a, b2, t2, 0);
}

} // verus!
