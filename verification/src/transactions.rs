use vstd::prelude::*;
use vstd::string::StringExecFns;
use crate::codec::{enc_payload, write_payload};
use crate::digest::{sha256_hex, sha256_hex_string};
use crate::errors::ChainError;

verus! {

/// One input of a transaction: a reference to an output of an earlier
/// transaction (`txid`, `vout`), plus placeholder authorization data.
/// A coinbase input references nothing: its `txid` is empty and its
/// `vout` is the sentinel -1.
#[derive(Debug, Clone, PartialEq)]
pub struct TXInput {
    pub txid: String,
    pub vout: i32,
    pub script_sig: String,
}

/// One output of a transaction: an amount locked to an address by plain
/// string equality (a placeholder lock, not a cryptographic one).
#[derive(Debug, Clone, PartialEq)]
pub struct TXOutput {
    pub value: i32,
    pub script_pub_key: String,
}

/// A transaction: an identifier derived from its own content, the inputs it
/// spends and the outputs it creates. Immutable once embedded in a block.
#[derive(Debug, Clone, PartialEq)]
pub struct Transaction {
    pub id: String,
    pub vin: Vec<TXInput>,
    pub vout: Vec<TXOutput>,
}

/// The mathematical value of a `TXInput`.
pub ghost struct TXInputView {
    pub txid: Seq<char>,
    pub vout: i32,
    pub script_sig: Seq<char>,
}

/// The mathematical value of a `TXOutput`.
pub ghost struct TXOutputView {
    pub value: i32,
    pub script_pub_key: Seq<char>,
}

/// The mathematical value of a `Transaction`.
pub ghost struct TransactionView {
    pub id: Seq<char>,
    pub vin: Seq<TXInputView>,
    pub vout: Seq<TXOutputView>,
}

impl View for TXInput {
    type V = TXInputView;

    open spec fn view(&self) -> TXInputView {
        TXInputView { txid: self.txid@, vout: self.vout, script_sig: self.script_sig@ }
    }
}

impl View for TXOutput {
    type V = TXOutputView;

    open spec fn view(&self) -> TXOutputView {
        TXOutputView { value: self.value, script_pub_key: self.script_pub_key@ }
    }
}

/// The values of a sequence of inputs.
pub open spec fn view_inputs(s: Seq<TXInput>) -> Seq<TXInputView> {
    s.map_values(|i: TXInput| i@)
}

/// The values of a sequence of outputs.
pub open spec fn view_outputs(s: Seq<TXOutput>) -> Seq<TXOutputView> {
    s.map_values(|o: TXOutput| o@)
}

impl View for Transaction {
    type V = TransactionView;

    open spec fn view(&self) -> TransactionView {
        TransactionView { id: self.id@, vin: view_inputs(self.vin@), vout: view_outputs(self.vout@) }
    }
}

/// The values of a sequence of transactions.
pub open spec fn view_transactions(s: Seq<Transaction>) -> Seq<TransactionView> {
    s.map_values(|t: Transaction| t@)
}

pub proof fn lemma_view_inputs_push(s: Seq<TXInput>, x: TXInput)
    ensures
        view_inputs(s.push(x)) == view_inputs(s).push(x@),
{
    assert(view_inputs(s.push(x)) =~= view_inputs(s).push(x@));
}

pub proof fn lemma_view_outputs_push(s: Seq<TXOutput>, x: TXOutput)
    ensures
        view_outputs(s.push(x)) == view_outputs(s).push(x@),
{
    assert(view_outputs(s.push(x)) =~= view_outputs(s).push(x@));
}

pub proof fn lemma_view_transactions_push(s: Seq<Transaction>, x: Transaction)
    ensures
        view_transactions(s.push(x)) == view_transactions(s).push(x@),
{
    assert(view_transactions(s.push(x)) =~= view_transactions(s).push(x@));
}

/// A transaction is a coinbase exactly when it has one input whose `txid` is
/// empty and whose `vout` is the sentinel -1.
pub open spec fn spec_is_coinbase(t: TransactionView) -> bool {
    t.vin.len() == 1 && t.vin[0].txid.len() == 0 && t.vin[0].vout == -1
}

/// The amount a coinbase transaction mints for its recipient.
pub const COINBASE_REWARD: i32 = 100;

/// The authorization message a coinbase carries when the caller supplies no
/// payload of its own.
pub open spec fn reward_message(to: Seq<char>) -> Seq<char> {
    "Reward to '"@ + to + "'"@
}

impl Transaction {
    /// Builds the transaction that mints `COINBASE_REWARD` for `to`, carrying
    /// `data` (or a default message naming `to`) as its authorization data.
    /// Rejected only when both the recipient and the payload are empty.
    pub fn new_coinbase(to: String, data: String) -> (r: Result<Transaction, ChainError>)
        ensures
            r is Err <==> (to@.len() == 0 && data@.len() == 0),
            r matches Err(e) ==> e == ChainError::InvalidCoinbase,
            r matches Ok(t) ==> {
                &&& spec_is_coinbase(t@)
                &&& t@.vin.len() == 1
                &&& t@.vin[0].txid.len() == 0
                &&& t@.vin[0].vout == -1
                &&& t@.vin[0].script_sig == if data@.len() == 0 {
                    reward_message(to@)
                } else {
                    data@
                }
                &&& t@.vout.len() == 1
                &&& t@.vout[0].value == COINBASE_REWARD
                &&& t@.vout[0].script_pub_key == to@
                &&& t@.id == sha256_hex(enc_payload(t@.vin, t@.vout))
            },
    {
        if to.as_str().is_empty() && data.as_str().is_empty() {
            return Err(ChainError::InvalidCoinbase);
        }
        let script_sig = if data.as_str().is_empty() {
            let mut m = "Reward to '".to_owned();
            m.append(to.as_str());
            m.append("'");
            m
        } else {
            data
        };
        let mut tx = Transaction {
            id: String::new(),
            vin: vec![TXInput { txid: String::new(), vout: -1, script_sig }],
            vout: vec![TXOutput { value: COINBASE_REWARD, script_pub_key: to }],
        };
        match tx.set_id() {
            Ok(()) => Ok(tx),
            Err(e) => Err(e),
        }
    }

    /// Stamps this transaction with its identifier: the digest of its
    /// identifier-free content, the inputs and outputs.
    pub fn set_id(&mut self) -> (r: Result<(), ChainError>)
        ensures
            r is Ok,
            final(self)@.vin == old(self)@.vin,
            final(self)@.vout == old(self)@.vout,
            final(self)@.id == sha256_hex(enc_payload(old(self)@.vin, old(self)@.vout)),
    {
        let mut data: Vec<u8> = Vec::new();
        write_payload(&mut data, &self.vin, &self.vout);
        self.id = sha256_hex_string(data.as_slice());
        Ok(())
    }

    /// Whether this transaction mints value rather than spending an output.
    pub fn is_coinbase(&self) -> (r: bool)
        ensures
            r == spec_is_coinbase(self@),
    {
        self.vin.len() == 1 && self.vin[0].txid.as_str().is_empty() && self.vin[0].vout == -1
    }
}

impl TXInput {
    /// Whether this input's authorization data equals `unlocking_data`.
    pub fn can_be_unlock_with(&self, unlocking_data: &str) -> (r: bool)
        ensures
            r == (self@.script_sig == unlocking_data@),
    {
        self.script_sig == unlocking_data.to_owned()
    }
}

impl TXOutput {
    /// Whether this output is locked to `unlocking_data`.
    pub fn can_be_unlock_with(&self, unlocking_data: &str) -> (r: bool)
        ensures
            r == (self@.script_pub_key == unlocking_data@),
    {
        self.script_pub_key == unlocking_data.to_owned()
    }
}

} // verus!
