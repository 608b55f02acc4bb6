use vstd::prelude::*;

verus! {

/// An output of a transaction: an amount in satoshis locked by a script.
#[derive(Clone, Debug)]
pub struct TxOut {
    pub value: u64,
    pub script_pubkey: Vec<u8>,
}

#[verifier::ext_equal]
pub ghost struct TxOutV {
    pub value: u64,
    pub script_pubkey: Seq<u8>,
}

impl View for TxOut {
    type V = TxOutV;

    open spec fn view(&self) -> TxOutV {
        TxOutV { value: self.value, script_pubkey: self.script_pubkey@ }
    }
}

/// An input of a transaction: the outpoint it spends and its sequence
/// number. Witness data lives outside the unsigned transaction, in the
/// PSBT, until extraction.
#[derive(Clone, Debug)]
pub struct TxIn {
    pub txid: Vec<u8>,
    pub vout: u32,
    pub sequence: u32,
}

#[verifier::ext_equal]
pub ghost struct TxInV {
    pub txid: Seq<u8>,
    pub vout: u32,
    pub sequence: u32,
}

impl View for TxIn {
    type V = TxInV;

    open spec fn view(&self) -> TxInV {
        TxInV { txid: self.txid@, vout: self.vout, sequence: self.sequence }
    }
}

/// An unsigned transaction: versioned lists of inputs and outputs plus a
/// lock time.
#[derive(Clone, Debug)]
pub struct Transaction {
    pub version: u32,
    pub lock_time: u32,
    pub inputs: Vec<TxIn>,
    pub outputs: Vec<TxOut>,
}

#[verifier::ext_equal]
pub ghost struct TransactionV {
    pub version: u32,
    pub lock_time: u32,
    pub inputs: Seq<TxInV>,
    pub outputs: Seq<TxOutV>,
}

/// The inputs of a transaction, viewed.
pub open spec fn txins_view(s: Seq<TxIn>) -> Seq<TxInV> {
    s.map_values(|i: TxIn| i@)
}

/// The outputs of a transaction, viewed.
pub open spec fn txouts_view(s: Seq<TxOut>) -> Seq<TxOutV> {
    s.map_values(|o: TxOut| o@)
}

impl View for Transaction {
    type V = TransactionV;

    open spec fn view(&self) -> TransactionV {
        TransactionV {
            version: self.version,
            lock_time: self.lock_time,
            inputs: txins_view(self.inputs@),
            outputs: txouts_view(self.outputs@),
        }
    }
}

} // verus!
