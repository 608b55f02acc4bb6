use vstd::prelude::*;

verus! {

/// Output values below this many satoshis are conventionally rejected as
/// dust: they cost more to spend than they are worth.
pub const DUST_LIMIT: u64 = 546;

/// Reference to a transaction output: the identifier of the transaction
/// that created it and the index of the output within that transaction.
#[derive(Clone, Debug)]
pub struct OutPoint {
    pub txid: Vec<u8>,
    pub vout: u32,
}

#[verifier::ext_equal]
pub ghost struct OutPointV {
    pub txid: Seq<u8>,
    pub vout: u32,
}

impl View for OutPoint {
    type V = OutPointV;

    open spec fn view(&self) -> OutPointV {
        OutPointV { txid: self.txid@, vout: self.vout }
    }
}

/// Which descriptor an address of the wallet was derived from: the
/// external (receive) chain or the internal (change) chain.
#[derive(Clone, Copy, Debug, PartialEq, Eq, Structural)]
pub enum KeychainKind {
    External,
    Internal,
}

/// Which keychains the automatic selector may draw coins from.
#[derive(Clone, Copy, Debug, PartialEq, Eq, Structural)]
pub enum ChangeSpendPolicy {
    /// Coins of both keychains may fund the transaction.
    ChangeAllowed,
    /// Only coins of the internal (change) keychain may be used.
    OnlyChange,
    /// Coins of the internal (change) keychain are excluded.
    ChangeForbidden,
}

/// Replace-by-fee policy for the inputs of a built transaction.
#[derive(Clone, Copy, Debug, PartialEq, Eq, Structural)]
pub enum RbfPolicy {
    /// Inputs carry the final sequence number; the transaction does not
    /// signal replaceability.
    Off,
    /// Inputs carry the standard maximal replace-by-fee-eligible sequence.
    Enabled,
    /// Inputs carry the given sequence verbatim; the caller takes
    /// responsibility for its replaceability semantics.
    WithSequence(u32),
}

/// A spendable coin of the wallet, as observed in the UTXO snapshot.
#[derive(Clone, Debug)]
pub struct Utxo {
    pub outpoint: OutPoint,
    pub value: u64,
    pub script_pubkey: Vec<u8>,
    pub keychain: KeychainKind,
    pub is_spent: bool,
}

#[verifier::ext_equal]
pub ghost struct UtxoV {
    pub outpoint: OutPointV,
    pub value: u64,
    pub script_pubkey: Seq<u8>,
    pub keychain: KeychainKind,
    pub is_spent: bool,
}

impl View for Utxo {
    type V = UtxoV;

    open spec fn view(&self) -> UtxoV {
        UtxoV {
            outpoint: self.outpoint@,
            value: self.value,
            script_pubkey: self.script_pubkey@,
            keychain: self.keychain,
            is_spent: self.is_spent,
        }
    }
}

/// A coin not owned by this wallet, supplied by another party to fund the
/// transaction. The supplier declares the virtual size its satisfaction
/// (script and witness data) will add to the transaction, since no local
/// key material describes it.
#[derive(Clone, Debug)]
pub struct ForeignUtxo {
    pub outpoint: OutPoint,
    pub value: u64,
    pub script_pubkey: Vec<u8>,
    pub satisfaction_vsize: u64,
}

#[verifier::ext_equal]
pub ghost struct ForeignUtxoV {
    pub outpoint: OutPointV,
    pub value: u64,
    pub script_pubkey: Seq<u8>,
    pub satisfaction_vsize: u64,
}

impl View for ForeignUtxo {
    type V = ForeignUtxoV;

    open spec fn view(&self) -> ForeignUtxoV {
        ForeignUtxoV {
            outpoint: self.outpoint@,
            value: self.value,
            script_pubkey: self.script_pubkey@,
            satisfaction_vsize: self.satisfaction_vsize,
        }
    }
}

/// A payment destination: a script and the amount it is owed.
#[derive(Clone, Debug)]
pub struct Recipient {
    pub script_pubkey: Vec<u8>,
    pub amount: u64,
}

#[verifier::ext_equal]
pub ghost struct RecipientV {
    pub script_pubkey: Seq<u8>,
    pub amount: u64,
}

impl View for Recipient {
    type V = RecipientV;

    open spec fn view(&self) -> RecipientV {
        RecipientV { script_pubkey: self.script_pubkey@, amount: self.amount }
    }
}

/// Read-only summary of a built transaction: the fee paid, the total input
/// value spent, and the value returned to the wallet as change.
#[derive(Clone, Copy, Debug, PartialEq, Eq, Structural)]
pub struct TransactionDetails {
    pub fee: u64,
    pub sent: u64,
    pub received: u64,
}

/// Configuration for signing and finalization.
#[derive(Clone, Copy, Debug)]
pub struct SignOptions {
    /// Sign inputs described only by their witness UTXO. When unset, such
    /// inputs are skipped.
    pub trust_witness_utxo: bool,
    /// Height assumed current when evaluating time-locked spending paths.
    /// This engine models no time locks; the field is carried for signer
    /// configurations that do.
    pub assume_height: Option<u32>,
    /// Sign inputs whatever sighash type they request. When unset, only
    /// inputs requesting SIGHASH_ALL (or requesting nothing) are signed.
    pub allow_all_sighashes: bool,
    /// After all signers run, attempt to assemble each input's final
    /// witness from the accumulated partial signatures.
    pub try_finalize: bool,
    /// Offer every input to every signer, not only the inputs a signer is
    /// known to hold keys for. Signer entries here already name their
    /// inputs, so the flag is carried for configuration compatibility.
    pub sign_with_all_keys: bool,
    /// Remove an input's partial signatures once its final witness has
    /// been assembled.
    pub remove_partial_sigs: bool,
}

} // verus!
