//! A transaction construction and PSBT assembly engine.
//!
//! The crate builds signable partially signed Bitcoin transactions (PSBTs)
//! from a snapshot of candidate coins: it selects funding inputs, resolves
//! the fee from a rate or an absolute amount, assembles recipient, data and
//! change outputs, reconstructs prior transactions at a higher fee rate,
//! merges PSBTs per BIP 174, orchestrates signers, and serializes PSBTs to
//! a byte format that round-trips exactly.
//!
//! Key derivation, script hashing and signature cryptography, persistence
//! and blockchain transport are outside this crate: callers hand in coin
//! snapshots, destination scripts and signature bytes as plain values.

mod builder;
mod bytes;
mod codec;
mod errors;
mod fee;
mod psbt;
mod sign;
mod types;
mod tx;

pub use builder::{
    build, bump_fee, bump_to_build, spec_old_fee, spec_old_vsize, BumpRequest, BumpRequestV, fixed_outputs, mandatory_cands, opreturn_script, recipient_outputs, spec_covered,
    spec_final_fee, spec_final_outputs, spec_has_tail, spec_insufficient, spec_pool,
    spec_selected, spec_sel_sum, spec_sel_vsize, spec_sequence, spec_shortfall_error,
    spec_target, spec_total_value, spec_validation_error, BuildRequest, BuildRequestV, CandidateV,
    MAX_DATA_PUSH,
};
pub use bytes::{append_bytes, bytes_eq, clone_bytes};
pub use codec::{
    deserialize, lemma_canonical, lemma_psbt_sound, lemma_round_trip, psbt_b, rd_psbt, ser_psbt,
    serialize,
};
pub use errors::Error;
pub use fee::{
    fee_for, spec_fee, sum_out_value, sum_out_vsize, DEFAULT_FEE_RATE, FOREIGN_INPUT_BASE_VSIZE,
    MAX_TX_VSIZE, OUTPUT_BASE_VSIZE, OWNED_INPUT_VSIZE, TX_BASE_VSIZE,
};
pub use psbt::{
    all_finalized, all_have_witness, clone_transaction, combine, extract_tx, fee_amount,
    fee_rate, psbt_vsize, sum_wu_value, combined, combined_input, combined_output, has_sig_for,
    lemma_combine_commutative, lemma_sig_union_commutative, sig_map, tx_eq, InputAux, InputAuxV,
    OutputAux, OutputAuxV, PartialSig, PartialSigV, Psbt, PsbtV,
};
pub use sign::{
    collect_sigs, finalize_psbt, finalized_input, parse_multisig, sign, signable, signed_input,
    spec_finalize, Signer, SignerEntry,
};
pub use types::{
    ChangeSpendPolicy, ForeignUtxo, ForeignUtxoV, KeychainKind, OutPoint, OutPointV, RbfPolicy,
    Recipient, RecipientV, SignOptions, TransactionDetails, Utxo, UtxoV, DUST_LIMIT,
};
pub use tx::{Transaction, TransactionV, TxIn, TxInV, TxOut, TxOutV};
