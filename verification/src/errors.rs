use vstd::prelude::*;

verus! {

/// Typed failures of the engine. Every operation returns one of these
/// rather than panicking; recoverable shortfalls carry the amounts the
/// caller needs in order to retry with relaxed constraints.
#[derive(Clone, Copy, Debug, PartialEq, Eq, Structural)]
pub enum Error {
    /// The eligible coins cannot cover the recipients plus the fee.
    InsufficientFunds { needed: u64, available: u64 },
    /// A recipient amount lies below the dust threshold and dust was not
    /// explicitly allowed.
    DustOutput,
    /// The fee could not be resolved because the requested transaction
    /// exceeds the consensus size ceiling.
    FeeEstimationFailed,
    /// Two PSBTs to be combined embed different unsigned transactions.
    MismatchedTransaction,
    /// The bytes handed to deserialization are not a serialized PSBT.
    InvalidPsbt,
    /// An input's spending conditions are of a script form the finalizer
    /// does not know how to satisfy.
    UnsupportedScriptType,
    /// Both a fee rate and an absolute fee were given.
    ConflictingFeeSpecification,
    /// Manual-only selection was requested and the manual set cannot cover
    /// the recipients plus the fee.
    ManualSelectionInsufficient,
    /// A fee bump was requested at a rate not above the rate of the
    /// transaction being replaced.
    FeeRateTooLow { required: u64 },
    /// The data-carrier payload exceeds the single-push limit.
    DataCarrierTooLarge,
    /// Drain mode was requested without a drain destination.
    NoDrainDestination,
    /// A final transaction was requested from a PSBT with an input that
    /// carries no final witness yet.
    NotFinalized,
}

} // verus!
