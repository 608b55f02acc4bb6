use vstd::prelude::*;

use crate::bytes::{bytes_eq, clone_bytes};
use crate::errors::Error;
use crate::fee::{
    lemma_sum_out_prefix, lemma_sum_out_take_step, spec_fee, sum_out_value, sum_out_vsize,
    FOREIGN_INPUT_BASE_VSIZE, MAX_TX_VSIZE, OUTPUT_BASE_VSIZE, OWNED_INPUT_VSIZE, TX_BASE_VSIZE,
};
use crate::bytes::append_bytes;
use crate::psbt::{inaux_view, InputAux, InputAuxV, OutputAux, Psbt};
use crate::tx::{txins_view, txouts_view, Transaction, TxIn, TxInV, TxOut, TxOutV};
use crate::types::{
    ChangeSpendPolicy, ForeignUtxoV, KeychainKind, OutPointV, RbfPolicy, RecipientV,
    TransactionDetails, UtxoV, DUST_LIMIT,
};

verus! {

/// A funding input the selector works with: the coin's identity and value
/// plus the virtual size spending it adds to the transaction.
#[verifier::ext_equal]
pub ghost struct CandidateV {
    pub txid: Seq<u8>,
    pub vout: u32,
    pub value: u64,
    pub script_pubkey: Seq<u8>,
    pub vsize: int,
}

/// How a wallet-owned coin enters selection.
pub open spec fn cand_of_utxo(u: UtxoV) -> CandidateV {
    CandidateV {
        txid: u.outpoint.txid,
        vout: u.outpoint.vout,
        value: u.value,
        script_pubkey: u.script_pubkey,
        vsize: OWNED_INPUT_VSIZE as int,
    }
}

/// How a foreign coin enters selection: its declared satisfaction size
/// replaces the wallet's own estimate.
pub open spec fn cand_of_foreign(f: ForeignUtxoV) -> CandidateV {
    CandidateV {
        txid: f.outpoint.txid,
        vout: f.outpoint.vout,
        value: f.value,
        script_pubkey: f.script_pubkey,
        vsize: FOREIGN_INPUT_BASE_VSIZE + f.satisfaction_vsize,
    }
}

pub open spec fn op_in(s: Seq<OutPointV>, o: OutPointV) -> bool {
    exists|i: int| 0 <= i < s.len() && s[i] == o
}

/// Which keychains the change-spend policy admits into automatic
/// selection.
pub open spec fn policy_admits(p: ChangeSpendPolicy, k: KeychainKind) -> bool {
    match p {
        ChangeSpendPolicy::ChangeAllowed => true,
        ChangeSpendPolicy::OnlyChange => k is Internal,
        ChangeSpendPolicy::ChangeForbidden => k is External,
    }
}

/// A coin of the automatic pool is eligible when it is unspent, its
/// keychain is admitted, and it is not excluded.
pub open spec fn is_eligible(u: UtxoV, unsp: Seq<OutPointV>, pol: ChangeSpendPolicy) -> bool {
    !u.is_spent && policy_admits(pol, u.keychain) && !op_in(unsp, u.outpoint)
}

/// The automatic pool: eligible coins of the snapshot, in snapshot order.
pub open spec fn filter_pool(s: Seq<UtxoV>, unsp: Seq<OutPointV>, pol: ChangeSpendPolicy) -> Seq<
    CandidateV,
>
    decreases s.len(),
{
    if s.len() == 0 {
        Seq::empty()
    } else {
        (if is_eligible(s[0], unsp, pol) {
            seq![cand_of_utxo(s[0])]
        } else {
            Seq::empty()
        }) + filter_pool(s.drop_first(), unsp, pol)
    }
}

pub open spec fn sum_cand_value(s: Seq<CandidateV>) -> int
    decreases s.len(),
{
    if s.len() == 0 {
        0
    } else {
        s[0].value + sum_cand_value(s.drop_first())
    }
}

pub open spec fn sum_cand_vsize(s: Seq<CandidateV>) -> int
    decreases s.len(),
{
    if s.len() == 0 {
        0
    } else {
        s[0].vsize + sum_cand_vsize(s.drop_first())
    }
}

pub open spec fn sum_utxo_value(s: Seq<UtxoV>) -> int
    decreases s.len(),
{
    if s.len() == 0 {
        0
    } else {
        s[0].value + sum_utxo_value(s.drop_first())
    }
}

pub open spec fn sum_foreign_value(s: Seq<ForeignUtxoV>) -> int
    decreases s.len(),
{
    if s.len() == 0 {
        0
    } else {
        s[0].value + sum_foreign_value(s.drop_first())
    }
}

pub open spec fn sum_foreign_vsize(s: Seq<ForeignUtxoV>) -> int
    decreases s.len(),
{
    if s.len() == 0 {
        0
    } else {
        FOREIGN_INPUT_BASE_VSIZE + s[0].satisfaction_vsize + sum_foreign_vsize(s.drop_first())
    }
}

pub proof fn lemma_sum_cand_value_concat(a: Seq<CandidateV>, b: Seq<CandidateV>)
    ensures
        sum_cand_value(a + b) == sum_cand_value(a) + sum_cand_value(b),
    decreases a.len(),
{
    if a.len() == 0 {
        assert(a + b =~= b);
    } else {
        assert((a + b).drop_first() =~= a.drop_first() + b);
        lemma_sum_cand_value_concat(a.drop_first(), b);
    }
}

pub proof fn lemma_sum_cand_vsize_concat(a: Seq<CandidateV>, b: Seq<CandidateV>)
    ensures
        sum_cand_vsize(a + b) == sum_cand_vsize(a) + sum_cand_vsize(b),
    decreases a.len(),
{
    if a.len() == 0 {
        assert(a + b =~= b);
    } else {
        assert((a + b).drop_first() =~= a.drop_first() + b);
        lemma_sum_cand_vsize_concat(a.drop_first(), b);
    }
}

pub proof fn lemma_sum_cand_value_nonneg(s: Seq<CandidateV>)
    ensures
        0 <= sum_cand_value(s),
    decreases s.len(),
{
    if s.len() > 0 {
        lemma_sum_cand_value_nonneg(s.drop_first());
    }
}

/// Owned coins as candidates, in order.
pub open spec fn cands_of_utxos(s: Seq<UtxoV>) -> Seq<CandidateV> {
    s.map_values(|u: UtxoV| cand_of_utxo(u))
}

/// Foreign coins as candidates, in order.
pub open spec fn cands_of_foreigns(s: Seq<ForeignUtxoV>) -> Seq<CandidateV> {
    s.map_values(|f: ForeignUtxoV| cand_of_foreign(f))
}

/// Mapping owned coins to candidates keeps their total value and charges
/// the fixed owned-input size for each.
pub proof fn lemma_map_utxo_sums(s: Seq<UtxoV>)
    ensures
        sum_cand_value(cands_of_utxos(s)) == sum_utxo_value(s),
        sum_cand_vsize(cands_of_utxos(s)) == OWNED_INPUT_VSIZE * s.len(),
    decreases s.len(),
{
    let m = cands_of_utxos(s);
    if s.len() == 0 {
        assert(m.len() == 0);
    } else {
        assert(m.drop_first() =~= cands_of_utxos(s.drop_first()));
        lemma_map_utxo_sums(s.drop_first());
        assert(m[0] == cand_of_utxo(s[0]));
    }
}

/// Mapping foreign coins to candidates keeps their total value and their
/// declared total size.
pub proof fn lemma_map_foreign_sums(s: Seq<ForeignUtxoV>)
    ensures
        sum_cand_value(cands_of_foreigns(s)) == sum_foreign_value(s),
        sum_cand_vsize(cands_of_foreigns(s)) == sum_foreign_vsize(s),
    decreases s.len(),
{
    let m = cands_of_foreigns(s);
    if s.len() == 0 {
        assert(m.len() == 0);
    } else {
        assert(m.drop_first() =~= cands_of_foreigns(s.drop_first()));
        lemma_map_foreign_sums(s.drop_first());
        assert(m[0] == cand_of_foreign(s[0]));
    }
}

/// The automatic pool draws value and size from the snapshot it filters:
/// filtering never increases either total.
pub proof fn lemma_filter_pool_sums(s: Seq<UtxoV>, unsp: Seq<OutPointV>, pol: ChangeSpendPolicy)
    ensures
        sum_cand_value(filter_pool(s, unsp, pol)) <= sum_utxo_value(s),
        sum_cand_vsize(filter_pool(s, unsp, pol)) <= OWNED_INPUT_VSIZE * s.len(),
        0 <= sum_cand_value(filter_pool(s, unsp, pol)),
        0 <= sum_cand_vsize(filter_pool(s, unsp, pol)),
    decreases s.len(),
{
    if s.len() == 0 {
    } else {
        lemma_filter_pool_sums(s.drop_first(), unsp, pol);
        if is_eligible(s[0], unsp, pol) {
            assert(filter_pool(s, unsp, pol) =~= seq![cand_of_utxo(s[0])] + filter_pool(
                s.drop_first(),
                unsp,
                pol,
            ));
            lemma_sum_cand_value_concat(
                seq![cand_of_utxo(s[0])],
                filter_pool(s.drop_first(), unsp, pol),
            );
            lemma_sum_cand_vsize_concat(
                seq![cand_of_utxo(s[0])],
                filter_pool(s.drop_first(), unsp, pol),
            );
            assert(seq![cand_of_utxo(s[0])].drop_first() =~= Seq::<CandidateV>::empty());
            assert(sum_cand_value(Seq::<CandidateV>::empty()) == 0);
            assert(sum_cand_vsize(Seq::<CandidateV>::empty()) == 0);
            assert(sum_cand_value(seq![cand_of_utxo(s[0])]) == s[0].value);
            assert(sum_cand_vsize(seq![cand_of_utxo(s[0])]) == OWNED_INPUT_VSIZE);
            assert(OWNED_INPUT_VSIZE + OWNED_INPUT_VSIZE * (s.len() - 1) == OWNED_INPUT_VSIZE
                * s.len()) by (nonlinear_arith);
        } else {
            assert(filter_pool(s, unsp, pol) =~= filter_pool(s.drop_first(), unsp, pol));
            assert(OWNED_INPUT_VSIZE * (s.len() - 1) <= OWNED_INPUT_VSIZE * s.len())
                by (nonlinear_arith);
        }
    }
}

pub proof fn lemma_sum_foreign_vsize_nonneg(s: Seq<ForeignUtxoV>)
    ensures
        0 <= sum_foreign_vsize(s),
    decreases s.len(),
{
    if s.len() > 0 {
        lemma_sum_foreign_vsize_nonneg(s.drop_first());
    }
}

/// Each foreign coin's contribution is bounded by the total declared size.
pub proof fn lemma_sum_foreign_vsize_member(s: Seq<ForeignUtxoV>, i: int)
    requires
        0 <= i < s.len(),
    ensures
        FOREIGN_INPUT_BASE_VSIZE + s[i].satisfaction_vsize <= sum_foreign_vsize(s),
    decreases s.len(),
{
    if i == 0 {
        lemma_sum_foreign_vsize_nonneg(s.drop_first());
    } else {
        lemma_sum_foreign_vsize_member(s.drop_first(), i - 1);
        assert(s.drop_first()[i - 1] == s[i]);
    }
}

/// Everything a build needs: payment destinations, the coin snapshot and
/// constraints on its use, the fee policy, replaceability, an optional
/// data payload, and the drain and change destinations.
pub struct BuildRequest {
    /// Destinations and amounts, kept in this order in the transaction.
    pub recipients: Vec<crate::types::Recipient>,
    /// Wallet coins that must be spent.
    pub manual_utxos: Vec<crate::types::Utxo>,
    /// Coins of other parties that must be spent.
    pub foreign_utxos: Vec<crate::types::ForeignUtxo>,
    /// Wallet coins the selector may draw on.
    pub optional_utxos: Vec<crate::types::Utxo>,
    /// Outpoints the selector must not draw on.
    pub unspendable: Vec<crate::types::OutPoint>,
    /// Never draw beyond the manual and foreign coins.
    pub manual_only: bool,
    /// Fee rate in satoshis per virtual byte.
    pub fee_rate: Option<u64>,
    /// Fixed absolute fee; exclusive with `fee_rate`.
    pub fee_absolute: Option<u64>,
    /// Spend the entire selected value to `drain_to`, leaving no change.
    pub drain_wallet: bool,
    /// Destination script of the drain output.
    pub drain_to: Option<Vec<u8>>,
    /// Destination script of the change output.
    pub change_script: Vec<u8>,
    /// Which keychains the automatic selector may draw from.
    pub change_policy: ChangeSpendPolicy,
    /// Replace-by-fee signalling for the inputs.
    pub rbf: RbfPolicy,
    /// Payload of the optional data-carrier output.
    pub data: Vec<u8>,
    /// Accept recipient amounts below the dust threshold.
    pub allow_dust: bool,
}

#[verifier::ext_equal]
pub ghost struct BuildRequestV {
    pub recipients: Seq<RecipientV>,
    pub manual_utxos: Seq<UtxoV>,
    pub foreign_utxos: Seq<ForeignUtxoV>,
    pub optional_utxos: Seq<UtxoV>,
    pub unspendable: Seq<OutPointV>,
    pub manual_only: bool,
    pub fee_rate: Option<u64>,
    pub fee_absolute: Option<u64>,
    pub drain_wallet: bool,
    pub drain_to: Option<Seq<u8>>,
    pub change_script: Seq<u8>,
    pub change_policy: ChangeSpendPolicy,
    pub rbf: RbfPolicy,
    pub data: Seq<u8>,
    pub allow_dust: bool,
}

/// Recipients, viewed.
pub open spec fn recips_view(s: Seq<crate::types::Recipient>) -> Seq<RecipientV> {
    s.map_values(|r: crate::types::Recipient| r@)
}

/// Owned coins, viewed.
pub open spec fn utxos_view(s: Seq<crate::types::Utxo>) -> Seq<UtxoV> {
    s.map_values(|u: crate::types::Utxo| u@)
}

/// Foreign coins, viewed.
pub open spec fn foreigns_view(s: Seq<crate::types::ForeignUtxo>) -> Seq<ForeignUtxoV> {
    s.map_values(|f: crate::types::ForeignUtxo| f@)
}

/// Outpoints, viewed.
pub open spec fn ops_view(s: Seq<crate::types::OutPoint>) -> Seq<OutPointV> {
    s.map_values(|o: crate::types::OutPoint| o@)
}

impl View for BuildRequest {
    type V = BuildRequestV;

    open spec fn view(&self) -> BuildRequestV {
        BuildRequestV {
            recipients: recips_view(self.recipients@),
            manual_utxos: utxos_view(self.manual_utxos@),
            foreign_utxos: foreigns_view(self.foreign_utxos@),
            optional_utxos: utxos_view(self.optional_utxos@),
            unspendable: ops_view(self.unspendable@),
            manual_only: self.manual_only,
            fee_rate: self.fee_rate,
            fee_absolute: self.fee_absolute,
            drain_wallet: self.drain_wallet,
            drain_to: match self.drain_to {
                Some(ref s) => Some(s@),
                None => None,
            },
            change_script: self.change_script@,
            change_policy: self.change_policy,
            rbf: self.rbf,
            data: self.data@,
            allow_dust: self.allow_dust,
        }
    }
}

/// Longest data payload accepted for the data-carrier output: the longest
/// direct push a standard relay policy admits.
pub const MAX_DATA_PUSH: u64 = 75;

/// The provably-unspendable script that embeds the data payload: an
/// OP_RETURN followed by one direct push of the bytes.
pub open spec fn opreturn_script(data: Seq<u8>) -> Seq<u8> {
    seq![106u8, data.len() as u8] + data
}

pub open spec fn recipient_outputs(rs: Seq<RecipientV>) -> Seq<TxOutV> {
    rs.map_values(|r: RecipientV| TxOutV { value: r.amount, script_pubkey: r.script_pubkey })
}

/// The outputs fixed before funding is known: the recipients in order,
/// then the data-carrier output when a payload was given.
pub open spec fn fixed_outputs(req: BuildRequestV) -> Seq<TxOutV> {
    recipient_outputs(req.recipients) + (if req.data.len() > 0 {
        seq![TxOutV { value: 0, script_pubkey: opreturn_script(req.data) }]
    } else {
        Seq::<TxOutV>::empty()
    })
}

/// Total value owed to the fixed outputs.
pub open spec fn spec_target(req: BuildRequestV) -> int {
    sum_out_value(fixed_outputs(req))
}

/// Virtual size of the transaction before funding inputs and the tail
/// output are added.
pub open spec fn spec_base_vsize(req: BuildRequestV) -> int {
    TX_BASE_VSIZE + sum_out_vsize(fixed_outputs(req))
}

/// Script of the tail output: the drain destination in drain mode, the
/// change destination otherwise.
pub open spec fn tail_script(req: BuildRequestV) -> Seq<u8> {
    if req.drain_wallet {
        match req.drain_to {
            Some(s) => s,
            None => Seq::empty(),
        }
    } else {
        req.change_script
    }
}

pub open spec fn tail_vsize(req: BuildRequestV) -> int {
    OUTPUT_BASE_VSIZE + tail_script(req).len()
}

/// Virtual size of the largest transaction the request could produce:
/// every coin spent, every output present.
pub open spec fn spec_request_vsize(req: BuildRequestV) -> int {
    spec_base_vsize(req) + tail_vsize(req) + OWNED_INPUT_VSIZE * req.manual_utxos.len()
        + sum_foreign_vsize(req.foreign_utxos) + OWNED_INPUT_VSIZE * req.optional_utxos.len()
}

/// Total value of every coin the request names.
pub open spec fn spec_total_value(req: BuildRequestV) -> int {
    sum_utxo_value(req.manual_utxos) + sum_foreign_value(req.foreign_utxos) + sum_utxo_value(
        req.optional_utxos,
    )
}

/// The coins that must fund the transaction whatever the selector does.
pub open spec fn mandatory_cands(req: BuildRequestV) -> Seq<CandidateV> {
    cands_of_utxos(req.manual_utxos) + cands_of_foreigns(req.foreign_utxos)
}

pub open spec fn spec_pool(req: BuildRequestV) -> Seq<CandidateV> {
    filter_pool(req.optional_utxos, req.unspendable, req.change_policy)
}

/// Funding `sum` over `vs` virtual bytes of inputs covers the request
/// when it pays the fixed outputs and the fee of the changeless
/// transaction.
pub open spec fn spec_covered(req: BuildRequestV, sum: int, vs: int) -> bool {
    sum >= spec_target(req) + spec_fee(req.fee_rate, req.fee_absolute, spec_base_vsize(req) + vs)
}

/// The selector's draw from the pool: coins in pool order, stopping as
/// soon as the accumulated funding covers the request.
pub open spec fn grow(req: BuildRequestV, pool: Seq<CandidateV>, sum: int, vs: int) -> Seq<
    CandidateV,
>
    decreases pool.len(),
{
    if spec_covered(req, sum, vs) || pool.len() == 0 {
        Seq::empty()
    } else {
        seq![pool[0]] + grow(req, pool.drop_first(), sum + pool[0].value, vs + pool[0].vsize)
    }
}

/// The full input list of the built transaction: the mandatory coins,
/// then — unless selection is manual-only — the automatic draw, or the
/// whole pool in drain mode.
pub open spec fn spec_selected(req: BuildRequestV) -> Seq<CandidateV> {
    let m = mandatory_cands(req);
    if req.manual_only {
        m
    } else if req.drain_wallet {
        m + spec_pool(req)
    } else {
        m + grow(req, spec_pool(req), sum_cand_value(m), sum_cand_vsize(m))
    }
}

pub open spec fn spec_sel_sum(req: BuildRequestV) -> int {
    sum_cand_value(spec_selected(req))
}

pub open spec fn spec_sel_vsize(req: BuildRequestV) -> int {
    sum_cand_vsize(spec_selected(req))
}

/// Sequence number the inputs carry under the replace-by-fee policy.
pub open spec fn spec_sequence(rbf: RbfPolicy) -> u32 {
    match rbf {
        RbfPolicy::Off => 0xFFFF_FFFFu32,
        RbfPolicy::Enabled => 0xFFFF_FFFDu32,
        RbfPolicy::WithSequence(n) => n,
    }
}

pub open spec fn txin_of_cand(c: CandidateV, sequence: u32) -> TxInV {
    TxInV { txid: c.txid, vout: c.vout, sequence: sequence }
}

/// The PSBT input written for a selected coin: the spent output recorded
/// as witness UTXO, everything else empty.
pub open spec fn aux_of_cand(c: CandidateV) -> InputAuxV {
    InputAuxV {
        witness_utxo: Some(TxOutV { value: c.value, script_pubkey: c.script_pubkey }),
        partial_sigs: Seq::empty(),
        witness_script: None,
        sighash_type: None,
        final_witness: None,
    }
}

/// The validation failure a request is rejected with before selection is
/// attempted, if any, in checking order.
pub open spec fn spec_validation_error(req: BuildRequestV) -> Option<Error> {
    if req.fee_rate is Some && req.fee_absolute is Some {
        Some(Error::ConflictingFeeSpecification)
    } else if spec_request_vsize(req) > MAX_TX_VSIZE {
        Some(Error::FeeEstimationFailed)
    } else if req.data.len() > MAX_DATA_PUSH {
        Some(Error::DataCarrierTooLarge)
    } else if req.drain_wallet && req.drain_to is None {
        Some(Error::NoDrainDestination)
    } else if !req.allow_dust && exists|i: int|
        0 <= i < req.recipients.len() && req.recipients[i].amount < DUST_LIMIT {
        Some(Error::DustOutput)
    } else {
        None
    }
}

/// Fee of the transaction with the tail output present.
pub open spec fn spec_fee_with_tail(req: BuildRequestV) -> int {
    spec_fee(
        req.fee_rate,
        req.fee_absolute,
        spec_base_vsize(req) + spec_sel_vsize(req) + tail_vsize(req),
    )
}

/// A validated request still fails when the selected coins cannot pay the
/// fixed outputs plus the fee — in drain mode, plus a dust-sized drain
/// output as well.
pub open spec fn spec_insufficient(req: BuildRequestV) -> bool {
    if req.drain_wallet {
        spec_sel_sum(req) < spec_target(req) + spec_fee_with_tail(req) + DUST_LIMIT
    } else {
        !spec_covered(req, spec_sel_sum(req), spec_sel_vsize(req))
    }
}

/// Whether the built transaction carries a tail output: always in drain
/// mode, otherwise only when the surplus can fund a non-dust change
/// output and the fee the change output itself adds.
pub open spec fn spec_has_tail(req: BuildRequestV) -> bool {
    req.drain_wallet || spec_sel_sum(req) >= spec_target(req) + spec_fee_with_tail(req)
        + DUST_LIMIT
}

/// Value of the tail output when present.
pub open spec fn spec_tail_value(req: BuildRequestV) -> int {
    spec_sel_sum(req) - spec_target(req) - spec_fee_with_tail(req)
}

/// The fee the built transaction pays: the resolved fee when a tail
/// output exists, otherwise the whole surplus, donated because a change
/// output would have been dust.
pub open spec fn spec_final_fee(req: BuildRequestV) -> int {
    if spec_has_tail(req) {
        spec_fee_with_tail(req)
    } else {
        spec_sel_sum(req) - spec_target(req)
    }
}

/// The complete output list of the built transaction.
pub open spec fn spec_final_outputs(req: BuildRequestV) -> Seq<TxOutV> {
    fixed_outputs(req) + (if spec_has_tail(req) {
        seq![TxOutV { value: spec_tail_value(req) as u64, script_pubkey: tail_script(req) }]
    } else {
        Seq::<TxOutV>::empty()
    })
}

/// The transaction inputs written for the selected coins.
pub open spec fn txins_of_cands(s: Seq<CandidateV>, sequence: u32) -> Seq<TxInV> {
    s.map_values(|c: CandidateV| txin_of_cand(c, sequence))
}

/// The PSBT input entries written for the selected coins.
pub open spec fn auxes_of_cands(s: Seq<CandidateV>) -> Seq<InputAuxV> {
    s.map_values(|c: CandidateV| aux_of_cand(c))
}

pub open spec fn sat64(x: int) -> u64 {
    if x > u64::MAX {
        u64::MAX
    } else if x < 0 {
        0
    } else {
        x as u64
    }
}

/// Amount the failed request would have needed, and what it had.
pub open spec fn spec_shortfall_error(req: BuildRequestV) -> Error {
    if req.manual_only {
        Error::ManualSelectionInsufficient
    } else {
        Error::InsufficientFunds {
            needed: sat64(
                if req.drain_wallet {
                    spec_target(req) + spec_fee_with_tail(req) + DUST_LIMIT
                } else {
                    spec_target(req) + spec_fee(
                        req.fee_rate,
                        req.fee_absolute,
                        spec_base_vsize(req) + spec_sel_vsize(req),
                    )
                },
            ),
            available: sat64(spec_sel_sum(req)),
        }
    }
}

/// A funding input as the selector handles it at run time.
pub struct Candidate {
    pub txid: Vec<u8>,
    pub vout: u32,
    pub value: u64,
    pub script_pubkey: Vec<u8>,
    pub vsize: u64,
}

impl View for Candidate {
    type V = CandidateV;

    open spec fn view(&self) -> CandidateV {
        CandidateV {
            txid: self.txid@,
            vout: self.vout,
            value: self.value,
            script_pubkey: self.script_pubkey@,
            vsize: self.vsize as int,
        }
    }
}

/// Candidates, viewed.
pub open spec fn cands_view(s: Seq<Candidate>) -> Seq<CandidateV> {
    s.map_values(|c: Candidate| c@)
}

/// Filtering one more coin appends its candidate exactly when it is
/// eligible.
pub proof fn lemma_filter_pool_snoc(
    s: Seq<UtxoV>,
    x: UtxoV,
    unsp: Seq<OutPointV>,
    pol: ChangeSpendPolicy,
)
    ensures
        filter_pool(s.push(x), unsp, pol) == filter_pool(s, unsp, pol) + (if is_eligible(
            x,
            unsp,
            pol,
        ) {
            seq![cand_of_utxo(x)]
        } else {
            Seq::<CandidateV>::empty()
        }),
    decreases s.len(),
{
    if s.len() == 0 {
        assert(s.push(x)[0] == x);
        assert(s.push(x).drop_first() =~= Seq::<UtxoV>::empty());
        assert(filter_pool(Seq::<UtxoV>::empty(), unsp, pol) =~= Seq::<CandidateV>::empty());
        assert(filter_pool(s, unsp, pol) =~= Seq::<CandidateV>::empty());
        if is_eligible(x, unsp, pol) {
            assert(filter_pool(s.push(x), unsp, pol) =~= seq![cand_of_utxo(x)]);
            assert(filter_pool(s, unsp, pol) + seq![cand_of_utxo(x)] =~= seq![cand_of_utxo(x)]);
        } else {
            assert(filter_pool(s.push(x), unsp, pol) =~= Seq::<CandidateV>::empty());
            assert(filter_pool(s, unsp, pol) + Seq::<CandidateV>::empty() =~= Seq::<
                CandidateV,
            >::empty());
        }
    } else {
        assert(s.push(x).drop_first() =~= s.drop_first().push(x));
        assert(s.push(x)[0] == s[0]);
        lemma_filter_pool_snoc(s.drop_first(), x, unsp, pol);
        if is_eligible(s[0], unsp, pol) {
            assert(filter_pool(s.push(x), unsp, pol) =~= seq![cand_of_utxo(s[0])] + filter_pool(
                s.drop_first().push(x),
                unsp,
                pol,
            ));
            assert(seq![cand_of_utxo(s[0])] + (filter_pool(s.drop_first(), unsp, pol) + (if is_eligible(
                x,
                unsp,
                pol,
            ) {
                seq![cand_of_utxo(x)]
            } else {
                Seq::<CandidateV>::empty()
            })) =~= filter_pool(s, unsp, pol) + (if is_eligible(x, unsp, pol) {
                seq![cand_of_utxo(x)]
            } else {
                Seq::<CandidateV>::empty()
            }));
        } else {
            assert(filter_pool(s.push(x), unsp, pol) =~= filter_pool(
                s.drop_first().push(x),
                unsp,
                pol,
            ));
            assert(filter_pool(s, unsp, pol) =~= filter_pool(s.drop_first(), unsp, pol));
        }
    }
}

pub proof fn lemma_sum_utxo_value_nonneg(s: Seq<UtxoV>)
    ensures
        0 <= sum_utxo_value(s),
    decreases s.len(),
{
    if s.len() > 0 {
        lemma_sum_utxo_value_nonneg(s.drop_first());
    }
}

pub proof fn lemma_sum_foreign_value_nonneg(s: Seq<ForeignUtxoV>)
    ensures
        0 <= sum_foreign_value(s),
    decreases s.len(),
{
    if s.len() > 0 {
        lemma_sum_foreign_value_nonneg(s.drop_first());
    }
}

/// Whether an outpoint occurs in an exclusion list.
pub fn outpoint_excluded(list: &Vec<crate::types::OutPoint>, op: &crate::types::OutPoint) -> (r:
    bool)
    ensures
        r == op_in(ops_view(list@), op@),
{
    let mut i: usize = 0;
    while i < list.len()
        invariant
            i <= list.len(),
            forall|k: int| 0 <= k < i ==> ops_view(list@)[k] != op@,
        decreases list.len() - i,
    {
        let same_txid = bytes_eq(&list[i].txid, &op.txid);
        if same_txid && list[i].vout == op.vout {
            proof {
                assert(ops_view(list@)[i as int] == list@[i as int]@);
                assert(list@[i as int]@ =~= op@);
            }
            return true;
        }
        proof {
            assert(ops_view(list@)[i as int] == list@[i as int]@);
        }
        i += 1;
    }
    false
}

/// Total size the recipient outputs add, refused beyond the transaction
/// ceiling.
pub fn vsize_of_recipients(rs: &Vec<crate::types::Recipient>) -> (r: Option<u64>)
    ensures
        r matches Some(v) ==> v == sum_out_vsize(recipient_outputs(recips_view(rs@))) && v
            <= MAX_TX_VSIZE,
        r is None ==> sum_out_vsize(recipient_outputs(recips_view(rs@))) > MAX_TX_VSIZE,
{
    let ghost outs = recipient_outputs(recips_view(rs@));
    let mut acc: u128 = 0;
    let mut i: usize = 0;
    while i < rs.len()
        invariant
            i <= rs.len(),
            outs == recipient_outputs(recips_view(rs@)),
            outs.len() == rs.len(),
            acc == sum_out_vsize(outs.take(i as int)),
            acc <= MAX_TX_VSIZE,
        decreases rs.len() - i,
    {
        proof {
            lemma_sum_out_take_step(outs, i as int);
            assert(recips_view(rs@)[i as int] == rs@[i as int]@);
            assert(outs[i as int].script_pubkey == rs@[i as int].script_pubkey@);
        }
        let step: u128 = OUTPUT_BASE_VSIZE as u128 + rs[i].script_pubkey.len() as u128;
        acc = acc + step;
        i += 1;
        if acc > MAX_TX_VSIZE as u128 {
            proof {
                lemma_sum_out_prefix(outs, i as int);
            }
            return None;
        }
    }
    proof {
        assert(outs.take(rs.len() as int) =~= outs);
    }
    Some(acc as u64)
}

/// Total size the foreign coins add, refused beyond the transaction
/// ceiling.
pub fn vsize_of_foreigns(fs: &Vec<crate::types::ForeignUtxo>) -> (r: Option<u64>)
    ensures
        r matches Some(v) ==> v == sum_foreign_vsize(foreigns_view(fs@)) && v <= MAX_TX_VSIZE,
        r is None ==> sum_foreign_vsize(foreigns_view(fs@)) > MAX_TX_VSIZE,
{
    let ghost fv = foreigns_view(fs@);
    let mut acc: u128 = 0;
    let mut i: usize = 0;
    while i < fs.len()
        invariant
            i <= fs.len(),
            fv == foreigns_view(fs@),
            fv.len() == fs.len(),
            acc == sum_foreign_vsize(fv.take(i as int)),
            acc <= MAX_TX_VSIZE,
        decreases fs.len() - i,
    {
        proof {
            lemma_sum_foreign_take_step(fv, i as int);
            assert(fv[i as int] == fs@[i as int]@);
        }
        let step: u128 = FOREIGN_INPUT_BASE_VSIZE as u128 + fs[i].satisfaction_vsize as u128;
        acc = acc + step;
        i += 1;
        if acc > MAX_TX_VSIZE as u128 {
            proof {
                lemma_sum_foreign_prefix(fv, i as int);
            }
            return None;
        }
    }
    proof {
        assert(fv.take(fs.len() as int) =~= fv);
    }
    Some(acc as u64)
}

pub proof fn lemma_sum_foreign_take_step(s: Seq<ForeignUtxoV>, i: int)
    requires
        0 <= i < s.len(),
    ensures
        sum_foreign_vsize(s.take(i + 1)) == sum_foreign_vsize(s.take(i))
            + FOREIGN_INPUT_BASE_VSIZE + s[i].satisfaction_vsize,
        sum_foreign_value(s.take(i + 1)) == sum_foreign_value(s.take(i)) + s[i].value,
{
    assert(s.take(i + 1) =~= s.take(i) + seq![s[i]]);
    lemma_sum_foreign_vsize_concat(s.take(i), seq![s[i]]);
    lemma_sum_foreign_value_concat(s.take(i), seq![s[i]]);
    assert(seq![s[i]].drop_first() =~= Seq::<ForeignUtxoV>::empty());
    assert(seq![s[i]][0] == s[i]);
    assert(sum_foreign_vsize(Seq::<ForeignUtxoV>::empty()) == 0);
    assert(sum_foreign_value(Seq::<ForeignUtxoV>::empty()) == 0);
}

pub proof fn lemma_sum_foreign_vsize_concat(a: Seq<ForeignUtxoV>, b: Seq<ForeignUtxoV>)
    ensures
        sum_foreign_vsize(a + b) == sum_foreign_vsize(a) + sum_foreign_vsize(b),
    decreases a.len(),
{
    if a.len() == 0 {
        assert(a + b =~= b);
    } else {
        assert((a + b).drop_first() =~= a.drop_first() + b);
        lemma_sum_foreign_vsize_concat(a.drop_first(), b);
    }
}

pub proof fn lemma_sum_foreign_value_concat(a: Seq<ForeignUtxoV>, b: Seq<ForeignUtxoV>)
    ensures
        sum_foreign_value(a + b) == sum_foreign_value(a) + sum_foreign_value(b),
    decreases a.len(),
{
    if a.len() == 0 {
        assert(a + b =~= b);
    } else {
        assert((a + b).drop_first() =~= a.drop_first() + b);
        lemma_sum_foreign_value_concat(a.drop_first(), b);
    }
}

pub proof fn lemma_sum_foreign_prefix(s: Seq<ForeignUtxoV>, i: int)
    requires
        0 <= i <= s.len(),
    ensures
        sum_foreign_vsize(s.take(i)) <= sum_foreign_vsize(s),
        sum_foreign_value(s.take(i)) <= sum_foreign_value(s),
{
    assert(s =~= s.take(i) + s.skip(i));
    lemma_sum_foreign_vsize_concat(s.take(i), s.skip(i));
    lemma_sum_foreign_value_concat(s.take(i), s.skip(i));
    lemma_sum_foreign_vsize_nonneg(s.skip(i));
    lemma_sum_foreign_value_nonneg(s.skip(i));
}

/// Whether some recipient asks for a dust amount.
pub fn has_dust(rs: &Vec<crate::types::Recipient>) -> (r: bool)
    ensures
        r == exists|i: int|
            0 <= i < recips_view(rs@).len() && recips_view(rs@)[i].amount < DUST_LIMIT,
{
    let mut i: usize = 0;
    while i < rs.len()
        invariant
            i <= rs.len(),
            forall|k: int| 0 <= k < i ==> recips_view(rs@)[k].amount >= DUST_LIMIT,
        decreases rs.len() - i,
    {
        if rs[i].amount < DUST_LIMIT {
            proof {
                assert(recips_view(rs@)[i as int] == rs@[i as int]@);
                assert(recips_view(rs@)[i as int].amount < DUST_LIMIT);
            }
            return true;
        }
        proof {
            assert(recips_view(rs@)[i as int] == rs@[i as int]@);
        }
        i += 1;
    }
    false
}

/// Sum of the recipient amounts; the size ceiling bounds the count, so
/// the sum fits the accumulator.
pub fn sum_recipient_amounts(rs: &Vec<crate::types::Recipient>) -> (r: u128)
    requires
        sum_out_vsize(recipient_outputs(recips_view(rs@))) <= MAX_TX_VSIZE,
    ensures
        r == sum_out_value(recipient_outputs(recips_view(rs@))),
{
    let ghost outs = recipient_outputs(recips_view(rs@));
    proof {
        crate::fee::lemma_sum_out_vsize_count(outs);
        assert(outs.len() <= MAX_TX_VSIZE) by (nonlinear_arith)
            requires
                OUTPUT_BASE_VSIZE * outs.len() <= MAX_TX_VSIZE,
                OUTPUT_BASE_VSIZE >= 1,
        ;
    }
    let mut acc: u128 = 0;
    let mut i: usize = 0;
    while i < rs.len()
        invariant
            i <= rs.len(),
            outs == recipient_outputs(recips_view(rs@)),
            outs.len() == rs.len(),
            outs.len() <= MAX_TX_VSIZE,
            acc == sum_out_value(outs.take(i as int)),
            acc <= (i as int) * (u64::MAX as int),
        decreases rs.len() - i,
    {
        proof {
            lemma_sum_out_take_step(outs, i as int);
            assert(outs[i as int].value == rs@[i as int]@.amount);
            assert((i as int + 1) * (u64::MAX as int) == (i as int) * (u64::MAX as int) + (
            u64::MAX as int)) by (nonlinear_arith);
            assert((i as int) * (u64::MAX as int) <= (MAX_TX_VSIZE as int) * (u64::MAX as int))
                by (nonlinear_arith)
                requires
                    0 <= i as int <= MAX_TX_VSIZE as int,
            ;
        }
        acc = acc + rs[i].amount as u128;
        i += 1;
    }
    proof {
        assert(outs.take(rs.len() as int) =~= outs);
    }
    acc
}

pub proof fn lemma_sum_utxo_value_concat(a: Seq<UtxoV>, b: Seq<UtxoV>)
    ensures
        sum_utxo_value(a + b) == sum_utxo_value(a) + sum_utxo_value(b),
    decreases a.len(),
{
    if a.len() == 0 {
        assert(a + b =~= b);
    } else {
        assert((a + b).drop_first() =~= a.drop_first() + b);
        lemma_sum_utxo_value_concat(a.drop_first(), b);
    }
}

pub proof fn lemma_sum_utxo_take_step(s: Seq<UtxoV>, i: int)
    requires
        0 <= i < s.len(),
    ensures
        sum_utxo_value(s.take(i + 1)) == sum_utxo_value(s.take(i)) + s[i].value,
{
    assert(s.take(i + 1) =~= s.take(i) + seq![s[i]]);
    lemma_sum_utxo_value_concat(s.take(i), seq![s[i]]);
    assert(seq![s[i]].drop_first() =~= Seq::<UtxoV>::empty());
    assert(seq![s[i]][0] == s[i]);
    assert(sum_utxo_value(Seq::<UtxoV>::empty()) == 0);
}

pub proof fn lemma_sum_utxo_prefix(s: Seq<UtxoV>, i: int)
    requires
        0 <= i <= s.len(),
    ensures
        sum_utxo_value(s.take(i)) <= sum_utxo_value(s),
{
    assert(s =~= s.take(i) + s.skip(i));
    lemma_sum_utxo_value_concat(s.take(i), s.skip(i));
    lemma_sum_utxo_value_nonneg(s.skip(i));
}

/// One more selected candidate extends the funding totals by its value
/// and size.
pub proof fn lemma_sum_cand_push(s: Seq<CandidateV>, c: CandidateV)
    ensures
        sum_cand_value(s.push(c)) == sum_cand_value(s) + c.value,
        sum_cand_vsize(s.push(c)) == sum_cand_vsize(s) + c.vsize,
{
    assert(s.push(c) =~= s + seq![c]);
    lemma_sum_cand_value_concat(s, seq![c]);
    lemma_sum_cand_vsize_concat(s, seq![c]);
    assert(seq![c].drop_first() =~= Seq::<CandidateV>::empty());
    assert(seq![c][0] == c);
    assert(sum_cand_value(Seq::<CandidateV>::empty()) == 0);
    assert(sum_cand_vsize(Seq::<CandidateV>::empty()) == 0);
}

/// The remaining pool shrinks by exactly its first coin.
pub proof fn lemma_sum_cand_skip_step(s: Seq<CandidateV>, j: int)
    requires
        0 <= j < s.len(),
    ensures
        sum_cand_value(s.skip(j)) == s[j].value + sum_cand_value(s.skip(j + 1)),
        sum_cand_vsize(s.skip(j)) == s[j].vsize + sum_cand_vsize(s.skip(j + 1)),
{
    assert(s.skip(j).len() > 0);
    assert(s.skip(j)[0] == s[j]);
    assert(s.skip(j).drop_first() =~= s.skip(j + 1));
}

/// Every pool candidate is an eligible owned coin: it charges the owned
/// input size.
pub proof fn lemma_filter_pool_elems(s: Seq<UtxoV>, unsp: Seq<OutPointV>, pol: ChangeSpendPolicy)
    ensures
        forall|k: int|
            0 <= k < filter_pool(s, unsp, pol).len() ==> (#[trigger] filter_pool(s, unsp, pol)[k]).vsize
                == OWNED_INPUT_VSIZE,
    decreases s.len(),
{
    if s.len() > 0 {
        lemma_filter_pool_elems(s.drop_first(), unsp, pol);
        let f = filter_pool(s, unsp, pol);
        let rest = filter_pool(s.drop_first(), unsp, pol);
        if is_eligible(s[0], unsp, pol) {
            assert(f =~= seq![cand_of_utxo(s[0])] + rest);
            assert(forall|k: int| 0 <= k < f.len() ==> (#[trigger] f[k]).vsize
                == OWNED_INPUT_VSIZE) by {
                assert(f[0] == cand_of_utxo(s[0]));
                assert(forall|k: int| 1 <= k < f.len() ==> f[k] == rest[k - 1]);
            }
        } else {
            assert(f =~= rest);
        }
    }
}

/// A total over candidates of non-negative size is non-negative.
pub proof fn lemma_sum_cand_vsize_nonneg_if(s: Seq<CandidateV>)
    requires
        forall|k: int| 0 <= k < s.len() ==> (#[trigger] s[k]).vsize >= 0,
    ensures
        0 <= sum_cand_vsize(s),
    decreases s.len(),
{
    if s.len() > 0 {
        assert(forall|k: int| 0 <= k < s.drop_first().len() ==> (#[trigger] s.drop_first()[k]).vsize
            >= 0) by {
            assert(forall|k: int|
                0 <= k < s.drop_first().len() ==> s.drop_first()[k] == s[k + 1]);
        }
        lemma_sum_cand_vsize_nonneg_if(s.drop_first());
    }
}

/// Select the funding inputs for a validated request: the mandatory coins
/// first, then — unless restricted to them — the eligible pool, greedily
/// in pool order until the request is covered, or wholesale in drain
/// mode. Returns the selection with its total value and virtual size.
fn select_funds(req: &BuildRequest, base_vs: u64, target: u128) -> (r: (Vec<Candidate>, u128, u128))
    requires
        spec_total_value(req@) <= u64::MAX,
        spec_request_vsize(req@) <= MAX_TX_VSIZE,
        base_vs == spec_base_vsize(req@),
        target == spec_target(req@),
        spec_target(req@) <= (MAX_TX_VSIZE as int) * (u64::MAX as int),
    ensures
        cands_view(r.0@) == spec_selected(req@),
        r.1 == spec_sel_sum(req@),
        r.2 == spec_sel_vsize(req@),
        r.1 <= u64::MAX,
        spec_base_vsize(req@) + tail_vsize(req@) + r.2 <= MAX_TX_VSIZE,
{
    let ghost rv = req@;
    let mut sel: Vec<Candidate> = Vec::new();
    let mut sum: u128 = 0;
    let mut vs: u128 = 0;

    proof {
        // the request-size decomposition used for every in-loop bound
        crate::fee::lemma_sum_out_vsize_nonneg(fixed_outputs(rv));
        lemma_sum_foreign_vsize_nonneg(rv.foreign_utxos);
        lemma_sum_foreign_value_nonneg(rv.foreign_utxos);
        lemma_sum_utxo_value_nonneg(rv.manual_utxos);
        lemma_sum_utxo_value_nonneg(rv.optional_utxos);
    }

    // mandatory owned coins
    let mut i: usize = 0;
    while i < req.manual_utxos.len()
        invariant
            i <= req.manual_utxos.len(),
            spec_total_value(rv) <= u64::MAX,
            spec_request_vsize(rv) <= MAX_TX_VSIZE,
            rv == req@,
            cands_view(sel@) == cands_of_utxos(rv.manual_utxos.take(i as int)),
            sum == sum_cand_value(cands_view(sel@)),
            vs == sum_cand_vsize(cands_view(sel@)),
            sum <= u64::MAX,
            vs <= MAX_TX_VSIZE,
        decreases req.manual_utxos.len() - i,
    {
        let u = &req.manual_utxos[i];
        let c = Candidate {
            txid: clone_bytes(&u.outpoint.txid),
            vout: u.outpoint.vout,
            value: u.value,
            script_pubkey: clone_bytes(&u.script_pubkey),
            vsize: OWNED_INPUT_VSIZE,
        };
        proof {
            lemma_sum_foreign_value_nonneg(rv.foreign_utxos);
            lemma_sum_utxo_value_nonneg(rv.optional_utxos);
            crate::fee::lemma_sum_out_vsize_nonneg(fixed_outputs(rv));
            lemma_sum_foreign_vsize_nonneg(rv.foreign_utxos);
            assert(OWNED_INPUT_VSIZE * rv.optional_utxos.len() >= 0) by (nonlinear_arith);
            let mseq = rv.manual_utxos;
            assert(mseq[i as int] == req.manual_utxos@[i as int]@);
            assert(c@ =~= cand_of_utxo(mseq[i as int]));
            lemma_sum_cand_push(cands_view(sel@), c@);
            assert(cands_view(sel@.push(c)) =~= cands_view(sel@).push(c@));
            assert(cands_of_utxos(mseq.take(i + 1)) =~= cands_of_utxos(
                mseq.take(i as int),
            ).push(cand_of_utxo(mseq[i as int])));
            // value bound: the prefix so far never exceeds the request total
            lemma_map_utxo_sums(mseq.take(i as int));
            lemma_map_utxo_sums(mseq.take(i + 1));
            lemma_sum_utxo_take_step(mseq, i as int);
            lemma_sum_utxo_prefix(mseq, i + 1);
            // size bound: the owned prefix fits under the request size
            lemma_map_utxo_sums(mseq);
            assert(OWNED_INPUT_VSIZE * (i + 1) <= OWNED_INPUT_VSIZE * mseq.len())
                by (nonlinear_arith)
                requires
                    0 <= i + 1 <= mseq.len(),
            ;
        }
        sum = sum + u.value as u128;
        vs = vs + OWNED_INPUT_VSIZE as u128;
        sel.push(c);
        i += 1;
    }
    proof {
        assert(rv.manual_utxos.take(rv.manual_utxos.len() as int) =~= rv.manual_utxos);
    }

    // mandatory foreign coins
    let mut i: usize = 0;
    while i < req.foreign_utxos.len()
        invariant
            i <= req.foreign_utxos.len(),
            spec_total_value(rv) <= u64::MAX,
            spec_request_vsize(rv) <= MAX_TX_VSIZE,
            rv == req@,
            cands_view(sel@) == cands_of_utxos(rv.manual_utxos) + cands_of_foreigns(
                rv.foreign_utxos.take(i as int),
            ),
            sum == sum_cand_value(cands_view(sel@)),
            vs == sum_cand_vsize(cands_view(sel@)),
            sum <= u64::MAX,
            vs <= MAX_TX_VSIZE,
        decreases req.foreign_utxos.len() - i,
    {
        let f = &req.foreign_utxos[i];
        proof {
            let fseq = rv.foreign_utxos;
            assert(fseq[i as int] == req.foreign_utxos@[i as int]@);
            lemma_sum_foreign_vsize_member(fseq, i as int);
            crate::fee::lemma_sum_out_vsize_nonneg(fixed_outputs(rv));
            lemma_sum_utxo_value_nonneg(rv.optional_utxos);
            lemma_sum_utxo_value_nonneg(rv.manual_utxos);
            assert(OWNED_INPUT_VSIZE * rv.optional_utxos.len() >= 0) by (nonlinear_arith);
            assert(OWNED_INPUT_VSIZE * rv.manual_utxos.len() >= 0) by (nonlinear_arith);
            assert(FOREIGN_INPUT_BASE_VSIZE + fseq[i as int].satisfaction_vsize <= MAX_TX_VSIZE);
        }
        let c = Candidate {
            txid: clone_bytes(&f.outpoint.txid),
            vout: f.outpoint.vout,
            value: f.value,
            script_pubkey: clone_bytes(&f.script_pubkey),
            vsize: FOREIGN_INPUT_BASE_VSIZE + f.satisfaction_vsize,
        };
        proof {
            let fseq = rv.foreign_utxos;
            assert(c@ =~= cand_of_foreign(fseq[i as int]));
            lemma_sum_cand_push(cands_view(sel@), c@);
            assert(cands_view(sel@.push(c)) =~= cands_view(sel@).push(c@));
            assert(cands_of_foreigns(fseq.take(i + 1)) =~= cands_of_foreigns(
                fseq.take(i as int),
            ).push(cand_of_foreign(fseq[i as int])));
            assert((cands_of_utxos(rv.manual_utxos) + cands_of_foreigns(fseq.take(i as int))).push(
                c@,
            ) =~= cands_of_utxos(rv.manual_utxos) + cands_of_foreigns(fseq.take(i + 1)));
            // value bound
            lemma_map_utxo_sums(rv.manual_utxos);
            lemma_map_foreign_sums(fseq.take(i as int));
            lemma_map_foreign_sums(fseq.take(i + 1));
            lemma_sum_cand_value_concat(
                cands_of_utxos(rv.manual_utxos),
                cands_of_foreigns(fseq.take(i as int)),
            );
            lemma_sum_cand_value_concat(
                cands_of_utxos(rv.manual_utxos),
                cands_of_foreigns(fseq.take(i + 1)),
            );
            lemma_sum_foreign_take_step(fseq, i as int);
            lemma_sum_foreign_prefix(fseq, i + 1);
            // size bound
            lemma_sum_cand_vsize_concat(
                cands_of_utxos(rv.manual_utxos),
                cands_of_foreigns(fseq.take(i as int)),
            );
            lemma_sum_cand_vsize_concat(
                cands_of_utxos(rv.manual_utxos),
                cands_of_foreigns(fseq.take(i + 1)),
            );
        }
        sum = sum + f.value as u128;
        vs = vs + c.vsize as u128;
        sel.push(c);
        i += 1;
    }
    proof {
        assert(rv.foreign_utxos.take(rv.foreign_utxos.len() as int) =~= rv.foreign_utxos);
        assert(cands_view(sel@) == mandatory_cands(rv));
    }

    if req.manual_only {
        proof {
            assert(spec_selected(rv) == mandatory_cands(rv));
            lemma_map_utxo_sums(rv.manual_utxos);
            lemma_map_foreign_sums(rv.foreign_utxos);
            lemma_sum_cand_vsize_concat(
                cands_of_utxos(rv.manual_utxos),
                cands_of_foreigns(rv.foreign_utxos),
            );
            crate::fee::lemma_sum_out_vsize_nonneg(fixed_outputs(rv));
            assert(OWNED_INPUT_VSIZE * rv.optional_utxos.len() >= 0) by (nonlinear_arith);
        }
        return (sel, sum, vs);
    }

    // the eligible pool
    let mut pool: Vec<Candidate> = Vec::new();
    let mut j: usize = 0;
    while j < req.optional_utxos.len()
        invariant
            j <= req.optional_utxos.len(),
            rv == req@,
            cands_view(pool@) == filter_pool(
                rv.optional_utxos.take(j as int),
                rv.unspendable,
                rv.change_policy,
            ),
        decreases req.optional_utxos.len() - j,
    {
        let u = &req.optional_utxos[j];
        let admitted = match req.change_policy {
            ChangeSpendPolicy::ChangeAllowed => true,
            ChangeSpendPolicy::OnlyChange => u.keychain == KeychainKind::Internal,
            ChangeSpendPolicy::ChangeForbidden => u.keychain == KeychainKind::External,
        };
        let excluded = outpoint_excluded(&req.unspendable, &u.outpoint);
        proof {
            let oseq = rv.optional_utxos;
            assert(oseq[j as int] == req.optional_utxos@[j as int]@);
            assert(oseq.take(j + 1) =~= oseq.take(j as int).push(oseq[j as int]));
            lemma_filter_pool_snoc(
                oseq.take(j as int),
                oseq[j as int],
                rv.unspendable,
                rv.change_policy,
            );
            assert(admitted == policy_admits(rv.change_policy, oseq[j as int].keychain));
        }
        if !u.is_spent && admitted && !excluded {
            let c = Candidate {
                txid: clone_bytes(&u.outpoint.txid),
                vout: u.outpoint.vout,
                value: u.value,
                script_pubkey: clone_bytes(&u.script_pubkey),
                vsize: OWNED_INPUT_VSIZE,
            };
            proof {
                let oseq = rv.optional_utxos;
                assert(is_eligible(oseq[j as int], rv.unspendable, rv.change_policy));
                assert(c@ =~= cand_of_utxo(oseq[j as int]));
                assert(cands_view(pool@.push(c)) =~= cands_view(pool@).push(c@));
                assert(filter_pool(oseq.take(j as int), rv.unspendable, rv.change_policy).push(c@)
                    =~= filter_pool(oseq.take(j as int), rv.unspendable, rv.change_policy) + seq![
                    cand_of_utxo(oseq[j as int]),
                ]);
            }
            pool.push(c);
        } else {
            proof {
                let oseq = rv.optional_utxos;
                assert(!is_eligible(oseq[j as int], rv.unspendable, rv.change_policy));
                assert(filter_pool(oseq.take(j as int), rv.unspendable, rv.change_policy) + Seq::<
                    CandidateV,
                >::empty() =~= filter_pool(oseq.take(j as int), rv.unspendable, rv.change_policy));
            }
        }
        j += 1;
    }
    let ghost pool_v = cands_view(pool@);
    proof {
        assert(rv.optional_utxos.take(rv.optional_utxos.len() as int) =~= rv.optional_utxos);
        assert(pool_v == spec_pool(rv));
        lemma_filter_pool_sums(rv.optional_utxos, rv.unspendable, rv.change_policy);
        lemma_filter_pool_elems(rv.optional_utxos, rv.unspendable, rv.change_policy);
        lemma_map_utxo_sums(rv.manual_utxos);
        lemma_map_foreign_sums(rv.foreign_utxos);
        lemma_sum_cand_value_concat(
            cands_of_utxos(rv.manual_utxos),
            cands_of_foreigns(rv.foreign_utxos),
        );
        lemma_sum_cand_vsize_concat(
            cands_of_utxos(rv.manual_utxos),
            cands_of_foreigns(rv.foreign_utxos),
        );
        assert(OWNED_INPUT_VSIZE * rv.optional_utxos.len() >= 0) by (nonlinear_arith);
        assert(OWNED_INPUT_VSIZE * rv.manual_utxos.len() >= 0) by (nonlinear_arith);
    }

    proof {
        // budgets on entry to the pool-consuming loops
        assert(pool_v.skip(0) =~= pool_v);
        assert(sum + sum_cand_value(pool_v) <= spec_total_value(rv));
        assert(vs + sum_cand_vsize(pool_v) + spec_base_vsize(rv) + tail_vsize(rv)
            <= spec_request_vsize(rv));
    }
    if req.drain_wallet {
        // drain: spend the whole pool
        let mut j: usize = 0;
        while j < pool.len()
            invariant
                j <= pool.len(),
                rv == req@,
                pool_v == cands_view(pool@),
                pool_v == spec_pool(rv),
                cands_view(sel@) == mandatory_cands(rv) + pool_v.take(j as int),
                sum == sum_cand_value(cands_view(sel@)),
                vs == sum_cand_vsize(cands_view(sel@)),
                sum + sum_cand_value(pool_v.skip(j as int)) <= u64::MAX,
                vs + sum_cand_vsize(pool_v.skip(j as int)) + spec_base_vsize(rv) + tail_vsize(rv)
                    <= MAX_TX_VSIZE,
            decreases pool.len() - j,
        {
            let c = Candidate {
                txid: clone_bytes(&pool[j].txid),
                vout: pool[j].vout,
                value: pool[j].value,
                script_pubkey: clone_bytes(&pool[j].script_pubkey),
                vsize: pool[j].vsize,
            };
            proof {
                assert(c@ =~= pool_v[j as int]);
                lemma_sum_cand_push(cands_view(sel@), c@);
                assert(cands_view(sel@.push(c)) =~= cands_view(sel@).push(c@));
                assert((mandatory_cands(rv) + pool_v.take(j as int)).push(c@) =~= mandatory_cands(
                    rv,
                ) + pool_v.take(j + 1));
                lemma_sum_cand_skip_step(pool_v, j as int);
                lemma_sum_cand_value_nonneg(pool_v.skip(j + 1));
                lemma_filter_pool_elems(rv.optional_utxos, rv.unspendable, rv.change_policy);
                lemma_sum_cand_vsize_nonneg_if(pool_v.skip(j + 1));
                crate::fee::lemma_sum_out_vsize_nonneg(fixed_outputs(rv));
            }
            sum = sum + c.value as u128;
            vs = vs + c.vsize as u128;
            sel.push(c);
            j += 1;
        }
        proof {
            assert(pool_v.take(pool_v.len() as int) =~= pool_v);
            assert(cands_view(sel@) == spec_selected(rv));
            assert(pool_v.skip(pool_v.len() as int) =~= Seq::<CandidateV>::empty());
            assert(sum_cand_value(Seq::<CandidateV>::empty()) == 0);
            assert(sum_cand_vsize(Seq::<CandidateV>::empty()) == 0);
        }
        return (sel, sum, vs);
    }

    // greedy draw until covered
    let ghost m_sum = sum as int;
    let ghost m_vs = vs as int;
    let ghost mut gtaken: Seq<CandidateV> = Seq::empty();
    proof {
        assert(mandatory_cands(rv) + gtaken =~= cands_view(sel@));
        assert(gtaken + grow(rv, pool_v.skip(0), sum as int, vs as int) =~= grow(
            rv,
            pool_v,
            m_sum,
            m_vs,
        ));
    }
    let mut j: usize = 0;
    while j < pool.len()
        invariant
            j <= pool.len(),
            rv == req@,
            base_vs == spec_base_vsize(rv),
            target == spec_target(rv),
            target <= (MAX_TX_VSIZE as u128) * (u64::MAX as u128),
            req.fee_rate == rv.fee_rate,
            req.fee_absolute == rv.fee_absolute,
            pool_v == cands_view(pool@),
            pool_v == spec_pool(rv),
            cands_view(sel@) == mandatory_cands(rv) + gtaken,
            sum == sum_cand_value(cands_view(sel@)),
            vs == sum_cand_vsize(cands_view(sel@)),
            grow(rv, pool_v, m_sum, m_vs) == gtaken + grow(
                rv,
                pool_v.skip(j as int),
                sum as int,
                vs as int,
            ),
            sum + sum_cand_value(pool_v.skip(j as int)) <= u64::MAX,
            vs + sum_cand_vsize(pool_v.skip(j as int)) + spec_base_vsize(rv) + tail_vsize(rv)
                <= MAX_TX_VSIZE,
        ensures
            rv == req@,
            pool_v == cands_view(pool@),
            cands_view(sel@) == mandatory_cands(rv) + gtaken,
            sum == sum_cand_value(cands_view(sel@)),
            vs == sum_cand_vsize(cands_view(sel@)),
            grow(rv, pool_v, m_sum, m_vs) == gtaken + grow(
                rv,
                pool_v.skip(j as int),
                sum as int,
                vs as int,
            ),
            j <= pool@.len(),
            spec_covered(rv, sum as int, vs as int) || j == pool@.len(),
            sum + sum_cand_value(pool_v.skip(j as int)) <= u64::MAX,
            vs + sum_cand_vsize(pool_v.skip(j as int)) + spec_base_vsize(rv) + tail_vsize(rv)
                <= MAX_TX_VSIZE,
        decreases pool.len() - j,
    {
        proof {
            lemma_filter_pool_elems(rv.optional_utxos, rv.unspendable, rv.change_policy);
            lemma_sum_cand_vsize_nonneg_if(pool_v.skip(j as int));
            lemma_sum_cand_value_nonneg(pool_v.skip(j as int));
            crate::fee::lemma_sum_out_vsize_nonneg(fixed_outputs(rv));
            assert(tail_vsize(rv) >= 0);
        }
        let fee = crate::fee::fee_for(req.fee_rate, req.fee_absolute, base_vs + vs as u64);
        proof {
            crate::fee::lemma_fee_bound(rv.fee_rate, rv.fee_absolute, base_vs + vs as int);
        }
        if sum >= target + fee {
            proof {
                assert(spec_covered(rv, sum as int, vs as int));
            }
            break ;
        }
        let c = Candidate {
            txid: clone_bytes(&pool[j].txid),
            vout: pool[j].vout,
            value: pool[j].value,
            script_pubkey: clone_bytes(&pool[j].script_pubkey),
            vsize: pool[j].vsize,
        };
        proof {
            let rem = pool_v.skip(j as int);
            assert(c@ =~= pool_v[j as int]);
            assert(rem[0] == pool_v[j as int]);
            assert(rem.drop_first() =~= pool_v.skip(j + 1));
            assert(!spec_covered(rv, sum as int, vs as int));
            assert(grow(rv, rem, sum as int, vs as int) == seq![rem[0]] + grow(
                rv,
                pool_v.skip(j + 1),
                sum as int + rem[0].value,
                vs as int + rem[0].vsize,
            ));
            lemma_sum_cand_push(cands_view(sel@), c@);
            assert(cands_view(sel@.push(c)) =~= cands_view(sel@).push(c@));
            assert((mandatory_cands(rv) + gtaken).push(c@) =~= mandatory_cands(rv) + gtaken.push(
                c@,
            ));
            assert(gtaken + (seq![rem[0]] + grow(
                rv,
                pool_v.skip(j + 1),
                sum as int + rem[0].value,
                vs as int + rem[0].vsize,
            )) =~= gtaken.push(c@) + grow(
                rv,
                pool_v.skip(j + 1),
                sum as int + rem[0].value,
                vs as int + rem[0].vsize,
            ));
            lemma_sum_cand_skip_step(pool_v, j as int);
            lemma_sum_cand_value_nonneg(pool_v.skip(j + 1));
            lemma_sum_cand_vsize_nonneg_if(pool_v.skip(j + 1));
            gtaken = gtaken.push(c@);
        }
        sum = sum + c.value as u128;
        vs = vs + c.vsize as u128;
        sel.push(c);
        j += 1;
    }
    proof {
        if spec_covered(rv, sum as int, vs as int) {
            assert(grow(rv, pool_v.skip(j as int), sum as int, vs as int) =~= Seq::<
                CandidateV,
            >::empty());
        } else {
            assert(j == pool@.len());
            assert(pool_v.skip(pool_v.len() as int) =~= Seq::<CandidateV>::empty());
            assert(grow(rv, pool_v.skip(j as int), sum as int, vs as int) =~= Seq::<
                CandidateV,
            >::empty());
        }
        assert(gtaken + Seq::<CandidateV>::empty() =~= gtaken);
        assert(gtaken == grow(rv, pool_v, m_sum, m_vs));
        lemma_sum_cand_value_nonneg(pool_v.skip(j as int));
        lemma_filter_pool_elems(rv.optional_utxos, rv.unspendable, rv.change_policy);
        lemma_sum_cand_vsize_nonneg_if(pool_v.skip(j as int));
        lemma_map_utxo_sums(rv.manual_utxos);
        lemma_map_foreign_sums(rv.foreign_utxos);
        lemma_sum_cand_value_concat(
            cands_of_utxos(rv.manual_utxos),
            cands_of_foreigns(rv.foreign_utxos),
        );
        lemma_sum_cand_vsize_concat(
            cands_of_utxos(rv.manual_utxos),
            cands_of_foreigns(rv.foreign_utxos),
        );
        assert(cands_view(sel@) == spec_selected(rv));
    }
    (sel, sum, vs)
}

/// How the request's parts relate to its total size and value.
pub proof fn lemma_request_parts(rv: BuildRequestV)
    ensures
        sum_out_vsize(fixed_outputs(rv)) == sum_out_vsize(recipient_outputs(rv.recipients)) + (
        if rv.data.len() > 0 {
            OUTPUT_BASE_VSIZE + 2 + rv.data.len()
        } else {
            0
        }),
        sum_out_value(fixed_outputs(rv)) == sum_out_value(recipient_outputs(rv.recipients)),
        spec_request_vsize(rv) >= spec_base_vsize(rv) + tail_vsize(rv),
        spec_request_vsize(rv) >= TX_BASE_VSIZE + sum_out_vsize(
            recipient_outputs(rv.recipients),
        ),
        spec_request_vsize(rv) >= sum_foreign_vsize(rv.foreign_utxos),
        spec_request_vsize(rv) >= (if rv.data.len() > 0 {
            OUTPUT_BASE_VSIZE + 2 + rv.data.len()
        } else {
            0
        }),
        spec_request_vsize(rv) >= tail_vsize(rv),
        0 <= sum_out_value(recipient_outputs(rv.recipients)),
{
    let ro = recipient_outputs(rv.recipients);
    if rv.data.len() > 0 {
        let d = TxOutV { value: 0, script_pubkey: opreturn_script(rv.data) };
        assert(fixed_outputs(rv) == ro + seq![d]);
        crate::fee::lemma_sum_out_vsize_concat(ro, seq![d]);
        crate::fee::lemma_sum_out_value_concat(ro, seq![d]);
        assert(seq![d].drop_first() =~= Seq::<TxOutV>::empty());
        assert(seq![d][0] == d);
        assert(sum_out_vsize(Seq::<TxOutV>::empty()) == 0);
        assert(sum_out_value(Seq::<TxOutV>::empty()) == 0);
        assert(opreturn_script(rv.data).len() == 2 + rv.data.len());
    } else {
        assert(fixed_outputs(rv) =~= ro);
    }
    crate::fee::lemma_sum_out_vsize_nonneg(ro);
    lemma_sum_foreign_vsize_nonneg(rv.foreign_utxos);
    assert(OWNED_INPUT_VSIZE * rv.manual_utxos.len() >= 0) by (nonlinear_arith);
    assert(OWNED_INPUT_VSIZE * rv.optional_utxos.len() >= 0) by (nonlinear_arith);
    crate::fee::lemma_sum_out_value_nonneg(ro);
}

/// Clamp to the representable satoshi range.
fn sat_u64(x: u128) -> (r: u64)
    ensures
        r == sat64(x as int),
{
    if x > u64::MAX as u128 {
        u64::MAX
    } else {
        x as u64
    }
}

/// Everything the assembly stage relies on, established by validation,
/// selection and fee resolution.
spec fn assembly_ctx(
    rv: BuildRequestV,
    sum: u128,
    vs: u128,
    fee_final: u128,
    has_tail: bool,
    tail_value: u128,
) -> bool {
    &&& spec_validation_error(rv) is None
    &&& !spec_insufficient(rv)
    &&& sum == spec_sel_sum(rv)
    &&& vs == spec_sel_vsize(rv)
    &&& has_tail == spec_has_tail(rv)
    &&& fee_final == spec_final_fee(rv)
    &&& (has_tail ==> tail_value == spec_tail_value(rv))
    &&& (!has_tail ==> tail_value == 0)
    &&& sum <= u64::MAX
    &&& fee_final <= sum
    &&& tail_value <= sum
}

/// Build a signable PSBT and its transaction summary from a request.
///
/// The request is validated, funding inputs are selected, the fee is
/// resolved against the transaction's virtual size, and the outputs are
/// assembled: recipients in order, then the data-carrier output, then the
/// change or drain output. Selection is a pure function of the request,
/// so identical requests build identical PSBTs.
#[verifier::rlimit(100)]
pub fn build(req: &BuildRequest) -> (r: Result<(Psbt, TransactionDetails), Error>)
    requires
        spec_total_value(req@) <= u64::MAX,
    ensures
        spec_validation_error(req@) matches Some(e) ==> r == Err::<
            (Psbt, TransactionDetails),
            Error,
        >(e),
        spec_validation_error(req@) is None && spec_insufficient(req@) ==> r == Err::<
            (Psbt, TransactionDetails),
            Error,
        >(spec_shortfall_error(req@)),
        spec_validation_error(req@) is None && !spec_insufficient(req@) ==> r is Ok,
        r matches Ok(pd) ==> {
            &&& pd.0@.wf()
            &&& pd.0@.tx.version == 2
            &&& pd.0@.tx.lock_time == 0
            &&& pd.0@.tx.inputs == txins_of_cands(spec_selected(req@), spec_sequence(req@.rbf))
            &&& pd.0@.inputs == auxes_of_cands(spec_selected(req@))
            &&& pd.0@.tx.outputs == spec_final_outputs(req@)
            &&& (forall|i: int|
                0 <= i < pd.0@.outputs.len() ==> (#[trigger] pd.0@.outputs[i]).witness_script
                    is None)
            &&& pd.1.fee == spec_final_fee(req@)
            &&& pd.1.sent == spec_sel_sum(req@)
            &&& pd.1.received == (if spec_has_tail(req@) && !req@.drain_wallet {
                spec_tail_value(req@)
            } else {
                0
            })
            &&& spec_sel_sum(req@) == sum_out_value(pd.0@.tx.outputs) + pd.1.fee
            &&& spec_sel_sum(req@) >= spec_target(req@) + pd.1.fee
            &&& (req@.manual_only ==> spec_selected(req@) == mandatory_cands(req@))
            &&& (req@.drain_wallet && !req@.manual_only ==> spec_selected(req@) == mandatory_cands(
                req@,
            ) + spec_pool(req@))
            &&& (req@.data.len() > 0 ==> pd.0@.tx.outputs[req@.recipients.len() as int] == (TxOutV {
                value: 0,
                script_pubkey: opreturn_script(req@.data),
            }))
        },
{
    let ghost rv = req@;
    if req.fee_rate.is_some() && req.fee_absolute.is_some() {
        return Err(Error::ConflictingFeeSpecification);
    }
    // size ceiling, piece by piece
    let rec_vs: u64 = match vsize_of_recipients(&req.recipients) {
        Some(v) => v,
        None => {
            proof {
                lemma_request_parts(rv);
            }
            return Err(Error::FeeEstimationFailed);
        },
    };
    let for_vs: u64 = match vsize_of_foreigns(&req.foreign_utxos) {
        Some(v) => v,
        None => {
            proof {
                lemma_request_parts(rv);
            }
            return Err(Error::FeeEstimationFailed);
        },
    };
    let dlen_usize: usize = req.data.len();
    let dlen: u64 = dlen_usize as u64;
    let data_vs: u64 = if dlen_usize > 0 {
        if dlen > MAX_TX_VSIZE {
            proof {
                lemma_request_parts(rv);
            }
            return Err(Error::FeeEstimationFailed);
        }
        OUTPUT_BASE_VSIZE + 2 + dlen
    } else {
        0
    };
    let tail_len: u64 = if req.drain_wallet {
        match &req.drain_to {
            Some(s) => s.len() as u64,
            None => 0,
        }
    } else {
        req.change_script.len() as u64
    };
    if tail_len > MAX_TX_VSIZE {
        proof {
            lemma_request_parts(rv);
        }
        return Err(Error::FeeEstimationFailed);
    }
    let man_cnt: u128 = req.manual_utxos.len() as u128;
    let opt_cnt: u128 = req.optional_utxos.len() as u128;
    proof {
        assert(OWNED_INPUT_VSIZE as u128 * man_cnt <= OWNED_INPUT_VSIZE as u128
            * 0x1_0000_0000_0000_0000u128) by (nonlinear_arith)
            requires
                man_cnt <= 0x1_0000_0000_0000_0000u128,
        ;
        assert(OWNED_INPUT_VSIZE as u128 * opt_cnt <= OWNED_INPUT_VSIZE as u128
            * 0x1_0000_0000_0000_0000u128) by (nonlinear_arith)
            requires
                opt_cnt <= 0x1_0000_0000_0000_0000u128,
        ;
    }
    let total_vs: u128 = TX_BASE_VSIZE as u128 + rec_vs as u128 + data_vs as u128
        + OUTPUT_BASE_VSIZE as u128 + tail_len as u128 + OWNED_INPUT_VSIZE as u128 * man_cnt
        + for_vs as u128 + OWNED_INPUT_VSIZE as u128 * opt_cnt;
    proof {
        lemma_request_parts(rv);
        assert(total_vs == spec_request_vsize(rv));
    }
    if total_vs > MAX_TX_VSIZE as u128 {
        return Err(Error::FeeEstimationFailed);
    }
    if dlen > MAX_DATA_PUSH {
        return Err(Error::DataCarrierTooLarge);
    }
    if req.drain_wallet && req.drain_to.is_none() {
        return Err(Error::NoDrainDestination);
    }
    if !req.allow_dust && has_dust(&req.recipients) {
        return Err(Error::DustOutput);
    }
    proof {
        assert(spec_validation_error(rv) is None);
    }

    // funding
    let base_vs: u64 = TX_BASE_VSIZE + rec_vs + data_vs;
    let target: u128 = sum_recipient_amounts(&req.recipients);
    proof {
        lemma_request_parts(rv);
        assert(base_vs == spec_base_vsize(rv));
        assert(target == spec_target(rv));
        crate::fee::lemma_sum_out_value_bound(recipient_outputs(rv.recipients));
        crate::fee::lemma_sum_out_vsize_count(recipient_outputs(rv.recipients));
        assert(recipient_outputs(rv.recipients).len() <= MAX_TX_VSIZE) by (nonlinear_arith)
            requires
                OUTPUT_BASE_VSIZE * recipient_outputs(rv.recipients).len() <= sum_out_vsize(
                    recipient_outputs(rv.recipients),
                ),
                sum_out_vsize(recipient_outputs(rv.recipients)) <= MAX_TX_VSIZE,
                OUTPUT_BASE_VSIZE >= 1,
        ;
        assert(recipient_outputs(rv.recipients).len() * (u64::MAX as int) <= (
        MAX_TX_VSIZE as int) * (u64::MAX as int)) by (nonlinear_arith)
            requires
                0 <= recipient_outputs(rv.recipients).len() <= MAX_TX_VSIZE as int,
        ;
    }
    let selection = select_funds(req, base_vs, target);
    let sel = selection.0;
    let sum = selection.1;
    let vs = selection.2;
    let tail_vs: u64 = OUTPUT_BASE_VSIZE + tail_len;
    proof {
        assert(tail_vs == tail_vsize(rv));
    }
    let fee_tail: u128 = crate::fee::fee_for(
        req.fee_rate,
        req.fee_absolute,
        base_vs + vs as u64 + tail_vs,
    );
    proof {
        crate::fee::lemma_fee_bound(rv.fee_rate, rv.fee_absolute, base_vs + vs + tail_vs as int);
        crate::fee::lemma_fee_nonneg(rv.fee_rate, rv.fee_absolute, base_vs + vs + tail_vs as int);
        assert(fee_tail == spec_fee_with_tail(rv));
    }

    let has_tail: bool;
    let tail_value: u128;
    let fee_final: u128;
    if req.drain_wallet {
        if sum < target + fee_tail + DUST_LIMIT as u128 {
            proof {
                assert(spec_insufficient(rv));
            }
            let needed = sat_u64(target + fee_tail + DUST_LIMIT as u128);
            let available = sat_u64(sum);
            if req.manual_only {
                return Err(Error::ManualSelectionInsufficient);
            }
            return Err(Error::InsufficientFunds { needed, available });
        }
        has_tail = true;
        tail_value = sum - target - fee_tail;
        fee_final = fee_tail;
        proof {
            crate::fee::lemma_sum_out_value_nonneg(fixed_outputs(rv));
            assert(!spec_insufficient(rv));
            assert(has_tail == spec_has_tail(rv));
        }
    } else {
        let fee_nochange: u128 = crate::fee::fee_for(
            req.fee_rate,
            req.fee_absolute,
            base_vs + vs as u64,
        );
        proof {
            crate::fee::lemma_fee_bound(rv.fee_rate, rv.fee_absolute, base_vs + vs as int);
            assert(fee_nochange == spec_fee(rv.fee_rate, rv.fee_absolute, spec_base_vsize(rv)
                + spec_sel_vsize(rv)));
        }
        if sum < target + fee_nochange {
            proof {
                assert(!spec_covered(rv, sum as int, vs as int));
                assert(spec_insufficient(rv));
            }
            let needed = sat_u64(target + fee_nochange);
            let available = sat_u64(sum);
            if req.manual_only {
                return Err(Error::ManualSelectionInsufficient);
            }
            return Err(Error::InsufficientFunds { needed, available });
        }
        proof {
            assert(spec_covered(rv, sum as int, vs as int));
            assert(!spec_insufficient(rv));
        }
        if sum >= target + fee_tail + DUST_LIMIT as u128 {
            has_tail = true;
            tail_value = sum - target - fee_tail;
            fee_final = fee_tail;
        } else {
            has_tail = false;
            tail_value = 0;
            fee_final = sum - target;
        }
        proof {
            crate::fee::lemma_sum_out_value_nonneg(fixed_outputs(rv));
            assert(has_tail == spec_has_tail(rv));
        }
    }
    proof {
        assert(assembly_ctx(rv, sum, vs, fee_final, has_tail, tail_value));
    }

    // assembly: inputs
    let seq_no: u32 = match req.rbf {
        RbfPolicy::Off => 0xFFFF_FFFFu32,
        RbfPolicy::Enabled => 0xFFFF_FFFDu32,
        RbfPolicy::WithSequence(n) => n,
    };
    proof {
        assert(seq_no == spec_sequence(rv.rbf));
    }
    let ghost sel_v = cands_view(sel@);
    let mut txins: Vec<TxIn> = Vec::new();
    let mut auxes: Vec<InputAux> = Vec::new();
    let mut k: usize = 0;
    while k < sel.len()
        invariant
            k <= sel.len(),
            rv == req@,
            assembly_ctx(rv, sum, vs, fee_final, has_tail, tail_value),
            sel_v == cands_view(sel@),
            sel_v == spec_selected(rv),
            seq_no == spec_sequence(rv.rbf),
            txins_view(txins@) == txins_of_cands(sel_v.take(k as int), seq_no),
            inaux_view(auxes@) == auxes_of_cands(sel_v.take(k as int)),
        decreases sel.len() - k,
    {
        let c = &sel[k];
        let tin = TxIn { txid: clone_bytes(&c.txid), vout: c.vout, sequence: seq_no };
        let aux = InputAux {
            witness_utxo: Some(TxOut { value: c.value, script_pubkey: clone_bytes(&c.script_pubkey) }),
            partial_sigs: Vec::new(),
            witness_script: None,
            sighash_type: None,
            final_witness: None,
        };
        proof {
            assert(sel_v[k as int] == sel@[k as int]@);
            assert(tin@ =~= txin_of_cand(sel_v[k as int], seq_no));
            assert(crate::psbt::sigs_view(Seq::<crate::psbt::PartialSig>::empty()) =~= Seq::<
                crate::psbt::PartialSigV,
            >::empty());
            assert(aux@ =~= aux_of_cand(sel_v[k as int]));
            assert(txins_view(txins@.push(tin)) =~= txins_view(txins@).push(tin@));
            assert(inaux_view(auxes@.push(aux)) =~= inaux_view(auxes@).push(aux@));
            assert(txins_of_cands(sel_v.take(k + 1), seq_no) =~= txins_of_cands(
                sel_v.take(k as int),
                seq_no,
            ).push(txin_of_cand(sel_v[k as int], seq_no)));
            assert(auxes_of_cands(sel_v.take(k + 1)) =~= auxes_of_cands(sel_v.take(k as int)).push(
                aux_of_cand(sel_v[k as int]),
            ));
        }
        txins.push(tin);
        auxes.push(aux);
        k += 1;
    }
    proof {
        assert(sel_v.take(sel@.len() as int) =~= sel_v);
    }

    // assembly: outputs
    let mut outs: Vec<TxOut> = Vec::new();
    let mut k: usize = 0;
    while k < req.recipients.len()
        invariant
            k <= req.recipients.len(),
            rv == req@,
            assembly_ctx(rv, sum, vs, fee_final, has_tail, tail_value),
            sel_v == spec_selected(rv),
            txins_view(txins@) == txins_of_cands(sel_v, spec_sequence(rv.rbf)),
            inaux_view(auxes@) == auxes_of_cands(sel_v),
            txins@.len() == sel_v.len(),
            txouts_view(outs@) == recipient_outputs(rv.recipients).take(k as int),
        decreases req.recipients.len() - k,
    {
        let rec = &req.recipients[k];
        let o = TxOut { value: rec.amount, script_pubkey: clone_bytes(&rec.script_pubkey) };
        proof {
            let ro = recipient_outputs(rv.recipients);
            assert(rv.recipients[k as int] == req.recipients@[k as int]@);
            assert(o@ =~= ro[k as int]);
            assert(txouts_view(outs@.push(o)) =~= txouts_view(outs@).push(o@));
            assert(ro.take(k + 1) =~= ro.take(k as int).push(ro[k as int]));
        }
        outs.push(o);
        k += 1;
    }
    proof {
        assert(recipient_outputs(rv.recipients).take(req.recipients@.len() as int)
            =~= recipient_outputs(rv.recipients));
    }
    if dlen_usize > 0 {
        let mut sc: Vec<u8> = Vec::new();
        sc.push(0x6a);
        sc.push(dlen as u8);
        append_bytes(&mut sc, &req.data);
        let dout = TxOut { value: 0, script_pubkey: sc };
        proof {
            assert(dout@.script_pubkey =~= opreturn_script(rv.data));
            assert(txouts_view(outs@.push(dout)) =~= txouts_view(outs@).push(dout@));
            assert(recipient_outputs(rv.recipients).push(dout@) =~= fixed_outputs(rv));
        }
        outs.push(dout);
    } else {
        proof {
            assert(recipient_outputs(rv.recipients) =~= fixed_outputs(rv));
        }
    }
    let ghost n_fixed = outs@.len() as int;
    proof {
        assert(txouts_view(outs@) == fixed_outputs(rv));
        assert(n_fixed == fixed_outputs(rv).len());
    }
    if has_tail {
        let tscript: Vec<u8> = if req.drain_wallet {
            match &req.drain_to {
                Some(s) => clone_bytes(s),
                None => Vec::new(),
            }
        } else {
            clone_bytes(&req.change_script)
        };
        let tout = TxOut { value: sat_u64(tail_value), script_pubkey: tscript };
        proof {
            assert(rv.drain_wallet ==> rv.drain_to is Some);
            assert(tout@.script_pubkey =~= tail_script(rv));
            assert(tail_value <= u64::MAX);
            assert(tout@.value == spec_tail_value(rv) as u64);
            assert(txouts_view(outs@.push(tout)) =~= txouts_view(outs@).push(tout@));
            assert(fixed_outputs(rv).push(tout@) =~= spec_final_outputs(rv));
        }
        outs.push(tout);
    } else {
        proof {
            assert(fixed_outputs(rv) =~= spec_final_outputs(rv));
        }
    }

    // assembly: output auxiliary maps
    let mut outauxes: Vec<OutputAux> = Vec::new();
    let n_outs: usize = outs.len();
    let mut k: usize = 0;
    while k < n_outs
        invariant
            k <= n_outs,
            outauxes@.len() == k,
            forall|i: int|
                0 <= i < k ==> (#[trigger] crate::psbt::outaux_view(outauxes@)[i]).witness_script
                    is None,
        decreases n_outs - k,
    {
        let oa = OutputAux { witness_script: None };
        proof {
            assert(crate::psbt::outaux_view(outauxes@.push(oa))
                =~= crate::psbt::outaux_view(outauxes@).push(oa@));
        }
        outauxes.push(oa);
        k += 1;
    }

    let tx = Transaction { version: 2, lock_time: 0, inputs: txins, outputs: outs };
    let psbt = Psbt { unsigned_tx: tx, inputs: auxes, outputs: outauxes };
    let fee_u64 = sat_u64(fee_final);
    let sent = sat_u64(sum);
    let received: u64 = if has_tail && !req.drain_wallet {
        sat_u64(tail_value)
    } else {
        0
    };
    let details = TransactionDetails { fee: fee_u64, sent, received };
    proof {
        assert(psbt@.tx.outputs == spec_final_outputs(rv));
        assert(psbt@.tx.inputs == txins_of_cands(spec_selected(rv), spec_sequence(rv.rbf)));
        assert(psbt@.inputs == auxes_of_cands(spec_selected(rv)));
        assert(psbt@.inputs.len() == spec_selected(rv).len());
        assert(psbt@.tx.inputs.len() == spec_selected(rv).len());
        assert(psbt@.wf());
        assert(fee_u64 == spec_final_fee(rv));
        assert(sent == spec_sel_sum(rv));
        // exact accounting: inputs fund outputs plus fee
        let fo = fixed_outputs(rv);
        crate::fee::lemma_sum_out_value_nonneg(fo);
        lemma_request_parts(rv);
        if has_tail {
            let tv = TxOutV { value: spec_tail_value(rv) as u64, script_pubkey: tail_script(rv) };
            assert(spec_final_outputs(rv) =~= fo.push(tv));
            assert(fo.push(tv) =~= fo + seq![tv]);
            crate::fee::lemma_sum_out_value_concat(fo, seq![tv]);
            assert(seq![tv].drop_first() =~= Seq::<TxOutV>::empty());
            assert(seq![tv][0] == tv);
            assert(sum_out_value(Seq::<TxOutV>::empty()) == 0);
            assert(sum_out_value(spec_final_outputs(rv)) == spec_target(rv) + spec_tail_value(rv));
        } else {
            assert(sum_out_value(spec_final_outputs(rv)) == spec_target(rv));
        }
        // the data output's position
        if rv.data.len() > 0 {
            assert(spec_final_outputs(rv)[rv.recipients.len() as int] == (TxOutV {
                value: 0,
                script_pubkey: opreturn_script(rv.data),
            }));
        }
    }
    Ok((psbt, details))
}


/// Everything a fee bump needs: the replaced transaction's own coins and
/// outputs, which output may shrink to absorb the higher fee, the new
/// rate, and coins that may be drawn for extra funding.
pub struct BumpRequest {
    /// The coins the replaced transaction spends; they are all kept.
    pub original_inputs: Vec<crate::types::Utxo>,
    /// The replaced transaction's outputs, in order.
    pub original_outputs: Vec<crate::types::Recipient>,
    /// Index of the change output allowed to shrink, if any.
    pub shrink_index: Option<usize>,
    /// The replacement's fee rate in satoshis per virtual byte; it must
    /// beat the replaced transaction's rate.
    pub new_fee_rate: u64,
    /// Wallet coins that may fund the fee increase.
    pub optional_utxos: Vec<crate::types::Utxo>,
    /// Outpoints the selector must not draw on.
    pub unspendable: Vec<crate::types::OutPoint>,
    /// Change destination when no output may shrink.
    pub change_script: Vec<u8>,
    pub change_policy: ChangeSpendPolicy,
    pub rbf: RbfPolicy,
}

#[verifier::ext_equal]
pub ghost struct BumpRequestV {
    pub original_inputs: Seq<UtxoV>,
    pub original_outputs: Seq<RecipientV>,
    pub shrink_index: Option<usize>,
    pub new_fee_rate: u64,
    pub optional_utxos: Seq<UtxoV>,
    pub unspendable: Seq<OutPointV>,
    pub change_script: Seq<u8>,
    pub change_policy: ChangeSpendPolicy,
    pub rbf: RbfPolicy,
}

impl View for BumpRequest {
    type V = BumpRequestV;

    open spec fn view(&self) -> BumpRequestV {
        BumpRequestV {
            original_inputs: utxos_view(self.original_inputs@),
            original_outputs: recips_view(self.original_outputs@),
            shrink_index: self.shrink_index,
            new_fee_rate: self.new_fee_rate,
            optional_utxos: utxos_view(self.optional_utxos@),
            unspendable: ops_view(self.unspendable@),
            change_script: self.change_script@,
            change_policy: self.change_policy,
            rbf: self.rbf,
        }
    }
}

/// The outputs the replacement owes unchanged: all of the originals but
/// the shrinkable one.
pub open spec fn bump_recipients(b: BumpRequestV) -> Seq<RecipientV> {
    match b.shrink_index {
        Some(i) => b.original_outputs.remove(i as int),
        None => b.original_outputs,
    }
}

/// Where the replacement's surplus goes: the shrinkable output's own
/// script, or a fresh change destination.
pub open spec fn bump_change_script(b: BumpRequestV) -> Seq<u8> {
    match b.shrink_index {
        Some(i) => b.original_outputs[i as int].script_pubkey,
        None => b.change_script,
    }
}

/// A fee bump is a build: the original coins become mandatory inputs,
/// the kept outputs become the recipients, and the shrinkable output
/// becomes the change destination that absorbs what the new fee leaves.
pub open spec fn bump_to_build(b: BumpRequestV) -> BuildRequestV {
    BuildRequestV {
        recipients: bump_recipients(b),
        manual_utxos: b.original_inputs,
        foreign_utxos: Seq::empty(),
        optional_utxos: b.optional_utxos,
        unspendable: b.unspendable,
        manual_only: false,
        fee_rate: Some(b.new_fee_rate),
        fee_absolute: None,
        drain_wallet: false,
        drain_to: None,
        change_script: bump_change_script(b),
        change_policy: b.change_policy,
        rbf: b.rbf,
        data: Seq::empty(),
        allow_dust: true,
    }
}

/// The fee the replaced transaction paid.
pub open spec fn spec_old_fee(b: BumpRequestV) -> int {
    sum_utxo_value(b.original_inputs) - sum_out_value(recipient_outputs(b.original_outputs))
}

/// The replaced transaction's virtual size under this engine's model.
pub open spec fn spec_old_vsize(b: BumpRequestV) -> int {
    TX_BASE_VSIZE + OWNED_INPUT_VSIZE * b.original_inputs.len() + sum_out_vsize(
        recipient_outputs(b.original_outputs),
    )
}

/// Rebuild a transaction at a higher fee rate. Every original input is
/// kept and stands first in the replacement, so the new input set is a
/// superset of the old; the new rate must beat the replaced
/// transaction's own rate, per replace-by-fee policy.
#[verifier::rlimit(100)]
pub fn bump_fee(req: BumpRequest) -> (r: Result<(Psbt, TransactionDetails), Error>)
    requires
        spec_total_value(bump_to_build(req@)) <= u64::MAX,
        req@.shrink_index matches Some(i) ==> i < req@.original_outputs.len(),
        spec_old_fee(req@) >= 0,
    ensures
        sum_out_vsize(recipient_outputs(req@.original_outputs)) > MAX_TX_VSIZE ==> r == Err::<
            (Psbt, TransactionDetails),
            Error,
        >(Error::FeeEstimationFailed),
        sum_out_vsize(recipient_outputs(req@.original_outputs)) <= MAX_TX_VSIZE
            && spec_old_vsize(req@) > MAX_TX_VSIZE ==> r == Err::<
            (Psbt, TransactionDetails),
            Error,
        >(Error::FeeEstimationFailed),
        spec_old_vsize(req@) <= MAX_TX_VSIZE && sum_out_vsize(
            recipient_outputs(req@.original_outputs),
        ) <= MAX_TX_VSIZE ==> ({
            let rv2 = bump_to_build(req@);
            &&& (req@.new_fee_rate * spec_old_vsize(req@) <= spec_old_fee(req@) ==> r == Err::<
                (Psbt, TransactionDetails),
                Error,
            >(
                Error::FeeRateTooLow {
                    required: sat64(spec_old_fee(req@) / spec_old_vsize(req@) + 1),
                },
            ))
            &&& (req@.new_fee_rate * spec_old_vsize(req@) > spec_old_fee(req@) ==> {
                &&& (spec_validation_error(rv2) matches Some(e) ==> r == Err::<
                    (Psbt, TransactionDetails),
                    Error,
                >(e))
                &&& (spec_validation_error(rv2) is None && spec_insufficient(rv2) ==> r == Err::<
                    (Psbt, TransactionDetails),
                    Error,
                >(spec_shortfall_error(rv2)))
                &&& (spec_validation_error(rv2) is None && !spec_insufficient(rv2)
                    && spec_final_fee(rv2) > spec_old_fee(req@) ==> r is Ok)
                &&& (spec_validation_error(rv2) is None && !spec_insufficient(rv2)
                    && spec_final_fee(rv2) <= spec_old_fee(req@) ==> r == Err::<
                    (Psbt, TransactionDetails),
                    Error,
                >(Error::FeeRateTooLow { required: sat64(req@.new_fee_rate + 1) }))
                &&& (r matches Ok(pd) ==> {
                    &&& pd.0@.wf()
                    &&& pd.0@.tx.outputs == spec_final_outputs(rv2)
                    &&& pd.1.fee == spec_final_fee(rv2)
                    &&& pd.1.sent == spec_sel_sum(rv2)
                    &&& spec_sel_sum(rv2) == sum_out_value(pd.0@.tx.outputs) + pd.1.fee
                    // the replacement pays strictly more than the replaced
                    // transaction did
                    &&& pd.1.fee > spec_old_fee(req@)
                    // every input carries the policy's sequence, and the
                    // original inputs stand first: the input set is a
                    // superset of the replaced transaction's
                    &&& pd.0@.tx.inputs == txins_of_cands(spec_selected(rv2), spec_sequence(
                        rv2.rbf,
                    ))
                    &&& pd.0@.inputs == auxes_of_cands(spec_selected(rv2))
                    &&& pd.0@.tx.inputs.len() >= req@.original_inputs.len()
                    &&& (forall|q: int|
                        0 <= q < req@.original_inputs.len() ==> #[trigger] pd.0@.tx.inputs[q]
                            == txin_of_cand(
                            cand_of_utxo(req@.original_inputs[q]),
                            spec_sequence(req@.rbf),
                        ))
                })
            })
        }),
{
    let ghost rv = req@;
    let ghost rv2 = bump_to_build(rv);
    let rec_vs: u64 = match vsize_of_recipients(&req.original_outputs) {
        Some(v) => v,
        None => {
            return Err(Error::FeeEstimationFailed);
        },
    };
    let n_in = req.original_inputs.len();
    proof {
        assert(OWNED_INPUT_VSIZE as u128 * (n_in as u128) <= OWNED_INPUT_VSIZE as u128
            * 0x1_0000_0000_0000_0000u128) by (nonlinear_arith)
            requires
                n_in as u128 <= 0x1_0000_0000_0000_0000u128,
        ;
    }
    let old_vs: u128 = TX_BASE_VSIZE as u128 + OWNED_INPUT_VSIZE as u128 * (n_in as u128)
        + rec_vs as u128;
    proof {
        assert(old_vs == spec_old_vsize(rv));
    }
    if old_vs > MAX_TX_VSIZE as u128 {
        return Err(Error::FeeEstimationFailed);
    }
    // the replaced transaction's fee
    let mut old_in: u128 = 0;
    let mut i: usize = 0;
    while i < req.original_inputs.len()
        invariant
            i <= req.original_inputs.len(),
            rv == req@,
            spec_total_value(bump_to_build(rv)) <= u64::MAX,
            old_in == sum_utxo_value(rv.original_inputs.take(i as int)),
            old_in <= u64::MAX,
        decreases req.original_inputs.len() - i,
    {
        proof {
            let ms = rv.original_inputs;
            assert(ms[i as int] == req.original_inputs@[i as int]@);
            lemma_sum_utxo_take_step(ms, i as int);
            lemma_sum_utxo_prefix(ms, i + 1);
            lemma_sum_utxo_value_nonneg(rv.optional_utxos);
            lemma_sum_foreign_value_nonneg(Seq::empty());
            assert(sum_foreign_value(Seq::<ForeignUtxoV>::empty()) == 0);
        }
        old_in = old_in + req.original_inputs[i].value as u128;
        i += 1;
    }
    proof {
        assert(rv.original_inputs.take(rv.original_inputs.len() as int) =~= rv.original_inputs);
    }
    let old_out: u128 = sum_recipient_amounts(&req.original_outputs);
    proof {
        assert(old_in - old_out == spec_old_fee(rv));
    }
    let old_fee: u128 = old_in - old_out;
    let floor: u128 = {
        proof {
            assert((rv.new_fee_rate as u128) * old_vs <= (u64::MAX as u128) * (
            MAX_TX_VSIZE as u128)) by (nonlinear_arith)
                requires
                    rv.new_fee_rate as u128 <= u64::MAX as u128,
                    0 <= old_vs <= MAX_TX_VSIZE as u128,
            ;
        }
        req.new_fee_rate as u128 * old_vs
    };
    if floor <= old_fee {
        let required = sat_u64(old_fee / old_vs + 1);
        return Err(Error::FeeRateTooLow { required });
    }
    // hand the rebuild to the transaction builder
    let mut outs = req.original_outputs;
    let change_script: Vec<u8>;
    match req.shrink_index {
        Some(ix) => {
            let shr = outs.remove(ix);
            change_script = shr.script_pubkey;
            proof {
                assert(recips_view(outs@) =~= bump_recipients(rv)) by {
                    assert(outs@ =~= req.original_outputs@.remove(ix as int));
                    assert(forall|q: int|
                        0 <= q < recips_view(outs@).len() ==> #[trigger] recips_view(outs@)[q]
                            == outs@[q]@);
                }
                assert(change_script@ == bump_change_script(rv));
            }
        },
        None => {
            change_script = req.change_script;
            proof {
                assert(recips_view(outs@) == bump_recipients(rv));
            }
        },
    }
    let breq = BuildRequest {
        recipients: outs,
        manual_utxos: req.original_inputs,
        foreign_utxos: Vec::new(),
        optional_utxos: req.optional_utxos,
        unspendable: req.unspendable,
        manual_only: false,
        fee_rate: Some(req.new_fee_rate),
        fee_absolute: None,
        drain_wallet: false,
        drain_to: None,
        change_script,
        change_policy: req.change_policy,
        rbf: req.rbf,
        data: Vec::new(),
        allow_dust: true,
    };
    proof {
        assert(foreigns_view(Seq::<crate::types::ForeignUtxo>::empty())
            =~= Seq::<ForeignUtxoV>::empty());
        assert(breq@ =~= rv2);
    }
    let r = build(&breq);
    let pd = match r {
        Err(e) => {
            return Err(e);
        },
        Ok(pd) => pd,
    };
    if pd.1.fee as u128 <= old_fee {
        return Err(Error::FeeRateTooLow { required: sat_u64(req.new_fee_rate as u128 + 1) });
    }
    proof {
        assert(cands_of_foreigns(Seq::<ForeignUtxoV>::empty()) =~= Seq::<CandidateV>::empty());
        assert(mandatory_cands(rv2) =~= cands_of_utxos(rv.original_inputs));
        let sel = spec_selected(rv2);
        assert(sel.len() >= mandatory_cands(rv2).len());
        assert forall|q: int| 0 <= q < rv.original_inputs.len() implies #[trigger] pd.0@.tx.inputs[q]
            == txin_of_cand(cand_of_utxo(rv.original_inputs[q]), spec_sequence(rv.rbf)) by {
            assert(sel[q] == mandatory_cands(rv2)[q]);
            assert(mandatory_cands(rv2)[q] == cands_of_utxos(rv.original_inputs)[q]);
            assert(cands_of_utxos(rv.original_inputs)[q] == cand_of_utxo(rv.original_inputs[q]));
            assert(pd.0@.tx.inputs[q] == txins_of_cands(sel, spec_sequence(rv2.rbf))[q]);
        }
    }
    Ok(pd)
}

} // verus!

