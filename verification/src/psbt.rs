use vstd::prelude::*;

use crate::bytes::{bytes_eq, clone_bytes};
use crate::errors::Error;
use crate::tx::{txins_view, txouts_view, Transaction, TransactionV, TxIn, TxOut, TxOutV};

verus! {

/// A partial signature: the public key it belongs to and the signature
/// bytes an external signing device produced for it.
#[derive(Clone, Debug)]
pub struct PartialSig {
    pub pubkey: Vec<u8>,
    pub sig: Vec<u8>,
}

#[verifier::ext_equal]
pub ghost struct PartialSigV {
    pub pubkey: Seq<u8>,
    pub sig: Seq<u8>,
}

impl View for PartialSig {
    type V = PartialSigV;

    open spec fn view(&self) -> PartialSigV {
        PartialSigV { pubkey: self.pubkey@, sig: self.sig@ }
    }
}

/// Per-input auxiliary data of a PSBT: the output being spent, partial
/// signatures gathered so far, the witness script describing the spending
/// conditions, the requested sighash type, and, once assembled, the final
/// witness.
#[derive(Clone, Debug)]
pub struct InputAux {
    pub witness_utxo: Option<TxOut>,
    pub partial_sigs: Vec<PartialSig>,
    pub witness_script: Option<Vec<u8>>,
    pub sighash_type: Option<u32>,
    pub final_witness: Option<Vec<Vec<u8>>>,
}

#[verifier::ext_equal]
pub ghost struct InputAuxV {
    pub witness_utxo: Option<TxOutV>,
    pub partial_sigs: Seq<PartialSigV>,
    pub witness_script: Option<Seq<u8>>,
    pub sighash_type: Option<u32>,
    pub final_witness: Option<Seq<Seq<u8>>>,
}

/// A list of partial signatures, viewed.
pub open spec fn sigs_view(s: Seq<PartialSig>) -> Seq<PartialSigV> {
    s.map_values(|p: PartialSig| p@)
}

/// A witness stack, viewed item by item.
pub open spec fn witness_view(s: Seq<Vec<u8>>) -> Seq<Seq<u8>> {
    s.map_values(|item: Vec<u8>| item@)
}

impl View for InputAux {
    type V = InputAuxV;

    open spec fn view(&self) -> InputAuxV {
        InputAuxV {
            witness_utxo: match self.witness_utxo {
                Some(o) => Some(o@),
                None => None,
            },
            partial_sigs: sigs_view(self.partial_sigs@),
            witness_script: match self.witness_script {
                Some(w) => Some(w@),
                None => None,
            },
            sighash_type: self.sighash_type,
            final_witness: match self.final_witness {
                Some(w) => Some(witness_view(w@)),
                None => None,
            },
        }
    }
}

/// Per-output auxiliary data of a PSBT.
#[derive(Clone, Debug)]
pub struct OutputAux {
    pub witness_script: Option<Vec<u8>>,
}

#[verifier::ext_equal]
pub ghost struct OutputAuxV {
    pub witness_script: Option<Seq<u8>>,
}

impl View for OutputAux {
    type V = OutputAuxV;

    open spec fn view(&self) -> OutputAuxV {
        OutputAuxV {
            witness_script: match self.witness_script {
                Some(w) => Some(w@),
                None => None,
            },
        }
    }
}

/// A partially signed Bitcoin transaction: an unsigned transaction plus
/// one auxiliary map per input and per output, in matching order.
#[derive(Clone, Debug)]
pub struct Psbt {
    pub unsigned_tx: Transaction,
    pub inputs: Vec<InputAux>,
    pub outputs: Vec<OutputAux>,
}

#[verifier::ext_equal]
pub ghost struct PsbtV {
    pub tx: TransactionV,
    pub inputs: Seq<InputAuxV>,
    pub outputs: Seq<OutputAuxV>,
}

/// Per-input auxiliary maps, viewed.
pub open spec fn inaux_view(s: Seq<InputAux>) -> Seq<InputAuxV> {
    s.map_values(|i: InputAux| i@)
}

/// Per-output auxiliary maps, viewed.
pub open spec fn outaux_view(s: Seq<OutputAux>) -> Seq<OutputAuxV> {
    s.map_values(|o: OutputAux| o@)
}

impl View for Psbt {
    type V = PsbtV;

    open spec fn view(&self) -> PsbtV {
        PsbtV {
            tx: self.unsigned_tx@,
            inputs: inaux_view(self.inputs@),
            outputs: outaux_view(self.outputs@),
        }
    }
}

impl PsbtV {
    /// The auxiliary maps align with the embedded unsigned transaction:
    /// one entry per input and per output, in the same order.
    pub open spec fn wf(self) -> bool {
        &&& self.inputs.len() == self.tx.inputs.len()
        &&& self.outputs.len() == self.tx.outputs.len()
    }
}

/// The partial signatures of one input, read as a key-to-signature map.
/// When a sequence repeats a public key, the earliest entry wins.
pub open spec fn sig_map(s: Seq<PartialSigV>) -> Map<Seq<u8>, Seq<u8>>
    decreases s.len(),
{
    if s.len() == 0 {
        Map::empty()
    } else {
        sig_map(s.drop_first()).insert(s[0].pubkey, s[0].sig)
    }
}

/// Splitting a signature sequence splits its map, the left part winning.
pub proof fn lemma_sig_map_concat(a: Seq<PartialSigV>, b: Seq<PartialSigV>)
    ensures
        sig_map(a + b) == sig_map(b).union_prefer_right(sig_map(a)),
    decreases a.len(),
{
    if a.len() == 0 {
        assert(a + b =~= b);
        assert(sig_map(b).union_prefer_right(sig_map(a)) =~= sig_map(b));
    } else {
        assert((a + b).drop_first() =~= a.drop_first() + b);
        lemma_sig_map_concat(a.drop_first(), b);
        assert(sig_map(b).union_prefer_right(sig_map(a.drop_first())).insert(
            a[0].pubkey,
            a[0].sig,
        ) =~= sig_map(b).union_prefer_right(sig_map(a.drop_first()).insert(a[0].pubkey, a[0].sig)));
        assert(sig_map(a) == sig_map(a.drop_first()).insert(a[0].pubkey, a[0].sig));
    }
}

/// Appending one signature to a sequence leaves its map unchanged when the
/// key is already present, and otherwise adds the one binding.
pub proof fn lemma_sig_map_push(s: Seq<PartialSigV>, e: PartialSigV)
    ensures
        sig_map(s).contains_key(e.pubkey) ==> sig_map(s.push(e)) == sig_map(s),
        !sig_map(s).contains_key(e.pubkey) ==> sig_map(s.push(e)) == sig_map(s).insert(
            e.pubkey,
            e.sig,
        ),
{
    assert(s.push(e) =~= s + seq![e]);
    lemma_sig_map_concat(s, seq![e]);
    assert(seq![e].drop_first() =~= Seq::<PartialSigV>::empty());
    assert(sig_map(Seq::<PartialSigV>::empty()) == Map::<Seq<u8>, Seq<u8>>::empty());
    assert(seq![e][0] == e);
    assert(sig_map(seq![e]) == Map::<Seq<u8>, Seq<u8>>::empty().insert(e.pubkey, e.sig));
    if sig_map(s).contains_key(e.pubkey) {
        assert(sig_map(seq![e]).union_prefer_right(sig_map(s)) =~= sig_map(s));
    } else {
        assert(sig_map(seq![e]).union_prefer_right(sig_map(s)) =~= sig_map(s).insert(
            e.pubkey,
            e.sig,
        ));
    }
}

/// True when the input carries a partial signature for `pubkey`.
pub fn has_sig_for(sigs: &Vec<PartialSig>, pubkey: &Vec<u8>) -> (r: bool)
    ensures
        r == sig_map(sigs_view(sigs@)).contains_key(pubkey@),
{
    let ghost sv = sigs_view(sigs@);
    proof {
        lemma_sig_map_keys(sv);
    }
    let mut i: usize = 0;
    while i < sigs.len()
        invariant
            i <= sigs.len(),
            sv == sigs_view(sigs@),
            forall|k: int| 0 <= k < i ==> sv[k].pubkey != pubkey@,
        decreases sigs.len() - i,
    {
        let hit = bytes_eq(&sigs[i].pubkey, pubkey);
        proof {
            assert(sv[i as int] == sigs@[i as int]@);
        }
        if hit {
            proof {
                lemma_sig_map_keys(sv);
                assert(sv[i as int].pubkey == pubkey@);
                assert(sig_map(sv).contains_key(pubkey@));
            }
            return true;
        }
        i += 1;
    }
    proof {
        lemma_sig_map_keys(sv);
    }
    false
}

/// A key is in the signature map exactly when some entry carries it.
pub proof fn lemma_sig_map_keys(s: Seq<PartialSigV>)
    ensures
        forall|k: Seq<u8>|
            #[trigger] sig_map(s).contains_key(k) <==> exists|i: int|
                0 <= i < s.len() && s[i].pubkey == k,
    decreases s.len(),
{
    if s.len() > 0 {
        lemma_sig_map_keys(s.drop_first());
        assert forall|k: Seq<u8>| #[trigger]
            sig_map(s).contains_key(k) implies exists|i: int|
            0 <= i < s.len() && s[i].pubkey == k by {
            if s[0].pubkey == k {
                assert(s[0].pubkey == k);
            } else {
                assert(sig_map(s.drop_first()).contains_key(k));
                let i = choose|i: int| 0 <= i < s.drop_first().len() && s.drop_first()[i].pubkey
                    == k;
                assert(s[i + 1].pubkey == k);
            }
        }
        assert forall|k: Seq<u8>| (exists|i: int| 0 <= i < s.len() && s[i].pubkey == k) implies #[trigger]
            sig_map(s).contains_key(k) by {
            let i = choose|i: int| 0 <= i < s.len() && s[i].pubkey == k;
            if i == 0 {
            } else {
                assert(s.drop_first()[i - 1].pubkey == k);
                assert(sig_map(s.drop_first()).contains_key(k));
            }
        }
    }
}


/// Copy of an output.
pub fn clone_txout(o: &TxOut) -> (r: TxOut)
    ensures
        r@ == o@,
{
    let r = TxOut { value: o.value, script_pubkey: clone_bytes(&o.script_pubkey) };
    proof {
        assert(r@ =~= o@);
    }
    r
}

/// Copy of an optional byte string.
pub fn clone_opt_bytes(o: &Option<Vec<u8>>) -> (r: Option<Vec<u8>>)
    ensures
        (match o {
            Some(v) => r matches Some(w) && w@ == v@,
            None => r is None,
        }),
{
    match o {
        Some(v) => Some(clone_bytes(v)),
        None => None,
    }
}

/// Copy of a witness stack.
pub fn clone_witness(w: &Vec<Vec<u8>>) -> (r: Vec<Vec<u8>>)
    ensures
        witness_view(r@) == witness_view(w@),
{
    let mut r: Vec<Vec<u8>> = Vec::new();
    let mut i: usize = 0;
    while i < w.len()
        invariant
            i <= w.len(),
            witness_view(r@) == witness_view(w@).take(i as int),
        decreases w.len() - i,
    {
        let item = clone_bytes(&w[i]);
        proof {
            assert(witness_view(r@.push(item)) =~= witness_view(r@).push(item@));
            assert(witness_view(w@).take(i + 1) =~= witness_view(w@).take(i as int).push(
                witness_view(w@)[i as int],
            ));
            assert(witness_view(w@)[i as int] == w@[i as int]@);
        }
        r.push(item);
        i += 1;
    }
    proof {
        assert(witness_view(w@).take(w@.len() as int) =~= witness_view(w@));
    }
    r
}

/// Copy of a partial-signature list.
pub fn clone_sigs(s: &Vec<PartialSig>) -> (r: Vec<PartialSig>)
    ensures
        sigs_view(r@) == sigs_view(s@),
{
    let mut r: Vec<PartialSig> = Vec::new();
    let mut i: usize = 0;
    while i < s.len()
        invariant
            i <= s.len(),
            sigs_view(r@) == sigs_view(s@).take(i as int),
        decreases s.len() - i,
    {
        let e = PartialSig { pubkey: clone_bytes(&s[i].pubkey), sig: clone_bytes(&s[i].sig) };
        proof {
            assert(sigs_view(r@.push(e)) =~= sigs_view(r@).push(e@));
            assert(e@ =~= sigs_view(s@)[i as int]);
            assert(sigs_view(s@).take(i + 1) =~= sigs_view(s@).take(i as int).push(
                sigs_view(s@)[i as int],
            ));
        }
        r.push(e);
        i += 1;
    }
    proof {
        assert(sigs_view(s@).take(s@.len() as int) =~= sigs_view(s@));
    }
    r
}

/// Copy of a transaction.
pub fn clone_transaction(t: &Transaction) -> (r: Transaction)
    ensures
        r@ == t@,
{
    let mut inputs: Vec<TxIn> = Vec::new();
    let mut i: usize = 0;
    while i < t.inputs.len()
        invariant
            i <= t.inputs.len(),
            txins_view(inputs@) == txins_view(t.inputs@).take(i as int),
        decreases t.inputs.len() - i,
    {
        let x = TxIn {
            txid: clone_bytes(&t.inputs[i].txid),
            vout: t.inputs[i].vout,
            sequence: t.inputs[i].sequence,
        };
        proof {
            assert(txins_view(inputs@.push(x)) =~= txins_view(inputs@).push(x@));
            assert(x@ =~= txins_view(t.inputs@)[i as int]);
            assert(txins_view(t.inputs@).take(i + 1) =~= txins_view(t.inputs@).take(i as int).push(
                txins_view(t.inputs@)[i as int],
            ));
        }
        inputs.push(x);
        i += 1;
    }
    let mut outputs: Vec<TxOut> = Vec::new();
    let mut i: usize = 0;
    while i < t.outputs.len()
        invariant
            i <= t.outputs.len(),
            txouts_view(outputs@) == txouts_view(t.outputs@).take(i as int),
        decreases t.outputs.len() - i,
    {
        let o = clone_txout(&t.outputs[i]);
        proof {
            assert(txouts_view(outputs@.push(o)) =~= txouts_view(outputs@).push(o@));
            assert(o@ =~= txouts_view(t.outputs@)[i as int]);
            assert(txouts_view(t.outputs@).take(i + 1) =~= txouts_view(t.outputs@).take(
                i as int,
            ).push(txouts_view(t.outputs@)[i as int]));
        }
        outputs.push(o);
        i += 1;
    }
    let r = Transaction { version: t.version, lock_time: t.lock_time, inputs, outputs };
    proof {
        assert(txins_view(t.inputs@).take(t.inputs@.len() as int) =~= txins_view(t.inputs@));
        assert(txouts_view(t.outputs@).take(t.outputs@.len() as int) =~= txouts_view(t.outputs@));
        assert(r@ =~= t@);
    }
    r
}

/// Whether two transactions are the same, field for field.
pub fn tx_eq(a: &Transaction, b: &Transaction) -> (r: bool)
    ensures
        r == (a@ == b@),
{
    if a.version != b.version || a.lock_time != b.lock_time || a.inputs.len() != b.inputs.len()
        || a.outputs.len() != b.outputs.len() {
        proof {
            if a@ == b@ {
                assert(a@.inputs.len() == b@.inputs.len());
                assert(a@.outputs.len() == b@.outputs.len());
            }
        }
        return false;
    }
    let mut i: usize = 0;
    while i < a.inputs.len()
        invariant
            i <= a.inputs.len(),
            a.inputs@.len() == b.inputs@.len(),
            forall|k: int|
                0 <= k < i ==> txins_view(a.inputs@)[k] == txins_view(b.inputs@)[k],
        decreases a.inputs.len() - i,
    {
        let xa = &a.inputs[i];
        let xb = &b.inputs[i];
        let same = bytes_eq(&xa.txid, &xb.txid);
        proof {
            assert(txins_view(a.inputs@)[i as int] == a.inputs@[i as int]@);
            assert(txins_view(b.inputs@)[i as int] == b.inputs@[i as int]@);
        }
        if !same || xa.vout != xb.vout || xa.sequence != xb.sequence {
            proof {
                assert(txins_view(a.inputs@)[i as int] != txins_view(b.inputs@)[i as int]);
                if a@ == b@ {
                    assert(txins_view(a.inputs@) == txins_view(b.inputs@));
                }
            }
            return false;
        }
        proof {
            assert(txins_view(a.inputs@)[i as int] =~= txins_view(b.inputs@)[i as int]);
        }
        i += 1;
    }
    let mut i: usize = 0;
    while i < a.outputs.len()
        invariant
            i <= a.outputs.len(),
            a.outputs@.len() == b.outputs@.len(),
            txins_view(a.inputs@) =~= txins_view(b.inputs@) || txins_view(a.inputs@)
                == txins_view(b.inputs@),
            forall|k: int|
                0 <= k < a.inputs@.len() ==> txins_view(a.inputs@)[k] == txins_view(b.inputs@)[k],
            forall|k: int|
                0 <= k < i ==> txouts_view(a.outputs@)[k] == txouts_view(b.outputs@)[k],
        decreases a.outputs.len() - i,
    {
        let oa = &a.outputs[i];
        let ob = &b.outputs[i];
        let same = bytes_eq(&oa.script_pubkey, &ob.script_pubkey);
        proof {
            assert(txouts_view(a.outputs@)[i as int] == a.outputs@[i as int]@);
            assert(txouts_view(b.outputs@)[i as int] == b.outputs@[i as int]@);
        }
        if !same || oa.value != ob.value {
            proof {
                assert(txouts_view(a.outputs@)[i as int] != txouts_view(b.outputs@)[i as int]);
                if a@ == b@ {
                    assert(txouts_view(a.outputs@) == txouts_view(b.outputs@));
                }
            }
            return false;
        }
        proof {
            assert(txouts_view(a.outputs@)[i as int] =~= txouts_view(b.outputs@)[i as int]);
        }
        i += 1;
    }
    proof {
        assert(txins_view(a.inputs@) =~= txins_view(b.inputs@));
        assert(txouts_view(a.outputs@) =~= txouts_view(b.outputs@));
        assert(a@ =~= b@);
    }
    true
}


/// One input's auxiliary data merged per BIP 174: the signature map is
/// the union of both, the first PSBT winning where one key carries two
/// signatures; single-valued fields keep the first PSBT's value when it
/// has one.
pub open spec fn combined_input(x: InputAuxV, y: InputAuxV, z: InputAuxV) -> bool {
    &&& sig_map(z.partial_sigs) == sig_map(x.partial_sigs + y.partial_sigs)
    &&& z.witness_utxo == (if x.witness_utxo is Some {
        x.witness_utxo
    } else {
        y.witness_utxo
    })
    &&& z.witness_script == (if x.witness_script is Some {
        x.witness_script
    } else {
        y.witness_script
    })
    &&& z.sighash_type == (if x.sighash_type is Some {
        x.sighash_type
    } else {
        y.sighash_type
    })
    &&& z.final_witness == (if x.final_witness is Some {
        x.final_witness
    } else {
        y.final_witness
    })
}

/// One output's auxiliary data merged: the first PSBT's value wins when
/// it has one.
pub open spec fn combined_output(x: OutputAuxV, y: OutputAuxV, z: OutputAuxV) -> bool {
    z.witness_script == (if x.witness_script is Some {
        x.witness_script
    } else {
        y.witness_script
    })
}

/// The whole merge: same unsigned transaction, every auxiliary map
/// merged index by index.
pub open spec fn combined(a: PsbtV, b: PsbtV, c: PsbtV) -> bool {
    &&& c.wf()
    &&& c.tx == a.tx
    &&& c.inputs.len() == a.inputs.len()
    &&& forall|i: int|
        0 <= i < a.inputs.len() ==> combined_input(a.inputs[i], b.inputs[i], #[trigger] c.inputs[i])
    &&& c.outputs.len() == a.outputs.len()
    &&& forall|i: int|
        0 <= i < a.outputs.len() ==> combined_output(
            a.outputs[i],
            b.outputs[i],
            #[trigger] c.outputs[i],
        )
}

/// Merge one input's auxiliary data.
fn merge_input(x: &InputAux, y: &InputAux) -> (z: InputAux)
    ensures
        combined_input(x@, y@, z@),
{
    let mut sigs = clone_sigs(&x.partial_sigs);
    let ghost xv = sigs_view(x.partial_sigs@);
    let ghost yv = sigs_view(y.partial_sigs@);
    let mut k: usize = 0;
    while k < y.partial_sigs.len()
        invariant
            k <= y.partial_sigs.len(),
            xv == sigs_view(x.partial_sigs@),
            yv == sigs_view(y.partial_sigs@),
            sig_map(sigs_view(sigs@)) == sig_map(xv + yv.take(k as int)),
        decreases y.partial_sigs.len() - k,
    {
        let present = has_sig_for(&sigs, &y.partial_sigs[k].pubkey);
        proof {
            assert(yv[k as int] == y.partial_sigs@[k as int]@);
            assert(xv + yv.take(k + 1) =~= (xv + yv.take(k as int)).push(yv[k as int]));
            lemma_sig_map_push(xv + yv.take(k as int), yv[k as int]);
        }
        if !present {
            let e = PartialSig {
                pubkey: clone_bytes(&y.partial_sigs[k].pubkey),
                sig: clone_bytes(&y.partial_sigs[k].sig),
            };
            proof {
                assert(e@ =~= yv[k as int]);
                assert(sigs_view(sigs@.push(e)) =~= sigs_view(sigs@).push(e@));
                lemma_sig_map_push(sigs_view(sigs@), e@);
            }
            sigs.push(e);
        }
        k += 1;
    }
    proof {
        assert(yv.take(y.partial_sigs@.len() as int) =~= yv);
    }
    let witness_utxo = match &x.witness_utxo {
        Some(w) => Some(clone_txout(w)),
        None => match &y.witness_utxo {
            Some(w) => Some(clone_txout(w)),
            None => None,
        },
    };
    let witness_script = match &x.witness_script {
        Some(w) => Some(clone_bytes(w)),
        None => clone_opt_bytes(&y.witness_script),
    };
    let sighash_type = match x.sighash_type {
        Some(t) => Some(t),
        None => y.sighash_type,
    };
    let final_witness = match &x.final_witness {
        Some(w) => Some(clone_witness(w)),
        None => match &y.final_witness {
            Some(w) => Some(clone_witness(w)),
            None => None,
        },
    };
    InputAux { witness_utxo, partial_sigs: sigs, witness_script, sighash_type, final_witness }
}

/// Merge two PSBTs that embed the same unsigned transaction, per BIP
/// 174: per-index union of the auxiliary maps, the first PSBT's value
/// winning for single-valued fields. PSBTs of different transactions are
/// refused.
pub fn combine(a: &Psbt, b: &Psbt) -> (r: Result<Psbt, Error>)
    requires
        a@.wf(),
        b@.wf(),
    ensures
        a@.tx != b@.tx ==> r == Err::<Psbt, Error>(Error::MismatchedTransaction),
        a@.tx == b@.tx ==> (r matches Ok(c) && combined(a@, b@, c@)),
{
    let same = tx_eq(&a.unsigned_tx, &b.unsigned_tx);
    if !same {
        return Err(Error::MismatchedTransaction);
    }
    proof {
        // the maps align because both PSBTs align with the same transaction
        assert(a@.inputs.len() == b@.inputs.len());
        assert(a@.outputs.len() == b@.outputs.len());
    }
    let tx = clone_transaction(&a.unsigned_tx);
    let mut inputs: Vec<InputAux> = Vec::new();
    let mut i: usize = 0;
    while i < a.inputs.len()
        invariant
            i <= a.inputs.len(),
            a.inputs@.len() == b.inputs@.len(),
            inaux_view(inputs@).len() == i,
            forall|k: int|
                0 <= k < i ==> combined_input(
                    inaux_view(a.inputs@)[k],
                    inaux_view(b.inputs@)[k],
                    #[trigger] inaux_view(inputs@)[k],
                ),
        decreases a.inputs.len() - i,
    {
        let z = merge_input(&a.inputs[i], &b.inputs[i]);
        proof {
            assert(inaux_view(inputs@.push(z)) =~= inaux_view(inputs@).push(z@));
            assert(inaux_view(a.inputs@)[i as int] == a.inputs@[i as int]@);
            assert(inaux_view(b.inputs@)[i as int] == b.inputs@[i as int]@);
        }
        inputs.push(z);
        i += 1;
    }
    let mut outputs: Vec<OutputAux> = Vec::new();
    let mut i: usize = 0;
    while i < a.outputs.len()
        invariant
            i <= a.outputs.len(),
            a.outputs@.len() == b.outputs@.len(),
            outaux_view(outputs@).len() == i,
            forall|k: int|
                0 <= k < i ==> combined_output(
                    outaux_view(a.outputs@)[k],
                    outaux_view(b.outputs@)[k],
                    #[trigger] outaux_view(outputs@)[k],
                ),
        decreases a.outputs.len() - i,
    {
        let z = OutputAux {
            witness_script: match &a.outputs[i].witness_script {
                Some(w) => Some(clone_bytes(w)),
                None => clone_opt_bytes(&b.outputs[i].witness_script),
            },
        };
        proof {
            assert(outaux_view(outputs@.push(z)) =~= outaux_view(outputs@).push(z@));
            assert(outaux_view(a.outputs@)[i as int] == a.outputs@[i as int]@);
            assert(outaux_view(b.outputs@)[i as int] == b.outputs@[i as int]@);
        }
        outputs.push(z);
        i += 1;
    }
    let c = Psbt { unsigned_tx: tx, inputs, outputs };
    proof {
        assert(c@.wf());
    }
    Ok(c)
}

/// Two signature sequences that agree on shared keys merge to the same
/// map in either order.
pub proof fn lemma_sig_union_commutative(x: Seq<PartialSigV>, y: Seq<PartialSigV>)
    requires
        forall|k: Seq<u8>|
            #[trigger] sig_map(x).contains_key(k) && sig_map(y).contains_key(k) ==> sig_map(x)[k]
                == sig_map(y)[k],
    ensures
        sig_map(x + y) == sig_map(y + x),
{
    lemma_sig_map_concat(x, y);
    lemma_sig_map_concat(y, x);
    assert(sig_map(y).union_prefer_right(sig_map(x)) =~= sig_map(x).union_prefer_right(sig_map(y)));
}

/// Combining is commutative in signature content: whichever order two
/// PSBTs of the same transaction are merged in, every input ends up with
/// the same signature map, provided no key carries two different
/// signatures across the two PSBTs.
pub proof fn lemma_combine_commutative(a: PsbtV, b: PsbtV, ab: PsbtV, ba: PsbtV)
    requires
        a.wf(),
        b.wf(),
        a.tx == b.tx,
        a.inputs.len() == b.inputs.len(),
        combined(a, b, ab),
        combined(b, a, ba),
        forall|i: int, k: Seq<u8>|
            0 <= i < a.inputs.len() && #[trigger] sig_map(a.inputs[i].partial_sigs).contains_key(k)
                && sig_map(b.inputs[i].partial_sigs).contains_key(k) ==> sig_map(
                a.inputs[i].partial_sigs,
            )[k] == sig_map(b.inputs[i].partial_sigs)[k],
    ensures
        ab.tx == ba.tx,
        ab.inputs.len() == ba.inputs.len(),
        forall|i: int|
            0 <= i < ab.inputs.len() ==> sig_map(#[trigger] ab.inputs[i].partial_sigs) == sig_map(
                ba.inputs[i].partial_sigs,
            ),
{
    assert forall|i: int| 0 <= i < ab.inputs.len() implies sig_map(
        #[trigger] ab.inputs[i].partial_sigs,
    ) == sig_map(ba.inputs[i].partial_sigs) by {
        lemma_sig_union_commutative(a.inputs[i].partial_sigs, b.inputs[i].partial_sigs);
        assert(sig_map(ab.inputs[i].partial_sigs) == sig_map(
            a.inputs[i].partial_sigs + b.inputs[i].partial_sigs,
        ));
        assert(sig_map(ba.inputs[i].partial_sigs) == sig_map(
            b.inputs[i].partial_sigs + a.inputs[i].partial_sigs,
        ));
    }
}


/// Whether every input carries a final witness.
pub open spec fn all_finalized(p: PsbtV) -> bool {
    forall|i: int| 0 <= i < p.inputs.len() ==> (#[trigger] p.inputs[i]).final_witness is Some
}

/// Extract the final transaction: the embedded unsigned transaction
/// together with each input's final witness, input by input. Owed
/// exactly when every input has been finalized.
pub fn extract_tx(p: &Psbt) -> (r: Result<(Transaction, Vec<Vec<Vec<u8>>>), Error>)
    requires
        p@.wf(),
    ensures
        r is Ok <==> all_finalized(p@),
        r matches Err(e) ==> e == Error::NotFinalized,
        r matches Ok(t) ==> {
            &&& t.0@ == p@.tx
            &&& t.1@.len() == p@.inputs.len()
            &&& (forall|i: int|
                0 <= i < p@.inputs.len() ==> Some(witness_view(#[trigger] t.1@[i]@))
                    == p@.inputs[i].final_witness)
        },
{
    let n = p.inputs.len();
    let mut wits: Vec<Vec<Vec<u8>>> = Vec::new();
    let mut i: usize = 0;
    while i < n
        invariant
            i <= n,
            n == p.inputs@.len(),
            p@.wf(),
            wits@.len() == i,
            forall|q: int|
                0 <= q < i ==> Some(witness_view(#[trigger] wits@[q]@)) == p@.inputs[q].final_witness,
        decreases n - i,
    {
        proof {
            assert(p@.inputs[i as int] == p.inputs@[i as int]@);
        }
        let w = match &p.inputs[i].final_witness {
            None => {
                proof {
                    assert(p@.inputs[i as int].final_witness is None);
                }
                return Err(Error::NotFinalized);
            },
            Some(w) => clone_witness(w),
        };
        wits.push(w);
        i += 1;
    }
    proof {
        assert forall|q: int| 0 <= q < p@.inputs.len() implies (
        #[trigger] p@.inputs[q]).final_witness is Some by {
            assert(Some(witness_view(wits@[q]@)) == p@.inputs[q].final_witness);
        }
        assert(all_finalized(p@));
    }
    let tx = clone_transaction(&p.unsigned_tx);
    Ok((tx, wits))
}

/// Total value the inputs' recorded witness UTXOs fund; an input whose
/// spent output is unknown contributes nothing.
pub open spec fn sum_wu_value(s: Seq<InputAuxV>) -> int
    decreases s.len(),
{
    if s.len() == 0 {
        0
    } else {
        (match s[0].witness_utxo {
            Some(o) => o.value as int,
            None => 0,
        }) + sum_wu_value(s.drop_first())
    }
}

/// Whether every input records the output it spends.
pub open spec fn all_have_witness(s: Seq<InputAuxV>) -> bool {
    forall|i: int| 0 <= i < s.len() ==> (#[trigger] s[i]).witness_utxo is Some
}

pub proof fn lemma_sum_wu_value_concat(a: Seq<InputAuxV>, b: Seq<InputAuxV>)
    ensures
        sum_wu_value(a + b) == sum_wu_value(a) + sum_wu_value(b),
    decreases a.len(),
{
    if a.len() == 0 {
        assert(a + b =~= b);
    } else {
        assert((a + b).drop_first() =~= a.drop_first() + b);
        lemma_sum_wu_value_concat(a.drop_first(), b);
    }
}

pub proof fn lemma_sum_wu_value_nonneg(s: Seq<InputAuxV>)
    ensures
        0 <= sum_wu_value(s),
    decreases s.len(),
{
    if s.len() > 0 {
        lemma_sum_wu_value_nonneg(s.drop_first());
    }
}

pub proof fn lemma_sum_wu_take_step(s: Seq<InputAuxV>, i: int)
    requires
        0 <= i < s.len(),
    ensures
        sum_wu_value(s.take(i + 1)) == sum_wu_value(s.take(i)) + (match s[i].witness_utxo {
            Some(o) => o.value as int,
            None => 0,
        }),
{
    assert(s.take(i + 1) =~= s.take(i) + seq![s[i]]);
    lemma_sum_wu_value_concat(s.take(i), seq![s[i]]);
    assert(seq![s[i]].drop_first() =~= Seq::<InputAuxV>::empty());
    assert(seq![s[i]][0] == s[i]);
    assert(sum_wu_value(Seq::<InputAuxV>::empty()) == 0);
}

pub proof fn lemma_sum_wu_prefix(s: Seq<InputAuxV>, i: int)
    requires
        0 <= i <= s.len(),
    ensures
        sum_wu_value(s.take(i)) <= sum_wu_value(s),
{
    assert(s =~= s.take(i) + s.skip(i));
    lemma_sum_wu_value_concat(s.take(i), s.skip(i));
    lemma_sum_wu_value_nonneg(s.skip(i));
}

/// The fee a PSBT pays: the funding its witness UTXOs record, minus the
/// value its outputs carry. Unknown when some input's spent output is
/// missing, or when the outputs claim more than the recorded funding.
pub fn fee_amount(p: &Psbt) -> (r: Option<u64>)
    requires
        p@.wf(),
        sum_wu_value(p@.inputs) <= u64::MAX,
    ensures
        r is Some <==> (all_have_witness(p@.inputs) && crate::fee::sum_out_value(p@.tx.outputs)
            <= sum_wu_value(p@.inputs)),
        r matches Some(v) ==> v == sum_wu_value(p@.inputs) - crate::fee::sum_out_value(
            p@.tx.outputs,
        ),
{
    let n = p.inputs.len();
    let mut funding: u128 = 0;
    let mut i: usize = 0;
    while i < n
        invariant
            i <= n,
            n == p.inputs@.len(),
            p@.wf(),
            sum_wu_value(p@.inputs) <= u64::MAX,
            funding == sum_wu_value(p@.inputs.take(i as int)),
            funding <= u64::MAX,
            forall|q: int| 0 <= q < i ==> (#[trigger] p@.inputs[q]).witness_utxo is Some,
        decreases n - i,
    {
        proof {
            assert(p@.inputs[i as int] == p.inputs@[i as int]@);
            lemma_sum_wu_take_step(p@.inputs, i as int);
            lemma_sum_wu_prefix(p@.inputs, i + 1);
        }
        match &p.inputs[i].witness_utxo {
            None => {
                return None;
            },
            Some(o) => {
                funding = funding + o.value as u128;
            },
        }
        i += 1;
    }
    proof {
        assert(p@.inputs.take(p@.inputs.len() as int) =~= p@.inputs);
    }
    let m = p.unsigned_tx.outputs.len();
    let mut spent: u128 = 0;
    let mut k: usize = 0;
    while k < m
        invariant
            k <= m,
            m == p.unsigned_tx.outputs@.len(),
            funding == sum_wu_value(p@.inputs),
            funding <= u64::MAX,
            spent == crate::fee::sum_out_value(p@.tx.outputs.take(k as int)),
            spent <= funding,
        decreases m - k,
    {
        proof {
            assert(p@.tx.outputs[k as int] == p.unsigned_tx.outputs@[k as int]@);
            crate::fee::lemma_sum_out_take_step(p@.tx.outputs, k as int);
            crate::fee::lemma_sum_out_prefix(p@.tx.outputs, k + 1);
        }
        spent = spent + p.unsigned_tx.outputs[k].value as u128;
        if spent > funding {
            return None;
        }
        k += 1;
    }
    proof {
        assert(p@.tx.outputs.take(p@.tx.outputs.len() as int) =~= p@.tx.outputs);
    }
    Some((funding - spent) as u64)
}

/// The PSBT's virtual size under this engine's model: framing, the owned
/// input estimate for each input, and the outputs.
pub open spec fn psbt_vsize(p: PsbtV) -> int {
    crate::fee::TX_BASE_VSIZE + crate::fee::OWNED_INPUT_VSIZE * p.tx.inputs.len()
        + crate::fee::sum_out_vsize(p.tx.outputs)
}

/// The fee rate the PSBT pays, in satoshis per virtual byte of the
/// engine's size model, rounded down. Unknown whenever the fee is, or
/// when the transaction exceeds the size ceiling.
pub fn fee_rate(p: &Psbt) -> (r: Option<u64>)
    requires
        p@.wf(),
        sum_wu_value(p@.inputs) <= u64::MAX,
    ensures
        r is Some <==> (all_have_witness(p@.inputs) && crate::fee::sum_out_value(p@.tx.outputs)
            <= sum_wu_value(p@.inputs) && psbt_vsize(p@) <= crate::fee::MAX_TX_VSIZE),
        r matches Some(v) ==> v == (sum_wu_value(p@.inputs) - crate::fee::sum_out_value(
            p@.tx.outputs,
        )) / psbt_vsize(p@),
{
    let fee = match fee_amount(p) {
        None => {
            return None;
        },
        Some(f) => f,
    };
    let m = p.unsigned_tx.outputs.len();
    let mut out_vs: u128 = 0;
    let mut k: usize = 0;
    while k < m
        invariant
            k <= m,
            m == p.unsigned_tx.outputs@.len(),
            out_vs == crate::fee::sum_out_vsize(p@.tx.outputs.take(k as int)),
            out_vs <= crate::fee::MAX_TX_VSIZE,
        decreases m - k,
    {
        proof {
            assert(p@.tx.outputs[k as int] == p.unsigned_tx.outputs@[k as int]@);
            crate::fee::lemma_sum_out_take_step(p@.tx.outputs, k as int);
            crate::fee::lemma_sum_out_prefix(p@.tx.outputs, k + 1);
        }
        out_vs = out_vs + crate::fee::OUTPUT_BASE_VSIZE as u128
            + p.unsigned_tx.outputs[k].script_pubkey.len() as u128;
        if out_vs > crate::fee::MAX_TX_VSIZE as u128 {
            proof {
                crate::fee::lemma_sum_out_vsize_nonneg(p@.tx.outputs);
                assert(crate::fee::OWNED_INPUT_VSIZE * p@.tx.inputs.len() >= 0)
                    by (nonlinear_arith);
            }
            return None;
        }
        k += 1;
    }
    proof {
        assert(p@.tx.outputs.take(p@.tx.outputs.len() as int) =~= p@.tx.outputs);
    }
    let n_in = p.unsigned_tx.inputs.len();
    proof {
        assert(crate::fee::OWNED_INPUT_VSIZE as u128 * (n_in as u128)
            <= crate::fee::OWNED_INPUT_VSIZE as u128 * 0x1_0000_0000_0000_0000u128)
            by (nonlinear_arith)
            requires
                n_in as u128 <= 0x1_0000_0000_0000_0000u128,
        ;
    }
    let vs: u128 = crate::fee::TX_BASE_VSIZE as u128 + crate::fee::OWNED_INPUT_VSIZE as u128 * (
    n_in as u128) + out_vs;
    proof {
        assert(vs == psbt_vsize(p@));
    }
    if vs > crate::fee::MAX_TX_VSIZE as u128 {
        return None;
    }
    Some((fee as u128 / vs) as u64)
}

} // verus!
