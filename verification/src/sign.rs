use vstd::prelude::*;

use crate::bytes::{bytes_eq, clone_bytes};
use crate::errors::Error;
use crate::psbt::{
    clone_txout, has_sig_for, inaux_view, sig_map, sigs_view, witness_view, InputAux, InputAuxV,
    PartialSig, Psbt,
};

verus! {

/// One signature an external signing device produced: which input it is
/// for, the key it belongs to, and the signature bytes.
#[derive(Clone, Debug)]
pub struct SignerEntry {
    pub input_index: usize,
    pub pubkey: Vec<u8>,
    pub signature: Vec<u8>,
}

/// A signer: the signatures its key material yields for this PSBT. The
/// cryptography that produced them is outside this crate; the
/// orchestrator decides where they may be applied.
#[derive(Clone, Debug)]
pub struct Signer {
    pub entries: Vec<SignerEntry>,
}

/// An input accepts signatures when the output it spends is known — and
/// trusted — and its requested sighash type is the default one, unless
/// the options allow any.
pub open spec fn signable(a: InputAuxV, trust_witness_utxo: bool, allow_all_sighashes: bool) -> bool {
    &&& a.witness_utxo is Some
    &&& trust_witness_utxo
    &&& (allow_all_sighashes || a.sighash_type is None || a.sighash_type == Some(1u32))
}

/// Keys named by a multisig witness script, in script order: the script
/// is a threshold opcode, 33-byte key pushes, a key-count opcode and
/// CHECKMULTISIG.
pub open spec fn parse_keys(s: Seq<u8>, i: int) -> Option<Seq<Seq<u8>>>
    decreases s.len() - i,
{
    if i == s.len() {
        Some(Seq::empty())
    } else if i >= 0 && i + 34 <= s.len() && s[i] == 33 {
        match parse_keys(s, i + 34) {
            None => None,
            Some(ks) => Some(seq![s.subrange(i + 1, i + 34)] + ks),
        }
    } else {
        None
    }
}

/// A multisig witness script read as its threshold and its keys.
pub open spec fn parse_multisig(ws: Seq<u8>) -> Option<(int, Seq<Seq<u8>>)> {
    if ws.len() >= 3 && 81 <= ws[0] <= 96 && 81 <= ws[ws.len() - 2] <= 96 && ws[ws.len() - 1]
        == 174 {
        match parse_keys(ws.subrange(1, ws.len() - 2), 0) {
            None => None,
            Some(keys) => if keys.len() == ws[ws.len() - 2] - 81 + 1 && ws[0] - 80 <= keys.len() {
                Some((ws[0] - 80, keys))
            } else {
                None
            },
        }
    } else {
        None
    }
}

/// Read the threshold and keys out of a multisig witness script.
fn read_multisig(ws: &Vec<u8>) -> (r: Option<(u8, Vec<Vec<u8>>)>)
    ensures
        (match parse_multisig(ws@) {
            Some((m, keys)) => r matches Some(p) && p.0 == m && witness_view(p.1@) == keys,
            None => r is None,
        }),
{
    if ws.len() < 3 {
        return None;
    }
    let op_m = ws[0];
    let op_n = ws[ws.len() - 2];
    let op_cms = ws[ws.len() - 1];
    if !(81 <= op_m && op_m <= 96 && 81 <= op_n && op_n <= 96 && op_cms == 174) {
        return None;
    }
    let seg_end = ws.len() - 2;
    let ghost seg = ws@.subrange(1, ws@.len() - 2);
    let mut keys: Vec<Vec<u8>> = Vec::new();
    let mut i: usize = 1;
    proof {
        assert(witness_view(keys@) =~= Seq::<Seq<u8>>::empty());
    }
    while i < seg_end
        invariant
            1 <= i <= seg_end,
            seg_end == ws@.len() - 2,
            ws@.len() >= 3,
            seg == ws@.subrange(1, ws@.len() - 2),
            (match parse_keys(seg, i - 1) {
                Some(ks) => parse_keys(seg, 0) matches Some(w) && w == witness_view(keys@) + ks,
                None => parse_keys(seg, 0) is None,
            }),
        decreases seg_end - i,
    {
        if ws.len() - 2 - i < 34 || !(ws[i] == 33) {
            proof {
                assert(seg[i - 1] == ws@[i as int]);
                assert(parse_keys(seg, i - 1) is None);
            }
            return None;
        }
        let mut key: Vec<u8> = Vec::new();
        let mut k: usize = 0;
        while k < 33
            invariant
                k <= 33,
                i + 34 <= seg_end,
                seg_end == ws@.len() - 2,
                ws@.len() >= 3,
                key@ == ws@.subrange(i + 1, i + 1 + k),
            decreases 33 - k,
        {
            key.push(ws[i + 1 + k]);
            proof {
                assert(ws@.subrange(i + 1, i + 1 + k).push(ws@[i + 1 + k]) =~= ws@.subrange(
                    i + 1,
                    i + 1 + k + 1,
                ));
            }
            k += 1;
        }
        proof {
            assert(seg[i - 1] == ws@[i as int]);
            assert(parse_keys(seg, i - 1) == (match parse_keys(seg, i - 1 + 34) {
                None => None::<Seq<Seq<u8>>>,
                Some(ks) => Some(seq![seg.subrange(i - 1 + 1, i - 1 + 34)] + ks),
            }));
            assert(key@ =~= seg.subrange(i as int, i + 33));
            assert(seg.subrange(i - 1 + 1, i - 1 + 34) =~= seg.subrange(i as int, i + 33)) by {
                assert(forall|t: int|
                    0 <= t < 33 ==> #[trigger] seg.subrange(i - 1 + 1, i - 1 + 34)[t]
                        == seg.subrange(i as int, i + 33)[t]);
            }
            assert(seg.subrange(i as int, i + 33) =~= ws@.subrange(i + 1, i + 34)) by {
                assert(forall|t: int|
                    0 <= t < 33 ==> #[trigger] seg.subrange(i as int, i + 33)[t] == ws@.subrange(
                        i + 1,
                        i + 34,
                    )[t]);
            }
            assert(witness_view(keys@.push(key)) =~= witness_view(keys@).push(key@));
            if parse_keys(seg, i - 1 + 34) is Some {
                assert(witness_view(keys@).push(key@) + parse_keys(seg, i - 1 + 34)->Some_0
                    =~= witness_view(keys@) + (seq![seg.subrange(i as int, i + 33)] + parse_keys(
                    seg,
                    i - 1 + 34,
                )->Some_0));
            }
        }
        keys.push(key);
        i += 34;
    }
    proof {
        assert(i - 1 == seg.len());
        assert(parse_keys(seg, seg.len() as int) == Some(Seq::<Seq<u8>>::empty()));
        assert(witness_view(keys@) + Seq::<Seq<u8>>::empty() =~= witness_view(keys@));
    }
    let n_keys = keys.len();
    if !(n_keys == (op_n - 81 + 1) as usize && (op_m - 80) as usize <= n_keys) {
        return None;
    }
    Some((op_m - 80, keys))
}

/// The signature held for `pubkey`, if any.
fn sig_for(sigs: &Vec<PartialSig>, pubkey: &Vec<u8>) -> (r: Option<Vec<u8>>)
    ensures
        sig_map(sigs_view(sigs@)).contains_key(pubkey@) ==> (r matches Some(v) && v@ == sig_map(
            sigs_view(sigs@),
        )[pubkey@]),
        !sig_map(sigs_view(sigs@)).contains_key(pubkey@) ==> r is None,
{
    let ghost sv = sigs_view(sigs@);
    let mut i: usize = 0;
    while i < sigs.len()
        invariant
            i <= sigs.len(),
            sv == sigs_view(sigs@),
            forall|k: int| 0 <= k < i ==> sv[k].pubkey != pubkey@,
        decreases sigs.len() - i,
    {
        let hit = bytes_eq(&sigs[i].pubkey, pubkey);
        proof {
            assert(sv[i as int] == sigs@[i as int]@);
        }
        if hit {
            let v = clone_bytes(&sigs[i].sig);
            proof {
                lemma_first_sig(sv, i as int);
            }
            return Some(v);
        }
        i += 1;
    }
    proof {
        crate::psbt::lemma_sig_map_keys(sv);
    }
    None
}

/// The earliest entry for a key is the one the signature map holds.
proof fn lemma_first_sig(s: Seq<crate::psbt::PartialSigV>, i: int)
    requires
        0 <= i < s.len(),
        forall|k: int| 0 <= k < i ==> s[k].pubkey != s[i].pubkey,
    ensures
        sig_map(s).contains_key(s[i].pubkey),
        sig_map(s)[s[i].pubkey] == s[i].sig,
    decreases i,
{
    if i == 0 {
        crate::psbt::lemma_sig_map_keys(s.drop_first());
    } else {
        assert(s.drop_first()[i - 1] == s[i]);
        assert(forall|k: int| 0 <= k < i - 1 ==> s.drop_first()[k] == s[k + 1]);
        lemma_first_sig(s.drop_first(), i - 1);
        assert(s[0].pubkey != s[i].pubkey);
    }
}

/// Signatures for the script's keys, in script order, as far as they are
/// held.
pub open spec fn collect_sigs(keys: Seq<Seq<u8>>, m: Map<Seq<u8>, Seq<u8>>) -> Seq<Seq<u8>>
    decreases keys.len(),
{
    if keys.len() == 0 {
        Seq::empty()
    } else {
        (if m.contains_key(keys[0]) {
            seq![m[keys[0]]]
        } else {
            Seq::empty()
        }) + collect_sigs(keys.drop_first(), m)
    }
}

/// How one input finalizes: `None` when its script form is not
/// supported; `Some(None)` when its signatures are not yet sufficient;
/// `Some(Some(w))` when the final witness `w` can be assembled.
///
/// A pay-to-witness-public-key-hash input takes its one signature and
/// key. A pay-to-witness-script-hash input takes a multisig witness
/// script's signatures in script-key order, between the dummy empty item
/// and the script itself.
pub open spec fn spec_finalize(a: InputAuxV) -> Option<Option<Seq<Seq<u8>>>> {
    match a.witness_utxo {
        None => Some(None),
        Some(o) => {
            let spk = o.script_pubkey;
            if spk.len() == 22 && spk[0] == 0 && spk[1] == 20 {
                if a.partial_sigs.len() >= 1 {
                    Some(Some(seq![a.partial_sigs[0].sig, a.partial_sigs[0].pubkey]))
                } else {
                    Some(None)
                }
            } else if spk.len() == 34 && spk[0] == 0 && spk[1] == 32 {
                match a.witness_script {
                    None => Some(None),
                    Some(ws) => match parse_multisig(ws) {
                        None => None,
                        Some((m, keys)) => {
                            let got = collect_sigs(keys, sig_map(a.partial_sigs));
                            if got.len() >= m {
                                Some(Some(seq![Seq::<u8>::empty()] + got.take(m) + seq![ws]))
                            } else {
                                Some(None)
                            }
                        },
                    },
                }
            } else {
                None
            }
        },
    }
}

/// Assemble one input's final witness per `spec_finalize`.
fn finalize_input(a: &InputAux) -> (r: Result<Option<Vec<Vec<u8>>>, Error>)
    ensures
        (match spec_finalize(a@) {
            None => r == Err::<Option<Vec<Vec<u8>>>, Error>(Error::UnsupportedScriptType),
            Some(None) => r == Ok::<Option<Vec<Vec<u8>>>, Error>(None),
            Some(Some(w)) => r matches Ok(Some(v)) && witness_view(v@) == w,
        }),
{
    let o = match &a.witness_utxo {
        None => {
            return Ok(None);
        },
        Some(o) => o,
    };
    let spk = &o.script_pubkey;
    if spk.len() == 22 && spk[0] == 0 && spk[1] == 20 {
        if a.partial_sigs.len() >= 1 {
            let mut w: Vec<Vec<u8>> = Vec::new();
            w.push(clone_bytes(&a.partial_sigs[0].sig));
            w.push(clone_bytes(&a.partial_sigs[0].pubkey));
            proof {
                assert(a@.partial_sigs[0] == a.partial_sigs@[0]@);
                assert(witness_view(w@) =~= seq![
                    a@.partial_sigs[0].sig,
                    a@.partial_sigs[0].pubkey,
                ]);
            }
            return Ok(Some(w));
        }
        return Ok(None);
    }
    if spk.len() == 34 && spk[0] == 0 && spk[1] == 32 {
        let ws = match &a.witness_script {
            None => {
                return Ok(None);
            },
            Some(ws) => ws,
        };
        let parsed = match read_multisig(ws) {
            None => {
                return Err(Error::UnsupportedScriptType);
            },
            Some(p) => p,
        };
        let m = parsed.0 as usize;
        let keys = parsed.1;
        let ghost keys_v = witness_view(keys@);
        let ghost smap = sig_map(sigs_view(a.partial_sigs@));
        let mut got: Vec<Vec<u8>> = Vec::new();
        let mut i: usize = 0;
        proof {
            assert(witness_view(got@) =~= Seq::<Seq<u8>>::empty());
            assert(keys_v.skip(0) =~= keys_v);
            assert(witness_view(got@) + collect_sigs(keys_v.skip(0), smap) =~= collect_sigs(
                keys_v,
                smap,
            ));
        }
        while i < keys.len()
            invariant
                i <= keys.len(),
                keys_v == witness_view(keys@),
                smap == sig_map(sigs_view(a.partial_sigs@)),
                collect_sigs(keys_v, smap) == witness_view(got@) + collect_sigs(
                    keys_v.skip(i as int),
                    smap,
                ),
            decreases keys.len() - i,
        {
            let sv = sig_for(&a.partial_sigs, &keys[i]);
            proof {
                assert(keys_v[i as int] == keys@[i as int]@);
                assert(keys_v.skip(i as int)[0] == keys_v[i as int]);
                assert(keys_v.skip(i as int).drop_first() =~= keys_v.skip(i + 1));
            }
            match sv {
                Some(v) => {
                    proof {
                        assert(witness_view(got@.push(v)) =~= witness_view(got@).push(v@));
                        assert(witness_view(got@).push(v@) + collect_sigs(keys_v.skip(i + 1), smap)
                            =~= witness_view(got@) + (seq![smap[keys_v[i as int]]] + collect_sigs(
                            keys_v.skip(i + 1),
                            smap,
                        )));
                    }
                    got.push(v);
                },
                None => {
                    proof {
                        assert(witness_view(got@) + collect_sigs(keys_v.skip(i + 1), smap)
                            =~= witness_view(got@) + (Seq::<Seq<u8>>::empty() + collect_sigs(
                            keys_v.skip(i + 1),
                            smap,
                        )));
                    }
                },
            }
            i += 1;
        }
        proof {
            assert(keys_v.skip(keys@.len() as int) =~= Seq::<Seq<u8>>::empty());
            assert(witness_view(got@) + Seq::<Seq<u8>>::empty() =~= witness_view(got@));
            assert(witness_view(got@) == collect_sigs(keys_v, smap));
        }
        if got.len() >= m {
            let mut w: Vec<Vec<u8>> = Vec::new();
            w.push(Vec::new());
            let mut k: usize = 0;
            while k < m
                invariant
                    k <= m,
                    m <= got@.len(),
                    witness_view(got@) == collect_sigs(keys_v, smap),
                    keys_v == witness_view(keys@),
                    smap == sig_map(sigs_view(a.partial_sigs@)),
                    witness_view(w@) == seq![Seq::<u8>::empty()] + witness_view(got@).take(k as int),
                decreases m - k,
            {
                w.push(clone_bytes(&got[k]));
                proof {
                    assert(witness_view(got@)[k as int] == got@[k as int]@);
                    assert(witness_view(w@) =~= (seq![Seq::<u8>::empty()] + witness_view(got@).take(
                        k as int,
                    )).push(witness_view(got@)[k as int]));
                    assert((seq![Seq::<u8>::empty()] + witness_view(got@).take(k as int)).push(
                        witness_view(got@)[k as int],
                    ) =~= seq![Seq::<u8>::empty()] + witness_view(got@).take(k + 1));
                }
                k += 1;
            }
            w.push(clone_bytes(ws));
            proof {
                assert(witness_view(w@) =~= seq![Seq::<u8>::empty()] + collect_sigs(
                    keys_v,
                    smap,
                ).take(m as int) + seq![ws@]);
            }
            return Ok(Some(w));
        }
        return Ok(None);
    }
    Err(Error::UnsupportedScriptType)
}


#[verifier::ext_equal]
pub ghost struct SignerEntryV {
    pub input_index: usize,
    pub pubkey: Seq<u8>,
    pub signature: Seq<u8>,
}

impl View for SignerEntry {
    type V = SignerEntryV;

    open spec fn view(&self) -> SignerEntryV {
        SignerEntryV {
            input_index: self.input_index,
            pubkey: self.pubkey@,
            signature: self.signature@,
        }
    }
}

/// A signer's entries, viewed.
pub open spec fn entries_view(s: Seq<SignerEntry>) -> Seq<SignerEntryV> {
    s.map_values(|e: SignerEntry| e@)
}

#[verifier::ext_equal]
pub ghost struct SignerV {
    pub entries: Seq<SignerEntryV>,
}

impl View for Signer {
    type V = SignerV;

    open spec fn view(&self) -> SignerV {
        SignerV { entries: entries_view(self.entries@) }
    }
}

/// The signers, viewed.
pub open spec fn signers_view(s: Seq<Signer>) -> Seq<SignerV> {
    s.map_values(|x: Signer| x@)
}

/// Copy of an input's auxiliary data.
fn clone_inaux(a: &InputAux) -> (r: InputAux)
    ensures
        r@ == a@,
{
    let r = InputAux {
        witness_utxo: match &a.witness_utxo {
            Some(o) => Some(clone_txout(o)),
            None => None,
        },
        partial_sigs: crate::psbt::clone_sigs(&a.partial_sigs),
        witness_script: crate::psbt::clone_opt_bytes(&a.witness_script),
        sighash_type: a.sighash_type,
        final_witness: match &a.final_witness {
            Some(w) => Some(crate::psbt::clone_witness(w)),
            None => None,
        },
    };
    proof {
        assert(r@ =~= a@);
    }
    r
}

/// What one round of signing does to one input: every other field is
/// kept; no existing signature is removed or replaced; an unsignable
/// input keeps its signatures; and for a signable input every signer
/// entry addressed to it leaves a signature under its key.
pub open spec fn signed_input(
    o: InputAuxV,
    n: InputAuxV,
    sv: Seq<SignerV>,
    idx: int,
    trust: bool,
    allow: bool,
) -> bool {
    &&& n.witness_utxo == o.witness_utxo
    &&& n.witness_script == o.witness_script
    &&& n.sighash_type == o.sighash_type
    &&& n.final_witness == o.final_witness
    &&& sig_map(o.partial_sigs).submap_of(sig_map(n.partial_sigs))
    &&& (!signable(o, trust, allow) ==> n.partial_sigs == o.partial_sigs)
    &&& (signable(o, trust, allow) ==> forall|sj: int, tk: int|
        0 <= sj < sv.len() && 0 <= tk < sv[sj].entries.len() && (#[trigger] sv[sj].entries[tk]).input_index
            == idx ==> sig_map(n.partial_sigs).contains_key(sv[sj].entries[tk].pubkey))
}

/// What finalization does to one input: an input that was already final,
/// or whose signatures do not yet satisfy its script, is untouched; one
/// that finalizes gains its final witness, its signatures cleared only
/// on request.
pub open spec fn finalized_input(o: InputAuxV, n: InputAuxV, remove: bool) -> bool {
    if o.final_witness is Some {
        n == o
    } else {
        match spec_finalize(o) {
            Some(Some(w)) => {
                &&& n.final_witness == Some(w)
                &&& n.witness_utxo == o.witness_utxo
                &&& n.witness_script == o.witness_script
                &&& n.sighash_type == o.sighash_type
                &&& (if remove {
                    n.partial_sigs == Seq::<crate::psbt::PartialSigV>::empty()
                } else {
                    n.partial_sigs == o.partial_sigs
                })
            },
            Some(None) => n == o,
            None => true,
        }
    }
}

/// Attempt to assemble every input's final witness from its accumulated
/// partial signatures. An input whose signature set is incomplete is
/// left unfinalized, which is not an error; the returned flag says
/// whether every input now carries a final witness. Only a recognized
/// script form can be finalized: anything else is refused, inputs
/// already processed keeping their progress.
pub fn finalize_psbt(psbt: &mut Psbt, remove_partial_sigs: bool) -> (r: Result<bool, Error>)
    requires
        old(psbt)@.wf(),
    ensures
        final(psbt)@.wf(),
        final(psbt)@.tx == old(psbt)@.tx,
        final(psbt)@.outputs == old(psbt)@.outputs,
        final(psbt)@.inputs.len() == old(psbt)@.inputs.len(),
        r matches Ok(b) ==> (b <==> (forall|i: int|
            0 <= i < final(psbt)@.inputs.len() ==> (#[trigger] final(psbt)@.inputs[i]).final_witness
                is Some)),
        r matches Ok(b) ==> (forall|i: int|
            0 <= i < final(psbt)@.inputs.len() ==> finalized_input(
                old(psbt)@.inputs[i],
                #[trigger] final(psbt)@.inputs[i],
                remove_partial_sigs,
            )),
        r matches Err(e) ==> e == Error::UnsupportedScriptType && final(psbt)@ == old(psbt)@,
        r is Ok <==> (forall|i: int|
            0 <= i < old(psbt)@.inputs.len() ==> ((#[trigger] old(psbt)@.inputs[i]).final_witness
                is Some || spec_finalize(old(psbt)@.inputs[i]) is Some)),
{
    let ghost oldv = psbt@;
    let n = psbt.inputs.len();
    let mut done: Vec<InputAux> = Vec::new();
    let mut i: usize = 0;
    while i < n
        invariant
            i <= n,
            n == psbt.inputs@.len(),
            psbt@ == oldv,
            oldv.wf(),
            inaux_view(done@).len() == i,
            forall|q: int|
                0 <= q < i ==> finalized_input(
                    oldv.inputs[q],
                    #[trigger] inaux_view(done@)[q],
                    remove_partial_sigs,
                ),
            forall|q: int|
                0 <= q < i ==> ((#[trigger] oldv.inputs[q]).final_witness is Some || spec_finalize(
                    oldv.inputs[q],
                ) is Some),
        decreases n - i,
    {
        let a = &psbt.inputs[i];
        proof {
            assert(inaux_view(psbt.inputs@)[i as int] == psbt.inputs@[i as int]@);
        }
        let updated: InputAux;
        if a.final_witness.is_some() {
            updated = clone_inaux(a);
        } else {
            match finalize_input(a) {
                Err(e) => {
                    // signatures already gathered stay in place; no
                    // final witness is assembled past an unsupported input
                    proof {
                        assert(oldv.inputs[i as int].final_witness is None && spec_finalize(
                            oldv.inputs[i as int],
                        ) is None);
                    }
                    return Err(e);
                },
                Ok(None) => {
                    updated = clone_inaux(a);
                },
                Ok(Some(w)) => {
                    let sigs: Vec<PartialSig> = if remove_partial_sigs {
                        Vec::new()
                    } else {
                        crate::psbt::clone_sigs(&a.partial_sigs)
                    };
                    updated = InputAux {
                        witness_utxo: match &a.witness_utxo {
                            Some(o) => Some(clone_txout(o)),
                            None => None,
                        },
                        partial_sigs: sigs,
                        witness_script: crate::psbt::clone_opt_bytes(&a.witness_script),
                        sighash_type: a.sighash_type,
                        final_witness: Some(w),
                    };
                },
            }
        }
        proof {
            assert(oldv.inputs[i as int] == a@);
            assert(sigs_view(Seq::<PartialSig>::empty()) =~= Seq::<
                crate::psbt::PartialSigV,
            >::empty());
            assert(finalized_input(oldv.inputs[i as int], updated@, remove_partial_sigs));
            assert(inaux_view(done@.push(updated)) =~= inaux_view(done@).push(updated@));
        }
        done.push(updated);
        i += 1;
    }
    psbt.inputs = done;
    proof {
        assert(psbt@.wf());
    }
    let mut all_final = true;
    let m = psbt.inputs.len();
    let mut k: usize = 0;
    while k < m
        invariant
            k <= m,
            m == psbt.inputs@.len(),
            all_final <==> (forall|q: int|
                0 <= q < k ==> (#[trigger] inaux_view(psbt.inputs@)[q]).final_witness is Some),
        decreases m - k,
    {
        proof {
            assert(inaux_view(psbt.inputs@)[k as int] == psbt.inputs@[k as int]@);
        }
        if psbt.inputs[k].final_witness.is_none() {
            all_final = false;
        }
        k += 1;
    }
    Ok(all_final)
}


/// One signing round applied to every input.
pub open spec fn signed_all(
    o: Seq<InputAuxV>,
    mid: Seq<InputAuxV>,
    sv: Seq<SignerV>,
    trust: bool,
    allow: bool,
) -> bool {
    &&& mid.len() == o.len()
    &&& (forall|i: int|
        0 <= i < o.len() ==> signed_input(o[i], #[trigger] mid[i], sv, i, trust, allow))
}

/// Whether every input either already carries a final witness or has a
/// script form the finalizer knows how to satisfy: exactly when
/// finalization succeeds.
pub open spec fn finalizable(mid: Seq<InputAuxV>) -> bool {
    forall|i: int|
        0 <= i < mid.len() ==> ((#[trigger] mid[i]).final_witness is Some || spec_finalize(mid[i])
            is Some)
}

/// Finalization applied to every input.
pub open spec fn finalized_all(mid: Seq<InputAuxV>, n: Seq<InputAuxV>, remove: bool) -> bool {
    &&& n.len() == mid.len()
    &&& (forall|i: int|
        0 <= i < mid.len() ==> finalized_input(mid[i], #[trigger] n[i], remove))
}

/// Apply every signer to the PSBT's inputs in order, then — when asked —
/// attempt to finalize each input. Returns whether every input carries a
/// final witness. A signer adds signatures only to signable inputs it
/// names, and never removes or replaces one another signer contributed.
#[verifier::rlimit(100)]
pub fn sign(psbt: &mut Psbt, signers: &Vec<Signer>, options: &crate::types::SignOptions) -> (r:
    Result<bool, Error>)
    requires
        old(psbt)@.wf(),
    ensures
        final(psbt)@.wf(),
        final(psbt)@.tx == old(psbt)@.tx,
        final(psbt)@.outputs == old(psbt)@.outputs,
        final(psbt)@.inputs.len() == old(psbt)@.inputs.len(),
        !options.remove_partial_sigs ==> (forall|i: int|
            0 <= i < old(psbt)@.inputs.len() ==> sig_map(
                old(psbt)@.inputs[i].partial_sigs,
            ).submap_of(sig_map((#[trigger] final(psbt)@.inputs[i]).partial_sigs))),
        !options.try_finalize ==> r == Ok::<bool, Error>(false),
        !options.try_finalize ==> (forall|i: int|
            0 <= i < old(psbt)@.inputs.len() ==> signed_input(
                old(psbt)@.inputs[i],
                #[trigger] final(psbt)@.inputs[i],
                signers_view(signers@),
                i,
                options.trust_witness_utxo,
                options.allow_all_sighashes,
            )),
        options.try_finalize ==> (r matches Ok(b) ==> (b <==> (forall|i: int|
            0 <= i < final(psbt)@.inputs.len() ==> (#[trigger] final(psbt)@.inputs[i]).final_witness
                is Some))),
        // a signature only leaves an input that was finalized; everywhere
        // else signatures accumulate, whatever the options say
        forall|i: int|
            0 <= i < old(psbt)@.inputs.len() ==> ((#[trigger] final(psbt)@.inputs[i]).final_witness
                is Some || sig_map(old(psbt)@.inputs[i].partial_sigs).submap_of(
                sig_map(final(psbt)@.inputs[i].partial_sigs),
            )),
        // the whole call is one signing round and one finalization round:
        // it succeeds exactly when every signed input can finalize
        options.try_finalize ==> (exists|mid: Seq<InputAuxV>|
            {
                &&& #[trigger] signed_all(
                    old(psbt)@.inputs,
                    mid,
                    signers_view(signers@),
                    options.trust_witness_utxo,
                    options.allow_all_sighashes,
                )
                &&& (r is Ok <==> finalizable(mid))
                &&& (r is Ok ==> finalized_all(
                    mid,
                    final(psbt)@.inputs,
                    options.remove_partial_sigs,
                ))
                &&& (r is Err ==> final(psbt)@.inputs == mid)
            }),
        r matches Err(e) ==> e == Error::UnsupportedScriptType,
{
    let ghost oldv = psbt@;
    let ghost sv = signers_view(signers@);
    let trust = options.trust_witness_utxo;
    let allow = options.allow_all_sighashes;
    let n = psbt.inputs.len();
    let mut done: Vec<InputAux> = Vec::new();
    let mut i: usize = 0;
    while i < n
        invariant
            i <= n,
            n == psbt.inputs@.len(),
            psbt@ == oldv,
            oldv.wf(),
            sv == signers_view(signers@),
            trust == options.trust_witness_utxo,
            allow == options.allow_all_sighashes,
            inaux_view(done@).len() == i,
            forall|q: int|
                0 <= q < i ==> signed_input(
                    oldv.inputs[q],
                    #[trigger] inaux_view(done@)[q],
                    sv,
                    q,
                    trust,
                    allow,
                ),
        decreases n - i,
    {
        let a = &psbt.inputs[i];
        proof {
            assert(inaux_view(psbt.inputs@)[i as int] == psbt.inputs@[i as int]@);
            assert(oldv.inputs[i as int] == a@);
        }
        let mut sigs = crate::psbt::clone_sigs(&a.partial_sigs);
        let signable_now = a.witness_utxo.is_some() && trust && (allow || match a.sighash_type {
            None => true,
            Some(t) => t == 1,
        });
        proof {
            assert(signable_now == signable(a@, trust, allow));
            assert(sig_map(a@.partial_sigs).submap_of(sig_map(sigs_view(sigs@)))) by {
                assert(sigs_view(sigs@) == a@.partial_sigs);
            }
        }
        if signable_now {
            let mut j: usize = 0;
            while j < signers.len()
                invariant
                    j <= signers.len(),
                    sv == signers_view(signers@),
                    oldv.inputs[i as int] == a@,
                    i < n,
                    sig_map(a@.partial_sigs).submap_of(sig_map(sigs_view(sigs@))),
                    forall|sj: int, tk: int|
                        0 <= sj < j && 0 <= tk < sv[sj].entries.len() && (#[trigger] sv[sj].entries[tk]).input_index
                            == i ==> sig_map(sigs_view(sigs@)).contains_key(
                            sv[sj].entries[tk].pubkey,
                        ),
                decreases signers.len() - j,
            {
                let s_ref = &signers[j];
                proof {
                    assert(sv[j as int] == signers@[j as int]@);
                }
                let mut t: usize = 0;
                while t < s_ref.entries.len()
                    invariant
                        t <= s_ref.entries.len(),
                        j < signers@.len(),
                        sv == signers_view(signers@),
                        sv[j as int] == s_ref@,
                        oldv.inputs[i as int] == a@,
                        i < n,
                        sig_map(a@.partial_sigs).submap_of(sig_map(sigs_view(sigs@))),
                        forall|sj: int, tk: int|
                            0 <= sj < j && 0 <= tk < sv[sj].entries.len() && (#[trigger] sv[sj].entries[tk]).input_index
                                == i ==> sig_map(sigs_view(sigs@)).contains_key(
                                sv[sj].entries[tk].pubkey,
                            ),
                        forall|tk: int|
                            0 <= tk < t && (#[trigger] sv[j as int].entries[tk]).input_index == i
                                ==> sig_map(sigs_view(sigs@)).contains_key(
                                sv[j as int].entries[tk].pubkey,
                            ),
                    decreases s_ref.entries.len() - t,
                {
                    let e = &s_ref.entries[t];
                    proof {
                        assert(sv[j as int].entries[t as int] == s_ref.entries@[t as int]@);
                    }
                    if e.input_index == i {
                        let present = has_sig_for(&sigs, &e.pubkey);
                        if !present {
                            let ps = PartialSig {
                                pubkey: clone_bytes(&e.pubkey),
                                sig: clone_bytes(&e.signature),
                            };
                            proof {
                                let cur = sigs_view(sigs@);
                                assert(sigs_view(sigs@.push(ps)) =~= cur.push(ps@));
                                crate::psbt::lemma_sig_map_push(cur, ps@);
                                assert(sig_map(cur.push(ps@)) == sig_map(cur).insert(
                                    e.pubkey@,
                                    e.signature@,
                                ));
                                let m1 = sig_map(a@.partial_sigs);
                                let m2 = sig_map(cur);
                                let m3 = m2.insert(e.pubkey@, e.signature@);
                                assert(!m2.contains_key(e.pubkey@));
                                assert forall|x: Seq<u8>| #[trigger]
                                    m1.dom().contains(x) implies m3.dom().contains(x) && m1[x]
                                    == m3[x] by {
                                    assert(m2.dom().contains(x) && m1[x] == m2[x]);
                                    assert(x != e.pubkey@);
                                }
                                assert(m1.submap_of(m3));
                            }
                            sigs.push(ps);
                        }
                    }
                    t += 1;
                }
                j += 1;
            }
        }
        let updated = InputAux {
            witness_utxo: match &a.witness_utxo {
                Some(o) => Some(clone_txout(o)),
                None => None,
            },
            partial_sigs: sigs,
            witness_script: crate::psbt::clone_opt_bytes(&a.witness_script),
            sighash_type: a.sighash_type,
            final_witness: match &a.final_witness {
                Some(w) => Some(crate::psbt::clone_witness(w)),
                None => None,
            },
        };
        proof {
            assert(signed_input(oldv.inputs[i as int], updated@, sv, i as int, trust, allow));
            assert(inaux_view(done@.push(updated)) =~= inaux_view(done@).push(updated@));
        }
        done.push(updated);
        i += 1;
    }
    psbt.inputs = done;
    let ghost midv = psbt@;
    proof {
        assert(midv.wf());
        assert(forall|q: int|
            0 <= q < oldv.inputs.len() ==> signed_input(
                oldv.inputs[q],
                #[trigger] midv.inputs[q],
                sv,
                q,
                trust,
                allow,
            ));
    }
    if !options.try_finalize {
        proof {
            assert forall|q: int| 0 <= q < oldv.inputs.len() implies ((
            #[trigger] psbt@.inputs[q]).final_witness is Some || sig_map(
                oldv.inputs[q].partial_sigs,
            ).submap_of(sig_map(psbt@.inputs[q].partial_sigs))) by {
                assert(signed_input(oldv.inputs[q], psbt@.inputs[q], sv, q, trust, allow));
            }
        }
        return Ok(false);
    }
    let fr = finalize_psbt(psbt, options.remove_partial_sigs);
    proof {
        assert(psbt@.inputs.len() == midv.inputs.len());
        assert(oldv.inputs.len() == midv.inputs.len());
        // preservation, whatever the options
        assert forall|q: int| 0 <= q < oldv.inputs.len() implies ((
        #[trigger] psbt@.inputs[q]).final_witness is Some || sig_map(
            oldv.inputs[q].partial_sigs,
        ).submap_of(sig_map(psbt@.inputs[q].partial_sigs))) by {
            assert(signed_input(oldv.inputs[q], midv.inputs[q], sv, q, trust, allow));
            if fr is Ok {
                assert(finalized_input(
                    midv.inputs[q],
                    psbt@.inputs[q],
                    options.remove_partial_sigs,
                ));
                if midv.inputs[q].final_witness is Some {
                    assert(psbt@.inputs[q] == midv.inputs[q]);
                } else {
                    match spec_finalize(midv.inputs[q]) {
                        Some(Some(w)) => {
                            assert(psbt@.inputs[q].final_witness is Some);
                        },
                        Some(None) => {
                            assert(psbt@.inputs[q] == midv.inputs[q]);
                        },
                        None => {
                            assert(false);
                        },
                    }
                }
            } else {
                assert(psbt@ == midv);
            }
        }
        // the round's witness
        assert(signed_all(oldv.inputs, midv.inputs, sv, trust, allow));
        assert(fr is Ok <==> finalizable(midv.inputs));
        if fr is Ok {
            assert(finalized_all(midv.inputs, psbt@.inputs, options.remove_partial_sigs));
        } else {
            assert(psbt@ == midv);
            assert(psbt@.inputs == midv.inputs);
        }
        assert(exists|mid: Seq<InputAuxV>|
            {
                &&& #[trigger] signed_all(oldv.inputs, mid, sv, trust, allow)
                &&& (fr is Ok <==> finalizable(mid))
                &&& (fr is Ok ==> finalized_all(mid, psbt@.inputs, options.remove_partial_sigs))
                &&& (fr is Err ==> psbt@.inputs == mid)
            });
        if !options.remove_partial_sigs && fr is Ok {
            assert forall|q: int| 0 <= q < oldv.inputs.len() implies sig_map(
                oldv.inputs[q].partial_sigs,
            ).submap_of(sig_map((#[trigger] psbt@.inputs[q]).partial_sigs)) by {
                assert(finalized_input(
                    midv.inputs[q],
                    psbt@.inputs[q],
                    options.remove_partial_sigs,
                ));
                assert(finalized_input(midv.inputs[q], psbt@.inputs[q], false));
                assert(signed_input(oldv.inputs[q], midv.inputs[q], sv, q, trust, allow));
                if midv.inputs[q].final_witness is Some {
                    assert(psbt@.inputs[q] == midv.inputs[q]);
                } else {
                    match spec_finalize(midv.inputs[q]) {
                        Some(Some(w)) => {
                            assert(psbt@.inputs[q].partial_sigs == midv.inputs[q].partial_sigs);
                        },
                        Some(None) => {
                            assert(psbt@.inputs[q] == midv.inputs[q]);
                        },
                        None => {
                            assert(false);
                        },
                    }
                }
            }
        }
    }
    fr
}

} // verus!
