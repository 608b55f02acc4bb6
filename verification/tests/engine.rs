use psbt_core::{
    build, bump_fee, combine, extract_tx, fee_amount, fee_rate, BumpRequest, deserialize, finalize_psbt, serialize, sign, BuildRequest, ChangeSpendPolicy,
    Error, ForeignUtxo, InputAux, OutPoint, OutputAux, PartialSig, Psbt, RbfPolicy, Recipient,
    SignOptions, Signer, SignerEntry, Transaction, TxIn, TxOut, Utxo, KeychainKind,
};

fn utxo(tag: u8, vout: u32, value: u64) -> Utxo {
    let mut spk = vec![0u8, 20];
    spk.extend_from_slice(&[tag; 20]);
    Utxo {
        outpoint: OutPoint { txid: vec![tag; 32], vout },
        value,
        script_pubkey: spk,
        keychain: KeychainKind::External,
        is_spent: false,
    }
}

fn base_request() -> BuildRequest {
    BuildRequest {
        recipients: vec![],
        manual_utxos: vec![],
        foreign_utxos: vec![],
        optional_utxos: vec![],
        unspendable: vec![],
        manual_only: false,
        fee_rate: None,
        fee_absolute: None,
        drain_wallet: false,
        drain_to: None,
        change_script: vec![0u8; 22],
        change_policy: ChangeSpendPolicy::ChangeAllowed,
        rbf: RbfPolicy::Enabled,
        data: vec![],
        allow_dust: false,
    }
}

fn recipient(amount: u64) -> Recipient {
    Recipient { script_pubkey: vec![0u8; 22], amount }
}

#[test]
fn build_simple_payment_with_change() {
    // one 100_000 sat coin funds a 50_000 sat payment at 1 sat/vB
    let mut req = base_request();
    req.recipients = vec![recipient(50_000)];
    req.optional_utxos = vec![utxo(1, 0, 100_000)];
    req.fee_rate = Some(1);
    let (psbt, details) = build(&req).unwrap();
    // fixed framing 10 + recipient output 31 + input 68 + change output 31
    assert_eq!(details.fee, 140);
    assert_eq!(details.sent, 100_000);
    assert_eq!(details.received, 100_000 - 50_000 - 140);
    assert_eq!(psbt.unsigned_tx.outputs.len(), 2);
    assert_eq!(psbt.unsigned_tx.outputs[0].value, 50_000);
    assert_eq!(psbt.unsigned_tx.outputs[1].value, details.received);
    assert!(details.received >= 546);
    assert_eq!(psbt.unsigned_tx.inputs.len(), 1);
    // funding covers payment plus fee exactly through the outputs
    assert_eq!(
        details.sent,
        psbt.unsigned_tx.outputs.iter().map(|o| o.value).sum::<u64>() + details.fee
    );
    // replace-by-fee sequence
    assert_eq!(psbt.unsigned_tx.inputs[0].sequence, 0xFFFF_FFFD);
}

#[test]
fn manual_only_insufficient_fails_without_drawing_pool() {
    let mut req = base_request();
    req.recipients = vec![recipient(50_000)];
    req.manual_utxos = vec![utxo(1, 0, 10_000)];
    // a rich pool is available but must not be touched
    req.optional_utxos = vec![utxo(2, 0, 1_000_000)];
    req.manual_only = true;
    req.fee_rate = Some(1);
    assert_eq!(build(&req).unwrap_err(), Error::ManualSelectionInsufficient);
}

#[test]
fn insufficient_funds_reports_amounts() {
    let mut req = base_request();
    req.recipients = vec![recipient(50_000)];
    req.optional_utxos = vec![utxo(1, 0, 10_000)];
    req.fee_rate = Some(1);
    match build(&req).unwrap_err() {
        Error::InsufficientFunds { needed, available } => {
            assert_eq!(available, 10_000);
            assert!(needed > 50_000);
        },
        e => panic!("wrong error: {:?}", e),
    }
}

#[test]
fn conflicting_fee_specification_rejected() {
    let mut req = base_request();
    req.recipients = vec![recipient(50_000)];
    req.optional_utxos = vec![utxo(1, 0, 100_000)];
    req.fee_rate = Some(1);
    req.fee_absolute = Some(500);
    assert_eq!(build(&req).unwrap_err(), Error::ConflictingFeeSpecification);
}

#[test]
fn dust_recipient_rejected_unless_allowed() {
    let mut req = base_request();
    req.recipients = vec![recipient(100)];
    req.optional_utxos = vec![utxo(1, 0, 100_000)];
    req.fee_rate = Some(1);
    assert_eq!(build(&req).unwrap_err(), Error::DustOutput);
    req.allow_dust = true;
    assert!(build(&req).is_ok());
}

#[test]
fn oversized_request_fails_fee_estimation() {
    let mut req = base_request();
    req.recipients = vec![recipient(50_000)];
    req.optional_utxos = vec![utxo(1, 0, 100_000)];
    req.foreign_utxos = vec![ForeignUtxo {
        outpoint: OutPoint { txid: vec![9; 32], vout: 0 },
        value: 1_000,
        script_pubkey: vec![0u8, 20, 9, 9],
        satisfaction_vsize: 2_000_000,
    }];
    req.fee_rate = Some(1);
    assert_eq!(build(&req).unwrap_err(), Error::FeeEstimationFailed);
}

#[test]
fn data_payload_adds_one_unspendable_output() {
    let mut req = base_request();
    req.recipients = vec![recipient(50_000)];
    req.optional_utxos = vec![utxo(1, 0, 100_000)];
    req.fee_rate = Some(1);
    req.data = vec![0xde, 0xad, 0xbe, 0xef];
    let (psbt, _) = build(&req).unwrap();
    // recipient, data carrier, change
    assert_eq!(psbt.unsigned_tx.outputs.len(), 3);
    let data_out = &psbt.unsigned_tx.outputs[1];
    assert_eq!(data_out.value, 0);
    assert_eq!(data_out.script_pubkey, vec![0x6a, 4, 0xde, 0xad, 0xbe, 0xef]);
    let carriers = psbt
        .unsigned_tx
        .outputs
        .iter()
        .filter(|o| o.script_pubkey.first() == Some(&0x6a))
        .count();
    assert_eq!(carriers, 1);
}

#[test]
fn oversized_data_payload_rejected() {
    let mut req = base_request();
    req.recipients = vec![recipient(50_000)];
    req.optional_utxos = vec![utxo(1, 0, 100_000)];
    req.fee_rate = Some(1);
    req.data = vec![7u8; 76];
    assert_eq!(build(&req).unwrap_err(), Error::DataCarrierTooLarge);
}

#[test]
fn drain_spends_everything_exactly() {
    let mut req = base_request();
    req.optional_utxos = vec![utxo(1, 0, 100_000), utxo(2, 1, 40_000)];
    req.drain_wallet = true;
    req.drain_to = Some(vec![0u8; 22]);
    req.fee_rate = Some(2);
    let (psbt, details) = build(&req).unwrap();
    assert_eq!(psbt.unsigned_tx.inputs.len(), 2);
    assert_eq!(details.sent, 140_000);
    let out_sum: u64 = psbt.unsigned_tx.outputs.iter().map(|o| o.value).sum();
    // equality: every input satoshi is an output satoshi or fee
    assert_eq!(details.sent, out_sum + details.fee);
    assert_eq!(psbt.unsigned_tx.outputs.len(), 1);
}

#[test]
fn drain_without_destination_rejected() {
    let mut req = base_request();
    req.optional_utxos = vec![utxo(1, 0, 100_000)];
    req.drain_wallet = true;
    assert_eq!(build(&req).unwrap_err(), Error::NoDrainDestination);
}

#[test]
fn unspendable_outpoints_are_excluded() {
    let mut req = base_request();
    req.recipients = vec![recipient(50_000)];
    let banned = utxo(1, 0, 100_000);
    req.unspendable = vec![OutPoint { txid: banned.outpoint.txid.clone(), vout: 0 }];
    req.optional_utxos = vec![banned];
    req.fee_rate = Some(1);
    assert_eq!(
        build(&req).unwrap_err(),
        Error::InsufficientFunds { needed: 50_041, available: 0 }
    );
}

fn sample_psbt() -> Psbt {
    let mut req = base_request();
    req.recipients = vec![recipient(50_000)];
    req.optional_utxos = vec![utxo(1, 0, 100_000)];
    req.fee_rate = Some(1);
    req.data = vec![1, 2, 3];
    build(&req).unwrap().0
}

#[test]
fn serialize_deserialize_round_trip() {
    let p = sample_psbt();
    let bytes = serialize(&p);
    let q = deserialize(&bytes).unwrap();
    // byte-exact: the reparsed PSBT serializes to the same bytes
    assert_eq!(serialize(&q), bytes);
    assert_eq!(q.unsigned_tx.outputs.len(), p.unsigned_tx.outputs.len());
    assert_eq!(q.unsigned_tx.inputs[0].txid, p.unsigned_tx.inputs[0].txid);
    assert_eq!(q.inputs.len(), p.inputs.len());
}

#[test]
fn deserialize_rejects_malformed_bytes() {
    assert_eq!(deserialize(&vec![1, 2, 3]).unwrap_err(), Error::InvalidPsbt);
    let p = sample_psbt();
    let mut bytes = serialize(&p);
    bytes.push(0);
    assert_eq!(deserialize(&bytes).unwrap_err(), Error::InvalidPsbt);
}

fn multisig_psbt(keys: (&[u8; 33], &[u8; 33])) -> (Psbt, Vec<u8>) {
    // 2-of-2 multisig witness script
    let mut ws = vec![0x52, 0x21];
    ws.extend_from_slice(keys.0);
    ws.push(0x21);
    ws.extend_from_slice(keys.1);
    ws.push(0x52);
    ws.push(0xae);
    let mut spk = vec![0u8, 32];
    spk.extend_from_slice(&[7u8; 32]);
    let tx = Transaction {
        version: 2,
        lock_time: 0,
        inputs: vec![TxIn { txid: vec![3; 32], vout: 0, sequence: 0xFFFF_FFFD }],
        outputs: vec![TxOut { value: 90_000, script_pubkey: vec![0u8; 22] }],
    };
    let psbt = Psbt {
        unsigned_tx: tx,
        inputs: vec![InputAux {
            witness_utxo: Some(TxOut { value: 100_000, script_pubkey: spk }),
            partial_sigs: vec![],
            witness_script: Some(ws.clone()),
            sighash_type: None,
            final_witness: None,
        }],
        outputs: vec![OutputAux { witness_script: None }],
    };
    (psbt, ws)
}

fn opts(try_finalize: bool) -> SignOptions {
    SignOptions {
        trust_witness_utxo: true,
        assume_height: None,
        allow_all_sighashes: false,
        try_finalize,
        sign_with_all_keys: false,
        remove_partial_sigs: false,
    }
}

#[test]
fn two_of_two_multisig_finalizes_in_script_order() {
    let k1 = [0x11u8; 33];
    let k2 = [0x22u8; 33];
    let (mut psbt, ws) = multisig_psbt((&k1, &k2));
    let signer_a = Signer {
        entries: vec![SignerEntry { input_index: 0, pubkey: k1.to_vec(), signature: vec![0xA1; 71] }],
    };
    let signer_b = Signer {
        entries: vec![SignerEntry { input_index: 0, pubkey: k2.to_vec(), signature: vec![0xB2; 71] }],
    };
    // signer A alone cannot finalize
    let done = sign(&mut psbt, &vec![signer_a], &opts(true)).unwrap();
    assert!(!done);
    assert_eq!(psbt.inputs[0].partial_sigs.len(), 1);
    // signer B completes the set; the final witness carries the two
    // signatures in script-key order between the dummy and the script
    let done = sign(&mut psbt, &vec![signer_b], &opts(true)).unwrap();
    assert!(done);
    let w = psbt.inputs[0].final_witness.as_ref().unwrap();
    assert_eq!(w.len(), 4);
    assert_eq!(w[0], Vec::<u8>::new());
    assert_eq!(w[1], vec![0xA1; 71]);
    assert_eq!(w[2], vec![0xB2; 71]);
    assert_eq!(w[3], ws);
}

#[test]
fn combine_merges_independent_signatures_commutatively() {
    let k1 = [0x11u8; 33];
    let k2 = [0x22u8; 33];
    let (mut pa, _) = multisig_psbt((&k1, &k2));
    let (mut pb, _) = multisig_psbt((&k1, &k2));
    let signer_a = Signer {
        entries: vec![SignerEntry { input_index: 0, pubkey: k1.to_vec(), signature: vec![0xA1; 71] }],
    };
    let signer_b = Signer {
        entries: vec![SignerEntry { input_index: 0, pubkey: k2.to_vec(), signature: vec![0xB2; 71] }],
    };
    sign(&mut pa, &vec![signer_a], &opts(false)).unwrap();
    sign(&mut pb, &vec![signer_b], &opts(false)).unwrap();
    let ab = combine(&pa, &pb).unwrap();
    let ba = combine(&pb, &pa).unwrap();
    let set = |p: &Psbt| {
        let mut v: Vec<(Vec<u8>, Vec<u8>)> = p.inputs[0]
            .partial_sigs
            .iter()
            .map(|s| (s.pubkey.clone(), s.sig.clone()))
            .collect();
        v.sort();
        v
    };
    // same signature content either way
    assert_eq!(set(&ab), set(&ba));
    assert_eq!(set(&ab).len(), 2);
    // and the combined PSBT finalizes
    let mut ab = ab;
    assert!(finalize_psbt(&mut ab, false).unwrap());
}

#[test]
fn combine_rejects_mismatched_transactions() {
    let pa = sample_psbt();
    let (pb, _) = multisig_psbt((&[0x11u8; 33], &[0x22u8; 33]));
    assert_eq!(combine(&pa, &pb).unwrap_err(), Error::MismatchedTransaction);
}

#[test]
fn finalize_refuses_unknown_script_forms() {
    let mut psbt = sample_psbt();
    // replace the spent output's script with something unrecognizable
    psbt.inputs[0].witness_utxo = Some(TxOut { value: 1, script_pubkey: vec![0xAC] });
    assert_eq!(finalize_psbt(&mut psbt, false).unwrap_err(), Error::UnsupportedScriptType);
}

#[test]
fn p2wpkh_finalizes_from_one_signature() {
    let mut psbt = sample_psbt();
    let signer = Signer {
        entries: vec![SignerEntry { input_index: 0, pubkey: vec![0x33; 33], signature: vec![0xC3; 71] }],
    };
    let done = sign(&mut psbt, &vec![signer], &opts(true)).unwrap();
    assert!(done);
    let w = psbt.inputs[0].final_witness.as_ref().unwrap();
    assert_eq!(w.len(), 2);
    assert_eq!(w[0], vec![0xC3; 71]);
    assert_eq!(w[1], vec![0x33; 33]);
}

#[test]
fn foreign_utxo_counts_toward_funding() {
    let mut req = base_request();
    req.recipients = vec![recipient(50_000)];
    req.foreign_utxos = vec![ForeignUtxo {
        outpoint: OutPoint { txid: vec![9; 32], vout: 0 },
        value: 60_000,
        script_pubkey: vec![0u8, 20, 9, 9],
        satisfaction_vsize: 40,
    }];
    req.fee_rate = Some(1);
    let (psbt, details) = build(&req).unwrap();
    assert_eq!(psbt.unsigned_tx.inputs.len(), 1);
    assert_eq!(details.sent, 60_000);
    assert!(details.sent >= 50_000 + details.fee);
}

fn base_bump(rate: u64) -> BumpRequest {
    BumpRequest {
        original_inputs: vec![utxo(1, 0, 100_000)],
        original_outputs: vec![recipient(50_000), Recipient { script_pubkey: vec![2u8; 22], amount: 49_860 }],
        shrink_index: Some(1),
        new_fee_rate: rate,
        optional_utxos: vec![utxo(5, 0, 30_000)],
        unspendable: vec![],
        change_script: vec![0u8; 22],
        change_policy: ChangeSpendPolicy::ChangeAllowed,
        rbf: RbfPolicy::Enabled,
    }
}

#[test]
fn bump_fee_requires_a_higher_rate() {
    // the original paid 140 sats over 140 vbytes: 1 sat/vB
    match bump_fee(base_bump(1)).unwrap_err() {
        Error::FeeRateTooLow { required } => assert_eq!(required, 2),
        e => panic!("wrong error: {:?}", e),
    }
}

#[test]
fn bump_fee_keeps_original_inputs_and_pays_more() {
    let old_fee = 100_000 - 50_000 - 49_860;
    let (psbt, details) = bump_fee(base_bump(3)).unwrap();
    // the original input still funds the replacement, first
    assert_eq!(psbt.unsigned_tx.inputs[0].txid, vec![1u8; 32]);
    assert!(psbt.unsigned_tx.inputs.len() >= 1);
    // strictly more fee than the replaced transaction paid
    assert!(details.fee > old_fee);
    // the kept output is unchanged, the shrunk one absorbed the fee
    assert_eq!(psbt.unsigned_tx.outputs[0].value, 50_000);
    assert!(psbt.unsigned_tx.outputs[1].value < 49_860);
    assert_eq!(details.sent, psbt.unsigned_tx.outputs.iter().map(|o| o.value).sum::<u64>() + details.fee);
}

#[test]
fn extract_refused_until_finalized() {
    let (mut psbt, ws) = multisig_psbt((&[0x11u8; 33], &[0x22u8; 33]));
    assert_eq!(extract_tx(&psbt).unwrap_err(), Error::NotFinalized);
    let signers = vec![
        Signer {
            entries: vec![SignerEntry {
                input_index: 0,
                pubkey: vec![0x11; 33],
                signature: vec![0xA1; 71],
            }],
        },
        Signer {
            entries: vec![SignerEntry {
                input_index: 0,
                pubkey: vec![0x22; 33],
                signature: vec![0xB2; 71],
            }],
        },
    ];
    assert!(sign(&mut psbt, &signers, &opts(true)).unwrap());
    let (tx, witnesses) = extract_tx(&psbt).unwrap();
    assert_eq!(tx.outputs[0].value, 90_000);
    assert_eq!(witnesses.len(), 1);
    assert_eq!(witnesses[0].len(), 4);
    assert_eq!(witnesses[0][3], ws);
}

#[test]
fn fee_amount_and_rate_from_witness_utxos() {
    let (psbt, _) = multisig_psbt((&[0x11u8; 33], &[0x22u8; 33]));
    // 100_000 funded, 90_000 spent
    assert_eq!(fee_amount(&psbt), Some(10_000));
    // model vsize: 10 framing + 68 input + 31 output
    assert_eq!(fee_rate(&psbt), Some(10_000 / 109));
    let mut blind = psbt;
    blind.inputs[0].witness_utxo = None;
    assert_eq!(fee_amount(&blind), None);
    assert_eq!(fee_rate(&blind), None);
}

#[test]
fn combine_accepts_differing_map_sizes_only_with_same_tx() {
    // two PSBTs whose transactions differ in output count: combine must
    // refuse them rather than reject the call
    let (pa, _) = multisig_psbt((&[0x11u8; 33], &[0x22u8; 33]));
    let mut pb = Psbt {
        unsigned_tx: Transaction {
            version: 2,
            lock_time: 0,
            inputs: vec![TxIn { txid: vec![3; 32], vout: 0, sequence: 0xFFFF_FFFD }],
            outputs: vec![],
        },
        inputs: vec![InputAux {
            witness_utxo: None,
            partial_sigs: vec![],
            witness_script: None,
            sighash_type: None,
            final_witness: None,
        }],
        outputs: vec![],
    };
    assert_eq!(combine(&pa, &pb).unwrap_err(), Error::MismatchedTransaction);
    assert_eq!(combine(&pb, &pa).unwrap_err(), Error::MismatchedTransaction);
    // and a same-shape pair still combines
    pb.unsigned_tx = pa.unsigned_tx.clone();
    pb.unsigned_tx.outputs = vec![TxOut { value: 90_000, script_pubkey: vec![0u8; 22] }];
    pb.outputs = vec![OutputAux { witness_script: None }];
    assert!(combine(&pa, &pb).is_ok());
}
