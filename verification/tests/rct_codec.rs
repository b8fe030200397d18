use monero_ringct::errors::CodecError;
use monero_ringct::prunable::{BorromeanRange, Bulletproofs, Clsag, Mlsag, RctPrunable};
use monero_ringct::rct_type::RctType;
use monero_ringct::ringct::{EncryptedAmount, RctBase};
use monero_ringct::signatures::RctSignatures;
use monero_ringct::wire;

fn point(tag: u8) -> Vec<u8> {
    let mut p = vec![0u8; 32];
    p[0] = tag;
    p
}

fn original_amount(tag: u8) -> EncryptedAmount {
    EncryptedAmount::Original { mask: point(tag), amount: point(tag.wrapping_add(1)) }
}

fn compact_amount(tag: u8) -> EncryptedAmount {
    let mut a = vec![0u8; 8];
    a[0] = tag;
    EncryptedAmount::Compact { amount: a }
}

fn borromean(tag: u8) -> BorromeanRange {
    let mut bytes = vec![0u8; 6176];
    bytes[0] = tag;
    BorromeanRange { bytes }
}

fn mlsag(ring_size: usize, tag: u8) -> Mlsag {
    let mut bytes = vec![0u8; 64 * ring_size + 32];
    bytes[0] = tag;
    Mlsag { bytes }
}

fn clsag(ring_size: usize, tag: u8) -> Clsag {
    let mut bytes = vec![0u8; 32 * ring_size + 64];
    bytes[0] = tag;
    Clsag { bytes }
}

fn bp_original() -> Bulletproofs {
    Bulletproofs::Original {
        head: vec![7u8; 192],
        l_vals: vec![point(10), point(11)],
        r_vals: vec![point(12), point(13)],
        tail: vec![9u8; 96],
    }
}

fn bp_plus() -> Bulletproofs {
    Bulletproofs::Plus {
        head: vec![8u8; 192],
        l_vals: vec![point(20)],
        r_vals: vec![point(21)],
    }
}

fn base_for(era: RctType, inputs: usize, outputs: usize) -> RctBase {
    if era == RctType::Null {
        return RctBase {
            fee: 0,
            pseudo_outs: vec![],
            encrypted_amounts: vec![],
            commitments: vec![],
        };
    }
    let pseudo_outs = if era == RctType::MlsagIndividual {
        (0..inputs).map(|k| point(0x30 + k as u8)).collect()
    } else {
        vec![]
    };
    let encrypted_amounts = (0..outputs)
        .map(|k| {
            if era.compact_encrypted_amounts() {
                compact_amount(0x40 + k as u8)
            } else {
                original_amount(0x40 + k as u8)
            }
        })
        .collect();
    let commitments = (0..outputs).map(|k| point(0x50 + k as u8)).collect();
    RctBase { fee: 123456, pseudo_outs, encrypted_amounts, commitments }
}

fn prunable_for(era: RctType, decoys: &[usize], outputs: usize) -> RctPrunable {
    match era {
        RctType::Null => RctPrunable::Null,
        RctType::MlsagAggregate | RctType::MlsagIndividual => RctPrunable::MlsagBorromean {
            borromean: (0..outputs).map(|k| borromean(0x60 + k as u8)).collect(),
            mlsags: decoys.iter().enumerate().map(|(k, d)| mlsag(*d, 0x70 + k as u8)).collect(),
        },
        RctType::Bulletproofs | RctType::BulletproofsCompactAmount => {
            RctPrunable::MlsagBulletproofs {
                bulletproofs: bp_original(),
                mlsags: decoys.iter().enumerate().map(|(k, d)| mlsag(*d, 0x70 + k as u8)).collect(),
                pseudo_outs: (0..decoys.len()).map(|k| point(0x80 + k as u8)).collect(),
            }
        }
        RctType::Clsag | RctType::BulletproofsPlus => RctPrunable::Clsag {
            bulletproofs: if era == RctType::Clsag { bp_original() } else { bp_plus() },
            clsags: decoys.iter().enumerate().map(|(k, d)| clsag(*d, 0x70 + k as u8)).collect(),
            pseudo_outs: (0..decoys.len()).map(|k| point(0x80 + k as u8)).collect(),
        },
    }
}

fn all_eras() -> Vec<RctType> {
    vec![
        RctType::Null,
        RctType::MlsagAggregate,
        RctType::MlsagIndividual,
        RctType::Bulletproofs,
        RctType::BulletproofsCompactAmount,
        RctType::Clsag,
        RctType::BulletproofsPlus,
    ]
}

#[test]
fn era_tag_bytes_round_trip() {
    for (k, era) in all_eras().into_iter().enumerate() {
        assert_eq!(era.to_byte(), k as u8);
        assert_eq!(RctType::from_byte(k as u8), Some(era));
    }
    for b in 7u8..=255 {
        assert_eq!(RctType::from_byte(b), None);
    }
}

#[test]
fn compact_amount_flags() {
    assert!(!RctType::Null.compact_encrypted_amounts());
    assert!(!RctType::MlsagAggregate.compact_encrypted_amounts());
    assert!(!RctType::MlsagIndividual.compact_encrypted_amounts());
    assert!(!RctType::Bulletproofs.compact_encrypted_amounts());
    assert!(RctType::BulletproofsCompactAmount.compact_encrypted_amounts());
    assert!(RctType::Clsag.compact_encrypted_amounts());
    assert!(RctType::BulletproofsPlus.compact_encrypted_amounts());
}

#[test]
fn varint_known_vectors() {
    let cases: Vec<(u64, Vec<u8>)> = vec![
        (0, vec![0x00]),
        (1, vec![0x01]),
        (127, vec![0x7f]),
        (128, vec![0x80, 0x01]),
        (300, vec![0xac, 0x02]),
        (u64::MAX, vec![0xff, 0xff, 0xff, 0xff, 0xff, 0xff, 0xff, 0xff, 0xff, 0x01]),
    ];
    for (value, bytes) in cases {
        let mut w = Vec::new();
        wire::write_varint(&mut w, value);
        assert_eq!(w, bytes);
        assert_eq!(wire::varint_len(value), bytes.len());
        let mut pos = 0usize;
        assert_eq!(wire::read_varint(&w, &mut pos), Ok(value));
        assert_eq!(pos, bytes.len());
    }
}

#[test]
fn varint_rejects_padded_encoding() {
    // 0x80 0x00 would decode to zero with a redundant continuation group.
    let mut pos = 0usize;
    assert_eq!(wire::read_varint(&[0x80, 0x00], &mut pos), Err(CodecError::MalformedVarint));
    assert_eq!(pos, 0);
    let mut pos2 = 0usize;
    assert_eq!(wire::read_varint(&[0x80], &mut pos2), Err(CodecError::ShortRead));
}

#[test]
fn fixed_width_known_vectors() {
    let mut w = Vec::new();
    wire::write_u32_le(&mut w, 0x0403_0201);
    assert_eq!(w, vec![0x01, 0x02, 0x03, 0x04]);
    let mut pos = 0usize;
    assert_eq!(wire::read_u32_le(&w, &mut pos), Ok(0x0403_0201));

    let mut w8 = Vec::new();
    wire::write_u64_le(&mut w8, 0x0807_0605_0403_0201);
    assert_eq!(w8, vec![0x01, 0x02, 0x03, 0x04, 0x05, 0x06, 0x07, 0x08]);
    let mut pos8 = 0usize;
    assert_eq!(wire::read_u64_le(&w8, &mut pos8), Ok(0x0807_0605_0403_0201));
}

#[test]
fn encrypted_amount_both_layouts_round_trip() {
    let original = original_amount(5);
    let mut w = Vec::new();
    original.write(&mut w);
    assert_eq!(w.len(), 64);
    let mut pos = 0usize;
    assert_eq!(EncryptedAmount::read(false, &w, &mut pos), Ok(original));

    let compact = compact_amount(9);
    let mut wc = Vec::new();
    compact.write(&mut wc);
    assert_eq!(wc.len(), 8);
    let mut posc = 0usize;
    assert_eq!(EncryptedAmount::read(true, &wc, &mut posc), Ok(compact));
}

#[test]
fn base_round_trips_for_every_era() {
    for era in all_eras() {
        let (inputs, outputs) = if era == RctType::Null { (1, 0) } else { (2, 3) };
        let base = base_for(era, inputs, outputs);
        let mut w = Vec::new();
        base.write(&mut w, era);
        let mut pos = 0usize;
        let (parsed, parsed_era) = RctBase::read(inputs, outputs, &w, &mut pos).unwrap();
        assert_eq!(parsed, base);
        assert_eq!(parsed_era, era);
        assert_eq!(pos, w.len());
    }
}

#[test]
fn prunable_round_trips_for_every_era() {
    for era in all_eras() {
        let decoys = vec![3usize, 4usize];
        let outputs = 2usize;
        let p = prunable_for(era, &decoys, outputs);
        let w = p.serialize(era);
        let mut pos = 0usize;
        let parsed = RctPrunable::read(era, &decoys, outputs, &w, &mut pos).unwrap();
        assert_eq!(parsed, p);
        assert_eq!(pos, w.len());
    }
}

#[test]
fn signatures_round_trip_for_every_era() {
    for era in all_eras() {
        let decoys = vec![3usize, 4usize];
        let outputs = if era == RctType::Null { 0 } else { 2 };
        let sigs = RctSignatures {
            base: base_for(era, decoys.len(), outputs),
            prunable: prunable_for(era, &decoys, outputs),
        };
        assert_eq!(sigs.rct_type(), era);
        // Repeated calls agree: the era is recomputed from shape each time.
        assert_eq!(sigs.rct_type(), sigs.rct_type());
        let w = sigs.serialize();
        let mut pos = 0usize;
        let parsed = RctSignatures::read(decoys.clone(), outputs, &w, &mut pos).unwrap();
        assert_eq!(parsed, sigs);
        assert_eq!(parsed.rct_type(), era);
        assert_eq!(pos, w.len());
    }
}

#[test]
fn zero_outputs_with_range_proof_rejected_for_every_bulletproof_era() {
    for era in [
        RctType::Bulletproofs,
        RctType::BulletproofsCompactAmount,
        RctType::Clsag,
        RctType::BulletproofsPlus,
    ] {
        let data = vec![era.to_byte()];
        let mut pos = 0usize;
        assert_eq!(
            RctBase::read(1, 0, &data, &mut pos),
            Err(CodecError::ZeroOutputsWithRangeProof)
        );
        assert_eq!(pos, 0);
    }
}

#[test]
fn unknown_era_byte_rejected() {
    let data = vec![9u8];
    let mut pos = 0usize;
    assert_eq!(RctBase::read(1, 1, &data, &mut pos), Err(CodecError::UnknownEra));
}

#[test]
fn no_inputs_rejected_for_every_era() {
    for era in all_eras() {
        let p = prunable_for(era, &[3], 1);
        let w = p.serialize(era);
        let empty: Vec<usize> = vec![];
        let mut pos = 0usize;
        assert_eq!(
            RctPrunable::read(era, &empty, 1, &w, &mut pos),
            Err(CodecError::NoInputs)
        );
    }
}

#[test]
fn wrong_bulletproof_count_rejected_in_both_encodings() {
    // The 4-byte little-endian count of the legacy era.
    let mut legacy = Vec::new();
    wire::write_u32_le(&mut legacy, 2);
    let decoys = vec![3usize];
    let mut pos = 0usize;
    assert_eq!(
        RctPrunable::read(RctType::Bulletproofs, &decoys, 1, &legacy, &mut pos),
        Err(CodecError::WrongBulletproofCount)
    );
    // The varint count of every later era.
    for era in [RctType::BulletproofsCompactAmount, RctType::Clsag, RctType::BulletproofsPlus] {
        let varint = vec![0x02u8];
        let mut p2 = 0usize;
        assert_eq!(
            RctPrunable::read(era, &decoys, 1, &varint, &mut p2),
            Err(CodecError::WrongBulletproofCount)
        );
        let zero = vec![0x00u8];
        let mut p3 = 0usize;
        assert_eq!(
            RctPrunable::read(era, &decoys, 1, &zero, &mut p3),
            Err(CodecError::WrongBulletproofCount)
        );
    }
}

#[test]
fn bulletproofs_plus_scenario_one_input_two_outputs() {
    let decoys = vec![11usize];
    let outputs = 2usize;
    let sigs = RctSignatures {
        base: base_for(RctType::BulletproofsPlus, decoys.len(), outputs),
        prunable: prunable_for(RctType::BulletproofsPlus, &decoys, outputs),
    };
    assert_eq!(sigs.rct_type(), RctType::BulletproofsPlus);
    let w = sigs.serialize();
    let mut pos = 0usize;
    let parsed = RctSignatures::read(decoys, outputs, &w, &mut pos).unwrap();
    assert_eq!(parsed.base.fee, sigs.base.fee);
    assert_eq!(parsed.base.commitments, sigs.base.commitments);
    match &parsed.prunable {
        RctPrunable::Clsag { bulletproofs, clsags, pseudo_outs } => {
            assert_eq!(clsags.len(), 1);
            assert_eq!(pseudo_outs.len(), 1);
            assert!(matches!(bulletproofs, Bulletproofs::Plus { .. }));
        }
        _ => panic!("wrong prunable shape"),
    }
    assert_eq!(parsed, sigs);
}

#[test]
fn signature_hash_bytes_carry_the_range_proofs_alone() {
    // The Borromean shape contributes its range proofs, without the MLSAGs.
    let p = prunable_for(RctType::MlsagAggregate, &[3], 2);
    let mut w = Vec::new();
    p.signature_write(&mut w);
    assert_eq!(w.len(), 2 * 6176);
    // The bulletproof shapes contribute the bundle without its count marker
    // or the vector length markers.
    let p2 = prunable_for(RctType::BulletproofsPlus, &[3], 2);
    let mut w2 = Vec::new();
    p2.signature_write(&mut w2);
    assert_eq!(w2.len(), 192 + 32 + 32);
    let full = p2.serialize(RctType::BulletproofsPlus);
    // The full wire form adds the count marker, two vector counts, the CLSAG
    // and the pseudo-output point.
    assert_eq!(full.len(), 1 + 192 + (1 + 32) + (1 + 32) + (32 * 3 + 64) + 32);
}

#[test]
fn truncated_input_fails_with_short_read() {
    let decoys = vec![3usize];
    let sigs = RctSignatures {
        base: base_for(RctType::Clsag, 1, 1),
        prunable: prunable_for(RctType::Clsag, &decoys, 1),
    };
    let w = sigs.serialize();
    let cut = &w[..w.len() - 1];
    let mut pos = 0usize;
    assert_eq!(
        RctSignatures::read(decoys, 1, cut, &mut pos),
        Err(CodecError::ShortRead)
    );
}
