use curve25519_dalek::edwards::CompressedEdwardsY;
use curve25519_dalek::scalar::Scalar;

use monero_ringct::decoys::{offset, offsets_to_indices, Decoys, RingMember};
use monero_ringct::errors::CodecError;

/// A canonical compressed encoding of a real curve point, distinct per tag.
fn valid_point(tag: u64) -> Vec<u8> {
    let p = curve25519_dalek::constants::ED25519_BASEPOINT_POINT * Scalar::from(tag + 1);
    p.compress().as_bytes().to_vec()
}

/// Thirty-two bytes that dalek refuses to decompress.
fn invalid_point() -> Vec<u8> {
    for b in 0u8..=255 {
        let mut arr = [0u8; 32];
        arr[0] = b;
        arr[1] = 77;
        if CompressedEdwardsY(arr).decompress().is_none() {
            return arr.to_vec();
        }
    }
    panic!("no invalid encoding found");
}

fn member(tag: u64) -> RingMember {
    RingMember { key: valid_point(2 * tag), commitment: valid_point(2 * tag + 1) }
}

fn sample_decoys() -> Decoys {
    let ring: Vec<RingMember> = (0..4).map(member).collect();
    Decoys { i: 2, offsets: vec![10, 5, 1, 7], ring }
}

#[test]
fn offsets_delta_encoding_is_invertible() {
    let indices: Vec<u64> = vec![3, 8, 9, 20, 55];
    let offsets = offset(&indices);
    assert_eq!(offsets, vec![3, 5, 1, 11, 35]);
    let back = offsets_to_indices(&offsets).unwrap();
    assert_eq!(back, indices);
}

#[test]
fn offsets_of_single_index() {
    let indices: Vec<u64> = vec![42];
    let offsets = offset(&indices);
    assert_eq!(offsets, vec![42]);
    assert_eq!(offsets_to_indices(&offsets).unwrap(), indices);
}

#[test]
fn offsets_decode_reports_overflow() {
    assert_eq!(offsets_to_indices(&vec![u64::MAX, 1]), None);
}

#[test]
fn decoy_record_round_trips() {
    let d = sample_decoys();
    let bytes = d.to_bytes();
    // 1 index byte + 4-byte count + four 8-byte offsets + four 64-byte members.
    assert_eq!(bytes.len(), 1 + 4 + 4 * 8 + 4 * 64);
    let mut pos = 0usize;
    let parsed = Decoys::read(&bytes, &mut pos).unwrap();
    assert_eq!(parsed, d);
    assert_eq!(pos, bytes.len());
    let again = Decoys::from_bytes(&bytes);
    assert_eq!(again, d);
}

#[test]
fn decoy_record_layout_is_little_endian() {
    let d = Decoys { i: 7, offsets: vec![0x0102], ring: vec![member(9)] };
    let bytes = d.to_bytes();
    assert_eq!(bytes[0], 7);
    assert_eq!(&bytes[1..5], &[1, 0, 0, 0]);
    assert_eq!(&bytes[5..13], &[0x02, 0x01, 0, 0, 0, 0, 0, 0]);
    assert_eq!(&bytes[13..45], member(9).key.as_slice());
    assert_eq!(&bytes[45..77], member(9).commitment.as_slice());
}

#[test]
fn decoy_record_rejects_bytes_that_are_no_point() {
    let d = sample_decoys();
    let mut bytes = d.to_bytes();
    let bad = invalid_point();
    // Overwrite the first ring member's key with a non-point.
    let key_start = 1 + 4 + 4 * 8;
    bytes[key_start..key_start + 32].copy_from_slice(&bad);
    let mut pos = 0usize;
    assert_eq!(Decoys::read(&bytes, &mut pos), Err(CodecError::InvalidPoint));
    assert_eq!(pos, 0);
}

#[test]
fn decoy_record_acceptance_matches_the_curve_library() {
    // Whatever dalek says about an encoding, the record parser must agree.
    for tag in 0u64..6 {
        let candidate = valid_point(tag);
        let mut arr = [0u8; 32];
        arr.copy_from_slice(&candidate);
        assert!(CompressedEdwardsY(arr).decompress().is_some());
        let d = Decoys {
            i: 0,
            offsets: vec![1],
            ring: vec![RingMember { key: candidate.clone(), commitment: candidate }],
        };
        let bytes = d.to_bytes();
        let mut pos = 0usize;
        assert!(Decoys::read(&bytes, &mut pos).is_ok());
    }
}

#[test]
fn short_record_fails_with_short_read() {
    let d = sample_decoys();
    let bytes = d.to_bytes();
    let mut pos = 0usize;
    assert_eq!(
        Decoys::read(&bytes[..bytes.len() - 1], &mut pos),
        Err(CodecError::ShortRead)
    );
}

#[test]
fn ring_len_and_fee_weight() {
    let d = sample_decoys();
    assert_eq!(d.len(), 4);
    // varint(4 entries) = 1 byte; each small offset = 1 byte.
    assert_eq!(Decoys::fee_weight(&d.offsets), 5);
    // A large delta takes its varint width.
    assert_eq!(Decoys::fee_weight(&[300]), 1 + 2);
}
