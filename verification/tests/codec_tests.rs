use bifrost::codec::{decode_many, decode_one, encode_many, encode_varint, decode_varint, DecodeError, Proof};

fn varint(n: u64) -> Vec<u8> {
    let mut out = Vec::new();
    encode_varint(n, &mut out);
    out
}

#[test]
fn varint_one_byte_values() {
    assert_eq!(varint(0), vec![0]);
    assert_eq!(varint(1), vec![1]);
    assert_eq!(varint(252), vec![252]);
}

#[test]
fn varint_two_byte_values() {
    assert_eq!(varint(253), vec![253, 253, 0]);
    assert_eq!(varint(0x0102), vec![253, 2, 1]);
    assert_eq!(varint(0xFFFF), vec![253, 255, 255]);
}

#[test]
fn varint_four_byte_values() {
    assert_eq!(varint(0x10000), vec![254, 0, 0, 1, 0]);
    assert_eq!(varint(0xFFFFFFFF), vec![254, 255, 255, 255, 255]);
}

#[test]
fn varint_eight_byte_values() {
    assert_eq!(varint(0x100000000), vec![255, 0, 0, 0, 0, 1, 0, 0, 0]);
    assert_eq!(varint(u64::MAX), vec![255; 9]);
}

#[test]
fn varint_decode_round_trips() {
    for n in [0u64, 1, 252, 253, 0xFFFF, 0x10000, 0xFFFFFFFF, 0x100000000, u64::MAX] {
        let bytes = varint(n);
        let (value, len) = decode_varint(&bytes, 0).expect("own encoding must decode");
        assert_eq!(value, n);
        assert_eq!(len, bytes.len());
    }
}

#[test]
fn varint_decode_truncated_is_none() {
    assert!(decode_varint(&[], 0).is_none());
    assert!(decode_varint(&[253, 1], 0).is_none());
    assert!(decode_varint(&[254, 1, 2, 3], 0).is_none());
    assert!(decode_varint(&[255, 1, 2, 3, 4, 5, 6, 7], 0).is_none());
}

#[test]
fn encode_empty_collection_exact() {
    let encoded = encode_many(&vec![]);
    assert_eq!(encoded, vec![0]);
}

#[test]
fn encode_single_proof_exact() {
    let proofs = vec![Proof { payload: vec![1, 2, 3] }];
    let encoded = encode_many(&proofs);
    assert_eq!(encoded, vec![1, 3, 1, 2, 3]);
}

#[test]
fn encode_single_then_decode_one() {
    let proofs = vec![Proof { payload: vec![9, 8, 7, 6] }];
    let encoded = encode_many(&proofs);
    let back = decode_one(&encoded).expect("single-proof encoding must decode");
    assert_eq!(back.payload, vec![9, 8, 7, 6]);
}

#[test]
fn encode_single_empty_proof_then_decode_one() {
    let proofs = vec![Proof { payload: vec![] }];
    let encoded = encode_many(&proofs);
    assert_eq!(encoded, vec![1, 0]);
    let back = decode_one(&encoded).expect("empty proof must decode");
    assert!(back.payload.is_empty());
}

#[test]
fn encode_many_then_resplit_preserves_order() {
    let proofs = vec![
        Proof { payload: vec![1] },
        Proof { payload: vec![] },
        Proof { payload: vec![2, 3, 4] },
    ];
    let encoded = encode_many(&proofs);
    assert_eq!(encoded, vec![3, 1, 1, 0, 3, 2, 3, 4]);
    let back = decode_many(&encoded).expect("own encoding must decode");
    let payloads: Vec<&[u8]> = back.iter().map(|p| p.payload.as_slice()).collect();
    assert_eq!(payloads, vec![&[1u8][..], &[][..], &[2, 3, 4][..]]);
}

#[test]
fn encode_large_collection_round_trips() {
    // More than 252 proofs, so the count needs the two-byte prefix.
    let proofs: Vec<Proof> = (0..300u16)
        .map(|i| Proof { payload: vec![(i % 256) as u8, (i / 256) as u8] })
        .collect();
    let encoded = encode_many(&proofs);
    assert_eq!(encoded[0], 253);
    assert_eq!(encoded[1], 44);
    assert_eq!(encoded[2], 1);
    let back = decode_many(&encoded).expect("own encoding must decode");
    assert_eq!(back.len(), 300);
    for (i, p) in back.iter().enumerate() {
        assert_eq!(p.payload, vec![(i % 256) as u8, (i / 256) as u8]);
    }
}

#[test]
fn decode_one_of_empty_body_is_truncated() {
    assert_eq!(decode_one(&[]).unwrap_err(), DecodeError::Truncated);
}

#[test]
fn decode_one_of_short_payload_is_truncated() {
    // One proof announced with five bytes, only one present.
    assert_eq!(decode_one(&[1, 5, 1]).unwrap_err(), DecodeError::Truncated);
}

#[test]
fn decode_one_with_trailing_bytes_fails() {
    // One proof of one byte, then a stray byte.
    assert_eq!(decode_one(&[1, 1, 7, 9]).unwrap_err(), DecodeError::TrailingBytes);
}

#[test]
fn decode_one_of_empty_collection_is_wrong_count() {
    assert_eq!(decode_one(&[0]).unwrap_err(), DecodeError::WrongCount);
}

#[test]
fn decode_one_of_two_proofs_is_wrong_count() {
    assert_eq!(decode_one(&[2, 0, 0]).unwrap_err(), DecodeError::WrongCount);
}

#[test]
fn decode_many_truncated_count_fails() {
    assert_eq!(decode_many(&[253, 1]).unwrap_err(), DecodeError::Truncated);
}

#[test]
fn decode_many_missing_record_fails() {
    // Two proofs announced, only one present.
    assert_eq!(decode_many(&[2, 1, 5]).unwrap_err(), DecodeError::Truncated);
}
