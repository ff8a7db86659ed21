use store_migrations::codec::{
    borsh_u32_from_slice, borsh_u32_to_vec, borsh_u64_from_slice, borsh_u64_to_vec,
    decode_hash_seq, decode_outcome, encode_hash_seq, encode_outcome, json_u32_from_slice,
    json_u32_to_vec, ExecutionOutcomeWithIdAndProof,
};
use store_migrations::StoreError;

#[test]
fn borsh_u64_is_little_endian() {
    assert_eq!(borsh_u64_to_vec(12), vec![12, 0, 0, 0, 0, 0, 0, 0]);
    assert_eq!(borsh_u64_to_vec(0x0102030405060708), vec![8, 7, 6, 5, 4, 3, 2, 1]);
}

#[test]
fn borsh_u64_round_trip() {
    for v in [0u64, 1, 255, 256, u64::MAX] {
        assert_eq!(borsh_u64_from_slice(&borsh_u64_to_vec(v)), Some(v));
    }
    assert_eq!(borsh_u64_from_slice(&[1, 2, 3]), None);
    assert_eq!(borsh_u64_from_slice(&[0; 9]), None);
}

#[test]
fn borsh_u32_round_trip() {
    assert_eq!(borsh_u32_to_vec(0x01020304), vec![4, 3, 2, 1]);
    for v in [0u32, 9, u32::MAX] {
        assert_eq!(borsh_u32_from_slice(&borsh_u32_to_vec(v)), Some(v));
    }
    assert_eq!(borsh_u32_from_slice(&[0; 5]), None);
}

#[test]
fn json_version_is_plain_decimal() {
    assert_eq!(json_u32_to_vec(0), b"0".to_vec());
    assert_eq!(json_u32_to_vec(1234567), b"1234567".to_vec());
    assert_eq!(json_u32_to_vec(u32::MAX), b"4294967295".to_vec());
}

#[test]
fn json_version_round_trip() {
    for v in [0u32, 7, 10, 4294967295] {
        assert_eq!(json_u32_from_slice(&json_u32_to_vec(v)), Some(v));
    }
    assert_eq!(json_u32_from_slice(b"not a number"), None);
}

#[test]
fn outcome_record_round_trip() {
    let o = ExecutionOutcomeWithIdAndProof { id: 77, block_hash: 88 };
    let bytes = encode_outcome(&o);
    assert_eq!(bytes.len(), 16);
    assert_eq!(decode_outcome(&bytes), Ok(o));
    assert_eq!(decode_outcome(&bytes[..15]), Err(StoreError::Decode));
    assert_eq!(decode_outcome(&[]), Err(StoreError::Decode));
}

#[test]
fn hash_seq_round_trip() {
    let txs = vec![1u64, 2, 2, 3];
    let bytes = encode_hash_seq(&txs).unwrap();
    assert_eq!(bytes.len(), 4 + 8 * txs.len());
    assert_eq!(decode_hash_seq(&bytes), Ok(txs));
    let empty = encode_hash_seq(&Vec::new()).unwrap();
    assert_eq!(decode_hash_seq(&empty), Ok(Vec::new()));
}

#[test]
fn hash_seq_rejects_truncation_and_bad_count() {
    let bytes = encode_hash_seq(&vec![1u64, 2]).unwrap();
    assert_eq!(decode_hash_seq(&bytes[..bytes.len() - 1]), Err(StoreError::Decode));
    assert_eq!(decode_hash_seq(&[]), Err(StoreError::Decode));
    // a count that does not match the body length
    let mut wrong = bytes.clone();
    wrong[0] = 3;
    assert_eq!(decode_hash_seq(&wrong), Err(StoreError::Decode));
}
