use std::collections::BTreeMap;

use tokenitis::codec::{decode, encode};
use tokenitis::state::bytes_lt;
use tokenitis::{Address, Token, Transform, TransformError, TransformMetadata};

fn addr(b: u8) -> Address {
    Address { bytes: vec![b; 32] }
}

fn record(initialized: bool, name: &[u8], inputs: Vec<Token>, outputs: Vec<Token>) -> Transform {
    Transform {
        initialized,
        metadata: TransformMetadata { name: name.to_vec() },
        inputs,
        outputs,
    }
}

#[test]
fn round_trip_basic() {
    let t = record(
        false,
        b"widget",
        vec![Token { address: addr(10), amount: 10 }],
        vec![Token { address: addr(11), amount: 10 }],
    );
    let bytes = encode(&t);
    let back = decode(&bytes).unwrap();
    assert_eq!(back, t);
}

#[test]
fn round_trip_empty_mappings() {
    let t = record(true, b"", vec![], vec![]);
    let bytes = encode(&t);
    assert_eq!(bytes, vec![1, 0, 0, 0, 0, 0, 0, 0, 0, 0, 0, 0, 0]);
    let back = decode(&bytes).unwrap();
    assert_eq!(back, t);
}

#[test]
fn round_trip_many_entries() {
    let inputs: Vec<Token> = (0..5u8).map(|i| Token { address: addr(i), amount: i as u64 * 7 }).collect();
    let outputs: Vec<Token> =
        (10..13u8).map(|i| Token { address: addr(i), amount: 1 << (i as u64) }).collect();
    let t = record(false, b"many", inputs, outputs);
    let back = decode(&encode(&t)).unwrap();
    assert_eq!(back, t);
}

#[test]
fn encode_exact_bytes() {
    let t = record(true, b"ab", vec![Token { address: addr(9), amount: 258 }], vec![]);
    let mut expected: Vec<u8> = Vec::new();
    expected.push(1);
    expected.extend_from_slice(&[2, 0, 0, 0]);
    expected.extend_from_slice(b"ab");
    expected.extend_from_slice(&[1, 0, 0, 0]);
    expected.extend_from_slice(&[9; 32]);
    expected.extend_from_slice(&[2, 1, 0, 0, 0, 0, 0, 0]);
    expected.extend_from_slice(&[0, 0, 0, 0]);
    assert_eq!(encode(&t), expected);
}

#[test]
fn encode_matches_borsh_layout() {
    let mut inputs = BTreeMap::new();
    inputs.insert([10u8; 32], 10u64);
    inputs.insert([12u8; 32], 99u64);
    let mut outputs = BTreeMap::new();
    outputs.insert([11u8; 32], 7u64);
    let reference = borsh::to_vec(&(false, b"widget".to_vec(), inputs, outputs)).unwrap();

    let t = record(
        false,
        b"widget",
        vec![
            Token { address: addr(10), amount: 10 },
            Token { address: addr(12), amount: 99 },
        ],
        vec![Token { address: addr(11), amount: 7 }],
    );
    assert_eq!(encode(&t), reference);
}

#[test]
fn decode_zeroed_buffer() {
    let stored = vec![0u8; 64];
    let t = decode(&stored).unwrap();
    assert!(!t.initialized);
    assert!(t.metadata.name.is_empty());
    assert!(t.inputs.is_empty());
    assert!(t.outputs.is_empty());
}

#[test]
fn decode_rejects_bad_flag() {
    let mut stored = vec![0u8; 64];
    stored[0] = 2;
    assert_eq!(decode(&stored), Err(TransformError::SerializationError));
}

#[test]
fn decode_rejects_truncated() {
    assert_eq!(decode(&vec![1u8]), Err(TransformError::SerializationError));
    let mut stored = vec![0u8; 8];
    stored[5] = 3;
    assert_eq!(decode(&stored), Err(TransformError::SerializationError));
}

#[test]
fn decode_rejects_unsorted_entries() {
    let mut stored: Vec<u8> = Vec::new();
    stored.push(0);
    stored.extend_from_slice(&[0, 0, 0, 0]);
    stored.extend_from_slice(&[2, 0, 0, 0]);
    stored.extend_from_slice(&[11; 32]);
    stored.extend_from_slice(&[1, 0, 0, 0, 0, 0, 0, 0]);
    stored.extend_from_slice(&[10; 32]);
    stored.extend_from_slice(&[2, 0, 0, 0, 0, 0, 0, 0]);
    stored.extend_from_slice(&[0, 0, 0, 0]);
    assert_eq!(decode(&stored), Err(TransformError::SerializationError));
}

#[test]
fn decode_rejects_duplicate_entries() {
    let mut stored: Vec<u8> = Vec::new();
    stored.push(0);
    stored.extend_from_slice(&[0, 0, 0, 0]);
    stored.extend_from_slice(&[2, 0, 0, 0]);
    stored.extend_from_slice(&[10; 32]);
    stored.extend_from_slice(&[1, 0, 0, 0, 0, 0, 0, 0]);
    stored.extend_from_slice(&[10; 32]);
    stored.extend_from_slice(&[2, 0, 0, 0, 0, 0, 0, 0]);
    stored.extend_from_slice(&[0, 0, 0, 0]);
    assert_eq!(decode(&stored), Err(TransformError::SerializationError));
}

#[test]
fn decode_ignores_trailing_bytes() {
    let t = record(false, b"tail", vec![Token { address: addr(1), amount: 5 }], vec![]);
    let mut bytes = encode(&t);
    bytes.extend_from_slice(&[0u8; 40]);
    assert_eq!(decode(&bytes).unwrap(), t);
}

#[test]
fn lex_order_on_addresses() {
    assert!(bytes_lt(&vec![1, 2], &vec![1, 3]));
    assert!(bytes_lt(&vec![1, 2], &vec![1, 2, 0]));
    assert!(!bytes_lt(&vec![1, 2], &vec![1, 2]));
    assert!(!bytes_lt(&vec![2], &vec![1, 9, 9]));
    assert!(bytes_lt(&vec![], &vec![0]));
    assert!(!bytes_lt(&vec![], &vec![]));
}
