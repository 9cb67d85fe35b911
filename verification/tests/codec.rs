use bonsai::codec::{decode_vector, encode_vector};
use bonsai::error::StoreError;

#[test]
fn encode_little_endian_layout() {
    let v: Vec<u32> = vec![0x0403_0201, 0x0807_0605];
    let bytes = encode_vector(&v);
    assert_eq!(bytes, vec![0x01, 0x02, 0x03, 0x04, 0x05, 0x06, 0x07, 0x08]);
}

#[test]
fn encode_empty_vector() {
    let v: Vec<u32> = Vec::new();
    let bytes = encode_vector(&v);
    assert!(bytes.is_empty());
}

#[test]
fn decode_reads_words_back() {
    let bytes: Vec<u8> = vec![0xff, 0x00, 0x00, 0x00, 0x00, 0x00, 0x00, 0x80];
    let v = decode_vector(&bytes).unwrap();
    assert_eq!(v, vec![0x0000_00ff, 0x8000_0000]);
}

#[test]
fn round_trip_bit_for_bit() {
    let v: Vec<u32> = vec![0, 1, u32::MAX, 0xdead_beef, 42];
    let bytes = encode_vector(&v);
    assert_eq!(bytes.len(), 4 * v.len());
    let back = decode_vector(&bytes).unwrap();
    assert_eq!(back, v);
}

#[test]
fn decode_rejects_ragged_payload() {
    let bytes: Vec<u8> = vec![1, 2, 3, 4, 5];
    assert_eq!(decode_vector(&bytes).unwrap_err(), StoreError::Decode);
}

#[test]
fn decode_error_message_nonempty() {
    assert!(!StoreError::Decode.message().is_empty());
    assert!(!StoreError::NotFound.message().is_empty());
    assert!(!StoreError::Conflict.message().is_empty());
    assert!(!StoreError::DimensionMismatch.message().is_empty());
    assert!(!StoreError::Provider.message().is_empty());
}
