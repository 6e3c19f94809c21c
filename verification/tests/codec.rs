use raop_discovery::rr::{encode_rr, parse_name, parse_rr, DecodeError};

fn labels(parts: &[&[u8]]) -> Vec<Vec<u8>> {
    parts.iter().map(|p| p.to_vec()).collect()
}

#[test]
fn round_trip_record() {
    let name = labels(&[b"myhost", b"_raop", b"_tcp", b"local"]);
    let payload: Vec<u8> = vec![1, 2, 3, 250, 0, 7];
    let encoded = encode_rr(&name, 12, 1, 120, &payload);
    let (consumed, rr) = parse_rr(&encoded).expect("round trip must decode");
    assert_eq!(consumed, encoded.len());
    assert_eq!(rr.name, b"myhost._raop._tcp.local".to_vec());
    assert_eq!(rr.rtype, 12);
    assert_eq!(rr.class, 1);
    assert_eq!(rr.ttl, 120);
    assert_eq!(rr.payload, payload);
}

#[test]
fn round_trip_single_label_empty_payload() {
    let name = labels(&[b"x"]);
    let payload: Vec<u8> = Vec::new();
    let encoded = encode_rr(&name, 16, 1, 0, &payload);
    let (consumed, rr) = parse_rr(&encoded).expect("round trip must decode");
    assert_eq!(consumed, encoded.len());
    assert_eq!(rr.name, b"x".to_vec());
    assert_eq!(rr.rtype, 16);
    assert_eq!(rr.class, 1);
    assert_eq!(rr.ttl, 0);
    assert!(rr.payload.is_empty());
}

#[test]
fn round_trip_extreme_field_values() {
    let name = labels(&[b"a", b"b"]);
    let payload: Vec<u8> = vec![0xFF; 300];
    let encoded = encode_rr(&name, 0xFFFF, 0xFFFF, 0xFFFF_FFFF, &payload);
    let (consumed, rr) = parse_rr(&encoded).expect("round trip must decode");
    assert_eq!(consumed, encoded.len());
    assert_eq!(rr.name, b"a.b".to_vec());
    assert_eq!(rr.rtype, 0xFFFF);
    assert_eq!(rr.class, 0xFFFF);
    assert_eq!(rr.ttl, 0xFFFF_FFFF);
    assert_eq!(rr.payload, payload);
}

#[test]
fn truncated_payload_is_error() {
    // Name "a", type 12, class 1, ttl 0, declared payload length 5,
    // but only 2 payload bytes follow.
    let bytes: Vec<u8> = vec![1, b'a', 0, 0, 12, 0, 1, 0, 0, 0, 0, 0, 5, 9, 9];
    assert_eq!(parse_rr(&bytes), Err(DecodeError::Truncated));
}

#[test]
fn truncated_fixed_fields_are_errors() {
    // The name decodes, but the fixed-width fields are cut short at
    // every possible length.
    let mut bytes: Vec<u8> = vec![1, b'a', 0];
    for extra in 0..10 {
        assert_eq!(
            parse_rr(&bytes),
            Err(DecodeError::Truncated),
            "{extra} fixed bytes must not suffice"
        );
        bytes.push(0);
    }
    // With all ten fixed bytes present (declared payload length 0) the
    // record decodes.
    assert!(parse_rr(&bytes).is_ok());
}

#[test]
fn truncated_label_is_error() {
    // A label declares 5 bytes and only 2 follow.
    let bytes: Vec<u8> = vec![5, b'a', b'b'];
    assert_eq!(parse_name(&bytes), Err(DecodeError::Truncated));
}

#[test]
fn empty_input_is_error() {
    let bytes: Vec<u8> = Vec::new();
    assert_eq!(parse_name(&bytes), Err(DecodeError::Truncated));
    assert_eq!(parse_rr(&bytes), Err(DecodeError::Truncated));
}

#[test]
fn parse_name_joins_labels_with_dots() {
    let bytes: Vec<u8> = vec![2, b'a', b'b', 1, b'c', 0, 9, 9];
    let (consumed, name) = parse_name(&bytes).expect("name must decode");
    assert_eq!(consumed, 6);
    assert_eq!(name, b"ab.c".to_vec());
}

#[test]
fn parse_name_empty_name() {
    // A lone zero label is the empty name.
    let bytes: Vec<u8> = vec![0, 7];
    let (consumed, name) = parse_name(&bytes).expect("empty name must decode");
    assert_eq!(consumed, 1);
    assert!(name.is_empty());
}

#[test]
fn parse_rr_leaves_remainder() {
    let name = labels(&[b"h"]);
    let payload: Vec<u8> = vec![4, 4];
    let mut encoded = encode_rr(&name, 12, 1, 60, &payload);
    let record_len = encoded.len();
    encoded.extend_from_slice(&[0xAA, 0xBB]);
    let (consumed, rr) = parse_rr(&encoded).expect("record must decode");
    assert_eq!(consumed, record_len);
    assert_eq!(rr.payload, payload);
}
