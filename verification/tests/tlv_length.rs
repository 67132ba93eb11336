use nfc_forum_tags::tlv::{encode_tlv_length, parse_tlv_length, TlvError};
use nfc_forum_tags::vec::DataVec;

#[test]
fn parse_one_byte_length() {
    let data = [0x03];
    let (len, consumed) = parse_tlv_length(&data, 0).unwrap();
    assert_eq!(len, 3);
    assert_eq!(consumed, 1);
}

#[test]
fn parse_zero_length() {
    let data = [0x00];
    let (len, consumed) = parse_tlv_length(&data, 0).unwrap();
    assert_eq!(len, 0);
    assert_eq!(consumed, 1);
}

#[test]
fn parse_max_one_byte_length() {
    let data = [0xFE];
    let (len, consumed) = parse_tlv_length(&data, 0).unwrap();
    assert_eq!(len, 254);
    assert_eq!(consumed, 1);
}

#[test]
fn parse_three_byte_length() {
    let data = [0xFF, 0x01, 0x00];
    let (len, consumed) = parse_tlv_length(&data, 0).unwrap();
    assert_eq!(len, 256);
    assert_eq!(consumed, 3);
}

#[test]
fn parse_three_byte_length_min() {
    let data = [0xFF, 0x00, 0xFF];
    let (len, consumed) = parse_tlv_length(&data, 0).unwrap();
    assert_eq!(len, 255);
    assert_eq!(consumed, 3);
}

#[test]
fn parse_with_offset() {
    let data = [0xAA, 0xBB, 0x42];
    let (len, consumed) = parse_tlv_length(&data, 2).unwrap();
    assert_eq!(len, 0x42);
    assert_eq!(consumed, 1);
}

#[test]
fn parse_truncated_three_byte() {
    let data = [0xFF, 0x01];
    assert_eq!(parse_tlv_length(&data, 0), Err(TlvError::InvalidTlv));
}

#[test]
fn parse_empty() {
    let data: [u8; 0] = [];
    assert_eq!(parse_tlv_length(&data, 0), Err(TlvError::InvalidTlv));
}

#[test]
fn encode_short_length() {
    let mut out = DataVec::new();
    encode_tlv_length(42, &mut out).unwrap();
    assert_eq!(&*out, &[42]);
}

#[test]
fn encode_long_length() {
    let mut out = DataVec::new();
    encode_tlv_length(256, &mut out).unwrap();
    assert_eq!(&*out, &[0xFF, 0x01, 0x00]);
}

#[test]
fn encode_boundary_254() {
    let mut out = DataVec::new();
    encode_tlv_length(254, &mut out).unwrap();
    assert_eq!(&*out, &[0xFE]);
}

#[test]
fn encode_boundary_255() {
    let mut out = DataVec::new();
    encode_tlv_length(255, &mut out).unwrap();
    assert_eq!(&*out, &[0xFF, 0x00, 0xFF]);
}
