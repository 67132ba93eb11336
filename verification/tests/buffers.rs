use nfc_forum_tags::tlv::{encode_tlv_length, TlvError};
use nfc_forum_tags::type2::tlv::parse_tlvs;
use nfc_forum_tags::type2::{
    CapabilityContainer, LockControlValue, MemoryControlValue, MemoryLayout, Tlv, Type2Error,
};
use nfc_forum_tags::vec::{BufferFullError, DataVec, FrameVec, VecExt};

fn data_of(n: usize, byte: u8) -> DataVec {
    let mut v = DataVec::new();
    for _ in 0..n {
        v.try_push(byte).unwrap();
    }
    v
}

#[test]
fn frame_buffer_takes_twenty_bytes() {
    let mut v = FrameVec::new();
    v.try_extend(&[1, 2, 3]).unwrap();
    v.try_push(4).unwrap();
    assert_eq!(&*v, &[1, 2, 3, 4]);
    v.try_extend(&[9; 16]).unwrap();
    assert_eq!(v.len(), 20);
    assert_eq!(v.try_push(5), Err(BufferFullError));
    assert_eq!(v.try_extend(&[5]), Err(BufferFullError));
    assert_eq!(v.len(), 20);
    assert_eq!(v[3], 4);
}

#[test]
fn slice_that_does_not_fit_changes_nothing() {
    let mut v = FrameVec::new();
    v.try_push(7).unwrap();
    assert_eq!(v.try_extend(&[1; 20]), Err(BufferFullError));
    assert_eq!(&*v, &[7]);
    v.try_extend(&[]).unwrap();
    assert_eq!(&*v, &[7]);
}

#[test]
fn data_buffer_takes_1024_bytes() {
    let mut v = data_of(1023, 0x11);
    v.try_push(0x22).unwrap();
    assert_eq!(v.len(), 1024);
    assert_eq!(v[1023], 0x22);
    assert_eq!(v.try_push(0x33), Err(BufferFullError));
    assert_eq!(v.try_extend(&[0x33]), Err(BufferFullError));
    assert_eq!(v.len(), 1024);
}

#[test]
fn short_length_into_full_buffer() {
    let mut out = data_of(1024, 0);
    assert_eq!(encode_tlv_length(5, &mut out), Err(TlvError::BufferFull));
    assert_eq!(out.len(), 1024);
}

#[test]
fn long_length_into_nearly_full_buffer() {
    let mut out = data_of(1022, 0);
    assert_eq!(encode_tlv_length(0x1234, &mut out), Err(TlvError::BufferFull));
    // The prefix has been written.
    assert_eq!(out.len(), 1023);
    assert_eq!(out[1022], 0xFF);

    let mut fits = data_of(1021, 0);
    encode_tlv_length(0x1234, &mut fits).unwrap();
    assert_eq!(&fits[1021..], &[0xFF, 0x12, 0x34]);
}

#[test]
fn buffer_errors_become_protocol_errors() {
    assert_eq!(Type2Error::from(BufferFullError), Type2Error::BufferFull);
    assert_eq!(TlvError::from(BufferFullError), TlvError::BufferFull);
}

#[test]
fn block_that_exceeds_the_buffer_is_not_serialized() {
    // 1020 bytes, a tag and a 3-byte length field fill the buffer.
    let fits = Tlv::NdefMessage(data_of(1020, 0xAB));
    assert_eq!(fits.to_bytes().unwrap().len(), 1024);
    let over = Tlv::Proprietary(data_of(1021, 0xAB));
    assert_eq!(over.value_length(), Ok(1021));
    assert!(matches!(over.to_bytes(), Err(Type2Error::BufferFull)));
}

#[test]
fn fifth_block_does_not_fit() {
    let four = [0x00, 0x00, 0x00, 0xFE];
    assert_eq!(parse_tlvs(&four).unwrap().len(), 4);
    let five = [0x00, 0x00, 0x00, 0x00, 0xFE];
    assert!(matches!(parse_tlvs(&five), Err(Type2Error::BufferFull)));
}

#[test]
fn value_longer_than_a_buffer_is_not_parsed() {
    let mut data = vec![0xFD, 0xFF, 0x04, 0x01];
    data.extend_from_slice(&[0u8; 1025]);
    assert!(matches!(parse_tlvs(&data), Err(Type2Error::BufferFull)));
    // An unknown block of that length is passed over.
    data[0] = 0x55;
    data.push(0xFE);
    assert_eq!(parse_tlvs(&data).unwrap().len(), 1);
}

#[test]
fn clones_hold_the_same() {
    let tlv = Tlv::NdefMessage(data_of(3, 0x42));
    assert_eq!(tlv.clone(), tlv);
    assert_eq!(tlv.clone().ndef_data(), Some(&[0x42u8, 0x42, 0x42][..]));

    let cc = CapabilityContainer::try_from([0xE1, 0x10, 0x0C, 0x00]).unwrap();
    let tlvs = [
        Tlv::LockControl(LockControlValue::from_bytes([0xE0, 0x06, 0x33]).unwrap()),
        Tlv::MemoryControl(MemoryControlValue::from_bytes([0xE1, 0x0F, 0x03]).unwrap()),
    ];
    let layout = MemoryLayout::from_cc_and_tlvs(&cc, &tlvs);
    let copy = layout.clone();
    assert_eq!(copy.data_area_size, 96);
    assert_eq!(copy.lock_areas, layout.lock_areas);
    assert_eq!(copy.reserved_areas, layout.reserved_areas);
    assert_eq!(copy.lock_areas.len(), 1);
    assert_eq!(copy.reserved_areas.len(), 1);
}

#[test]
fn ninth_area_is_left_out() {
    let cc = CapabilityContainer::try_from([0xE1, 0x10, 0x0C, 0x00]).unwrap();
    let mut tlvs = Vec::new();
    for i in 0..9u8 {
        let lock = LockControlValue::from_bytes([0x10 * i, 0x08, 0x33]).unwrap();
        let reserved = MemoryControlValue::from_bytes([0x10 * i + 4, 0x01, 0x03]).unwrap();
        tlvs.push(Tlv::LockControl(lock));
        tlvs.push(Tlv::MemoryControl(reserved));
    }
    let layout = MemoryLayout::from_cc_and_tlvs(&cc, &tlvs);
    assert_eq!(layout.lock_areas.len(), 8);
    assert_eq!(layout.reserved_areas.len(), 8);
    assert_eq!(layout.lock_areas[7].byte_address, 56);
    assert_eq!(layout.reserved_areas[7].byte_address, 60);
    assert!(layout.is_skip_area(56));
    assert!(layout.is_skip_area(60));
    assert!(!layout.is_skip_area(64));
    assert!(!layout.is_skip_area(68));
}
