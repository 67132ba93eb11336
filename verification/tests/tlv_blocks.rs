use nfc_forum_tags::tlv::MAX_TLV_LENGTH;
use nfc_forum_tags::type2::memory::ADDRESS_SPACE_END;
use nfc_forum_tags::type2::tlv::{parse_tlvs, TLV_NDEF_MESSAGE};
use nfc_forum_tags::type2::{LockControlValue, MemoryControlValue, Tlv, Type2Error};
use nfc_forum_tags::vec::{DataVec, VecExt};

#[test]
fn parse_static_tag_tlvs() {
    // From spec Appendix B.1: NDEF Message TLV (empty) + Terminator
    let data = [0x03, 0x00, 0xFE];
    let tlvs = parse_tlvs(&data).unwrap();
    assert_eq!(tlvs.len(), 2);
    assert_eq!(tlvs[0], Tlv::NdefMessage(DataVec::new()));
    assert_eq!(tlvs[1], Tlv::Terminator);
}

#[test]
fn parse_static_tag_with_ndef() {
    // NDEF Message TLV with empty NDEF message D00000h + Terminator
    let data = [0x03, 0x03, 0xD0, 0x00, 0x00, 0xFE];
    let tlvs = parse_tlvs(&data).unwrap();
    assert_eq!(tlvs.len(), 2);
    let expected_ndef = {
        let mut v = DataVec::new();
        let _ = v.try_extend(&[0xD0, 0x00, 0x00]);
        v
    };
    assert_eq!(tlvs[0], Tlv::NdefMessage(expected_ndef));
    assert_eq!(tlvs[1], Tlv::Terminator);
}

#[test]
fn parse_dynamic_tag_tlvs() {
    // From spec Appendix B.2 / C.7:
    // Lock Control TLV + Memory Control TLV + NDEF Message TLV (empty)
    let data = [
        0x01, 0x03, 0xE0, 0x06, 0x33, // Lock Control TLV
        0x02, 0x03, 0xE1, 0x0F, 0x03, // Memory Control TLV
        0x03, 0x00,                     // NDEF Message TLV (empty)
        0xFE,                           // Terminator
    ];
    let tlvs = parse_tlvs(&data).unwrap();
    assert_eq!(tlvs.len(), 4);

    // Lock Control TLV
    if let Tlv::LockControl(lc) = &tlvs[0] {
        assert_eq!(lc.page_addr, 0x0E);
        assert_eq!(lc.byte_offset, 0x00);
        assert_eq!(lc.size_in_bits, 6);
        assert_eq!(lc.bytes_per_page, 3);
        assert_eq!(lc.bytes_locked_per_bit, 3);
        // ByteAddr = 14 * 2^3 + 0 = 112
        assert_eq!(lc.byte_address(), 112);
    } else {
        panic!("Expected LockControl TLV");
    }

    // Memory Control TLV
    if let Tlv::MemoryControl(mc) = &tlvs[1] {
        assert_eq!(mc.page_addr, 0x0E);
        assert_eq!(mc.byte_offset, 0x01);
        assert_eq!(mc.size_in_bytes, 15);
        assert_eq!(mc.bytes_per_page, 3);
        // ByteAddr = 14 * 2^3 + 1 = 113
        assert_eq!(mc.byte_address(), 113);
    } else {
        panic!("Expected MemoryControl TLV");
    }

    assert_eq!(tlvs[2], Tlv::NdefMessage(DataVec::new()));
    assert_eq!(tlvs[3], Tlv::Terminator);
}

#[test]
fn null_tlv_padding() {
    let data = [0x00, 0x00, 0x03, 0x00, 0xFE];
    let tlvs = parse_tlvs(&data).unwrap();
    assert_eq!(tlvs.len(), 4);
    assert_eq!(tlvs[0], Tlv::Null);
    assert_eq!(tlvs[1], Tlv::Null);
    assert_eq!(tlvs[2], Tlv::NdefMessage(DataVec::new()));
    assert_eq!(tlvs[3], Tlv::Terminator);
}

#[test]
fn skip_unknown_tlv() {
    // Unknown tag 0x04 with 2 bytes of data, then terminator
    let data = [0x04, 0x02, 0xAA, 0xBB, 0xFE];
    let tlvs = parse_tlvs(&data).unwrap();
    assert_eq!(tlvs.len(), 1);
    assert_eq!(tlvs[0], Tlv::Terminator);
}

#[test]
fn three_byte_length_format() {
    // NDEF Message TLV with 3-byte length (0xFF, 0x01, 0x00 = 256 bytes)
    let mut data = [0u8; 4 + 256 + 1];
    data[0] = 0x03;
    data[1] = 0xFF;
    data[2] = 0x01;
    data[3] = 0x00;
    data[4..260].fill(0xAA);
    data[260] = 0xFE;

    let tlvs = parse_tlvs(&data).unwrap();
    assert_eq!(tlvs.len(), 2);
    assert_eq!(tlvs[0].value_length(), Ok(256));
    assert_eq!(tlvs[1], Tlv::Terminator);
}

#[test]
fn roundtrip_lock_control_value() {
    let lc = LockControlValue {
        page_addr: 0x0E,
        byte_offset: 0x00,
        size_in_bits: 6,
        bytes_per_page: 3,
        bytes_locked_per_bit: 3,
    };
    let bytes = lc.to_bytes();
    assert_eq!(bytes, [0xE0, 0x06, 0x33]);
    let parsed = LockControlValue::from_bytes(bytes).unwrap();
    assert_eq!(parsed, lc);
}

#[test]
fn roundtrip_memory_control_value() {
    let mc = MemoryControlValue {
        page_addr: 0x0E,
        byte_offset: 0x01,
        size_in_bytes: 15,
        bytes_per_page: 3,
    };
    let bytes = mc.to_bytes();
    assert_eq!(bytes, [0xE1, 0x0F, 0x03]);
    let parsed = MemoryControlValue::from_bytes(bytes).unwrap();
    assert_eq!(parsed, mc);
}

#[test]
fn roundtrip_ndef_tlv() {
    let mut ndef_data = DataVec::new();
    let _ = ndef_data.try_extend(&[0xD0, 0x00, 0x00]);
    let tlv = Tlv::NdefMessage(ndef_data);
    let bytes = tlv.to_bytes().unwrap();
    assert_eq!(&*bytes, &[0x03, 0x03, 0xD0, 0x00, 0x00]);

    let parsed = parse_tlvs(&bytes).unwrap();
    assert_eq!(parsed.len(), 1);
    assert_eq!(parsed[0], tlv);
}

// Control TLVs and the address space

/// This Lock Control TLV describes byte 491,520 (page 15 at a 2^15 page
/// size), well past the last addressable sector. It must be rejected as
/// InvalidTlv.
#[test]
fn demonstrated_lock_control_tlv_is_rejected() {
    assert_eq!(
        LockControlValue::from_bytes([0xF0, 0x08, 0x1F]),
        Err(Type2Error::InvalidTlv)
    );
    // And through the full TLV stream, as a tag would present it.
    let data = [0x01, 0x03, 0xF0, 0x08, 0x1F, 0xFE];
    assert_eq!(parse_tlvs(&data), Err(Type2Error::InvalidTlv));
}

/// Descriptors whose range fits the address space are still accepted, so
/// the validation does not reject legitimate tags.
#[test]
fn in_range_control_tlvs_still_accepted() {
    // 7 * 2^15 = 229,376 - large but inside the addressable space.
    let lc = LockControlValue::from_bytes([0x70, 0x08, 0x3F]).unwrap();
    assert_eq!(lc.byte_address(), 229_376);
    // A typical small descriptor.
    let lc = LockControlValue::from_bytes([0xE0, 0x06, 0x33]).unwrap();
    assert_eq!(lc.byte_address(), 112);
    let mc = MemoryControlValue::from_bytes([0xE1, 0x0F, 0x03]).unwrap();
    assert_eq!(mc.byte_address(), 113);
}

/// Every combination of both exponent nibbles, across page addresses and
/// byte offsets, must parse or fail cleanly - never panic, and never yield
/// a descriptor reaching outside the address space.
#[test]
fn all_exponent_combinations_are_safe() {
    for page_addr in 0u8..16 {
        for byte_offset in 0u8..16 {
            let b0 = (page_addr << 4) | byte_offset;
            for size in [0x00u8, 0x01, 0x08, 0x80, 0xFF] {
                for bytes_per_page in 0u8..16 {
                    for locked_per_bit in 0u8..16 {
                        let b2 = (locked_per_bit << 4) | bytes_per_page;
                        if let Ok(lc) = LockControlValue::from_bytes([b0, size, b2]) {
                            let end = lc.byte_address() + lc.lock_byte_count() as u32;
                            assert!(end <= ADDRESS_SPACE_END, "lock area escapes space");
                        }
                        if let Ok(mc) = MemoryControlValue::from_bytes([b0, size, b2]) {
                            let end = mc.byte_address() + mc.size_in_bytes as u32;
                            assert!(end <= ADDRESS_SPACE_END, "reserved area escapes space");
                        }
                    }
                }
            }
        }
    }
}

// Serialization of oversized values

/// Build a `DataVec` of `n` bytes, or `None` if the buffer cannot hold it.
fn value_of(n: usize) -> Option<DataVec> {
    let mut v = DataVec::new();
    for _ in 0..n {
        v.try_push(0xAB).ok()?;
    }
    Some(v)
}

/// A value longer than the TLV length field can represent must be rejected
/// with a stable error and emit no partial output - never a zero length
/// followed by the full payload.
#[test]
fn serializer_rejects_oversized_values() {
    // 0xFFFE is the largest representable length; 0xFFFF is reserved and
    // 0x10000 overflows the field entirely.
    for len in [0xFFFFusize, 0x10000, 0x20000] {
        let Some(data) = value_of(len) else {
            continue; // the buffer is too small to construct the case
        };
        for tlv in [
            Tlv::NdefMessage(data.clone()),
            Tlv::Proprietary(data.clone()),
        ] {
            assert_eq!(
                tlv.value_length(),
                Err(Type2Error::OutOfRange),
                "len {len} must not report a truncated length"
            );
            assert!(
                matches!(tlv.to_bytes(), Err(Type2Error::OutOfRange)),
                "len {len} must not serialize"
            );
        }
    }
}

/// The exact maximum representable value still serializes correctly, with
/// the 3-byte length format and the full payload.
#[test]
fn serializer_accepts_max_representable_value() {
    let Some(data) = value_of(MAX_TLV_LENGTH as usize) else {
        return; // the buffer is too small to construct the case
    };
    let tlv = Tlv::NdefMessage(data);
    assert_eq!(tlv.value_length(), Ok(MAX_TLV_LENGTH));
    let bytes = tlv.to_bytes().unwrap();
    assert_eq!(&bytes[..4], &[TLV_NDEF_MESSAGE, 0xFF, 0xFF, 0xFE]);
    assert_eq!(bytes.len(), 4 + MAX_TLV_LENGTH as usize);
}
