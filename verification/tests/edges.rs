use nfc_forum_tags::tag::{AccessCondition, TagState};
use nfc_forum_tags::tlv::{encode_tlv_length, parse_tlv_length, TlvError};
use nfc_forum_tags::type2::memory::{ADDRESS_SPACE_END, MAX_SECTOR};
use nfc_forum_tags::type2::scanner::{TlvScanState, TlvScanner};
use nfc_forum_tags::type2::tlv::parse_tlvs;
use nfc_forum_tags::type2::{
    Answer, CapabilityContainer, Command, LockArea, LockControlValue, MemoryControlValue,
    MemoryLayout, ReservedArea, Tlv, Type2Error,
};
use nfc_forum_tags::vec::{DataVec, VecExt};

#[test]
fn every_nibble_goes_both_ways() {
    for nibble in 0u8..16 {
        let access = AccessCondition::from_nibble(nibble);
        assert_eq!(access.to_nibble(), nibble);
    }
    assert_eq!(AccessCondition::from_nibble(0x0), AccessCondition::Granted);
    assert_eq!(AccessCondition::from_nibble(0x7), AccessCondition::Rfu(0x7));
    assert_eq!(AccessCondition::from_nibble(0x8), AccessCondition::Proprietary(0x8));
    assert_eq!(AccessCondition::from_nibble(0xE), AccessCondition::Proprietary(0xE));
    assert_eq!(AccessCondition::from_nibble(0xF), AccessCondition::Denied);
}

#[test]
fn every_length_goes_both_ways() {
    for len in [0u16, 1, 0xFE, 0xFF, 0x100, 0x3FF, 0xFFFE] {
        let mut out = DataVec::new();
        encode_tlv_length(len, &mut out).unwrap();
        let width = if len < 0xFF { 1 } else { 3 };
        assert_eq!(out.len(), width);
        assert_eq!(parse_tlv_length(&out, 0), Ok((len, width)));
        // The same after other bytes.
        let mut shifted = vec![0xAA, 0xBB];
        shifted.extend_from_slice(&out);
        assert_eq!(parse_tlv_length(&shifted, 2), Ok((len, width)));
    }
}

#[test]
fn length_past_the_end() {
    assert_eq!(parse_tlv_length(&[0x01], 1), Err(TlvError::InvalidTlv));
    assert_eq!(parse_tlv_length(&[0x01], usize::MAX), Err(TlvError::InvalidTlv));
}

#[test]
fn long_form_of_a_short_length_is_parsed() {
    assert_eq!(parse_tlv_length(&[0xFF, 0x00, 0x00], 0), Ok((0, 3)));
    assert_eq!(parse_tlv_length(&[0xFF, 0x00, 0x05], 0), Ok((5, 3)));
}

#[test]
fn commands_from_bytes() {
    assert_eq!(Command::try_from(&[][..]), Err(Type2Error::InvalidLength));
    assert_eq!(Command::try_from(&[0x30][..]), Err(Type2Error::InvalidLength));
    assert_eq!(
        Command::try_from(&[0xA2, 4, 1, 2, 3][..]),
        Err(Type2Error::InvalidLength)
    );
    assert_eq!(Command::try_from(&[0xC2][..]), Err(Type2Error::InvalidLength));
    assert_eq!(Command::try_from(&[0xC2, 0x00][..]), Err(Type2Error::InvalidLength));
    assert_eq!(
        Command::try_from(&[0x01, 0x00, 0x00, 0x00][..]),
        Err(Type2Error::UnknownCommand(0x01))
    );
    // What follows the command is not looked at.
    assert_eq!(
        Command::try_from(&[0x30, 7, 0xEE][..]),
        Ok(Command::Read { block_no: 7 })
    );
}

#[test]
fn answers_to_commands() {
    let read = Command::Read { block_no: 4 };
    let write = Command::Write { block_no: 4, data: [1, 2, 3, 4] };
    let select = Command::SectorSelectPart1;
    let sector = Command::SectorSelectPart2 { sector_no: 1 };
    assert_eq!(read.parse_answer(&[0; 15]), Err(Type2Error::InvalidLength));
    let long: Vec<u8> = (0..18).collect();
    let mut first = [0u8; 16];
    first.copy_from_slice(&long[..16]);
    assert_eq!(read.parse_answer(&long), Ok(Answer::Data(first)));
    assert_eq!(write.parse_answer(&[]), Err(Type2Error::InvalidLength));
    assert_eq!(write.parse_answer(&[0xFA]), Ok(Answer::Ack));
    assert_eq!(write.parse_answer(&[0x15]), Ok(Answer::Nack(0x05)));
    assert_eq!(select.parse_answer(&[0x0A]), Ok(Answer::Ack));
    assert_eq!(select.parse_answer(&[]), Err(Type2Error::InvalidLength));
    assert_eq!(sector.parse_answer(&[]), Ok(Answer::PassiveAck));
    assert_eq!(sector.parse_answer(&[0x00]), Ok(Answer::Nack(0x00)));
}

#[test]
fn container_from_slice() {
    let cc = CapabilityContainer::try_from(&[0xE1, 0x10, 0x06, 0x0F, 0x77][..]).unwrap();
    assert_eq!(cc.write_access, AccessCondition::Denied);
    assert_eq!(
        CapabilityContainer::try_from(&[0xE1, 0x10, 0x06][..]),
        Err(Type2Error::InvalidLength)
    );
}

#[test]
fn container_bytes_go_both_ways() {
    for bytes in [
        [0xE1, 0x10, 0x06, 0x00],
        [0xE1, 0x1F, 0xFF, 0x8E],
        [0xE1, 0x00, 0x00, 0xF7],
    ] {
        let cc = CapabilityContainer::try_from(bytes).unwrap();
        assert_eq!(cc.to_bytes(), bytes);
    }
}

#[test]
fn containers_without_a_state() {
    // Read access denied.
    let closed = CapabilityContainer::try_from([0xE1, 0x10, 0x06, 0xF0]).unwrap();
    assert!(!closed.is_valid());
    assert_eq!(closed.tag_state(3), None);
    // Version 0.
    let old = CapabilityContainer::try_from([0xE1, 0x01, 0x06, 0x00]).unwrap();
    assert!(!old.is_valid());
    // An empty message that cannot be written, and a proprietary write access.
    let denied = CapabilityContainer::try_from([0xE1, 0x10, 0x06, 0x0F]).unwrap();
    assert_eq!(denied.tag_state(0), None);
    let own = CapabilityContainer::try_from([0xE1, 0x10, 0x06, 0x08]).unwrap();
    assert_eq!(own.tag_state(3), None);
    assert_eq!(
        CapabilityContainer::try_from([0xE1, 0x11, 0x06, 0x00]).unwrap().tag_state(1),
        Some(TagState::ReadWrite)
    );
}

#[test]
fn size_of_the_data_area() {
    let least = CapabilityContainer::try_from([0xE1, 0x10, 0x00, 0x00]).unwrap();
    assert_eq!(least.data_area_size(), 0);
    let most = CapabilityContainer::try_from([0xE1, 0x10, 0xFF, 0x00]).unwrap();
    assert_eq!(most.data_area_size(), 2040);
    let dynamic = CapabilityContainer::try_from([0xE1, 0x10, 0x07, 0x00]).unwrap();
    assert!(dynamic.is_dynamic());
}

#[test]
fn control_value_with_zero_sizes() {
    // A size of zero stands for 256.
    let lock = LockControlValue::from_bytes([0x10, 0x00, 0x33]).unwrap();
    assert_eq!(lock.size_in_bits, 256);
    assert_eq!(lock.lock_byte_count(), 32);
    assert_eq!(lock.bytes_per_lock_bit(), 8);
    assert_eq!(lock.to_bytes(), [0x10, 0x00, 0x33]);
    let reserved = MemoryControlValue::from_bytes([0x1F, 0x00, 0x03]).unwrap();
    assert_eq!(reserved.size_in_bytes, 256);
    assert_eq!(reserved.byte_address(), 23);
    assert_eq!(reserved.to_bytes(), [0x1F, 0x00, 0x03]);
}

#[test]
fn control_block_of_wrong_length() {
    assert!(matches!(
        parse_tlvs(&[0x01, 0x02, 0xE0, 0x06, 0xFE]),
        Err(Type2Error::InvalidTlv)
    ));
    assert!(matches!(
        parse_tlvs(&[0x02, 0x04, 0xE1, 0x0F, 0x03, 0x00, 0xFE]),
        Err(Type2Error::InvalidTlv)
    ));
}

#[test]
fn blocks_cut_short() {
    assert!(matches!(parse_tlvs(&[0x03]), Err(Type2Error::InvalidTlv)));
    assert!(matches!(parse_tlvs(&[0x03, 0x02, 0xAA]), Err(Type2Error::InvalidTlv)));
    assert!(matches!(parse_tlvs(&[0x55, 0x05]), Err(Type2Error::InvalidTlv)));
    assert_eq!(parse_tlvs(&[]).unwrap().len(), 0);
    // Nothing after the terminator is looked at.
    assert_eq!(parse_tlvs(&[0xFE, 0x03, 0xFF]).unwrap().len(), 1);
    // A terminator is the last block.
    let blocks = parse_tlvs(&[0x00, 0x55, 0x01, 0xAA, 0xFE, 0xFE, 0x00]).unwrap();
    assert_eq!(blocks.len(), 2);
    assert_eq!(blocks[1], Tlv::Terminator);
    // A block that does not end comes to light behind whole ones.
    assert!(matches!(
        parse_tlvs(&[0x00, 0x03, 0x01, 0x42, 0xFD, 0x02, 0x01]),
        Err(Type2Error::InvalidTlv)
    ));
}

#[test]
fn serialized_blocks_are_parsed_back() {
    let mut value = DataVec::new();
    for i in 0..300u16 {
        value.try_push(i as u8).unwrap();
    }
    let mut short = DataVec::new();
    short.try_extend(&[1, 2, 3]).unwrap();
    for tlv in [
        Tlv::Null,
        Tlv::LockControl(LockControlValue::from_bytes([0xE0, 0x06, 0x33]).unwrap()),
        Tlv::MemoryControl(MemoryControlValue::from_bytes([0xE1, 0x0F, 0x03]).unwrap()),
        Tlv::NdefMessage(value),
        Tlv::Proprietary(short),
        Tlv::Terminator,
    ] {
        let bytes = tlv.to_bytes().unwrap();
        let parsed = parse_tlvs(&bytes).unwrap();
        assert_eq!(parsed.len(), 1);
        assert_eq!(parsed[0], tlv);
    }
    assert_eq!(
        &*Tlv::LockControl(LockControlValue::from_bytes([0xE0, 0x06, 0x33]).unwrap())
            .to_bytes()
            .unwrap(),
        &[0x01, 0x03, 0xE0, 0x06, 0x33]
    );
    assert_eq!(Tlv::Null.value_length(), Ok(0));
    assert_eq!(Tlv::Terminator.ndef_data(), None);
}

#[test]
fn areas_and_their_ends() {
    let lock = LockArea { byte_address: 112, size_in_bits: 9, bytes_per_lock_bit: 8 };
    assert_eq!(lock.lock_byte_count(), 2);
    assert_eq!(lock.end_address(), 114);
    assert!(!lock.contains(111));
    assert!(lock.contains(112));
    assert!(lock.contains(113));
    assert!(!lock.contains(114));
    // Where the end cannot be computed, addresses before the area are still not in it.
    let endless = LockArea { byte_address: u32::MAX, size_in_bits: 16, bytes_per_lock_bit: 8 };
    assert!(!endless.contains(u32::MAX - 1));
    let open = ReservedArea { byte_address: u32::MAX, size: 2 };
    assert!(!open.contains(0));
    let empty = LockArea { byte_address: 112, size_in_bits: 0, bytes_per_lock_bit: 8 };
    assert!(!empty.contains(112));
    let reserved = ReservedArea { byte_address: 200_000, size: 3 };
    assert_eq!(reserved.end_address(), 200_003);
    assert!(reserved.contains(200_002));
    assert!(!reserved.contains(200_003));
}

#[test]
fn number_of_sectors() {
    let small = CapabilityContainer::try_from([0xE1, 0x10, 0x06, 0x00]).unwrap();
    assert_eq!(MemoryLayout::from_cc_and_tlvs(&small, &[]).sector_count(), 1);
    // 1008 bytes of data and 16 before them fill a sector, and the lock bytes need another one.
    let full = CapabilityContainer::try_from([0xE1, 0x10, 0x7E, 0x00]).unwrap();
    assert_eq!(MemoryLayout::from_cc_and_tlvs(&full, &[]).sector_count(), 2);
    // 2040 + 16 + 32 bytes.
    let most = CapabilityContainer::try_from([0xE1, 0x10, 0xFF, 0x00]).unwrap();
    assert_eq!(MemoryLayout::from_cc_and_tlvs(&most, &[]).sector_count(), 3);
}

#[test]
fn positions_and_addresses() {
    for (sector, block, offset) in [(0u8, 0u8, 0u8), (0, 255, 3), (1, 0, 0), (63, 255, 3)] {
        let addr = MemoryLayout::sector_block_to_address(sector, block, offset);
        assert_eq!(
            MemoryLayout::address_to_sector_block(addr),
            (sector, block, offset)
        );
        assert_eq!(MemoryLayout::locate(addr as u32), Some((sector, block, offset)));
    }
    assert_eq!(MemoryLayout::locate(ADDRESS_SPACE_END - 1), Some((MAX_SECTOR, 255, 3)));
    assert_eq!(MemoryLayout::locate(ADDRESS_SPACE_END), None);
    assert_eq!(MemoryLayout::locate(u32::MAX), None);
}

#[test]
fn usable_bytes_step_over_areas() {
    let cc = CapabilityContainer::try_from([0xE1, 0x10, 0x0C, 0x00]).unwrap();
    // One lock byte at 28, four reserved bytes from 32 on.
    let lock = LockControlValue::from_bytes([0x70, 0x08, 0x32]).unwrap();
    let reserved = MemoryControlValue::from_bytes([0x80, 0x04, 0x02]).unwrap();
    let tlvs = [Tlv::LockControl(lock), Tlv::MemoryControl(reserved)];
    let layout = MemoryLayout::from_cc_and_tlvs(&cc, &tlvs);
    assert_eq!(layout.usable_offset_to_address(0), Some(16));
    assert_eq!(layout.usable_offset_to_address(11), Some(27));
    assert_eq!(layout.usable_offset_to_address(12), Some(29));
    assert_eq!(layout.usable_offset_to_address(14), Some(31));
    assert_eq!(layout.usable_offset_to_address(15), Some(36));
    assert_eq!(layout.usable_offset_to_address(95), Some(116));
    let mut last = 15;
    for offset in 0..200 {
        let addr = layout.usable_offset_to_address(offset).unwrap();
        assert!(addr > last);
        assert!(!layout.is_skip_area(addr));
        last = addr;
    }
}

#[test]
fn scanner_sees_the_terminator_at_a_tag_only() {
    let mut scanner = TlvScanner::new();
    // The value holds 0xFE, and so does the length of an unknown block.
    let mut bytes = vec![0x00, 0x03, 0x02, 0xFE, 0xFE, 0x55, 0xFE];
    bytes.extend_from_slice(&[0xFE; 254]);
    bytes.extend_from_slice(&[0xFD, 0xFF, 0x00, 0x01, 0xFE, 0x03, 0x00, 0xFD, 0xFF, 0x00, 0x00]);
    for byte in bytes {
        assert!(!scanner.feed(byte));
    }
    assert_eq!(scanner.state, TlvScanState::Tag);
    assert!(scanner.feed(0xFE));
}

#[test]
fn scanner_counts_down_values() {
    let mut scanner = TlvScanner::new();
    assert!(!scanner.feed(0x03));
    assert_eq!(scanner.state, TlvScanState::Length);
    assert!(!scanner.feed(0xFF));
    assert_eq!(scanner.state, TlvScanState::LengthExtMsb);
    assert!(!scanner.feed(0x01));
    assert_eq!(scanner.state, TlvScanState::LengthExtLsb(0x01));
    assert!(!scanner.feed(0x02));
    assert_eq!(scanner.state, TlvScanState::Value(0x0102));
    assert!(!scanner.feed(0xFE));
    assert_eq!(scanner.state, TlvScanState::Value(0x0101));
}

#[test]
fn memory_control_value_keeps_the_low_half_of_its_last_byte() {
    let value = MemoryControlValue::from_bytes([0xE1, 0x0F, 0xA3]).unwrap();
    assert_eq!(value.to_bytes(), [0xE1, 0x0F, 0x03]);
}
