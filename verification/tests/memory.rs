use nfc_forum_tags::type2::{
    CapabilityContainer, LockControlValue, MemoryControlValue, MemoryLayout, Tlv,
};

#[test]
fn static_layout() {
    let cc = CapabilityContainer::try_from([0xE1, 0x10, 0x06, 0x00]).unwrap();
    let layout = MemoryLayout::from_cc_and_tlvs(&cc, &[]);
    assert_eq!(layout.data_area_size, 48);
    assert!(layout.lock_areas.is_empty());
    assert!(layout.reserved_areas.is_empty());
}

#[test]
fn dynamic_layout_with_default_locks() {
    // 96 bytes data area, no TLVs -> default lock area
    let cc = CapabilityContainer::try_from([0xE1, 0x10, 0x0C, 0x00]).unwrap();
    let layout = MemoryLayout::from_cc_and_tlvs(&cc, &[]);
    assert_eq!(layout.data_area_size, 96);
    assert_eq!(layout.lock_areas.len(), 1);

    let lock = &layout.lock_areas[0];
    // Default: after data area = block 4 offset + 96 = 16 + 96 = 112
    assert_eq!(lock.byte_address, 112);
    // (96 - 48) / 8 = 6 lock bits
    assert_eq!(lock.size_in_bits, 6);
}

#[test]
fn dynamic_layout_with_lock_control_tlv() {
    let cc = CapabilityContainer::try_from([0xE1, 0x10, 0x0C, 0x00]).unwrap();
    let lc = LockControlValue {
        page_addr: 0x0E,
        byte_offset: 0x00,
        size_in_bits: 6,
        bytes_per_page: 3,
        bytes_locked_per_bit: 3,
    };
    let tlvs = [Tlv::LockControl(lc)];
    let layout = MemoryLayout::from_cc_and_tlvs(&cc, &tlvs);

    // Lock Control TLV overrides default
    assert_eq!(layout.lock_areas.len(), 1);
    assert_eq!(layout.lock_areas[0].byte_address, 112);
    assert_eq!(layout.lock_areas[0].bytes_per_lock_bit, 8); // 2^3 = 8
}

#[test]
fn address_conversion_roundtrip() {
    let addr = 113u16;
    let (sector, block, offset) = MemoryLayout::address_to_sector_block(addr);
    assert_eq!(sector, 0);
    assert_eq!(block, 28);
    assert_eq!(offset, 1);
    assert_eq!(
        MemoryLayout::sector_block_to_address(sector, block, offset),
        addr
    );
}

#[test]
fn skip_area_detection() {
    let cc = CapabilityContainer::try_from([0xE1, 0x10, 0x0C, 0x00]).unwrap();
    let lc = LockControlValue {
        page_addr: 0x0E,
        byte_offset: 0x00,
        size_in_bits: 6,
        bytes_per_page: 3,
        bytes_locked_per_bit: 3,
    };
    let mc = MemoryControlValue {
        page_addr: 0x0E,
        byte_offset: 0x01,
        size_in_bytes: 15,
        bytes_per_page: 3,
    };
    let tlvs = [Tlv::LockControl(lc), Tlv::MemoryControl(mc)];
    let layout = MemoryLayout::from_cc_and_tlvs(&cc, &tlvs);

    // Lock area at 112, 1 byte
    assert!(layout.is_skip_area(112));
    // Reserved area starts at 113, length 15 -> 113..128
    assert!(layout.is_skip_area(113));
    assert!(layout.is_skip_area(127));
    assert!(!layout.is_skip_area(128));
    // Data area byte should not be skip
    assert!(!layout.is_skip_area(16));
}
