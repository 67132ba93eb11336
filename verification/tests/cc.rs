use nfc_forum_tags::type2::{AccessCondition, CapabilityContainer, TagState, Type2Error};

#[test]
fn parse_static_cc() {
    // Example from spec: static tag, 48 bytes, r/w access
    let cc = CapabilityContainer::try_from([0xE1, 0x10, 0x06, 0x00]).unwrap();
    assert_eq!(cc.version_major, 1);
    assert_eq!(cc.version_minor, 0);
    assert_eq!(cc.size_field, 0x06);
    assert_eq!(cc.data_area_size(), 48);
    assert!(!cc.is_dynamic());
    assert_eq!(cc.read_access, AccessCondition::Granted);
    assert_eq!(cc.write_access, AccessCondition::Granted);
}

#[test]
fn parse_dynamic_cc() {
    // Example from spec: dynamic tag, 96 bytes, r/w access
    let cc = CapabilityContainer::try_from([0xE1, 0x10, 0x0C, 0x00]).unwrap();
    assert_eq!(cc.data_area_size(), 96);
    assert!(cc.is_dynamic());
}

#[test]
fn parse_readonly_cc() {
    let cc = CapabilityContainer::try_from([0xE1, 0x10, 0x06, 0x0F]).unwrap();
    assert_eq!(cc.read_access, AccessCondition::Granted);
    assert_eq!(cc.write_access, AccessCondition::Denied);
}

#[test]
fn reject_bad_magic() {
    let err = CapabilityContainer::try_from([0x00, 0x10, 0x06, 0x00]).unwrap_err();
    assert_eq!(err, Type2Error::InvalidMagic(0x00));
}

#[test]
fn reject_higher_major_version() {
    let err = CapabilityContainer::try_from([0xE1, 0x20, 0x06, 0x00]).unwrap_err();
    assert_eq!(err, Type2Error::UnsupportedVersion { major: 2, minor: 0 });
}

#[test]
fn roundtrip_cc() {
    let cc = CapabilityContainer {
        version_major: 1,
        version_minor: 0,
        size_field: 0x10,
        read_access: AccessCondition::Granted,
        write_access: AccessCondition::Granted,
    };
    let bytes = cc.to_bytes();
    assert_eq!(bytes, [0xE1, 0x10, 0x10, 0x00]);
    let parsed = CapabilityContainer::try_from(bytes).unwrap();
    assert_eq!(parsed, cc);
}

#[test]
fn tag_state_initialized() {
    let cc = CapabilityContainer::try_from([0xE1, 0x10, 0x06, 0x00]).unwrap();
    assert_eq!(cc.tag_state(0), Some(TagState::Initialized));
}

#[test]
fn tag_state_readwrite() {
    let cc = CapabilityContainer::try_from([0xE1, 0x10, 0x06, 0x00]).unwrap();
    assert_eq!(cc.tag_state(3), Some(TagState::ReadWrite));
}

#[test]
fn tag_state_readonly() {
    let cc = CapabilityContainer::try_from([0xE1, 0x10, 0x06, 0x0F]).unwrap();
    assert_eq!(cc.tag_state(3), Some(TagState::ReadOnly));
}
