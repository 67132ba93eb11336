use nfc_forum_tags::type2::{Answer, Command};

#[test]
fn read_command_serialization() {
    let cmd = Command::Read { block_no: 0x03 };
    let bytes = cmd.to_bytes();
    assert_eq!(&*bytes, &[0x30, 0x03]);
}

#[test]
fn write_command_serialization() {
    let cmd = Command::Write {
        block_no: 0x04,
        data: [0x03, 0x00, 0xFE, 0x00],
    };
    let bytes = cmd.to_bytes();
    assert_eq!(&*bytes, &[0xA2, 0x04, 0x03, 0x00, 0xFE, 0x00]);
}

#[test]
fn sector_select_p1_serialization() {
    let cmd = Command::SectorSelectPart1;
    let bytes = cmd.to_bytes();
    assert_eq!(&*bytes, &[0xC2, 0xFF]);
}

#[test]
fn sector_select_p2_serialization() {
    let cmd = Command::SectorSelectPart2 { sector_no: 0x01 };
    let bytes = cmd.to_bytes();
    assert_eq!(&*bytes, &[0x01, 0x00, 0x00, 0x00]);
}

#[test]
fn parse_read_response() {
    let cmd = Command::Read { block_no: 0x03 };
    let raw = [
        0xE1, 0x10, 0x06, 0x00, // CC block
        0x03, 0x00, 0xFE, 0x00, // data block
        0x00, 0x00, 0x00, 0x00, // data block
        0x00, 0x00, 0x00, 0x00, // data block
    ];
    let answer = cmd.parse_answer(&raw).unwrap();
    assert_eq!(answer, Answer::Data(raw));
}

#[test]
fn parse_ack_response() {
    let cmd = Command::Write {
        block_no: 0x04,
        data: [0; 4],
    };
    let answer = cmd.parse_answer(&[0x0A]).unwrap();
    assert_eq!(answer, Answer::Ack);
}

#[test]
fn parse_nack_response() {
    let cmd = Command::Write {
        block_no: 0x04,
        data: [0; 4],
    };
    let answer = cmd.parse_answer(&[0x00]).unwrap();
    assert_eq!(answer, Answer::Nack(0x00));
}

#[test]
fn parse_passive_ack() {
    let cmd = Command::SectorSelectPart2 { sector_no: 1 };
    let answer = cmd.parse_answer(&[]).unwrap();
    assert_eq!(answer, Answer::PassiveAck);
}

#[test]
fn roundtrip_read_command() {
    let cmd = Command::Read { block_no: 0x10 };
    let bytes = cmd.to_bytes();
    let parsed = Command::try_from(bytes.as_slice()).unwrap();
    assert_eq!(parsed, cmd);
}

#[test]
fn roundtrip_write_command() {
    let cmd = Command::Write {
        block_no: 0x05,
        data: [0xDE, 0xAD, 0xBE, 0xEF],
    };
    let bytes = cmd.to_bytes();
    let parsed = Command::try_from(bytes.as_slice()).unwrap();
    assert_eq!(parsed, cmd);
}

#[test]
fn roundtrip_sector_select_p1() {
    let cmd = Command::SectorSelectPart1;
    let bytes = cmd.to_bytes();
    let parsed = Command::try_from(bytes.as_slice()).unwrap();
    assert_eq!(parsed, cmd);
}
