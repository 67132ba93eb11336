use nfc_forum_tags::type2::reader::SectorState;
use nfc_forum_tags::type2::{
    CapabilityContainer, Command, MemoryLayout, ReaderError, T2TReader, T2TTransceiver,
    Type2Error, ACK,
};
use nfc_forum_tags::vec::{FrameVec, VecExt};

/// A tag with any number of sectors, behind a link that loses chosen answers. Where an answer is
/// lost the tag has carried out the command, and goes back to sector 0.
struct Tag {
    memory: Vec<u8>,
    sector: usize,
    /// The exchanges whose answers get lost.
    losses: Vec<usize>,
    /// Whether a lost command was carried out.
    applied: bool,
    exchanges: usize,
    writes: usize,
    selects: usize,
    /// The answer to a WRITE.
    write_answer: u8,
}

impl Tag {
    fn new(len: usize) -> Self {
        Tag {
            memory: vec![0; len],
            sector: 0,
            losses: Vec::new(),
            applied: true,
            exchanges: 0,
            writes: 0,
            selects: 0,
            write_answer: ACK,
        }
    }

    /// A tag with a data area of `size_field * 8` bytes that starts with `area`.
    fn formatted(len: usize, size_field: u8, area: &[u8]) -> Self {
        let mut tag = Tag::new(len);
        tag.memory[12..16].copy_from_slice(&[0xE1, 0x10, size_field, 0x00]);
        tag.memory[16..16 + area.len()].copy_from_slice(area);
        tag
    }

    fn lost(&mut self) -> bool {
        let lost = self.losses.contains(&self.exchanges);
        self.exchanges += 1;
        lost
    }
}

impl T2TTransceiver for Tag {
    type Error = &'static str;

    fn transceive(&mut self, cmd: &[u8]) -> Result<FrameVec, &'static str> {
        let lost = self.lost();
        let mut answer = FrameVec::new();
        if !lost || self.applied {
            match Command::try_from(cmd).unwrap() {
                Command::Read { block_no } => {
                    let start = self.sector * 1024 + block_no as usize * 4;
                    for i in 0..16 {
                        let byte = self.memory.get(start + i).copied().unwrap_or(0xEE);
                        answer.try_push(byte).unwrap();
                    }
                }
                Command::Write { block_no, data } => {
                    self.writes += 1;
                    if self.write_answer == ACK {
                        let start = self.sector * 1024 + block_no as usize * 4;
                        self.memory[start..start + 4].copy_from_slice(&data);
                    }
                    answer.try_push(self.write_answer).unwrap();
                }
                Command::SectorSelectPart1 => {
                    answer.try_push(ACK).unwrap();
                }
                Command::SectorSelectPart2 { .. } => unreachable!(),
            }
        }
        if lost {
            self.sector = 0;
            return Err("lost");
        }
        Ok(answer)
    }

    fn transceive_no_response(&mut self, cmd: &[u8]) -> Result<Option<u8>, &'static str> {
        if self.lost() {
            self.sector = 0;
            return Err("lost");
        }
        if cmd[0] as usize * 1024 >= self.memory.len() {
            return Ok(Some(0x00));
        }
        self.sector = cmd[0] as usize;
        self.selects += 1;
        Ok(None)
    }
}

fn message(len: usize) -> Vec<u8> {
    (0..len).map(|i| (i * 7 + 3) as u8).collect()
}

#[test]
fn written_message_is_read_back_across_sectors() {
    // The blocks before the message end at byte 16 + 600, and the message crosses into sector 1.
    let mut area = vec![0xFD, 0xFF, 0x02, 0x54];
    area.extend_from_slice(&[0x11; 596]);
    area.extend_from_slice(&[0x03, 0x00, 0xFE]);
    let mut tag = Tag::formatted(3 * 1024, 0xFF, &area);
    let ndef = message(419);
    {
        let mut reader = T2TReader::new(&mut tag);
        reader.write_ndef(&ndef).unwrap();
        assert_eq!(&*reader.read_ndef().unwrap(), &ndef[..]);
    }
    // 600 bytes, tag, 3-byte length, message, terminator: 1024 bytes in all.
    assert_eq!(&tag.memory[616..620], &[0x03, 0xFF, 0x01, 0xA3]);
    assert_eq!(&tag.memory[620..1039], &ndef[..]);
    assert_eq!(tag.memory[1039], 0xFE);
    assert!(tag.memory[1040..].iter().all(|&b| b == 0));
    assert!(tag.selects > 0);
}

#[test]
fn message_that_ends_past_the_buffer_is_not_read_back() {
    let mut area = vec![0xFD, 0xFF, 0x02, 0x54];
    area.extend_from_slice(&[0x11; 596]);
    area.extend_from_slice(&[0x03, 0x00, 0xFE]);
    let mut tag = Tag::formatted(3 * 1024, 0xFF, &area);
    let mut reader = T2TReader::new(&mut tag);
    reader.write_ndef(&message(420)).unwrap();
    assert!(matches!(
        reader.read_ndef(),
        Err(ReaderError::Protocol(Type2Error::BufferFull))
    ));
}

#[test]
fn every_length_that_fits_is_read_back() {
    for len in [0usize, 1, 2, 44, 45] {
        let mut tag = Tag::formatted(64, 0x06, &[0x03, 0x00, 0xFE]);
        let mut reader = T2TReader::new(&mut tag);
        reader.write_ndef(&message(len)).unwrap();
        assert_eq!(&*reader.read_ndef().unwrap(), &message(len)[..]);
    }
    for len in [253usize, 254, 255, 256, 1000, 1019] {
        let mut tag = Tag::formatted(3 * 1024, 0xFF, &[0x03, 0x00, 0xFE]);
        let mut reader = T2TReader::new(&mut tag);
        reader.write_ndef(&message(len)).unwrap();
        assert_eq!(&*reader.read_ndef().unwrap(), &message(len)[..]);
    }
    let mut tag = Tag::formatted(3 * 1024, 0xFF, &[0x03, 0x00, 0xFE]);
    {
        let mut reader = T2TReader::new(&mut tag);
        assert!(matches!(
            reader.write_ndef(&message(1020)),
            Err(ReaderError::Protocol(Type2Error::BufferFull))
        ));
    }
    assert_eq!(tag.writes, 0);
}

#[test]
fn message_behind_control_blocks_is_read_back() {
    // Lock and reserved bytes lie behind the message.
    let area = [
        0x01, 0x03, 0xE0, 0x06, 0x33, 0x02, 0x03, 0xE1, 0x0F, 0x03, 0x03, 0x00, 0xFE,
    ];
    let mut tag = Tag::formatted(160, 0x0C, &area);
    let ndef = message(20);
    {
        let mut reader = T2TReader::new(&mut tag);
        reader.write_ndef(&ndef).unwrap();
        assert_eq!(&*reader.read_ndef().unwrap(), &ndef[..]);
    }
    assert_eq!(&tag.memory[16..26], &area[..10]);
}

#[test]
fn message_across_reserved_bytes_is_read_back() {
    // Four reserved bytes at 24. Without regard to them they are taken for bytes of the message,
    // and the second byte of the message for a terminator.
    let area = [0x02, 0x03, 0x60, 0x04, 0x02, 0x03, 0x00, 0xFE];
    let mut tag = Tag::formatted(160, 0x0C, &area);
    tag.memory[24..28].copy_from_slice(&[0xA5, 0xA6, 0xA7, 0xA8]);
    {
        let mut reader = T2TReader::new(&mut tag);
        let ndef = [0x44, 0xFE, 0x01, 0x02, 0x03];
        reader.write_ndef(&ndef).unwrap();
        assert_eq!(&*reader.read_ndef().unwrap(), &ndef[..]);
    }
    assert_eq!(
        &tag.memory[21..33],
        &[0x03, 0x05, 0x44, 0xA5, 0xA6, 0xA7, 0xA8, 0xFE, 0x01, 0x02, 0x03, 0xFE]
    );
}

#[test]
fn message_across_a_lock_byte_is_read_back() {
    // One lock byte at 28. Without regard to it the message is a byte short, and its last byte
    // the tag of a block that never ends.
    let area = [0x01, 0x03, 0x70, 0x08, 0x32, 0x03, 0x00, 0xFE];
    let mut tag = Tag::formatted(160, 0x0C, &area);
    tag.memory[28] = 0xA5;
    {
        let mut reader = T2TReader::new(&mut tag);
        reader.write_ndef(&[0x44; 8]).unwrap();
        assert_eq!(&*reader.read_ndef().unwrap(), &[0x44; 8]);
    }
    assert_eq!(
        &tag.memory[12..33],
        &[
            0xE1, 0x10, 0x0C, 0x00, 0x01, 0x03, 0x70, 0x08, 0x32, 0x03, 0x08, 0x44, 0x44, 0x44,
            0x44, 0x44, 0xA5, 0x44, 0x44, 0x44, 0xFE
        ]
    );
}

#[test]
fn long_message_across_lock_bytes_is_read_back() {
    // Four lock bytes at 256. The message ends with the last byte that fits in the buffer, so
    // that without regard to them the buffer is full before its end.
    let area = [0x01, 0x03, 0x40, 0x20, 0x36, 0x03, 0x00, 0xFE];
    let mut tag = Tag::formatted(3 * 1024, 0xFF, &area);
    tag.memory[256..260].copy_from_slice(&[0xA5, 0xA6, 0xA7, 0xA8]);
    let ndef = message(1014);
    {
        let mut reader = T2TReader::new(&mut tag);
        reader.write_ndef(&ndef).unwrap();
        assert_eq!(&*reader.read_ndef().unwrap(), &ndef[..]);
    }
    assert_eq!(&tag.memory[21..25], &[0x03, 0xFF, 0x03, 0xF6]);
    assert_eq!(&tag.memory[25..256], &ndef[..231]);
    assert_eq!(&tag.memory[256..260], &[0xA5, 0xA6, 0xA7, 0xA8]);
    assert_eq!(&tag.memory[260..1043], &ndef[231..]);
    assert_eq!(tag.memory[1043], 0xFE);
}

#[test]
fn control_block_behind_the_message_counts() {
    // The last block names a lock byte at 20, in the message. Without that byte the message is
    // one that takes in the NULL TLV behind it.
    let area = [
        0x03, 0x05, 0x41, 0x42, 0xA5, 0x43, 0x44, 0x00, 0x01, 0x03, 0x50, 0x08, 0x32, 0xFE,
    ];
    let mut tag = Tag::formatted(160, 0x0C, &area);
    let mut reader = T2TReader::new(&mut tag);
    assert_eq!(&*reader.read_ndef().unwrap(), &[0x41, 0x42, 0x43, 0x44, 0x00]);
}

#[test]
fn control_block_behind_the_message_may_break_it_up() {
    // Without the lock byte at 20 the message takes in a byte of the control block, and zeros up
    // to the end of the data area are more blocks than can be held.
    let area = [0x03, 0x04, 0x61, 0x62, 0x63, 0x64, 0x01, 0x03, 0x50, 0x08, 0x32, 0xFE];
    let mut tag = Tag::formatted(160, 0x0C, &area);
    let mut reader = T2TReader::new(&mut tag);
    assert!(matches!(
        reader.read_ndef(),
        Err(ReaderError::Protocol(Type2Error::BufferFull))
    ));
}

#[test]
fn lock_byte_named_behind_the_message_is_not_written() {
    // The lock byte at 28 lies behind all blocks. The new message reaches across it, and covers
    // the block that names it.
    let area = [0x03, 0x01, 0x61, 0x01, 0x03, 0x70, 0x08, 0x32, 0xFE];
    let mut tag = Tag::formatted(160, 0x0C, &area);
    tag.memory[28] = 0xA5;
    {
        let mut reader = T2TReader::new(&mut tag);
        assert_eq!(&*reader.read_ndef().unwrap(), &[0x61]);
        reader.write_ndef(&[1, 2, 3, 4, 5, 6, 7, 8, 9, 10, 11, 12]).unwrap();
    }
    assert_eq!(
        &tag.memory[16..32],
        &[0x03, 12, 1, 2, 3, 4, 5, 6, 7, 8, 9, 10, 0xA5, 11, 12, 0xFE]
    );
}

#[test]
fn end_of_a_message_may_be_taken_for_blocks() {
    // Eight reserved bytes at 24. Without regard to them the message ends eight bytes early, and
    // its end is a Lock Control TLV, which names a lock byte at 40, and a terminator.
    let area = [0x02, 0x03, 0x60, 0x08, 0x02, 0x03, 0x00, 0xFE];
    let mut tag = Tag::formatted(160, 0x0C, &area);
    tag.memory[42] = 0xFE;
    let mut reader = T2TReader::new(&mut tag);
    let ndef = [0x44, 0x45, 0x01, 0x03, 0xA0, 0x08, 0x32, 0xFE, 0x46, 0x47];
    reader.write_ndef(&ndef).unwrap();
    // The message goes to 23 and to 32..41, and of that 0x47 to 40.
    let read = reader.read_ndef().unwrap();
    assert_eq!(&*read, &[0x44, 0x45, 0x01, 0x03, 0xA0, 0x08, 0x32, 0xFE, 0x46, 0xFE]);
    // The same bytes in another order are read back.
    let ndef = [0x44, 0x45, 0xFE, 0x01, 0x03, 0xA0, 0x08, 0x32, 0x46, 0x47];
    reader.write_ndef(&ndef).unwrap();
    assert_eq!(&*reader.read_ndef().unwrap(), &ndef[..]);
}

#[test]
fn third_block_before_the_message_leaves_no_room_for_the_terminator() {
    // Three blocks and a message that fills the data area: four blocks in all.
    let mut area = vec![0x00, 0x00, 0x00, 0x03, 43];
    area.extend_from_slice(&[0x22; 43]);
    let mut tag = Tag::formatted(64, 0x06, &area);
    let mut reader = T2TReader::new(&mut tag);
    assert_eq!(reader.read_ndef().unwrap().len(), 43);
    reader.write_ndef(&[0x33; 10]).unwrap();
    assert!(matches!(
        reader.read_ndef(),
        Err(ReaderError::Protocol(Type2Error::BufferFull))
    ));
}

#[test]
fn block_of_an_unknown_kind_is_kept() {
    let mut tag = Tag::formatted(64, 0x06, &[0x04, 0x02, 0xAA, 0xBB, 0x03, 0x00, 0xFE]);
    {
        let mut reader = T2TReader::new(&mut tag);
        reader.write_ndef(&[0xD0, 0x00, 0x00]).unwrap();
        assert_eq!(&*reader.read_ndef().unwrap(), &[0xD0, 0x00, 0x00]);
    }
    assert_eq!(
        &tag.memory[16..26],
        &[0x04, 0x02, 0xAA, 0xBB, 0x03, 0x03, 0xD0, 0x00, 0x00, 0xFE]
    );
    assert!(tag.memory[26..].iter().all(|&b| b == 0));
}

#[test]
fn block_with_a_long_length_field_is_kept() {
    // Two bytes of vendor data with a length field of three bytes.
    let area = [0xFD, 0xFF, 0x00, 0x02, 0x54, 0x55, 0x03, 0x00, 0xFE];
    let mut tag = Tag::formatted(64, 0x06, &area);
    {
        let mut reader = T2TReader::new(&mut tag);
        reader.write_ndef(&[1, 2, 3]).unwrap();
        assert_eq!(&*reader.read_ndef().unwrap(), &[1, 2, 3]);
    }
    assert_eq!(
        &tag.memory[16..28],
        &[0xFD, 0xFF, 0x00, 0x02, 0x54, 0x55, 0x03, 0x03, 1, 2, 3, 0xFE]
    );
}

#[test]
fn blocks_of_unknown_kinds_take_room() {
    // 48 bytes, of which the unknown blocks take ten.
    let area = [0x04, 0x02, 0xAA, 0xBB, 0x05, 0x04, 1, 2, 3, 4, 0x03, 0x00, 0xFE];
    let mut tag = Tag::formatted(64, 0x06, &area);
    {
        let mut reader = T2TReader::new(&mut tag);
        assert!(matches!(
            reader.write_ndef(&message(36)),
            Err(ReaderError::Protocol(Type2Error::OutOfRange))
        ));
    }
    assert_eq!(tag.writes, 0);
    {
        let mut reader = T2TReader::new(&mut tag);
        reader.write_ndef(&message(35)).unwrap();
        assert_eq!(&*reader.read_ndef().unwrap(), &message(35)[..]);
    }
    assert_eq!(&tag.memory[16..26], &area[..10]);
    assert_eq!(tag.memory[63], 0xFE);
}

#[test]
fn bytes_behind_the_terminator_are_not_read() {
    let mut tag = Tag::formatted(1024, 0x7E, &[0x03, 0x01, 0x42, 0xFE, 0x01, 0xFF, 0xFF]);
    {
        let mut reader = T2TReader::new(&mut tag);
        assert_eq!(&*reader.read_ndef().unwrap(), &[0x42]);
    }
    // The container, and with it the first blocks of the data area.
    assert_eq!(tag.exchanges, 1);
}

#[test]
fn block_that_is_written_is_read_back() {
    let mut tag = Tag::new(2048);
    {
        let mut reader = T2TReader::new(&mut tag);
        reader.sector_select(1).unwrap();
        let _ = reader.read(9).unwrap();
        reader.write(10, [1, 2, 3, 4]).unwrap();
        assert_eq!(reader.cached_block(), None);
        assert_eq!(&reader.read(10).unwrap()[..4], &[1, 2, 3, 4]);
        assert_eq!(reader.cached_block(), Some(10));
    }
    let at = 1024 + 40;
    assert_eq!(&tag.memory[at..at + 4], &[1, 2, 3, 4]);
    assert_eq!(tag.memory.iter().filter(|&&b| b != 0).count(), 4);
}

#[test]
fn lost_answers_do_no_harm() {
    let ndef = message(1000);
    for applied in [false, true] {
        for first in 0..40 {
            let mut tag = Tag::formatted(3 * 1024, 0xFF, &[0x03, 0x00, 0xFE]);
            tag.applied = applied;
            tag.losses = vec![first, first + 60, first + 120, first + 180];
            let mut reader = T2TReader::new(&mut tag);
            reader.set_max_retries(3);
            if reader.write_ndef(&ndef).is_ok() {
                let read = reader.read_ndef().unwrap();
                assert_eq!(&*read, &ndef[..]);
            }
        }
    }
}

#[test]
fn failed_write_touches_no_other_byte() {
    let area = [
        0x01, 0x03, 0x70, 0x08, 0x32, 0x03, 0x02, 0x77, 0x78, 0xFE,
    ];
    for loss in 0..60 {
        let mut tag = Tag::formatted(160, 0x0C, &area);
        for i in 60..160 {
            tag.memory[i] = i as u8;
        }
        tag.memory[28] = 0xA5;
        let before = tag.memory.clone();
        tag.losses = vec![loss];
        {
            let mut reader = T2TReader::new(&mut tag);
            reader.set_max_retries(0);
            let _ = reader.write_ndef(&[0x44; 20]);
        }
        for addr in 0..160 {
            // The block goes to 21..45, but not to the lock byte.
            if addr < 21 || addr == 28 || addr >= 45 {
                assert_eq!(tag.memory[addr], before[addr]);
            }
        }
    }
}

#[test]
fn length_comes_last() {
    for loss in 0..60 {
        let mut tag = Tag::formatted(1024, 0x10, &[0x03, 0x00, 0xFE]);
        tag.losses = vec![loss];
        let ndef = message(60);
        let done = {
            let mut reader = T2TReader::new(&mut tag);
            reader.set_max_retries(0);
            reader.write_ndef(&ndef).is_ok()
        };
        if tag.memory[17] != 0 {
            assert_eq!(&tag.memory[18..78], &ndef[..]);
            assert_eq!(tag.memory[78], 0xFE);
        } else {
            assert!(!done);
        }
    }
}

#[test]
fn bytes_come_in_in_order() {
    let old: Vec<u8> = (0..30).map(|i| 0x80 + i).collect();
    let new: Vec<u8> = (0..20).map(|i| 0x20 + i).collect();
    let mut area = vec![0x03, 30];
    area.extend_from_slice(&old);
    area.push(0xFE);
    let mut open = vec![0x03, 0x00];
    open.extend_from_slice(&new);
    open.push(0xFE);
    for applied in [false, true] {
        for loss in 0..40 {
            let mut tag = Tag::formatted(64, 0x06, &area);
            let before = tag.memory.clone();
            tag.applied = applied;
            tag.losses = vec![loss];
            {
                let mut reader = T2TReader::new(&mut tag);
                reader.set_max_retries(0);
                let _ = reader.write_ndef(&new);
            }
            let mut steps: Vec<Vec<u8>> = Vec::new();
            for n in 0..open.len() + 1 {
                let mut memory = before.clone();
                memory[16..16 + n].copy_from_slice(&open[..n]);
                steps.push(memory);
            }
            let mut closed = steps[open.len()].clone();
            closed[17] = 20;
            steps.push(closed);
            assert!(steps.contains(&tag.memory));
        }
    }
}

#[test]
fn nack_is_not_retried() {
    let mut tag = Tag::formatted(64, 0x06, &[0x03, 0x00, 0xFE]);
    tag.write_answer = 0x05;
    {
        let mut reader = T2TReader::new(&mut tag);
        reader.set_max_retries(5);
        assert!(matches!(
            reader.write(4, [0; 4]),
            Err(ReaderError::Protocol(Type2Error::Nack(0x05)))
        ));
        assert_eq!(reader.sector_state(), SectorState::Known(0));
    }
    assert_eq!(tag.writes, 1);
}

#[test]
fn retries_are_bounded() {
    let mut tag = Tag::new(64);
    tag.losses = vec![0, 3, 6, 9];
    {
        let mut reader = T2TReader::new(&mut tag);
        reader.set_max_retries(2);
        assert!(matches!(reader.read(4), Err(ReaderError::Transceiver("lost"))));
        assert_eq!(reader.sector_state(), SectorState::Unknown);
    }
    // Three attempts, and a SECTOR SELECT of two packets before the second and the third.
    assert_eq!(tag.exchanges, 7);
}

#[test]
fn first_packet_of_a_sector_select_is_retried() {
    let mut tag = Tag::new(2048);
    tag.losses = vec![0];
    {
        let mut reader = T2TReader::new(&mut tag);
        reader.sector_select(1).unwrap();
        assert_eq!(reader.sector_state(), SectorState::Known(1));
    }
    // Packet 1 twice, packet 2 once.
    assert_eq!(tag.exchanges, 3);
    assert_eq!(tag.selects, 1);
}

#[test]
fn first_packet_is_not_retried_for_ever() {
    let mut tag = Tag::new(2048);
    tag.losses = vec![0, 1, 2, 3];
    {
        let mut reader = T2TReader::new(&mut tag);
        reader.set_max_retries(2);
        assert!(matches!(
            reader.sector_select(1),
            Err(ReaderError::Transceiver("lost"))
        ));
        assert_eq!(reader.sector_state(), SectorState::Unknown);
    }
    assert_eq!(tag.exchanges, 3);
    assert_eq!(tag.selects, 0);
}

#[test]
fn second_packet_of_a_sector_select_is_not_retried() {
    let mut tag = Tag::new(2048);
    tag.losses = vec![1];
    {
        let mut reader = T2TReader::new(&mut tag);
        reader.set_max_retries(5);
        assert!(matches!(
            reader.sector_select(1),
            Err(ReaderError::Transceiver("lost"))
        ));
        assert_eq!(reader.sector_state(), SectorState::Unknown);
    }
    assert_eq!(tag.exchanges, 2);
}

#[test]
fn sector_select_between_attempts_is_not_retried() {
    let mut tag = Tag::new(64);
    tag.losses = vec![0, 1];
    {
        let mut reader = T2TReader::new(&mut tag);
        reader.set_max_retries(5);
        assert!(matches!(reader.read(4), Err(ReaderError::Transceiver("lost"))));
        assert_eq!(reader.sector_state(), SectorState::Unknown);
    }
    assert_eq!(tag.exchanges, 2);
}

#[test]
fn sector_that_the_tag_does_not_have() {
    let mut tag = Tag::new(2048);
    let mut reader = T2TReader::new(&mut tag);
    assert!(matches!(
        reader.sector_select(2),
        Err(ReaderError::Protocol(Type2Error::Nack(0x00)))
    ));
    assert_eq!(reader.current_sector(), None);
    // Reading the container finds the way back to sector 0.
    assert!(matches!(
        reader.read_cc(),
        Err(ReaderError::Protocol(Type2Error::InvalidMagic(0x00)))
    ));
    assert_eq!(reader.current_sector(), Some(0));
}

#[test]
fn reasons_to_refuse_a_write() {
    let cases: [(&[u8], Type2Error); 4] = [
        (&[0xE2, 0x10, 0x06, 0x00, 0x03, 0x00, 0xFE], Type2Error::InvalidMagic(0xE2)),
        (&[0xE1, 0x00, 0x06, 0x00, 0x03, 0x00, 0xFE], Type2Error::InvalidMagic(0)),
        (&[0xE1, 0x10, 0x06, 0x0F, 0x03, 0x00, 0xFE], Type2Error::ReadOnly),
        (&[0xE1, 0x10, 0x06, 0x00, 0x00, 0xFE, 0x00], Type2Error::InvalidTlv),
    ];
    for (bytes, error) in cases {
        let mut tag = Tag::new(64);
        tag.memory[12..12 + bytes.len()].copy_from_slice(bytes);
        {
            let mut reader = T2TReader::new(&mut tag);
            match reader.write_ndef(&[1]) {
                Err(ReaderError::Protocol(e)) => assert_eq!(e, error),
                _ => panic!("the write must be refused"),
            }
        }
        assert_eq!(tag.writes, 0);
    }
}

#[test]
fn reasons_why_nothing_is_read() {
    let mut closed = Tag::formatted(64, 0x06, &[0x03, 0x00, 0xFE]);
    closed.memory[15] = 0xF0;
    assert!(matches!(
        T2TReader::new(&mut closed).read_ndef(),
        Err(ReaderError::Protocol(Type2Error::InvalidMagic(0)))
    ));
    // No NDEF Message TLV.
    let mut bare = Tag::formatted(64, 0x06, &[0xFE]);
    assert_eq!(T2TReader::new(&mut bare).read_ndef().unwrap().len(), 0);
    // A tag of 48 bytes without a terminator: the area ends.
    let mut full = Tag::formatted(64, 0x06, &[0x03, 46]);
    assert_eq!(T2TReader::new(&mut full).read_ndef().unwrap().len(), 46);
}

#[test]
fn data_area_without_lock_and_reserved_bytes() {
    let area = [0x01, 0x03, 0x60, 0x08, 0x32, 0x03, 0x04, 0x0A, 0xEE, 0x0B, 0x0C, 0x0D, 0xFE];
    let mut tag = Tag::formatted(160, 0x0C, &area);
    let mut reader = T2TReader::new(&mut tag);
    let cc = CapabilityContainer::try_from([0xE1, 0x10, 0x0C, 0x00]).unwrap();
    let plain = MemoryLayout::from_cc_and_tlvs(&cc, &[]);
    let whole = reader.read_data_area(&plain).unwrap();
    // The lock byte is taken for a byte of the message, and the next tag is 0x0D.
    assert_eq!(&whole[..13], &area[..]);
    let tlvs = nfc_forum_tags::type2::tlv::parse_tlvs(&area[..5]).unwrap();
    let layout = MemoryLayout::from_cc_and_tlvs(&cc, &tlvs);
    let bytes = reader.read_data_area(&layout).unwrap();
    assert_eq!(
        &*bytes,
        &[0x01, 0x03, 0x60, 0x08, 0x32, 0x03, 0x04, 0x0A, 0x0B, 0x0C, 0x0D, 0xFE]
    );
}

#[test]
fn custom_commands_are_sent_as_they_are() {
    let mut tag = Tag::formatted(64, 0x06, &[0x03, 0x00, 0xFE]);
    tag.losses = vec![0];
    {
        let mut reader = T2TReader::new(&mut tag);
        let answer = reader.transceive_with_retry(&[0x30, 0x03]).unwrap();
        assert_eq!(&answer[..4], &[0xE1, 0x10, 0x06, 0x00]);
        assert_eq!(reader.cached_block(), None);
    }
    assert_eq!(tag.exchanges, 4);
}
