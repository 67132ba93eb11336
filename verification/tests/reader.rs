use nfc_forum_tags::type2::memory::BLOCK_SIZE;
use nfc_forum_tags::type2::reader::SectorState;
use nfc_forum_tags::type2::{
    AccessCondition, Command, ReaderError, T2TReader, T2TTransceiver, Type2Error, ACK,
};
use nfc_forum_tags::vec::{FrameVec, VecExt};

/// Mock transceiver for testing.
struct MockTransceiver {
    /// Flat memory (1 sector = 1024 bytes).
    memory: [u8; 1024],
}

impl MockTransceiver {
    fn new() -> Self {
        MockTransceiver {
            memory: [0u8; 1024],
        }
    }

    /// Set up a static tag with a valid CC and empty NDEF TLV.
    fn setup_static_initialized(&mut self) {
        // Block 0-2: internal/UID/lock (zeros are fine for testing).
        // Block 3: CC
        self.memory[12] = 0xE1; // CC0: magic
        self.memory[13] = 0x10; // CC1: version 1.0
        self.memory[14] = 0x06; // CC2: 48 bytes data area
        self.memory[15] = 0x00; // CC3: r/w access
        // Block 4: NDEF Message TLV (empty) + Terminator
        self.memory[16] = 0x03; // T = NDEF Message
        self.memory[17] = 0x00; // L = 0
        self.memory[18] = 0xFE; // Terminator
    }

    /// Set up a static tag with a non-empty NDEF message.
    fn setup_static_with_ndef(&mut self) {
        self.setup_static_initialized();
        // Write empty NDEF message D00000h
        self.memory[16] = 0x03; // T
        self.memory[17] = 0x03; // L = 3
        self.memory[18] = 0xD0; // V[0]
        self.memory[19] = 0x00; // V[1]
        self.memory[20] = 0x00; // V[2]
        self.memory[21] = 0xFE; // Terminator
    }
}

impl T2TTransceiver for MockTransceiver {
    type Error = ();

    fn transceive(&mut self, cmd: &[u8]) -> Result<FrameVec, ()> {
        let command = Command::try_from(cmd).map_err(|_| ())?;
        match command {
            Command::Read { block_no } => {
                let start = block_no as usize * BLOCK_SIZE;
                let mut response = FrameVec::new();
                let end = (start + 16).min(self.memory.len());
                let _ = response.try_extend(&self.memory[start..end]);
                // Pad if near end of memory.
                while response.len() < 16 {
                    let _ = response.try_push(0);
                }
                Ok(response)
            }
            Command::Write { block_no, data } => {
                let start = block_no as usize * BLOCK_SIZE;
                if start + 4 <= self.memory.len() {
                    self.memory[start..start + 4].copy_from_slice(&data);
                }
                let mut response = FrameVec::new();
                let _ = response.try_push(ACK);
                Ok(response)
            }
            Command::SectorSelectPart1 => {
                let mut response = FrameVec::new();
                let _ = response.try_push(ACK);
                Ok(response)
            }
            Command::SectorSelectPart2 { .. } => {
                // Shouldn't be called via transceive.
                Err(())
            }
        }
    }

    fn transceive_no_response(&mut self, _cmd: &[u8]) -> Result<Option<u8>, ()> {
        // Passive ACK (success).
        Ok(None)
    }
}

/// Mock transceiver that counts RF transactions.
struct CountingTransceiver {
    inner: MockTransceiver,
    transceive_count: usize,
}

impl CountingTransceiver {
    fn new() -> Self {
        CountingTransceiver {
            inner: MockTransceiver::new(),
            transceive_count: 0,
        }
    }
}

impl T2TTransceiver for CountingTransceiver {
    type Error = ();

    fn transceive(&mut self, cmd: &[u8]) -> Result<FrameVec, ()> {
        self.transceive_count += 1;
        self.inner.transceive(cmd)
    }

    fn transceive_no_response(&mut self, cmd: &[u8]) -> Result<Option<u8>, ()> {
        self.inner.transceive_no_response(cmd)
    }
}

#[test]
fn read_cc_from_mock() {
    let mut mock = MockTransceiver::new();
    mock.setup_static_initialized();
    let mut reader = T2TReader::new(&mut mock);
    let cc = reader.read_cc().unwrap();
    assert_eq!(cc.version_major, 1);
    assert_eq!(cc.version_minor, 0);
    assert_eq!(cc.data_area_size(), 48);
    assert_eq!(cc.read_access, AccessCondition::Granted);
    assert_eq!(cc.write_access, AccessCondition::Granted);
}

#[test]
fn read_ndef_empty() {
    let mut mock = MockTransceiver::new();
    mock.setup_static_initialized();
    let mut reader = T2TReader::new(&mut mock);
    let ndef = reader.read_ndef().unwrap();
    assert!(ndef.is_empty());
}

#[test]
fn read_ndef_with_data() {
    let mut mock = MockTransceiver::new();
    mock.setup_static_with_ndef();
    let mut reader = T2TReader::new(&mut mock);
    let ndef = reader.read_ndef().unwrap();
    assert_eq!(&*ndef, &[0xD0, 0x00, 0x00]);
}

#[test]
fn write_then_read_ndef() {
    let mut mock = MockTransceiver::new();
    mock.setup_static_initialized();
    let mut reader = T2TReader::new(&mut mock);

    // Write an empty NDEF message.
    let ndef_data = [0xD0, 0x00, 0x00];
    reader.write_ndef(&ndef_data).unwrap();

    // Read it back.
    let result = reader.read_ndef().unwrap();
    assert_eq!(&*result, &ndef_data);
}

#[test]
fn read_block() {
    let mut mock = MockTransceiver::new();
    mock.setup_static_with_ndef();
    let mut reader = T2TReader::new(&mut mock);

    // Read block 3 (CC).
    let data = reader.read(3).unwrap();
    assert_eq!(data[0], 0xE1);
    assert_eq!(data[1], 0x10);
    assert_eq!(data[2], 0x06);
    assert_eq!(data[3], 0x00);
}

#[test]
fn write_block() {
    let mut mock = MockTransceiver::new();
    mock.setup_static_initialized();
    let mut reader = T2TReader::new(&mut mock);

    reader.write(4, [0xAA, 0xBB, 0xCC, 0xDD]).unwrap();

    // Read it back.
    let data = reader.read(4).unwrap();
    assert_eq!(&data[..4], &[0xAA, 0xBB, 0xCC, 0xDD]);
}

#[test]
fn read_cache_hit() {
    let mut mock = CountingTransceiver::new();
    mock.inner.setup_static_with_ndef();
    {
        let mut reader = T2TReader::new(&mut mock);
        let _ = reader.read(3).unwrap();
        let _ = reader.read(3).unwrap();
    }
    // Only 1 transceive: second read served from cache.
    assert_eq!(mock.transceive_count, 1);
}

#[test]
fn read_cache_miss_different_block() {
    let mut mock = CountingTransceiver::new();
    mock.inner.setup_static_with_ndef();
    {
        let mut reader = T2TReader::new(&mut mock);
        let _ = reader.read(3).unwrap();
        let _ = reader.read(8).unwrap();
    }
    // 2 transceives: different blocks, cache miss on second.
    assert_eq!(mock.transceive_count, 2);
}

#[test]
fn write_invalidates_cache() {
    let mut mock = CountingTransceiver::new();
    mock.inner.setup_static_with_ndef();
    {
        let mut reader = T2TReader::new(&mut mock);
        let _ = reader.read(4).unwrap();
        reader.write(4, [0xAA, 0xBB, 0xCC, 0xDD]).unwrap();
        let _ = reader.read(4).unwrap();
    }
    // 3 transceives: read + write + read (cache invalidated by write).
    assert_eq!(mock.transceive_count, 3);
}

/// Mock transceiver that fails N times then succeeds.
struct FailingTransceiver {
    inner: MockTransceiver,
    failures_remaining: usize,
    /// Number of `transceive` calls made (used to count retry attempts).
    attempts: usize,
}

impl FailingTransceiver {
    fn new(fail_count: usize) -> Self {
        FailingTransceiver {
            inner: MockTransceiver::new(),
            failures_remaining: fail_count,
            attempts: 0,
        }
    }
}

impl T2TTransceiver for FailingTransceiver {
    type Error = ();

    fn transceive(&mut self, cmd: &[u8]) -> Result<FrameVec, ()> {
        self.attempts += 1;
        if self.failures_remaining > 0 {
            self.failures_remaining -= 1;
            return Err(());
        }
        self.inner.transceive(cmd)
    }

    fn transceive_no_response(&mut self, cmd: &[u8]) -> Result<Option<u8>, ()> {
        self.inner.transceive_no_response(cmd)
    }
}

#[test]
fn retry_on_transient_error() {
    let mut mock = FailingTransceiver::new(1);
    mock.inner.setup_static_with_ndef();
    let mut reader = T2TReader::new(&mut mock);
    reader.set_max_retries(1);

    let data = reader.read(3).unwrap();
    assert_eq!(data[0], 0xE1);
}

#[test]
fn retry_exhausted() {
    let mut mock = FailingTransceiver::new(3);
    mock.inner.setup_static_with_ndef();
    let mut reader = T2TReader::new(&mut mock);
    reader.set_max_retries(1); // 2 attempts total, 3 failures.

    assert!(reader.read(3).is_err());
}

#[test]
fn retry_disabled() {
    let mut mock = FailingTransceiver::new(1);
    mock.inner.setup_static_with_ndef();
    let mut reader = T2TReader::new(&mut mock);
    reader.set_max_retries(0);

    assert!(reader.read(3).is_err());
}

// Sector state across retries

/// Multi-sector mock that models the NFC Forum rule making sector 0 the
/// default after a protocol infringement: the configured failure returns an
/// error *and* resets the tag's active sector to 0. Records the physical
/// (sector, block) of every WRITE so a misdirected retry is detectable.
struct SectorResetTransceiver {
    /// Sector the tag itself considers active.
    tag_sector: u8,
    /// Countdown to the next induced failure; 0 disables.
    fail_in: usize,
    /// Physical (sector, block, data) of each WRITE applied.
    writes: heapless::Vec<(u8, u8, [u8; 4]), 8>,
    /// Number of SECTOR SELECT sequences completed.
    selects: usize,
    /// When set, packet 2 returns a transceiver error.
    fail_packet2: bool,
}

impl SectorResetTransceiver {
    fn new() -> Self {
        SectorResetTransceiver {
            tag_sector: 0,
            fail_in: 0,
            writes: heapless::Vec::new(),
            selects: 0,
            fail_packet2: false,
        }
    }
}

impl T2TTransceiver for SectorResetTransceiver {
    type Error = ();

    fn transceive(&mut self, cmd: &[u8]) -> Result<FrameVec, ()> {
        let command = Command::try_from(cmd).map_err(|_| ())?;
        // Induce a failure that also resets the tag to sector 0, exactly as
        // a protocol infringement would.
        if self.fail_in > 0 {
            self.fail_in -= 1;
            if self.fail_in == 0 {
                self.tag_sector = 0;
                return Err(());
            }
        }
        match command {
            Command::Read { .. } => {
                let mut response = FrameVec::new();
                let _ = response.try_extend(&[0u8; 16]);
                Ok(response)
            }
            Command::Write { block_no, data } => {
                let _ = self.writes.push((self.tag_sector, block_no, data));
                let mut response = FrameVec::new();
                let _ = response.try_push(ACK);
                Ok(response)
            }
            Command::SectorSelectPart1 => {
                let mut response = FrameVec::new();
                let _ = response.try_push(ACK);
                Ok(response)
            }
            Command::SectorSelectPart2 { .. } => Err(()),
        }
    }

    fn transceive_no_response(&mut self, cmd: &[u8]) -> Result<Option<u8>, ()> {
        if self.fail_packet2 {
            return Err(());
        }
        // Packet 2 carries the sector number.
        self.tag_sector = cmd[0];
        self.selects += 1;
        Ok(None)
    }
}

/// A transceiver error that resets the tag to sector 0 must not let the
/// retry land on sector 0's copy of the same block: the reader re-selects
/// sector 1 first.
#[test]
fn retry_after_sector_reset_reselects_intended_sector() {
    let mut mock = SectorResetTransceiver::new();
    {
        let mut reader = T2TReader::new(&mut mock);
        reader.set_max_retries(1);
        reader.sector_select(1).unwrap();
        // Fail the next transceive (the WRITE), resetting the tag to 0.
        reader.transceiver().fail_in = 1;
        reader.write(3, [0xAA, 0xBB, 0xCC, 0xDD]).unwrap();
        assert_eq!(reader.current_sector(), Some(1));
    }
    // Exactly one write landed, and it landed in sector 1 - never sector 0,
    // where block 3 is the Capability Container.
    assert_eq!(mock.writes.len(), 1);
    assert_eq!(mock.writes[0].0, 1, "write must land in sector 1");
    assert_eq!(mock.writes[0].1, 3);
    // Two selects: the initial one plus the recovery before the retry.
    assert_eq!(mock.selects, 2);
}

/// A packet-2 failure leaves the sector unknown, and the next operation
/// re-establishes it rather than assuming the old value.
#[test]
fn packet2_error_leaves_sector_unknown() {
    let mut mock = SectorResetTransceiver::new();
    let mut reader = T2TReader::new(&mut mock);
    reader.sector_select(1).unwrap();
    assert_eq!(reader.sector_state(), SectorState::Known(1));

    reader.transceiver().fail_packet2 = true;
    assert!(reader.sector_select(2).is_err());
    assert_eq!(reader.sector_state(), SectorState::Unknown);
    assert_eq!(reader.current_sector(), None);

    // Recovery: a later successful selection restores a known sector.
    reader.transceiver().fail_packet2 = false;
    reader.sector_select(2).unwrap();
    assert_eq!(reader.sector_state(), SectorState::Known(2));
}

/// Mock transceiver that answers packet 2 with a NACK.
struct NackP2(SectorResetTransceiver);
impl T2TTransceiver for NackP2 {
    type Error = ();
    fn transceive(&mut self, cmd: &[u8]) -> Result<FrameVec, ()> {
        self.0.transceive(cmd)
    }
    fn transceive_no_response(&mut self, _cmd: &[u8]) -> Result<Option<u8>, ()> {
        Ok(Some(0x00)) // NACK
    }
}

/// A NACK from packet 2 is equally ambiguous and must leave state unknown.
#[test]
fn packet2_nack_leaves_sector_unknown() {
    let mut mock = NackP2(SectorResetTransceiver::new());
    let mut reader = T2TReader::new(&mut mock);
    assert!(reader.sector_select(1).is_err());
    assert_eq!(reader.sector_state(), SectorState::Unknown);
}

/// An error leaves the sector unknown and invalidates the read cache, so a
/// later read cannot be served with data from a possibly-different sector.
#[test]
fn ambiguous_error_invalidates_cache_and_sector() {
    let mut mock = FailingTransceiver::new(0);
    mock.inner.setup_static_with_ndef();
    let mut reader = T2TReader::new(&mut mock);
    reader.set_max_retries(0);

    let _ = reader.read(3).unwrap(); // populates the cache
    reader.transceiver().failures_remaining = 1;
    assert!(reader.read(8).is_err());

    assert_eq!(reader.sector_state(), SectorState::Unknown);
    assert!(reader.cached_block().is_none(), "cache must be invalidated");
}

/// With the sector already unknown, a failing command is not retried into
/// an arbitrary sector.
#[test]
fn no_retry_while_sector_unknown() {
    let mut mock = FailingTransceiver::new(0);
    mock.inner.setup_static_with_ndef();
    {
        let mut reader = T2TReader::new(&mut mock);
        reader.set_max_retries(3);
        // Drive the reader into the unknown state: every attempt fails, so
        // even the sector-recovery step cannot restore a known sector.
        reader.transceiver().failures_remaining = 100;
        assert!(reader.read(3).is_err());
        assert_eq!(reader.sector_state(), SectorState::Unknown);

        // A second failure must not spawn retries while unknown.
        reader.transceiver().attempts = 0;
        assert!(reader.read(3).is_err());
        assert_eq!(
            reader.transceiver().attempts,
            1,
            "no retry may be attempted while the sector is unknown"
        );
    }
}

/// Sector 0xFF is reserved and must be rejected without any RF traffic.
#[test]
fn reserved_sector_rejected() {
    let mut mock = SectorResetTransceiver::new();
    let mut reader = T2TReader::new(&mut mock);
    assert!(matches!(
        reader.sector_select(0xFF),
        Err(ReaderError::Protocol(Type2Error::OutOfRange))
    ));
    assert_eq!(reader.transceiver().selects, 0);
}

// write_ndef bounds enforcement

/// Transceiver that applies writes to flat memory and counts every
/// WRITE command, so tests can assert that no page write escaped the
/// data area (or that no write happened at all).
struct RecordingTransceiver {
    memory: [u8; 1024],
    writes: usize,
}

impl RecordingTransceiver {
    fn new() -> Self {
        RecordingTransceiver {
            memory: [0u8; 1024],
            writes: 0,
        }
    }

    /// Write a valid CC (`size_field` * 8 bytes of data area) plus an
    /// empty NDEF Message TLV and Terminator at the data-area start.
    fn setup(&mut self, size_field: u8) {
        self.memory[12] = 0xE1; // magic
        self.memory[13] = 0x10; // version 1.0
        self.memory[14] = size_field; // data area = size_field * 8
        self.memory[15] = 0x00; // r/w access
        self.memory[16] = 0x03; // NDEF Message TLV
        self.memory[17] = 0x00; // L = 0
        self.memory[18] = 0xFE; // Terminator
    }
}

impl T2TTransceiver for RecordingTransceiver {
    type Error = ();

    fn transceive(&mut self, cmd: &[u8]) -> Result<FrameVec, ()> {
        let command = Command::try_from(cmd).map_err(|_| ())?;
        match command {
            Command::Read { block_no } => {
                let start = block_no as usize * BLOCK_SIZE;
                let mut response = FrameVec::new();
                let end = (start + 16).min(self.memory.len());
                let _ = response.try_extend(&self.memory[start..end]);
                while response.len() < 16 {
                    let _ = response.try_push(0);
                }
                Ok(response)
            }
            Command::Write { block_no, data } => {
                self.writes += 1;
                let start = block_no as usize * BLOCK_SIZE;
                if start + 4 <= self.memory.len() {
                    self.memory[start..start + 4].copy_from_slice(&data);
                }
                let mut response = FrameVec::new();
                let _ = response.try_push(ACK);
                Ok(response)
            }
            Command::SectorSelectPart1 => {
                let mut response = FrameVec::new();
                let _ = response.try_push(ACK);
                Ok(response)
            }
            Command::SectorSelectPart2 { .. } => Err(()),
        }
    }

    fn transceive_no_response(&mut self, _cmd: &[u8]) -> Result<Option<u8>, ()> {
        Ok(None)
    }
}

/// A 65,536-byte input would truncate to length 0 in 16 bits. It must be
/// rejected with a range error before any write.
#[test]
fn write_ndef_rejects_oversized_input_with_no_writes() {
    let mut mock = RecordingTransceiver::new();
    mock.setup(0x06); // 48-byte data area
    {
        let mut reader = T2TReader::new(&mut mock);
        let oversized = [0xAAu8; 65_536];
        let res = reader.write_ndef(&oversized);
        assert!(matches!(
            res,
            Err(ReaderError::Protocol(Type2Error::OutOfRange))
        ));
    }
    assert_eq!(mock.writes, 0, "oversized input must not write any page");
}

/// Any length that cannot be encoded in the TLV length field (> 0xFFFE)
/// is rejected before writing.
#[test]
fn write_ndef_rejects_unencodable_length_with_no_writes() {
    let mut mock = RecordingTransceiver::new();
    mock.setup(0x06);
    {
        let mut reader = T2TReader::new(&mut mock);
        let too_long = [0u8; 0xFFFF]; // 0xFFFF is the reserved marker value
        let res = reader.write_ndef(&too_long);
        assert!(matches!(
            res,
            Err(ReaderError::Protocol(Type2Error::OutOfRange))
        ));
    }
    assert_eq!(mock.writes, 0);
}

/// A payload that fits `data_area_size` from offset 0 but overruns once
/// a preceding NULL TLV shifts the write start must be rejected with no
/// writes - the near-capacity overrun variant.
#[test]
fn write_ndef_rejects_nonzero_offset_overrun_with_no_writes() {
    let mut mock = RecordingTransceiver::new();
    // 48-byte data area, NULL TLV then empty NDEF TLV -> NDEF at offset 1.
    mock.memory[12..16].copy_from_slice(&[0xE1, 0x10, 0x06, 0x00]);
    mock.memory[16] = 0x00; // NULL TLV consumes one offset byte
    mock.memory[17] = 0x03; // NDEF Message TLV
    mock.memory[18] = 0x00; // L = 0
    mock.memory[19] = 0xFE; // Terminator
    {
        let mut reader = T2TReader::new(&mut mock);
        // 45 bytes: 1+1+45+1 = 48 fits at offset 0, but +1 offset = 49 > 48.
        let payload = [0xABu8; 45];
        let res = reader.write_ndef(&payload);
        assert!(matches!(
            res,
            Err(ReaderError::Protocol(Type2Error::OutOfRange))
        ));
    }
    assert_eq!(mock.writes, 0, "offset overrun must not write any page");
}

/// A Memory Control TLV (reserved region) ahead of the NDEF TLV pushes
/// the write offset to 5. A payload that would fit from offset 0 but
/// overruns once that offset is included must be rejected with no writes.
#[test]
fn write_ndef_rejects_memory_control_offset_overrun_with_no_writes() {
    let mut mock = RecordingTransceiver::new();
    // 48-byte data area. Memory Control TLV (T,L,V=3) then empty NDEF TLV
    // -> NDEF at offset 5.
    mock.memory[12..16].copy_from_slice(&[0xE1, 0x10, 0x06, 0x00]);
    mock.memory[16] = 0x02; // Memory Control TLV
    mock.memory[17] = 0x03; // L = 3
    mock.memory[18] = 0xF0; // V: page_addr=15, byte_offset=0
    mock.memory[19] = 0x05; // V: size
    mock.memory[20] = 0x03; // V: bytes-per-page
    mock.memory[21] = 0x03; // NDEF Message TLV
    mock.memory[22] = 0x00; // L = 0
    mock.memory[23] = 0xFE; // Terminator
    {
        let mut reader = T2TReader::new(&mut mock);
        // 41 bytes: 1+1+41+1 = 44 fits at offset 0, but +5 offset = 49 > 48.
        let payload = [0xCDu8; 41];
        let res = reader.write_ndef(&payload);
        assert!(matches!(
            res,
            Err(ReaderError::Protocol(Type2Error::OutOfRange))
        ));
    }
    assert_eq!(
        mock.writes, 0,
        "reserved-region offset overrun must not write"
    );
}

/// The maximum payload that exactly fills the data area succeeds and
/// writes nothing beyond it (which on NTAG is the dynamic-lock page).
#[test]
fn write_ndef_max_payload_stays_within_data_area() {
    let mut mock = RecordingTransceiver::new();
    mock.setup(0x06); // 48-byte data area at bytes 16..64
    {
        let mut reader = T2TReader::new(&mut mock);
        // 45 bytes: T + L + 45 + Terminator = 48 = data area.
        reader.write_ndef(&[0x55u8; 45]).unwrap();
    }
    assert_eq!(mock.memory[16], 0x03); // T
    assert_eq!(mock.memory[17], 45); // L (final)
    assert_eq!(mock.memory[63], 0xFE); // Terminator at last data-area byte
    assert!(
        mock.memory[64..].iter().all(|&b| b == 0),
        "nothing written beyond the data area"
    );
}

/// A 255-byte payload uses the 3-byte extended length encoding and, when
/// it fits, is written correctly.
#[test]
fn write_ndef_extended_length_encoding() {
    let mut mock = RecordingTransceiver::new();
    mock.setup(0x40); // 512-byte data area
    {
        let mut reader = T2TReader::new(&mut mock);
        reader.write_ndef(&[0x22u8; 255]).unwrap();
    }
    assert_eq!(mock.memory[16], 0x03); // T
    assert_eq!(mock.memory[17], 0xFF); // 3-byte length marker
    assert_eq!(mock.memory[18], 0x00); // length MSB
    assert_eq!(mock.memory[19], 0xFF); // length LSB (255)
    assert_eq!(mock.memory[20], 0x22); // V starts
    assert_eq!(mock.memory[275], 0xFE); // Terminator after 255 bytes
}

// Skip-region-aware writes

/// Set up a tight layout: a 96-byte data area (default dynamic
/// lock byte at physical 112) with a Proprietary TLV occupying 88 logical
/// bytes, so the NDEF TLV begins at physical address 104. A sentinel is
/// placed in the lock byte.
fn setup_proprietary_before_ndef(mock: &mut RecordingTransceiver) {
    mock.memory[12..16].copy_from_slice(&[0xE1, 0x10, 0x0C, 0x00]); // 96 bytes
    mock.memory[16] = 0xFD; // Proprietary TLV
    mock.memory[17] = 86; // L = 86 -> T+L+V = 88 logical bytes
    mock.memory[104] = 0x03; // NDEF Message TLV at logical offset 88
    mock.memory[105] = 0x00; // L = 0
    mock.memory[106] = 0xFE; // Terminator
    mock.memory[112] = 0xA5; // dynamic lock byte sentinel
}

/// A 10-byte message encodes to 13 bytes but only 8 usable bytes remain for
/// the NDEF TLV. The write must return `OutOfRange` with no WRITE issued and
/// the lock byte intact.
#[test]
fn write_ndef_audit_proof_rejected_lock_byte_intact() {
    let mut mock = RecordingTransceiver::new();
    setup_proprietary_before_ndef(&mut mock);

    {
        let mut reader = T2TReader::new(&mut mock);
        let res = reader.write_ndef(&[0x11u8; 10]);
        assert!(matches!(
            res,
            Err(ReaderError::Protocol(Type2Error::OutOfRange))
        ));
    }
    assert_eq!(mock.writes, 0, "no WRITE may be issued");
    assert_eq!(mock.memory[112], 0xA5, "lock byte must be untouched");
}

/// One byte beyond the remaining usable capacity performs zero writes.
#[test]
fn write_ndef_one_byte_excess_after_proprietary_tlv_no_writes() {
    let mut mock = RecordingTransceiver::new();
    setup_proprietary_before_ndef(&mut mock);

    {
        let mut reader = T2TReader::new(&mut mock);
        // 8 usable bytes remain: T + L + V + Terminator -> V max = 5.
        let res = reader.write_ndef(&[0x22u8; 6]);
        assert!(matches!(
            res,
            Err(ReaderError::Protocol(Type2Error::OutOfRange))
        ));
    }
    assert_eq!(mock.writes, 0, "one-byte excess must not write");
    assert_eq!(mock.memory[112], 0xA5);
}

/// The exact-boundary message for the same layout succeeds, landing the
/// Terminator on the last usable byte without touching the lock byte.
#[test]
fn write_ndef_exact_boundary_after_proprietary_tlv_succeeds() {
    let mut mock = RecordingTransceiver::new();
    setup_proprietary_before_ndef(&mut mock);

    {
        let mut reader = T2TReader::new(&mut mock);
        reader.write_ndef(&[0x33u8; 5]).unwrap();
    }
    assert_eq!(mock.memory[104], 0x03); // T at the located physical address
    assert_eq!(mock.memory[105], 5); // L updated last
    assert!(mock.memory[106..111].iter().all(|&b| b == 0x33)); // V
    assert_eq!(mock.memory[111], 0xFE); // Terminator on last usable byte
    assert_eq!(mock.memory[112], 0xA5, "lock byte preserved at boundary");
}

/// A lock region (from a Lock Control TLV) that falls inside the NDEF
/// value is preserved, and the value continues past it.
#[test]
fn write_ndef_preserves_lock_region_inside_value() {
    let mut mock = RecordingTransceiver::new();
    // 96-byte data area with a Lock Control TLV placing 1 lock byte at
    // physical address 28 (page_addr 7 * page size 4 + offset 0).
    mock.memory[12..16].copy_from_slice(&[0xE1, 0x10, 0x0C, 0x00]);
    mock.memory[16] = 0x01; // Lock Control TLV
    mock.memory[17] = 0x03; // L = 3
    mock.memory[18] = 0x70; // page_addr=7, byte_offset=0
    mock.memory[19] = 0x08; // size_in_bits = 8 -> 1 lock byte
    mock.memory[20] = 0x32; // bytes_locked_per_bit=3, bytes_per_page=2
    mock.memory[21] = 0x03; // NDEF Message TLV at logical offset 5
    mock.memory[22] = 0x00; // L = 0
    mock.memory[23] = 0xFE; // Terminator
    mock.memory[28] = 0xA5; // lock byte sentinel

    {
        let mut reader = T2TReader::new(&mut mock);
        reader.write_ndef(&[0x44u8; 8]).unwrap();
    }

    assert_eq!(
        mock.memory[28], 0xA5,
        "lock region inside the value must be preserved"
    );
    assert_eq!(mock.memory[21], 0x03);
    assert_eq!(mock.memory[22], 8);
    // Value: 23..28, skip 28, resume 29..32.
    assert!(mock.memory[23..28].iter().all(|&b| b == 0x44));
    assert!(mock.memory[29..32].iter().all(|&b| b == 0x44));
}

/// A reserved (Memory Control) region inside the NDEF value is preserved,
/// and the value bytes continue on the far side of it.
#[test]
fn write_ndef_preserves_reserved_region_inside_value() {
    let mut mock = RecordingTransceiver::new();
    // 96-byte data area; Memory Control TLV reserving 24..28.
    mock.memory[12..16].copy_from_slice(&[0xE1, 0x10, 0x0C, 0x00]);
    mock.memory[16] = 0x02; // Memory Control TLV
    mock.memory[17] = 0x03; // L = 3
    mock.memory[18] = 0x60; // page_addr=6, byte_offset=0
    mock.memory[19] = 0x04; // size = 4 bytes
    mock.memory[20] = 0x02; // bytes_per_page exponent -> page size 4 -> addr 24
    mock.memory[21] = 0x03; // NDEF Message TLV at logical offset 5
    mock.memory[22] = 0x00; // L = 0
    mock.memory[23] = 0xFE; // Terminator
    // Sentinels in the reserved region.
    mock.memory[24..28].copy_from_slice(&[0xA5, 0xA6, 0xA7, 0xA8]);

    {
        let mut reader = T2TReader::new(&mut mock);
        reader.write_ndef(&[0x44u8; 8]).unwrap();
    }

    assert_eq!(
        &mock.memory[24..28],
        &[0xA5, 0xA6, 0xA7, 0xA8],
        "reserved region inside the value must be preserved"
    );
    // TLV header at 21..23, value resumes after the reserved region.
    assert_eq!(mock.memory[21], 0x03);
    assert_eq!(mock.memory[22], 8);
    assert_eq!(mock.memory[23], 0x44);
    assert!(mock.memory[28..35].iter().all(|&b| b == 0x44));
}

/// Length-format boundary: a 253-byte payload (1-byte length) exactly
/// fills a 256-byte data area and succeeds, while a 255-byte payload
/// (3-byte length, needs 260) is rejected with no writes.
#[test]
fn write_ndef_length_boundary() {
    // Just fits with 1-byte length.
    let mut fit = RecordingTransceiver::new();
    fit.setup(0x20); // 256-byte data area
    {
        let mut reader = T2TReader::new(&mut fit);
        reader.write_ndef(&[0x33u8; 253]).unwrap();
    }
    assert_eq!(fit.memory[17], 253); // 1-byte length field

    // Just over with 3-byte length.
    let mut over = RecordingTransceiver::new();
    over.setup(0x20);
    {
        let mut reader = T2TReader::new(&mut over);
        let res = reader.write_ndef(&[0x33u8; 255]); // needs 260 > 256
        assert!(matches!(
            res,
            Err(ReaderError::Protocol(Type2Error::OutOfRange))
        ));
    }
    assert_eq!(over.writes, 0);
}
