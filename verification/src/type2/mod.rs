//! NFC Forum Type 2 Tag operations (T2TOP 1.1).
//!
//! After ISO 14443-3A activation (REQA, anticollision, SELECT), the SAK byte
//! indicates a Type 2 Tag. At that point the commands defined here take over:
//!
//! - [`Command::Read`]: read 4 blocks (16 bytes)
//! - [`Command::Write`]: write 1 block (4 bytes)
//! - [`Command::SectorSelectPart1`] / [`Command::SectorSelectPart2`]: switch
//!   sector, for tags > 1 KB

use crate::vec::{BufferFullError, FrameVec, VecExt};
use vstd::prelude::*;
use vstd::std_specs::convert::{FromSpecImpl, TryFromSpec, TryFromSpecImpl};

pub mod cc;
pub mod memory;
pub mod model;
pub mod reader;
pub mod roundtrip;
pub mod scanner;
pub mod sending;
pub mod tlv;
pub mod trace;

pub use cc::{AccessCondition, CapabilityContainer, TagState};
pub use memory::{LockArea, MemoryLayout, ReservedArea};
pub use reader::{ReaderError, T2TReader};
pub use tlv::{LockControlValue, MemoryControlValue, Tlv};

verus! {

/// Errors from Type 2 Tag protocol operations.
#[derive(Debug, Clone, PartialEq, Eq, Structural)]
pub enum Type2Error {
    /// Response length does not match expected format.
    InvalidLength,
    /// Capability Container magic byte is not 0xE1.
    InvalidMagic(u8),
    /// CC version not supported by this implementation.
    UnsupportedVersion { major: u8, minor: u8 },
    /// Tag responded with a NACK (4-bit error code).
    Nack(u8),
    /// TLV block is malformed.
    InvalidTlv,
    /// Tag is in READ-ONLY state.
    ReadOnly,
    /// Internal buffer is full.
    BufferFull,
    /// Block number or sector exceeds tag capacity.
    OutOfRange,
    /// Unknown command code when parsing.
    UnknownCommand(u8),
}

impl From<BufferFullError> for Type2Error {
    fn from(_e: BufferFullError) -> (r: Self) {
        Type2Error::BufferFull
    }
}

impl FromSpecImpl<BufferFullError> for Type2Error {
    open spec fn obeys_from_spec() -> bool {
        true
    }

    open spec fn from_spec(e: BufferFullError) -> Self {
        Type2Error::BufferFull
    }
}

/// One exchange with a tag: the bytes sent and what came back.
pub enum Exchange<E> {
    /// A command that the tag answers with a frame.
    Framed { cmd: Seq<u8>, reply: Result<Seq<u8>, E> },
    /// A command that the tag answers with silence, or with a NACK.
    Passive { cmd: Seq<u8>, nack: Result<Option<u8>, E> },
}

impl<E> Exchange<E> {
    /// The exchange in which `cmd` was sent and `reply` came back.
    pub open spec fn framed(cmd: Seq<u8>, reply: Result<FrameVec, E>) -> Self {
        Exchange::Framed {
            cmd,
            reply: match reply {
                Ok(frame) => Ok(frame.contents()),
                Err(e) => Err(e),
            },
        }
    }

    /// An exchange holds the bytes that were sent and the bytes, or the error, that came back.
    pub proof fn law_exchange(cmd: Seq<u8>, reply: Result<FrameVec, E>, nack: Result<Option<u8>, E>)
        ensures
            Self::framed(cmd, reply) is Framed,
            Self::framed(cmd, reply).sent() == cmd,
            (Exchange::<E>::Passive { cmd, nack }).sent() == cmd,
            reply matches Ok(frame) ==> Self::framed(cmd, reply)->reply == Ok::<Seq<u8>, E>(
                frame.contents(),
            ),
            reply matches Err(e) ==> Self::framed(cmd, reply)->reply == Err::<Seq<u8>, E>(e),
    {
    }

    /// The bytes that were sent.
    pub open spec fn sent(self) -> Seq<u8> {
        match self {
            Exchange::Framed { cmd, .. } => cmd,
            Exchange::Passive { cmd, .. } => cmd,
        }
    }
}

/// Hardware abstraction for NFC Type 2 Tag communication.
///
/// Implementors handle the physical layer including CRC_A. Commands are
/// provided **without** CRC; the transceiver appends CRC_A on transmit and
/// validates/strips it on receive.
///
/// Nothing is promised of what comes back. The methods only record, in
/// [`log`](T2TTransceiver::log), what was sent and what was returned for it.
pub trait T2TTransceiver {
    type Error;

    /// All exchanges made through this transceiver so far, in order.
    ///
    /// A verified implementation says how its value holds them. Any other one leaves this as it
    /// is: some function of the transceiver, of which nothing else is known.
    closed spec fn log(&self) -> Seq<Exchange<Self::Error>> {
        (choose|known: (&Self, Seq<Exchange<Self::Error>>)| #![trigger known.0] known.0 == self).1
    }

    /// Transmit a command and receive the response.
    ///
    /// - For READ: returns 16 payload bytes (CRC already stripped).
    /// - For WRITE / SECTOR SELECT Packet 1: returns a single byte containing
    ///   the 4-bit ACK (0x0A) or NACK value.
    fn transceive(&mut self, cmd: &[u8]) -> (r: Result<FrameVec, Self::Error>)
        ensures
            final(self).log() == old(self).log().push(Exchange::framed(cmd@, r)),
    ;

    /// Transmit a command expecting silence (passive ACK) or a NACK.
    ///
    /// Used for SECTOR SELECT Packet 2 where success means no response.
    /// Returns `Ok(None)` for passive ACK (success) or `Ok(Some(nack))` for a
    /// NACK response.
    fn transceive_no_response(&mut self, cmd: &[u8]) -> (r: Result<Option<u8>, Self::Error>)
        ensures
            final(self).log() == old(self).log().push(Exchange::Passive { cmd: cmd@, nack: r }),
    ;
}

/// READ command code (Section 5.1).
pub const CMD_READ: u8 = 0x30;

/// WRITE command code (Section 5.2).
pub const CMD_WRITE: u8 = 0xA2;

/// SECTOR SELECT command code (Section 5.3).
pub const CMD_SECTOR_SELECT: u8 = 0xC2;

/// ACK response value (4 bits).
pub const ACK: u8 = 0x0A;

/// Type 2 Tag command set.
#[derive(Debug, Clone, PartialEq, Eq)]
pub enum Command {
    /// READ: read 4 blocks (16 bytes) starting at `block_no`.
    ///
    /// Wire format: `[0x30, block_no]` + CRC_A.
    Read { block_no: u8 },
    /// WRITE: write 4 bytes to `block_no`.
    ///
    /// Wire format: `[0xA2, block_no, data[0..4]]` + CRC_A.
    Write { block_no: u8, data: [u8; 4] },
    /// SECTOR SELECT Packet 1.
    ///
    /// Wire format: `[0xC2, 0xFF]` + CRC_A.
    SectorSelectPart1,
    /// SECTOR SELECT Packet 2.
    ///
    /// Wire format: `[sector_no, 0x00, 0x00, 0x00]` + CRC_A.
    SectorSelectPart2 { sector_no: u8 },
}

impl Command {
    /// The wire bytes of a command, without CRC.
    pub open spec fn wire(self) -> Seq<u8> {
        match self {
            Command::Read { block_no } => seq![CMD_READ, block_no],
            Command::Write { block_no, data } => seq![CMD_WRITE, block_no] + data@,
            Command::SectorSelectPart1 => seq![CMD_SECTOR_SELECT, 0xFF],
            Command::SectorSelectPart2 { sector_no } => seq![sector_no, 0x00, 0x00, 0x00],
        }
    }

    /// The command that wire bytes stand for. Packet 2 of SECTOR SELECT has no command code
    /// and is never recognized.
    pub open spec fn of_wire(raw: Seq<u8>) -> Result<Command, Type2Error> {
        if raw.len() == 0 {
            Err(Type2Error::InvalidLength)
        } else if raw[0] == CMD_READ {
            if raw.len() < 2 {
                Err(Type2Error::InvalidLength)
            } else {
                Ok(Command::Read { block_no: raw[1] })
            }
        } else if raw[0] == CMD_WRITE {
            if raw.len() < 6 {
                Err(Type2Error::InvalidLength)
            } else {
                Ok(Command::Write { block_no: raw[1], data: [raw[2], raw[3], raw[4], raw[5]] })
            }
        } else if raw[0] == CMD_SECTOR_SELECT {
            if raw.len() < 2 || raw[1] != 0xFF {
                Err(Type2Error::InvalidLength)
            } else {
                Ok(Command::SectorSelectPart1)
            }
        } else {
            Err(Type2Error::UnknownCommand(raw[0]))
        }
    }

    /// What a response means to a command: READ wants 16 bytes, WRITE and packet 1 of SECTOR
    /// SELECT want a nibble, packet 2 wants silence.
    pub open spec fn answer(self, raw: Seq<u8>) -> Result<Answer, Type2Error> {
        match self {
            Command::Read { .. } => if raw.len() < 16 {
                Err(Type2Error::InvalidLength)
            } else {
                Ok(Answer::Data(Answer::first_16(raw)))
            },
            Command::Write { .. } | Command::SectorSelectPart1 => if raw.len() == 0 {
                Err(Type2Error::InvalidLength)
            } else if raw[0] & 0x0F == ACK {
                Ok(Answer::Ack)
            } else {
                Ok(Answer::Nack(raw[0] & 0x0F))
            },
            Command::SectorSelectPart2 { .. } => if raw.len() == 0 {
                Ok(Answer::PassiveAck)
            } else {
                Ok(Answer::Nack(raw[0] & 0x0F))
            },
        }
    }

    /// Serialize this command to wire bytes (without CRC).
    pub fn to_bytes(&self) -> (r: FrameVec)
        ensures
            r.contents() == self.wire(),
    {
        let mut v = crate::vec::frame_new();
        match self {
            Command::Read { block_no } => {
                let bytes = [CMD_READ, *block_no];
                let _ = v.try_extend(bytes.as_slice());
            },
            Command::Write { block_no, data } => {
                let head = [CMD_WRITE, *block_no];
                let _ = v.try_extend(head.as_slice());
                let _ = v.try_extend(data.as_slice());
            },
            Command::SectorSelectPart1 => {
                let bytes = [CMD_SECTOR_SELECT, 0xFF];
                let _ = v.try_extend(bytes.as_slice());
            },
            Command::SectorSelectPart2 { sector_no } => {
                let bytes = [*sector_no, 0x00, 0x00, 0x00];
                let _ = v.try_extend(bytes.as_slice());
            },
        }
        assert(v.contents() =~= self.wire());
        v
    }

    /// Parse a response for this command.
    ///
    /// The caller must provide the raw response bytes (CRC already stripped by
    /// the transceiver). For ACK/NACK responses the transceiver should return a
    /// single byte with the 4-bit value.
    pub fn parse_answer(&self, raw: &[u8]) -> (r: Result<Answer, Type2Error>)
        ensures
            r == self.answer(raw@),
            self is Write || self is SectorSelectPart1 ==> (r == Ok::<Answer, Type2Error>(
                Answer::Ack,
            ) <==> raw@.len() > 0 && raw@[0] & 0x0F == 0x0A),
    {
        match self {
            Command::Read { .. } => {
                if raw.len() < 16 {
                    return Err(Type2Error::InvalidLength);
                }
                let data = [
                    raw[0], raw[1], raw[2], raw[3], raw[4], raw[5], raw[6], raw[7],
                    raw[8], raw[9], raw[10], raw[11], raw[12], raw[13], raw[14], raw[15],
                ];
                Ok(Answer::Data(data))
            },
            Command::Write { .. } | Command::SectorSelectPart1 => {
                if raw.len() == 0 {
                    return Err(Type2Error::InvalidLength);
                }
                let val = raw[0] & 0x0F;
                if val == ACK {
                    Ok(Answer::Ack)
                } else {
                    Ok(Answer::Nack(val))
                }
            },
            Command::SectorSelectPart2 { .. } => {
                // Passive ACK = no response. If there are bytes, it is a NACK.
                if raw.len() == 0 {
                    Ok(Answer::PassiveAck)
                } else {
                    let val = raw[0] & 0x0F;
                    Ok(Answer::Nack(val))
                }
            },
        }
    }

    /// An answer to WRITE and to packet 1 of SECTOR SELECT is told by the lower half of its first
    /// byte: ten is the acknowledgement, and everything else is a refusal with that code. There
    /// has to be a byte.
    pub proof fn law_acknowledgement(self, raw: Seq<u8>)
        requires
            self is Write || self is SectorSelectPart1,
        ensures
            self.answer(raw) is Err <==> raw.len() == 0,
            self.answer(raw) == Ok::<Answer, Type2Error>(Answer::Ack) <==> raw.len() > 0 && raw[0]
                % 16 == 10,
            raw.len() > 0 && raw[0] % 16 != 10 ==> self.answer(raw) == Ok::<Answer, Type2Error>(
                Answer::Nack((raw[0] % 16) as u8),
            ),
            raw.len() == 0 ==> self.answer(raw) == Err::<Answer, Type2Error>(
                Type2Error::InvalidLength,
            ),
    {
        if raw.len() > 0 {
            let b = raw[0];
            assert(b & 0x0F == b % 16) by (bit_vector);
        }
    }

    /// An answer to packet 2 of SECTOR SELECT is a refusal, with the lower half of its first byte
    /// for a code. No answer is the acknowledgement.
    pub proof fn law_passive_acknowledgement(self, raw: Seq<u8>)
        requires
            self is SectorSelectPart2,
        ensures
            self.answer(raw) == Ok::<Answer, Type2Error>(Answer::PassiveAck) <==> raw.len() == 0,
            raw.len() > 0 ==> self.answer(raw) == Ok::<Answer, Type2Error>(
                Answer::Nack((raw[0] % 16) as u8),
            ),
    {
        if raw.len() > 0 {
            let b = raw[0];
            assert(b & 0x0F == b % 16) by (bit_vector);
        }
    }

    /// An answer to READ is the first 16 bytes, and there have to be as many.
    pub proof fn law_read_answer(self, raw: Seq<u8>)
        requires
            self is Read,
        ensures
            raw.len() < 16 ==> self.answer(raw) == Err::<Answer, Type2Error>(
                Type2Error::InvalidLength,
            ),
            raw.len() >= 16 ==> (self.answer(raw) matches Ok(Answer::Data(data)) && data@
                == raw.take(16)),
    {
        if raw.len() >= 16 {
            assert(Answer::first_16(raw)@ =~= raw.take(16));
        }
    }

    /// The bytes of each command.
    pub proof fn law_wire_bytes(self)
        ensures
            self matches Command::Read { block_no } ==> self.wire() == seq![0x30u8, block_no],
            self matches Command::Write { block_no, data } ==> self.wire() == seq![
                0xA2u8,
                block_no,
                data[0],
                data[1],
                data[2],
                data[3],
            ],
            self is SectorSelectPart1 ==> self.wire() == seq![0xC2u8, 0xFFu8],
            self matches Command::SectorSelectPart2 { sector_no } ==> self.wire() == seq![
                sector_no,
                0u8,
                0u8,
                0u8,
            ],
    {
        if let Command::Write { block_no, data } = self {
            assert(self.wire() =~= seq![0xA2u8, block_no, data[0], data[1], data[2], data[3]]);
        }
    }

    /// A slice is parsed by its bytes.
    pub proof fn law_parse_slice(raw: &[u8])
        ensures
            <Command as TryFromSpec<&[u8]>>::obeys_try_from_spec(),
            <Command as TryFromSpec<&[u8]>>::try_from_spec(raw) == Self::of_wire(raw@),
    {
    }

    /// Bytes are a command if they start with the bytes of one that carries a command code.
    /// Otherwise the error tells an unknown code from a command that is cut short or, for SECTOR
    /// SELECT, followed by another byte than it has to be.
    pub proof fn law_parse(raw: Seq<u8>)
        ensures
            Self::of_wire(raw) matches Ok(cmd) ==> !(cmd is SectorSelectPart2)
                && cmd.wire().is_prefix_of(raw),
            forall|cmd: Command|
                !(cmd is SectorSelectPart2) && (#[trigger] cmd.wire()).is_prefix_of(raw)
                    ==> Self::of_wire(raw) == Ok::<Command, Type2Error>(cmd),
            Self::of_wire(raw) is Err ==> Self::of_wire(raw) == Err::<Command, Type2Error>(
                if raw.len() > 0 && raw[0] != 0x30 && raw[0] != 0xA2 && raw[0] != 0xC2 {
                    Type2Error::UnknownCommand(raw[0])
                } else {
                    Type2Error::InvalidLength
                },
            ),
    {
        if let Ok(cmd) = Self::of_wire(raw) {
            assert(cmd.wire() =~= raw.take(cmd.wire().len() as int));
        }
        assert forall|cmd: Command|
            !(cmd is SectorSelectPart2) && (#[trigger] cmd.wire()).is_prefix_of(
                raw,
            ) implies Self::of_wire(raw) == Ok::<Command, Type2Error>(cmd) by {
            let rest = raw.skip(cmd.wire().len() as int);
            cmd.law_wire_roundtrip(rest);
            assert(cmd.wire() + rest =~= raw);
        }
    }

    /// Parsing the wire bytes of a command gives the command back, whatever follows them, for
    /// every command that carries a command code.
    pub proof fn law_wire_roundtrip(self, rest: Seq<u8>)
        requires
            !(self is SectorSelectPart2),
        ensures
            Self::of_wire(self.wire() + rest) == Ok::<Command, Type2Error>(self),
    {
        let raw = self.wire() + rest;
        assert(raw[0] == self.wire()[0]);
        assert(raw[1] == self.wire()[1]);
        if let Command::Write { block_no, data } = self {
            assert([raw[2], raw[3], raw[4], raw[5]] == data);
        }
    }

    /// No two commands have the same wire bytes.
    pub proof fn law_wire_injective(self, other: Command)
        requires
            self.wire() == other.wire(),
        ensures
            self == other,
    {
        if self.wire().len() == 6 {
            let (d1, d2) = (self->data, other->data);
            assert(d1@ =~= self.wire().subrange(2, 6));
            assert(d2@ =~= other.wire().subrange(2, 6));
            assert(self->Write_block_no == self.wire()[1]);
            assert(other->Write_block_no == other.wire()[1]);
            assert(d1 == d2);
        } else {
            assert(self.wire()[0] == other.wire()[0]);
            assert(self.wire()[1] == other.wire()[1]);
        }
    }
}

impl TryFrom<&[u8]> for Command {
    type Error = Type2Error;

    /// Parse a command from wire bytes (without CRC).
    fn try_from(raw: &[u8]) -> (r: Result<Self, Type2Error>) {
        if raw.len() == 0 {
            return Err(Type2Error::InvalidLength);
        }
        match raw[0] {
            CMD_READ => {
                if raw.len() < 2 {
                    return Err(Type2Error::InvalidLength);
                }
                Ok(Command::Read { block_no: raw[1] })
            },
            CMD_WRITE => {
                if raw.len() < 6 {
                    return Err(Type2Error::InvalidLength);
                }
                Ok(Command::Write { block_no: raw[1], data: [raw[2], raw[3], raw[4], raw[5]] })
            },
            CMD_SECTOR_SELECT => {
                if raw.len() < 2 {
                    return Err(Type2Error::InvalidLength);
                }
                if raw[1] == 0xFF {
                    Ok(Command::SectorSelectPart1)
                } else {
                    Err(Type2Error::InvalidLength)
                }
            },
            other => Err(Type2Error::UnknownCommand(other)),
        }
    }
}

impl TryFromSpecImpl<&[u8]> for Command {
    open spec fn obeys_try_from_spec() -> bool {
        true
    }

    open spec fn try_from_spec(raw: &[u8]) -> Result<Self, Type2Error> {
        Command::of_wire(raw@)
    }
}

/// Parsed response from a Type 2 Tag.
#[derive(Debug, Clone, PartialEq, Eq)]
pub enum Answer {
    /// 16 bytes of data from a READ command (4 blocks).
    Data([u8; 16]),
    /// ACK response (0x0A) to WRITE or SECTOR SELECT Packet 1.
    Ack,
    /// NACK response with the 4-bit error code.
    Nack(u8),
    /// Passive ACK (silence): SECTOR SELECT Packet 2 success.
    PassiveAck,
}

impl Answer {
    /// The first 16 bytes of a response.
    pub open spec fn first_16(raw: Seq<u8>) -> [u8; 16] {
        [
            raw[0], raw[1], raw[2], raw[3], raw[4], raw[5], raw[6], raw[7],
            raw[8], raw[9], raw[10], raw[11], raw[12], raw[13], raw[14], raw[15],
        ]
    }
}

} // verus!
