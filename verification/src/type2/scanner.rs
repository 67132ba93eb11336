//! TLV boundary scanner for detecting the Terminator TLV during data area reads.

use super::tlv;
use vstd::prelude::*;

verus! {

/// Where in the TLV stream the next byte stands.
#[derive(Debug, Clone, Copy, PartialEq, Eq, Structural)]
pub enum TlvScanState {
    /// Next byte is a TLV tag.
    Tag,
    /// Next byte is the first length byte.
    Length,
    /// Read first byte of 3-byte extended length; waiting for MSB.
    LengthExtMsb,
    /// Read MSB of extended length; waiting for LSB.
    LengthExtLsb(u8),
    /// Skipping this many value bytes.
    Value(u16),
}

impl TlvScanState {
    /// The state in which a value of `len` bytes comes next.
    pub open spec fn before_value(len: u16) -> TlvScanState {
        if len == 0 {
            TlvScanState::Tag
        } else {
            TlvScanState::Value(len)
        }
    }

    /// The state after one more byte, or `None` if the byte is a Terminator TLV.
    pub open spec fn step(self, byte: u8) -> Option<TlvScanState> {
        match self {
            TlvScanState::Tag => if byte == tlv::TLV_TERMINATOR {
                None
            } else if byte == tlv::TLV_NULL {
                Some(TlvScanState::Tag)
            } else {
                Some(TlvScanState::Length)
            },
            TlvScanState::Length => if byte == 0xFF {
                Some(TlvScanState::LengthExtMsb)
            } else {
                Some(Self::before_value(byte as u16))
            },
            TlvScanState::LengthExtMsb => Some(TlvScanState::LengthExtLsb(byte)),
            TlvScanState::LengthExtLsb(msb) => Some(
                Self::before_value((msb * 256 + byte) as u16),
            ),
            TlvScanState::Value(remaining) => if remaining <= 1 {
                Some(TlvScanState::Tag)
            } else {
                Some(TlvScanState::Value((remaining - 1) as u16))
            },
        }
    }

    /// The position after the first Terminator TLV in `bytes`, if byte `i` stands here in the TLV
    /// stream, or the number of bytes if there is none.
    pub open spec fn reach(self, bytes: Seq<u8>, i: int) -> int
        decreases bytes.len() - i,
    {
        if i >= bytes.len() {
            i
        } else {
            match self.step(bytes[i]) {
                None => i + 1,
                Some(next) => next.reach(bytes, i + 1),
            }
        }
    }

    /// The bytes of a TLV stream, up to and with the first Terminator TLV if there is one.
    pub open spec fn stream(bytes: Seq<u8>) -> Seq<u8> {
        bytes.take(TlvScanState::Tag.reach(bytes, 0))
    }

    /// Where the next byte stands, whatever the byte is. Only a byte where a tag is expected can be
    /// a Terminator TLV or a NULL TLV. A length field is one byte, or 0xFF and two bytes, the more
    /// significant one first, and as many bytes of value are passed over before the next tag.
    pub proof fn law_step(self, byte: u8)
        ensures
            self.step(byte) is None <==> self is Tag && byte == 0xFE,
            self is Tag && byte == 0x00 ==> self.step(byte) == Some(TlvScanState::Tag),
            self is Tag && byte != 0x00 && byte != 0xFE ==> self.step(byte) == Some(
                TlvScanState::Length,
            ),
            self is Length && byte == 0xFF ==> self.step(byte) == Some(TlvScanState::LengthExtMsb),
            self is Length && byte == 0 ==> self.step(byte) == Some(TlvScanState::Tag),
            self is Length && 0 < byte < 0xFF ==> self.step(byte) == Some(
                TlvScanState::Value(byte as u16),
            ),
            self is LengthExtMsb ==> self.step(byte) == Some(TlvScanState::LengthExtLsb(byte)),
            self matches TlvScanState::LengthExtLsb(msb) ==> {
                &&& msb == 0 && byte == 0 ==> self.step(byte) == Some(TlvScanState::Tag)
                &&& msb > 0 || byte > 0 ==> (self.step(byte) matches Some(
                    TlvScanState::Value(len),
                ) && len == 256 * msb + byte)
            },
            self matches TlvScanState::Value(left) ==> {
                &&& left <= 1 ==> self.step(byte) == Some(TlvScanState::Tag)
                &&& left > 1 ==> self.step(byte) == Some(TlvScanState::Value((left - 1) as u16))
            },
    {
    }

    /// The stream is taken in byte by byte, and ends with the first Terminator TLV or with the
    /// bytes.
    pub proof fn law_stream(self, bytes: Seq<u8>, i: int)
        requires
            0 <= i,
        ensures
            i >= bytes.len() ==> self.reach(bytes, i) == i,
            i < bytes.len() && self.step(bytes[i]) is None ==> self.reach(bytes, i) == i + 1,
            i < bytes.len() && self.step(bytes[i]) is Some ==> self.reach(bytes, i) == self.step(
                bytes[i],
            )->Some_0.reach(bytes, i + 1),
            Self::stream(bytes) == bytes.take(TlvScanState::Tag.reach(bytes, 0)),
    {
    }

    /// A stream ends inside the bytes, after at least one of them unless there is none.
    pub proof fn lemma_reach_bounds(self, bytes: Seq<u8>, i: int)
        requires
            0 <= i <= bytes.len(),
        ensures
            i <= self.reach(bytes, i) <= bytes.len(),
            i < bytes.len() ==> i < self.reach(bytes, i),
        decreases bytes.len() - i,
    {
        if i < bytes.len() {
            if let Some(next) = self.step(bytes[i]) {
                next.lemma_reach_bounds(bytes, i + 1);
            }
        }
    }
}

/// Lightweight TLV boundary scanner. Tracks the position within the TLV stream so that `0xFE`
/// bytes inside TLV values are not mistaken for a Terminator.
///
/// Feed bytes one at a time via [`TlvScanner::feed`].
pub struct TlvScanner {
    pub state: TlvScanState,
}

impl TlvScanner {
    /// A scanner at the start of a TLV stream.
    pub fn new() -> (r: Self)
        ensures
            r.state == TlvScanState::Tag,
    {
        Self { state: TlvScanState::Tag }
    }

    /// Feed the next data byte. Returns `true` if this byte is a Terminator TLV tag (0xFE),
    /// meaning the caller should stop reading.
    pub fn feed(&mut self, byte: u8) -> (r: bool)
        ensures
            match old(self).state.step(byte) {
                None => r && final(self).state == old(self).state,
                Some(next) => !r && final(self).state == next,
            },
            r <==> old(self).state is Tag && byte == 0xFE,
    {
        match self.state {
            TlvScanState::Tag => {
                if byte == tlv::TLV_TERMINATOR {
                    return true;
                }
                if byte != tlv::TLV_NULL {
                    self.state = TlvScanState::Length;
                }
            },
            TlvScanState::Length => {
                if byte == 0xFF {
                    // 3-byte length: 0xFF + MSB + LSB.
                    self.state = TlvScanState::LengthExtMsb;
                } else if byte == 0 {
                    self.state = TlvScanState::Tag;
                } else {
                    self.state = TlvScanState::Value(byte as u16);
                }
            },
            TlvScanState::LengthExtMsb => {
                self.state = TlvScanState::LengthExtLsb(byte);
            },
            TlvScanState::LengthExtLsb(msb) => {
                let len = msb as u16 * 256 + byte as u16;
                if len == 0 {
                    self.state = TlvScanState::Tag;
                } else {
                    self.state = TlvScanState::Value(len);
                }
            },
            TlvScanState::Value(remaining) => {
                if remaining <= 1 {
                    self.state = TlvScanState::Tag;
                } else {
                    self.state = TlvScanState::Value(remaining - 1);
                }
            },
        }
        false
    }
}

} // verus!
