//! TLV (Tag-Length-Value) length encoding shared by the NFC Forum tag types.
//!
//! - **1-byte**: values 0x00 to 0xFE encode the length directly;
//! - **3-byte**: 0xFF followed by a 2-byte big-endian length (0x00FF to 0xFFFE).

use crate::vec::{BufferFullError, DataVec, VecExt};
use vstd::prelude::*;
use vstd::std_specs::convert::FromSpecImpl;

verus! {

/// Largest length that a TLV length field can represent: 0xFFFF is reserved.
pub const MAX_TLV_LENGTH: u16 = 0xFFFE;

/// Error during TLV parsing or encoding.
#[derive(Debug, Clone, Copy, PartialEq, Eq, Structural)]
pub enum TlvError {
    /// TLV structure is malformed (truncated length, out of bounds).
    InvalidTlv,
    /// Buffer is full.
    BufferFull,
}

impl From<BufferFullError> for TlvError {
    fn from(_e: BufferFullError) -> (r: Self) {
        TlvError::BufferFull
    }
}

impl FromSpecImpl<BufferFullError> for TlvError {
    open spec fn obeys_from_spec() -> bool {
        true
    }

    open spec fn from_spec(e: BufferFullError) -> Self {
        TlvError::BufferFull
    }
}

/// The length field at `offset`: its value and its width in bytes, or `None` if the data ends
/// before it does.
pub open spec fn length_at(data: Seq<u8>, offset: int) -> Option<(u16, int)> {
    if offset >= data.len() {
        None
    } else if data[offset] < 0xFF {
        Some((data[offset] as u16, 1))
    } else if offset + 3 > data.len() {
        None
    } else {
        Some(((data[offset + 1] * 256 + data[offset + 2]) as u16, 3))
    }
}

/// The length field that encodes `len`: one byte below 255, else 0xFF and two big-endian bytes.
pub open spec fn length_field(len: u16) -> Seq<u8> {
    if len < 0xFF {
        seq![len as u8]
    } else {
        seq![0xFFu8, (len / 256) as u8, (len % 256) as u8]
    }
}

/// Parse the TLV length field starting at `data[offset]`.
///
/// Returns `(length_value, bytes_consumed)` where `bytes_consumed` is 1 for the short format
/// or 3 for the long format.
pub fn parse_tlv_length(data: &[u8], offset: usize) -> (r: Result<(u16, usize), TlvError>)
    ensures
        match length_at(data@, offset as int) {
            Some((len, width)) => r matches Ok((l, w)) && l == len && w == width,
            None => r == Err::<(u16, usize), TlvError>(TlvError::InvalidTlv),
        },
{
    if offset >= data.len() {
        return Err(TlvError::InvalidTlv);
    }
    let first = data[offset];
    if first < 0xFF {
        Ok((first as u16, 1))
    } else {
        if data.len() - offset < 3 {
            return Err(TlvError::InvalidTlv);
        }
        let len = data[offset + 1] as u16 * 256 + data[offset + 2] as u16;
        Ok((len, 3))
    }
}

/// Encode a TLV length field into `out`.
///
/// Uses the 1-byte format for lengths < 255, or the 3-byte format (0xFF prefix + 2-byte
/// big-endian) for lengths >= 255. If the buffer fills up in between, the 0xFF prefix may
/// already have been written.
pub fn encode_tlv_length(len: u16, out: &mut DataVec) -> (r: Result<(), TlvError>)
    ensures
        match r {
            Ok(()) => final(out).contents() == old(out).contents() + length_field(len)
                && final(out).contents().len() <= DataVec::limit(),
            Err(e) => e == TlvError::BufferFull && old(out).contents().len() + length_field(
                len,
            ).len() > DataVec::limit() && final(out).contents() == (if len >= 0xFF
                && old(out).contents().len() < DataVec::limit() {
                old(out).contents().push(0xFF)
            } else {
                old(out).contents()
            }),
        },
{
    if len < 0xFF {
        match out.try_push(len as u8) {
            Ok(()) => {},
            Err(e) => return Err(TlvError::from(e)),
        }
        assert(out.contents() =~= old(out).contents() + length_field(len));
    } else {
        match out.try_push(0xFF) {
            Ok(()) => {},
            Err(e) => return Err(TlvError::from(e)),
        }
        let be = [(len / 256) as u8, (len % 256) as u8];
        match out.try_extend(be.as_slice()) {
            Ok(()) => {},
            Err(e) => return Err(TlvError::from(e)),
        }
        assert(out.contents() =~= old(out).contents() + length_field(len));
    }
    Ok(())
}

/// A length field is one byte, unless that byte is 0xFF: then the two bytes behind it are the
/// length, the more significant one first. It cannot be read where the data ends before it does,
/// and everywhere else it can.
pub proof fn law_length_meaning(data: Seq<u8>, offset: int)
    requires
        0 <= offset,
    ensures
        length_at(data, offset) is Some <==> offset < data.len() && (data[offset] == 255 ==> offset
            + 2 < data.len()),
        length_at(data, offset) matches Some((len, width)) ==> {
            &&& width == (if data[offset] == 255 {
                3int
            } else {
                1int
            })
            &&& width == 1 ==> len == data[offset]
            &&& width == 3 ==> len == 256 * data[offset + 1] + data[offset + 2]
        },
{
}

/// A length is encoded in one byte if it is below 255, and else in three, of which the last two
/// are the length, the more significant one first.
pub proof fn law_length_encoding(len: u16)
    ensures
        len < 255 <==> length_field(len).len() == 1,
        len >= 255 <==> length_field(len).len() == 3,
        len < 255 ==> length_field(len)[0] == len,
        len >= 255 ==> length_field(len)[0] == 255 && 256 * length_field(len)[1] + length_field(
            len,
        )[2] == len,
        MAX_TLV_LENGTH == 0xFFFE,
{
}

/// Parsing an encoded length gives the length back, and consumes exactly its encoding,
/// wherever the encoding stands in the data.
pub proof fn law_length_roundtrip(before: Seq<u8>, len: u16, after: Seq<u8>)
    ensures
        length_at(before + length_field(len) + after, before.len() as int) == Some(
            (len, length_field(len).len() as int),
        ),
{
    let data = before + length_field(len) + after;
    assert(data[before.len() as int] == length_field(len)[0]);
    if len >= 0xFF {
        assert(data[before.len() as int + 1] == length_field(len)[1]);
        assert(data[before.len() as int + 2] == length_field(len)[2]);
    }
}

} // verus!
