//! TLV block parsing and building for Type 2 Tags.
//!
//! The data area of a Type 2 Tag contains a sequence of TLV blocks
//! (Section 2.3 of T2TOP 1.1):
//!
//! | Tag | Name             | L field | V field              |
//! |-----|------------------|---------|----------------------|
//! | 00h | NULL             | -       | -                    |
//! | 01h | Lock Control     | 03h     | position/size/ctrl   |
//! | 02h | Memory Control   | 03h     | position/size/ctrl   |
//! | 03h | NDEF Message     | var     | NDEF message bytes   |
//! | FDh | Proprietary      | var     | proprietary data     |
//! | FEh | Terminator       | -       | -                    |

use super::memory::ADDRESS_SPACE_END;
use super::Type2Error;
use crate::tlv::{self as shared, TlvError, MAX_TLV_LENGTH};
use crate::vec::{data_clone, data_new, data_slice, DataVec, VecExt, DATA_CAPACITY};
use vstd::arithmetic::power2::pow2;
use vstd::prelude::*;

verus! {

/// NULL TLV tag.
pub const TLV_NULL: u8 = 0x00;

/// Lock Control TLV tag.
pub const TLV_LOCK_CONTROL: u8 = 0x01;

/// Memory Control TLV tag.
pub const TLV_MEMORY_CONTROL: u8 = 0x02;

/// NDEF Message TLV tag.
pub const TLV_NDEF_MESSAGE: u8 = 0x03;

/// Proprietary TLV tag.
pub const TLV_PROPRIETARY: u8 = 0xFD;

/// Terminator TLV tag.
pub const TLV_TERMINATOR: u8 = 0xFE;

/// Number of TLV blocks that a parse can return.
pub const TLV_CAPACITY: usize = 4;

/// A parsed TLV block from the Type 2 Tag data area.
#[derive(Debug, PartialEq, Eq)]
pub enum Tlv {
    /// NULL TLV (0x00): padding, no length or value.
    Null,
    /// Lock Control TLV (0x01): describes dynamic lock bit positions.
    LockControl(LockControlValue),
    /// Memory Control TLV (0x02): describes reserved memory areas.
    MemoryControl(MemoryControlValue),
    /// NDEF Message TLV (0x03): contains the NDEF message payload.
    NdefMessage(DataVec),
    /// Proprietary TLV (0xFD): opaque vendor data.
    Proprietary(DataVec),
    /// Terminator TLV (0xFE): marks end of TLV area.
    Terminator,
}

/// What a [`Tlv`] stands for, with the bytes of its value.
pub enum TlvView {
    /// Padding.
    Null,
    /// A lock area descriptor.
    LockControl(LockControlValue),
    /// A reserved area descriptor.
    MemoryControl(MemoryControlValue),
    /// An NDEF message.
    NdefMessage(Seq<u8>),
    /// Vendor data.
    Proprietary(Seq<u8>),
    /// The end of the TLV area.
    Terminator,
}

impl View for Tlv {
    type V = TlvView;

    open spec fn view(&self) -> TlvView {
        match *self {
            Tlv::Null => TlvView::Null,
            Tlv::LockControl(v) => TlvView::LockControl(v),
            Tlv::MemoryControl(v) => TlvView::MemoryControl(v),
            Tlv::NdefMessage(data) => TlvView::NdefMessage(data.contents()),
            Tlv::Proprietary(data) => TlvView::Proprietary(data.contents()),
            Tlv::Terminator => TlvView::Terminator,
        }
    }
}

impl Tlv {
    /// A block stands for its kind and for all of its value.
    pub proof fn law_view(&self, tlvs: Seq<Tlv>, i: int)
        ensures
            *self is Null <==> self@ is Null,
            *self is Terminator <==> self@ is Terminator,
            *self matches Tlv::LockControl(v) ==> self@ == TlvView::LockControl(v),
            *self matches Tlv::MemoryControl(v) ==> self@ == TlvView::MemoryControl(v),
            *self matches Tlv::NdefMessage(data) ==> self@ == TlvView::NdefMessage(
                data.contents(),
            ),
            *self matches Tlv::Proprietary(data) ==> self@ == TlvView::Proprietary(
                data.contents(),
            ),
            views(tlvs).len() == tlvs.len(),
            0 <= i < tlvs.len() ==> views(tlvs)[i] == tlvs[i]@,
    {
    }
}

impl Clone for Tlv {
    fn clone(&self) -> (r: Self)
        ensures
            r@ == self@,
    {
        match self {
            Tlv::Null => Tlv::Null,
            Tlv::LockControl(v) => Tlv::LockControl(*v),
            Tlv::MemoryControl(v) => Tlv::MemoryControl(*v),
            Tlv::NdefMessage(data) => Tlv::NdefMessage(data_clone(data)),
            Tlv::Proprietary(data) => Tlv::Proprietary(data_clone(data)),
            Tlv::Terminator => Tlv::Terminator,
        }
    }
}

/// Lock Control TLV value (3 bytes, Section 2.3.2).
///
/// Describes the position and size of a dynamic lock area.
#[derive(Debug, Clone, Copy, PartialEq, Eq, Structural)]
pub struct LockControlValue {
    /// Page address (upper nibble of position byte).
    pub page_addr: u8,
    /// Byte offset within the page (lower nibble of position byte).
    pub byte_offset: u8,
    /// Number of dynamic lock bits (0x00 = 256).
    pub size_in_bits: u16,
    /// Bytes per page exponent: actual bytes = 2^bytes_per_page.
    pub bytes_per_page: u8,
    /// Bytes locked per lock bit exponent: actual bytes = 2^bytes_locked_per_bit.
    pub bytes_locked_per_bit: u8,
}

/// Whether the bytes `start .. start + size` all lie in the tag's addressable memory.
pub open spec fn in_address_space(start: int, size: int) -> bool {
    start < ADDRESS_SPACE_END && start + size <= ADDRESS_SPACE_END
}

impl LockControlValue {
    /// Byte address of the lock area start.
    pub open spec fn start(self) -> int {
        self.page_addr * pow2(self.bytes_per_page as nat) + self.byte_offset
    }

    /// Number of lock bytes: one for each eight lock bits, the last one possibly partly used.
    pub open spec fn lock_bytes(self) -> int {
        (self.size_in_bits + 7) / 8
    }

    /// Whether the address and the number of bytes that a lock bit protects can be computed.
    pub open spec fn in_bounds(self) -> bool {
        self.bytes_per_page < 32 && self.start() <= u32::MAX && self.bytes_locked_per_bit < 16
    }

    /// Whether three bytes can carry the descriptor, and it describes addressable bytes.
    pub open spec fn is_canonical(self) -> bool {
        &&& self.page_addr <= 0x0F
        &&& self.byte_offset <= 0x0F
        &&& 1 <= self.size_in_bits <= 256
        &&& 1 <= self.bytes_per_page <= 0x0F
        &&& 1 <= self.bytes_locked_per_bit <= 0x0F
        &&& in_address_space(self.start(), self.lock_bytes())
    }

    /// The fields that three bytes carry.
    pub open spec fn fields(bytes: [u8; 3]) -> LockControlValue {
        LockControlValue {
            page_addr: bytes[0] >> 4,
            byte_offset: bytes[0] & 0x0F,
            size_in_bits: if bytes[1] == 0 {
                256
            } else {
                bytes[1] as u16
            },
            bytes_per_page: bytes[2] & 0x0F,
            bytes_locked_per_bit: bytes[2] >> 4,
        }
    }

    /// The descriptor that three bytes stand for: no exponent is zero, and the lock area lies in
    /// the address space.
    pub open spec fn decoded(bytes: [u8; 3]) -> Result<LockControlValue, Type2Error> {
        let value = Self::fields(bytes);
        if value.bytes_per_page != 0 && value.bytes_locked_per_bit != 0 && in_address_space(
            value.start(),
            value.lock_bytes(),
        ) {
            Ok(value)
        } else {
            Err(Type2Error::InvalidTlv)
        }
    }

    /// The three bytes that encode a descriptor.
    pub open spec fn encoded(self) -> [u8; 3] {
        [
            (self.page_addr << 4) | (self.byte_offset & 0x0F),
            (self.size_in_bits % 256) as u8,
            (self.bytes_locked_per_bit << 4) | (self.bytes_per_page & 0x0F),
        ]
    }

    /// Byte address of the lock area start in the tag's linear address space.
    ///
    /// Computed in `u32`: `bytes_per_page` may encode a page size up to `2^15`, so a
    /// standards-valid control TLV can describe an address far above `u16::MAX` (e.g.
    /// `PageAddr = 7`, `BytesPerPage = 15` is byte 229,376).
    pub fn byte_address(&self) -> (r: u32)
        requires
            self.bytes_per_page < 32,
            self.start() <= u32::MAX,
        ensures
            r == self.start(),
    {
        page_address(self.page_addr, self.bytes_per_page, self.byte_offset)
    }

    /// Number of lock bytes (ceiling of size_in_bits / 8).
    pub fn lock_byte_count(&self) -> (r: u16)
        ensures
            r == self.lock_bytes(),
    {
        if self.size_in_bits % 8 == 0 {
            self.size_in_bits / 8
        } else {
            self.size_in_bits / 8 + 1
        }
    }

    /// Number of data bytes each lock bit protects.
    pub fn bytes_per_lock_bit(&self) -> (r: u16)
        requires
            self.bytes_locked_per_bit < 16,
        ensures
            r == pow2(self.bytes_locked_per_bit as nat),
    {
        proof {
            vstd::bits::lemma_u16_pow2_no_overflow(self.bytes_locked_per_bit as nat);
            vstd::bits::lemma_u16_shl_is_mul(1, self.bytes_locked_per_bit as u16);
        }
        1u16 << self.bytes_locked_per_bit as u16
    }

    /// Parse from 3 raw bytes.
    ///
    /// A descriptor with a zero exponent, or one that reaches outside the tag's addressable
    /// memory, is rejected.
    pub fn from_bytes(bytes: [u8; 3]) -> (r: Result<Self, Type2Error>)
        ensures
            r == Self::decoded(bytes),
            r is Ok ==> r->Ok_0.is_canonical(),
    {
        let page_addr = bytes[0] >> 4;
        let byte_offset = bytes[0] & 0x0F;
        let size_in_bits: u16 = if bytes[1] == 0 {
            256
        } else {
            bytes[1] as u16
        };
        let bytes_per_page = bytes[2] & 0x0F;
        let bytes_locked_per_bit = bytes[2] >> 4;
        proof {
            lemma_nibbles(bytes[0]);
            lemma_nibbles(bytes[2]);
        }

        if bytes_per_page == 0 || bytes_locked_per_bit == 0 {
            return Err(Type2Error::InvalidTlv);
        }
        let value = LockControlValue {
            page_addr,
            byte_offset,
            size_in_bits,
            bytes_per_page,
            bytes_locked_per_bit,
        };
        assert(value == Self::fields(bytes));
        proof {
            lemma_page_address_fits(page_addr, bytes_per_page, byte_offset);
        }
        match check_area_in_address_space(value.byte_address(), value.lock_byte_count()) {
            Ok(()) => {},
            Err(e) => return Err(e),
        }
        Ok(value)
    }

    /// Serialize to 3 bytes.
    pub fn to_bytes(&self) -> (r: [u8; 3])
        ensures
            r == self.encoded(),
    {
        let size_raw: u8 = if self.size_in_bits == 256 {
            0
        } else {
            #[verifier::truncate]
            (self.size_in_bits as u8)
        };
        proof {
            lemma_low_byte(self.size_in_bits);
        }
        [
            (self.page_addr << 4) | (self.byte_offset & 0x0F),
            size_raw,
            (self.bytes_locked_per_bit << 4) | (self.bytes_per_page & 0x0F),
        ]
    }

    pub proof fn lemma_start_nonnegative(self)
        ensures
            self.start() >= 0,
    {
        assert(self.page_addr * pow2(self.bytes_per_page as nat) >= 0) by (nonlinear_arith);
    }

    /// Three bytes describe a lock area if both halves of the last one are above zero and the
    /// lock bytes lie in the 255 sectors of a tag. Its fields are the bytes and halves of bytes,
    /// but for a size of zero, which stands for 256 bits.
    pub proof fn law_decode(bytes: [u8; 3])
        ensures
            ({
                let (page, offset) = ((bytes[0] / 16) as int, (bytes[0] % 16) as int);
                let (exponent, locked) = ((bytes[2] % 16) as nat, (bytes[2] / 16) as nat);
                let bits = if bytes[1] == 0 {
                    256
                } else {
                    bytes[1] as int
                };
                let first = page * pow2(exponent) + offset;
                &&& Self::decoded(bytes) is Ok <==> exponent > 0 && locked > 0 && 8 * first + bits
                    <= 8 * 255 * 1024
                &&& Self::decoded(bytes) is Err ==> Self::decoded(bytes) == Err::<
                    LockControlValue,
                    Type2Error,
                >(Type2Error::InvalidTlv)
                &&& Self::decoded(bytes) matches Ok(value) ==> {
                    &&& value.page_addr == page
                    &&& value.byte_offset == offset
                    &&& value.size_in_bits == bits
                    &&& value.bytes_per_page == exponent
                    &&& value.bytes_locked_per_bit == locked
                    &&& value.start() == first
                    &&& value.lock_bytes() == (bits + 7) / 8
                }
            }),
    {
        let (a, c) = (bytes[0], bytes[2]);
        assert(a >> 4 == a / 16 && a & 0x0F == a % 16 && c >> 4 == c / 16 && c & 0x0F == c % 16)
            by (bit_vector);
    }

    /// The three bytes of a descriptor hold its fields, each cut to its byte or half of a byte.
    pub proof fn law_encode(self)
        ensures
            self.in_bounds() <==> self.bytes_per_page < 32 && self.bytes_locked_per_bit < 16
                && self.page_addr * pow2(self.bytes_per_page as nat) + self.byte_offset
                <= 0xFFFF_FFFF,
            self.encoded()[0] == self.page_addr % 16 * 16 + self.byte_offset % 16,
            self.encoded()[1] == self.size_in_bits % 256,
            self.encoded()[2] == self.bytes_locked_per_bit % 16 * 16 + self.bytes_per_page % 16,
            self.start() == self.page_addr * pow2(self.bytes_per_page as nat) + self.byte_offset,
            self.lock_bytes() == (self.size_in_bits + 7) / 8,
    {
        lemma_joined_value(self.page_addr, self.byte_offset);
        lemma_joined_value(self.bytes_locked_per_bit, self.bytes_per_page);
    }

    /// Parsing the bytes of a descriptor gives the descriptor back.
    pub proof fn law_encode_then_decode(self)
        requires
            self.is_canonical(),
        ensures
            Self::decoded(self.encoded()) == Ok::<LockControlValue, Type2Error>(self),
    {
        lemma_join_nibbles(self.page_addr, self.byte_offset);
        lemma_join_nibbles(self.bytes_locked_per_bit, self.bytes_per_page);
        assert(Self::fields(self.encoded()) == self);
    }

    /// Serializing what three bytes were parsed into gives the bytes back.
    pub proof fn law_decode_then_encode(bytes: [u8; 3])
        requires
            Self::decoded(bytes) is Ok,
        ensures
            Self::decoded(bytes)->Ok_0.encoded() == bytes,
    {
        lemma_nibbles(bytes[0]);
        lemma_nibbles(bytes[2]);
        assert(Self::decoded(bytes)->Ok_0.encoded()@ =~= bytes@);
    }

    /// A parsed descriptor never reaches outside the address space, and its address can be
    /// computed.
    pub proof fn law_decoded_in_address_space(bytes: [u8; 3])
        requires
            Self::decoded(bytes) is Ok,
        ensures
            Self::decoded(bytes)->Ok_0.is_canonical(),
            Self::decoded(bytes)->Ok_0.in_bounds(),
    {
        lemma_nibbles(bytes[0]);
        lemma_nibbles(bytes[2]);
    }
}

/// Memory Control TLV value (3 bytes, Section 2.3.3).
///
/// Describes the position and size of a reserved memory area.
#[derive(Debug, Clone, Copy, PartialEq, Eq, Structural)]
pub struct MemoryControlValue {
    /// Page address (upper nibble of position byte).
    pub page_addr: u8,
    /// Byte offset within the page (lower nibble of position byte).
    pub byte_offset: u8,
    /// Size of the reserved area in bytes (0x00 = 256).
    pub size_in_bytes: u16,
    /// Bytes per page exponent: actual bytes = 2^bytes_per_page.
    pub bytes_per_page: u8,
}

impl MemoryControlValue {
    /// Byte address of the reserved area start.
    pub open spec fn start(self) -> int {
        self.page_addr * pow2(self.bytes_per_page as nat) + self.byte_offset
    }

    /// Whether the address can be computed.
    pub open spec fn in_bounds(self) -> bool {
        self.bytes_per_page < 32 && self.start() <= u32::MAX
    }

    /// Whether three bytes can carry the descriptor, and it describes addressable bytes.
    pub open spec fn is_canonical(self) -> bool {
        &&& self.page_addr <= 0x0F
        &&& self.byte_offset <= 0x0F
        &&& 1 <= self.size_in_bytes <= 256
        &&& 1 <= self.bytes_per_page <= 0x0F
        &&& in_address_space(self.start(), self.size_in_bytes as int)
    }

    /// The fields that three bytes carry. The upper nibble of the last byte carries none.
    pub open spec fn fields(bytes: [u8; 3]) -> MemoryControlValue {
        MemoryControlValue {
            page_addr: bytes[0] >> 4,
            byte_offset: bytes[0] & 0x0F,
            size_in_bytes: if bytes[1] == 0 {
                256
            } else {
                bytes[1] as u16
            },
            bytes_per_page: bytes[2] & 0x0F,
        }
    }

    /// The descriptor that three bytes stand for: the exponent is not zero, and the reserved
    /// area lies in the address space.
    pub open spec fn decoded(bytes: [u8; 3]) -> Result<MemoryControlValue, Type2Error> {
        let value = Self::fields(bytes);
        if value.bytes_per_page != 0 && in_address_space(
            value.start(),
            value.size_in_bytes as int,
        ) {
            Ok(value)
        } else {
            Err(Type2Error::InvalidTlv)
        }
    }

    /// The three bytes that encode a descriptor.
    pub open spec fn encoded(self) -> [u8; 3] {
        [
            (self.page_addr << 4) | (self.byte_offset & 0x0F),
            (self.size_in_bytes % 256) as u8,
            self.bytes_per_page & 0x0F,
        ]
    }

    /// Byte address of the reserved area start.
    ///
    /// Computed in `u32` for the same reason as [`LockControlValue::byte_address`].
    pub fn byte_address(&self) -> (r: u32)
        requires
            self.in_bounds(),
        ensures
            r == self.start(),
    {
        page_address(self.page_addr, self.bytes_per_page, self.byte_offset)
    }

    /// Parse from 3 raw bytes.
    ///
    /// A descriptor with a zero exponent, or one that reaches outside the tag's addressable
    /// memory, is rejected.
    pub fn from_bytes(bytes: [u8; 3]) -> (r: Result<Self, Type2Error>)
        ensures
            r == Self::decoded(bytes),
            r is Ok ==> r->Ok_0.is_canonical(),
    {
        let page_addr = bytes[0] >> 4;
        let byte_offset = bytes[0] & 0x0F;
        let size_in_bytes: u16 = if bytes[1] == 0 {
            256
        } else {
            bytes[1] as u16
        };
        let bytes_per_page = bytes[2] & 0x0F;
        proof {
            lemma_nibbles(bytes[0]);
            lemma_nibbles(bytes[2]);
        }

        if bytes_per_page == 0 {
            return Err(Type2Error::InvalidTlv);
        }
        let value = MemoryControlValue { page_addr, byte_offset, size_in_bytes, bytes_per_page };
        assert(value == Self::fields(bytes));
        proof {
            lemma_page_address_fits(page_addr, bytes_per_page, byte_offset);
        }
        match check_area_in_address_space(value.byte_address(), value.size_in_bytes) {
            Ok(()) => {},
            Err(e) => return Err(e),
        }
        Ok(value)
    }

    /// Serialize to 3 bytes.
    pub fn to_bytes(&self) -> (r: [u8; 3])
        ensures
            r == self.encoded(),
    {
        let size_raw: u8 = if self.size_in_bytes == 256 {
            0
        } else {
            #[verifier::truncate]
            (self.size_in_bytes as u8)
        };
        proof {
            lemma_low_byte(self.size_in_bytes);
        }
        [
            (self.page_addr << 4) | (self.byte_offset & 0x0F),
            size_raw,
            self.bytes_per_page & 0x0F,
        ]
    }

    pub proof fn lemma_start_nonnegative(self)
        ensures
            self.start() >= 0,
    {
        assert(self.page_addr * pow2(self.bytes_per_page as nat) >= 0) by (nonlinear_arith);
    }

    /// Three bytes describe a reserved area if the lower half of the last one is above zero and
    /// the reserved bytes lie in the 255 sectors of a tag. Its fields are the bytes and halves of
    /// bytes, but for a size of zero, which stands for 256 bytes.
    pub proof fn law_decode(bytes: [u8; 3])
        ensures
            ({
                let (page, offset) = ((bytes[0] / 16) as int, (bytes[0] % 16) as int);
                let exponent = (bytes[2] % 16) as nat;
                let size = if bytes[1] == 0 {
                    256
                } else {
                    bytes[1] as int
                };
                let first = page * pow2(exponent) + offset;
                &&& Self::decoded(bytes) is Ok <==> exponent > 0 && first + size <= 255 * 1024
                &&& Self::decoded(bytes) is Err ==> Self::decoded(bytes) == Err::<
                    MemoryControlValue,
                    Type2Error,
                >(Type2Error::InvalidTlv)
                &&& Self::decoded(bytes) matches Ok(value) ==> {
                    &&& value.page_addr == page
                    &&& value.byte_offset == offset
                    &&& value.size_in_bytes == size
                    &&& value.bytes_per_page == exponent
                    &&& value.start() == first
                }
            }),
    {
        let (a, c) = (bytes[0], bytes[2]);
        assert(a >> 4 == a / 16 && a & 0x0F == a % 16 && c & 0x0F == c % 16) by (bit_vector);
    }

    /// The three bytes of a descriptor hold its fields, each cut to its byte or half of a byte.
    pub proof fn law_encode(self)
        ensures
            self.encoded()[0] == self.page_addr % 16 * 16 + self.byte_offset % 16,
            self.encoded()[1] == self.size_in_bytes % 256,
            self.encoded()[2] == self.bytes_per_page % 16,
            self.in_bounds() <==> self.bytes_per_page < 32 && self.page_addr * pow2(
                self.bytes_per_page as nat,
            ) + self.byte_offset <= 0xFFFF_FFFF,
            self.start() == self.page_addr * pow2(self.bytes_per_page as nat) + self.byte_offset,
    {
        lemma_joined_value(self.page_addr, self.byte_offset);
        lemma_joined_value(0, self.bytes_per_page);
        let e = self.bytes_per_page;
        assert(e & 0x0F == e % 16) by (bit_vector);
    }

    /// Parsing the bytes of a descriptor gives the descriptor back.
    pub proof fn law_encode_then_decode(self)
        requires
            self.is_canonical(),
        ensures
            Self::decoded(self.encoded()) == Ok::<MemoryControlValue, Type2Error>(self),
    {
        lemma_join_nibbles(self.page_addr, self.byte_offset);
        lemma_join_nibbles(0, self.bytes_per_page);
        let e = self.bytes_per_page;
        assert((e & 0x0F) & 0x0F == e) by (bit_vector)
            requires
                e <= 0x0F,
        ;
        assert(Self::fields(self.encoded()) == self);
    }

    /// Serializing what three bytes were parsed into gives the bytes back, with the unused nibble
    /// cleared.
    pub proof fn law_decode_then_encode(bytes: [u8; 3])
        requires
            Self::decoded(bytes) is Ok,
        ensures
            Self::decoded(bytes)->Ok_0.encoded() == [bytes[0], bytes[1], bytes[2] & 0x0F],
    {
        lemma_nibbles(bytes[0]);
        let e = bytes[2];
        assert((e & 0x0F) & 0x0F == e & 0x0F) by (bit_vector);
        assert(Self::decoded(bytes)->Ok_0.encoded()@ =~= [bytes[0], bytes[1], bytes[2] & 0x0F]@);
    }

    /// A parsed descriptor never reaches outside the address space, and its address can be
    /// computed.
    pub proof fn law_decoded_in_address_space(bytes: [u8; 3])
        requires
            Self::decoded(bytes) is Ok,
        ensures
            Self::decoded(bytes)->Ok_0.is_canonical(),
            Self::decoded(bytes)->Ok_0.in_bounds(),
    {
        lemma_nibbles(bytes[0]);
        lemma_nibbles(bytes[2]);
    }
}

proof fn lemma_nibbles(b: u8)
    ensures
        b >> 4 <= 0x0F,
        b & 0x0F <= 0x0F,
        ((b >> 4) << 4) | ((b & 0x0F) & 0x0F) == b,
{
    assert(b >> 4 <= 0x0F && b & 0x0F <= 0x0F && ((b >> 4) << 4) | ((b & 0x0F) & 0x0F) == b)
        by (bit_vector);
}

proof fn lemma_joined_value(hi: u8, lo: u8)
    ensures
        (hi << 4) | (lo & 0x0F) == hi % 16 * 16 + lo % 16,
{
    assert((hi << 4) | (lo & 0x0F) == hi % 16 * 16 + lo % 16) by (bit_vector);
}

proof fn lemma_join_nibbles(hi: u8, lo: u8)
    requires
        hi <= 0x0F,
        lo <= 0x0F,
    ensures
        ((hi << 4) | (lo & 0x0F)) >> 4 == hi,
        ((hi << 4) | (lo & 0x0F)) & 0x0F == lo,
{
    assert(((hi << 4) | (lo & 0x0F)) >> 4 == hi && ((hi << 4) | (lo & 0x0F)) & 0x0F == lo)
        by (bit_vector)
        requires
            hi <= 0x0F,
            lo <= 0x0F,
    ;
}

proof fn lemma_low_byte(x: u16)
    ensures
        x as u8 == x % 256,
{
    assert(x as u8 == x % 256) by (bit_vector);
}

proof fn lemma_page_address_fits(page: u8, exponent: u8, offset: u8)
    requires
        page <= 0x0F,
        exponent <= 0x0F,
    ensures
        page * pow2(exponent as nat) + offset <= u32::MAX,
{
    vstd::arithmetic::power2::lemma2_to64();
    if exponent < 15 {
        vstd::arithmetic::power2::lemma_pow2_strictly_increases(exponent as nat, 15);
    }
    assert(page * pow2(exponent as nat) <= 15 * 32768) by (nonlinear_arith)
        requires
            page <= 15,
            pow2(exponent as nat) <= 32768,
    ;
}

/// The address `offset` bytes into page `page`, for pages of `2^exponent` bytes.
fn page_address(page: u8, exponent: u8, offset: u8) -> (r: u32)
    requires
        exponent < 32,
        page * pow2(exponent as nat) + offset <= u32::MAX,
    ensures
        r == page * pow2(exponent as nat) + offset,
{
    proof {
        vstd::bits::lemma_u32_pow2_no_overflow(exponent as nat);
        vstd::bits::lemma_u32_shl_is_mul(1, exponent as u32);
    }
    let page_size = 1u32 << exponent as u32;
    page as u32 * page_size + offset as u32
}

/// Verify that a control descriptor's whole range lies inside the tag's addressable memory
/// (sectors `0x00` to `0xFE`).
///
/// This bounds the range against the *address space*, not against the Capability Container
/// data area: lock and reserved regions legitimately sit outside the data area.
fn check_area_in_address_space(start: u32, size: u16) -> (r: Result<(), Type2Error>)
    ensures
        r == (if in_address_space(start as int, size as int) {
            Ok(())
        } else {
            Err(Type2Error::InvalidTlv)
        }),
{
    let end = match start.checked_add(size as u32) {
        Some(end) => end,
        None => return Err(Type2Error::InvalidTlv),
    };
    if start >= ADDRESS_SPACE_END || end > ADDRESS_SPACE_END {
        return Err(Type2Error::InvalidTlv);
    }
    Ok(())
}

/// The blocks that a parse returns, at most [`TLV_CAPACITY`] of them.
pub type TlvVec = heapless::Vec<Tlv, TLV_CAPACITY>;

/// The blocks that a [`TlvVec`] holds, in order.
pub uninterp spec fn tlv_items(v: TlvVec) -> Seq<Tlv>;

/// `heapless::Vec::new`: the new vector is empty.
#[verifier::external_body]
fn tlvs_new() -> (v: TlvVec)
    ensures
        tlv_items(v) == Seq::<Tlv>::empty(),
{
    heapless::Vec::new()
}

/// `heapless::Vec::push`: appends the block while there is room, and hands it back otherwise.
#[verifier::external_body]
fn tlvs_push(v: &mut TlvVec, tlv: Tlv) -> (r: Result<(), Tlv>)
    ensures
        match r {
            Ok(()) => tlv_items(*old(v)).len() < TLV_CAPACITY && tlv_items(*final(v)) == tlv_items(
                *old(v),
            ).push(tlv),
            Err(back) => back == tlv && tlv_items(*old(v)).len() == TLV_CAPACITY && tlv_items(
                *final(v),
            ) == tlv_items(*old(v)),
        },
{
    v.push(tlv)
}

/// `heapless::Vec::as_slice`: the whole vector as a slice, which is never longer than the
/// capacity.
#[verifier::external_body]
pub(crate) fn tlvs_slice(v: &TlvVec) -> (s: &[Tlv])
    ensures
        s@ == tlv_items(*v),
        s@.len() <= TLV_CAPACITY,
{
    v.as_slice()
}

/// What each of the blocks stands for.
pub open spec fn views(tlvs: Seq<Tlv>) -> Seq<TlvView> {
    tlvs.map_values(|t: Tlv| t@)
}

impl TlvView {
    /// Whether the block has neither a length nor a value.
    pub open spec fn bare(tag: u8) -> bool {
        tag == TLV_NULL || tag == TLV_TERMINATOR
    }

    /// The block at `at`: what it stands for (`None` for an unknown tag, which is passed over)
    /// and where the next one starts.
    pub open spec fn block_at(data: Seq<u8>, at: int) -> Result<
        (Option<TlvView>, int),
        Type2Error,
    > {
        let tag = data[at];
        if tag == TLV_NULL {
            Ok((Some(TlvView::Null), at + 1))
        } else if tag == TLV_TERMINATOR {
            Ok((Some(TlvView::Terminator), at + 1))
        } else {
            match shared::length_at(data, at + 1) {
                None => Err(Type2Error::InvalidTlv),
                Some((len, width)) => Self::value_at(data, tag, at + 1 + width, len as int),
            }
        }
    }

    /// The block with tag `tag` whose value is the `len` bytes at `start`.
    pub open spec fn value_at(data: Seq<u8>, tag: u8, start: int, len: int) -> Result<
        (Option<TlvView>, int),
        Type2Error,
    > {
        if start + len > data.len() {
            Err(Type2Error::InvalidTlv)
        } else if tag == TLV_LOCK_CONTROL {
            if len != 3 {
                Err(Type2Error::InvalidTlv)
            } else {
                match LockControlValue::decoded([data[start], data[start + 1], data[start + 2]]) {
                    Ok(v) => Ok((Some(TlvView::LockControl(v)), start + 3)),
                    Err(e) => Err(e),
                }
            }
        } else if tag == TLV_MEMORY_CONTROL {
            if len != 3 {
                Err(Type2Error::InvalidTlv)
            } else {
                match MemoryControlValue::decoded([data[start], data[start + 1], data[start + 2]]) {
                    Ok(v) => Ok((Some(TlvView::MemoryControl(v)), start + 3)),
                    Err(e) => Err(e),
                }
            }
        } else if tag == TLV_NDEF_MESSAGE || tag == TLV_PROPRIETARY {
            if len > DATA_CAPACITY {
                Err(Type2Error::BufferFull)
            } else if tag == TLV_NDEF_MESSAGE {
                Ok((Some(TlvView::NdefMessage(data.subrange(start, start + len))), start + len))
            } else {
                Ok((Some(TlvView::Proprietary(data.subrange(start, start + len))), start + len))
            }
        } else {
            Ok((None, start + len))
        }
    }

    /// The blocks from `at` on, up to a terminator or the end of the data, if there are at most
    /// `room` of them.
    pub open spec fn parsed_from(data: Seq<u8>, at: int, room: nat) -> Result<
        Seq<TlvView>,
        Type2Error,
    >
        decreases data.len() - at,
    {
        if at < 0 || at >= data.len() {
            Ok(seq![])
        } else {
            match Self::block_at(data, at) {
                Err(e) => Err(e),
                Ok((None, next)) => Self::parsed_from(data, next, room),
                Ok((Some(block), next)) => if room == 0 {
                    Err(Type2Error::BufferFull)
                } else if block is Terminator {
                    Ok(seq![block])
                } else {
                    match Self::parsed_from(data, next, (room - 1) as nat) {
                        Ok(rest) => Ok(seq![block] + rest),
                        Err(e) => Err(e),
                    }
                },
            }
        }
    }

    /// The blocks of a data area.
    pub open spec fn parsed(data: Seq<u8>) -> Result<Seq<TlvView>, Type2Error> {
        Self::parsed_from(data, 0, TLV_CAPACITY as nat)
    }

    /// The blocks from `at` on that come before the first malformed one, up to a terminator, at
    /// most `room` of them.
    pub open spec fn found_from(data: Seq<u8>, at: int, room: nat) -> Seq<TlvView>
        decreases data.len() - at,
    {
        if at < 0 || at >= data.len() {
            seq![]
        } else {
            match Self::block_at(data, at) {
                Err(_) => seq![],
                Ok((None, next)) => Self::found_from(data, next, room),
                Ok((Some(block), next)) => if room == 0 {
                    seq![]
                } else if block is Terminator {
                    seq![block]
                } else {
                    seq![block] + Self::found_from(data, next, (room - 1) as nat)
                },
            }
        }
    }

    /// What becomes of some blocks when those of a data area are appended, as far as there is room
    /// and up to the first malformed one, and the error that ends it, if one does.
    pub open spec fn appended(have: Seq<TlvView>, data: Seq<u8>) -> (
        Seq<TlvView>,
        Option<Type2Error>,
    ) {
        let room = (TLV_CAPACITY - have.len()) as nat;
        match Self::parsed_from(data, 0, room) {
            Ok(blocks) => (have + blocks, None),
            Err(e) => (have + Self::found_from(data, 0, room), Some(e)),
        }
    }

    /// Where the first NDEF Message TLV starts, from `at` on, if one comes before a Terminator TLV
    /// and before anything malformed. Blocks of every kind are passed over at their full length.
    pub open spec fn ndef_position(data: Seq<u8>, at: int) -> Option<int>
        decreases data.len() - at,
    {
        if at < 0 || at >= data.len() {
            None
        } else {
            match Self::block_at(data, at) {
                Err(_) => None,
                Ok((Some(TlvView::NdefMessage(_)), _)) => Some(at),
                Ok((Some(TlvView::Terminator), _)) => None,
                Ok((_, next)) => Self::ndef_position(data, next),
            }
        }
    }

    /// The control blocks from `at` on that come before the first NDEF Message TLV, Terminator TLV
    /// or malformed block, at most `room` of them.
    pub open spec fn controls_from(data: Seq<u8>, at: int, room: nat) -> Seq<TlvView>
        decreases data.len() - at,
    {
        if at < 0 || at >= data.len() || room == 0 {
            seq![]
        } else {
            match Self::block_at(data, at) {
                Err(_) => seq![],
                Ok((Some(TlvView::NdefMessage(_)), _)) => seq![],
                Ok((Some(TlvView::Terminator), _)) => seq![],
                Ok((Some(block), next)) => if block.is_control() {
                    seq![block] + Self::controls_from(data, next, (room - 1) as nat)
                } else {
                    Self::controls_from(data, next, room)
                },
                Ok((None, next)) => Self::controls_from(data, next, room),
            }
        }
    }

    /// The control blocks that a data area starts with, among blocks of other kinds, before its
    /// NDEF Message TLV.
    pub open spec fn leading_controls(data: Seq<u8>) -> Seq<TlvView> {
        Self::controls_from(data, 0, TLV_CAPACITY as nat)
    }

    /// The blocks that tell where the lock and reserved areas are, by the bytes of a data area that
    /// was read without regard to such areas: all blocks, if the area is complete and can be
    /// parsed. Otherwise lock or reserved bytes may have broken up the blocks, and what counts are
    /// the control blocks that the area starts with.
    pub open spec fn announced(data: Seq<u8>, complete: bool) -> Seq<TlvView> {
        match Self::parsed(data) {
            Ok(blocks) if complete => blocks,
            _ => Self::leading_controls(data),
        }
    }

    /// Whether one of the blocks describes a lock or reserved area.
    pub open spec fn any_control(tlvs: Seq<TlvView>) -> bool {
        exists|i: int| 0 <= i < tlvs.len() && (#[trigger] tlvs[i]).is_control()
    }

    /// Whether a control block describes an area in the address space. Other blocks describe
    /// none.
    pub open spec fn area_in_space(self) -> bool {
        match self {
            TlvView::LockControl(v) => v.is_canonical() && v.in_bounds(),
            TlvView::MemoryControl(v) => v.is_canonical() && v.in_bounds(),
            _ => true,
        }
    }

    /// Whether the block describes a lock or reserved area.
    pub open spec fn is_control(self) -> bool {
        self is LockControl || self is MemoryControl
    }

    /// What a tag byte makes of the bytes behind it. The NULL and the Terminator TLV are a byte
    /// each. All others have a length field and as many bytes of value, and are malformed if the
    /// data ends before. The value of a message and of vendor data is kept, if it fits in a
    /// buffer. That of a control block has to be a descriptor of three bytes. A block with any
    /// other tag is passed over.
    pub proof fn law_block(data: Seq<u8>, at: int)
        requires
            0 <= at < data.len(),
        ensures
            ({
                let block = Self::block_at(data, at);
                let tag = data[at];
                let field = shared::length_at(data, at + 1);
                let (len, start) = (field->Some_0.0 as int, at + 1 + field->Some_0.1);
                let value = data.subrange(start, start + len);
                let three = [data[start], data[start + 1], data[start + 2]];
                let malformed = Err::<(Option<TlvView>, int), Type2Error>(Type2Error::InvalidTlv);
                &&& tag == 0x00 ==> block == Ok::<(Option<TlvView>, int), Type2Error>(
                    (Some(TlvView::Null), at + 1),
                )
                &&& tag == 0xFE ==> block == Ok::<(Option<TlvView>, int), Type2Error>(
                    (Some(TlvView::Terminator), at + 1),
                )
                &&& tag != 0x00 && tag != 0xFE ==> {
                    &&& field is None || start + len > data.len() ==> block == malformed
                    &&& field is Some && start + len <= data.len() ==> {
                        &&& tag == 0x01 ==> (if len == 3 && LockControlValue::decoded(
                            three,
                        ) is Ok {
                            block == Ok::<(Option<TlvView>, int), Type2Error>(
                                (
                                    Some(
                                        TlvView::LockControl(
                                            LockControlValue::decoded(three)->Ok_0,
                                        ),
                                    ),
                                    start + 3,
                                ),
                            )
                        } else {
                            block == malformed
                        })
                        &&& tag == 0x02 ==> (if len == 3 && MemoryControlValue::decoded(
                            three,
                        ) is Ok {
                            block == Ok::<(Option<TlvView>, int), Type2Error>(
                                (
                                    Some(
                                        TlvView::MemoryControl(
                                            MemoryControlValue::decoded(three)->Ok_0,
                                        ),
                                    ),
                                    start + 3,
                                ),
                            )
                        } else {
                            block == malformed
                        })
                        &&& tag == 0x03 || tag == 0xFD ==> (if len <= 1024 {
                            block == Ok::<(Option<TlvView>, int), Type2Error>(
                                (
                                    Some(
                                        if tag == 0x03 {
                                            TlvView::NdefMessage(value)
                                        } else {
                                            TlvView::Proprietary(value)
                                        },
                                    ),
                                    start + len,
                                ),
                            )
                        } else {
                            block == Err::<(Option<TlvView>, int), Type2Error>(
                                Type2Error::BufferFull,
                            )
                        })
                        &&& 0x03 < tag < 0xFD || tag == 0xFF ==> block == Ok::<
                            (Option<TlvView>, int),
                            Type2Error,
                        >((None, start + len))
                    }
                }
            }),
    {
        shared::law_length_meaning(data, at + 1);
        let field = shared::length_at(data, at + 1);
        if field is Some {
            let start = at + 1 + field->Some_0.1;
            let three = [data[start], data[start + 1], data[start + 2]];
            LockControlValue::law_decode(three);
            MemoryControlValue::law_decode(three);
        }
    }

    /// A parse goes from block to block: it returns the first one, unless its tag is unknown, and
    /// what a parse of the bytes behind it returns. It ends at the end of the data and after a
    /// Terminator TLV. A malformed block makes it fail, and so does a block for which there is no
    /// room.
    pub proof fn law_parse_goes_on(data: Seq<u8>, at: int, room: nat)
        requires
            0 <= at,
        ensures
            at >= data.len() ==> Self::parsed_from(data, at, room) == Ok::<
                Seq<TlvView>,
                Type2Error,
            >(Seq::empty()) && Self::found_from(data, at, room).len() == 0,
            at < data.len() ==> match Self::block_at(data, at) {
                Err(e) => Self::parsed_from(data, at, room) == Err::<Seq<TlvView>, Type2Error>(e)
                    && Self::found_from(data, at, room).len() == 0,
                Ok((None, next)) => {
                    &&& Self::parsed_from(data, at, room) == Self::parsed_from(data, next, room)
                    &&& Self::found_from(data, at, room) == Self::found_from(data, next, room)
                },
                Ok((Some(block), next)) => if room == 0 {
                    &&& Self::parsed_from(data, at, room) == Err::<Seq<TlvView>, Type2Error>(
                        Type2Error::BufferFull,
                    )
                    &&& Self::found_from(data, at, room).len() == 0
                } else if data[at] == 0xFE {
                    &&& Self::parsed_from(data, at, room) == Ok::<Seq<TlvView>, Type2Error>(
                        seq![TlvView::Terminator],
                    )
                    &&& Self::found_from(data, at, room) == seq![TlvView::Terminator]
                } else {
                    let rest = Self::parsed_from(data, next, (room - 1) as nat);
                    &&& Self::parsed_from(data, at, room) is Ok <==> rest is Ok
                    &&& rest is Ok ==> Self::parsed_from(data, at, room)->Ok_0 == seq![block]
                        + rest->Ok_0
                    &&& rest is Err ==> Self::parsed_from(data, at, room) == rest
                    &&& Self::found_from(data, at, room) == seq![block] + Self::found_from(
                        data,
                        next,
                        (room - 1) as nat,
                    )
                },
            },
            Self::parsed(data) == Self::parsed_from(data, 0, 4),
    {
        if at < data.len() {
            Self::law_block(data, at);
        }
    }

    /// A parse fails only because a block is malformed, or because there is no room.
    pub proof fn law_parse_errors(data: Seq<u8>, at: int, room: nat)
        ensures
            Self::parsed_from(data, at, room) matches Err(e) ==> e == Type2Error::InvalidTlv || e
                == Type2Error::BufferFull,
            Self::parsed_from(data, at, room) matches Ok(blocks) ==> blocks.len() <= room,
        decreases data.len() - at,
    {
        if 0 <= at < data.len() {
            Self::law_block(data, at);
            if let Ok((block, next)) = Self::block_at(data, at) {
                if block is None {
                    Self::law_parse_errors(data, next, room);
                } else if room > 0 && !(block->Some_0 is Terminator) {
                    Self::law_parse_errors(data, next, (room - 1) as nat);
                }
            }
        }
    }

    /// The NDEF Message TLV is looked for block by block, from `at` on: it is at `at` if that is
    /// where a whole block with its tag is, and otherwise behind the block that is there. It is
    /// not looked for behind a Terminator TLV, a malformed block or the end of the data.
    pub proof fn law_ndef_is_found(data: Seq<u8>, at: int)
        requires
            0 <= at,
        ensures
            at >= data.len() ==> Self::ndef_position(data, at) is None,
            at < data.len() ==> {
                let block = Self::block_at(data, at);
                &&& block is Err || data[at] == 0xFE ==> Self::ndef_position(data, at) is None
                &&& block is Ok && data[at] == 0x03 ==> Self::ndef_position(data, at) == Some(at)
                &&& block is Ok && data[at] != 0xFE && data[at] != 0x03 ==> Self::ndef_position(
                    data,
                    at,
                ) == Self::ndef_position(data, block->Ok_0.1)
            },
    {
        if at < data.len() {
            Self::law_block(data, at);
        }
    }

    /// The leading control blocks are collected block by block, from `at` on, up to an NDEF Message
    /// TLV, a Terminator TLV, a malformed block or the end of the data, and at most `room` of
    /// them.
    pub proof fn law_leading_controls(data: Seq<u8>, at: int, room: nat)
        requires
            0 <= at,
        ensures
            at >= data.len() || room == 0 ==> Self::controls_from(data, at, room).len() == 0,
            at < data.len() && room > 0 ==> {
                let block = Self::block_at(data, at);
                let (tag, next) = (data[at], block->Ok_0.1);
                &&& block is Err || tag == 0x03 || tag == 0xFE ==> Self::controls_from(
                    data,
                    at,
                    room,
                ).len() == 0
                &&& block is Ok && (tag == 0x01 || tag == 0x02) ==> Self::controls_from(
                    data,
                    at,
                    room,
                ) == seq![block->Ok_0.0->Some_0] + Self::controls_from(
                    data,
                    next,
                    (room - 1) as nat,
                )
                &&& block is Ok && (tag == 0x00 || 0x03 < tag < 0xFE || tag == 0xFF)
                    ==> Self::controls_from(data, at, room) == Self::controls_from(
                    data,
                    next,
                    room,
                )
            },
    {
        if at < data.len() {
            Self::law_block(data, at);
        }
    }

    /// The blocks that tell where areas are: those that a parse returns, if all bytes are there
    /// and the parse succeeds, and else the leading control blocks, at most four of them.
    pub proof fn law_announced(data: Seq<u8>, complete: bool)
        ensures
            complete && Self::parsed_from(data, 0, 4) is Ok ==> Self::announced(data, complete)
                == Self::parsed_from(data, 0, 4)->Ok_0,
            !complete || Self::parsed_from(data, 0, 4) is Err ==> Self::announced(data, complete)
                == Self::controls_from(data, 0, 4),
            Self::leading_controls(data) == Self::controls_from(data, 0, 4),
            forall|tlvs: Seq<TlvView>| #[trigger]
                Self::any_control(tlvs) <==> exists|i: int|
                    0 <= i < tlvs.len() && ((#[trigger] tlvs[i]) is LockControl
                        || tlvs[i] is MemoryControl),
    {
    }

    /// Appending the blocks of a data area to `have` others: as many as there is room for, four in
    /// all, and up to the first malformed one. It fails as a parse into that room does.
    pub proof fn law_append(have: Seq<TlvView>, data: Seq<u8>)
        requires
            have.len() <= 4,
        ensures
            Self::appended(have, data).0 == have + Self::found_from(
                data,
                0,
                (4 - have.len()) as nat,
            ),
            match Self::parsed_from(data, 0, (4 - have.len()) as nat) {
                Ok(_) => Self::appended(have, data).1 is None,
                Err(e) => Self::appended(have, data).1 == Some(e),
            },
    {
        let room = (4 - have.len()) as nat;
        if Self::parsed_from(data, 0, room) is Ok {
            Self::law_parse_returns_what_is_found(data, 0, room);
        }
    }

    /// Every control block that a parse returns describes an area in the address space.
    pub proof fn law_parsed_areas_in_space(data: Seq<u8>, at: int, room: nat)
        requires
            Self::parsed_from(data, at, room) is Ok,
        ensures
            forall|i: int|
                0 <= i < Self::parsed_from(data, at, room)->Ok_0.len() ==> (
                #[trigger] Self::parsed_from(data, at, room)->Ok_0[i]).area_in_space(),
        decreases data.len() - at,
    {
        if 0 <= at < data.len() {
            let (block, next) = Self::block_at(data, at)->Ok_0;
            Self::lemma_block_area_in_space(data, at);
            if block is None {
                Self::law_parsed_areas_in_space(data, next, room);
            } else if !(block->Some_0 is Terminator) {
                Self::law_parsed_areas_in_space(data, next, (room - 1) as nat);
            }
        }
    }

    /// Every leading control block describes an area in the address space.
    pub proof fn law_controls_areas_in_space(data: Seq<u8>, at: int, room: nat)
        ensures
            forall|i: int|
                0 <= i < Self::controls_from(data, at, room).len() ==> {
                    let block = #[trigger] Self::controls_from(data, at, room)[i];
                    block.is_control() && block.area_in_space()
                },
        decreases data.len() - at,
    {
        if 0 <= at < data.len() && room > 0 && Self::block_at(data, at) is Ok {
            let (block, next) = Self::block_at(data, at)->Ok_0;
            Self::lemma_block_area_in_space(data, at);
            if block is Some && block->Some_0.is_control() {
                Self::law_controls_areas_in_space(data, next, (room - 1) as nat);
                let rest = Self::controls_from(data, next, (room - 1) as nat);
                assert forall|i: int|
                    0 <= i < Self::controls_from(data, at, room).len() implies {
                    let block = #[trigger] Self::controls_from(data, at, room)[i];
                    block.is_control() && block.area_in_space()
                } by {
                    if i > 0 {
                        assert(Self::controls_from(data, at, room)[i] == rest[i - 1]);
                    }
                }
            } else {
                Self::law_controls_areas_in_space(data, next, room);
            }
        }
    }

    /// Every announced control block describes an area in the address space.
    pub proof fn law_announced_areas_in_space(data: Seq<u8>, complete: bool)
        ensures
            forall|i: int|
                0 <= i < Self::announced(data, complete).len() ==> (#[trigger] Self::announced(
                    data,
                    complete,
                )[i]).area_in_space(),
    {
        Self::law_controls_areas_in_space(data, 0, TLV_CAPACITY as nat);
        if Self::parsed(data) is Ok {
            Self::law_parsed_areas_in_space(data, 0, TLV_CAPACITY as nat);
        }
    }

    /// A position lies inside the data.
    pub proof fn lemma_position_bounds(data: Seq<u8>, at: int)
        requires
            0 <= at,
        ensures
            Self::ndef_position(data, at) matches Some(found) ==> at <= found < data.len(),
        decreases data.len() - at,
    {
        if at < data.len() && Self::block_at(data, at) is Ok {
            Self::lemma_position_bounds(data, Self::block_at(data, at)->Ok_0.1);
        }
    }

    /// A parse that succeeds returns the blocks that are found.
    pub proof fn law_parse_returns_what_is_found(data: Seq<u8>, at: int, room: nat)
        requires
            Self::parsed_from(data, at, room) is Ok,
        ensures
            Self::parsed_from(data, at, room)->Ok_0 == Self::found_from(data, at, room),
        decreases data.len() - at,
    {
        if 0 <= at < data.len() {
            let (block, next) = Self::block_at(data, at)->Ok_0;
            if block is None {
                Self::law_parse_returns_what_is_found(data, next, room);
            } else if !(block->Some_0 is Terminator) {
                Self::law_parse_returns_what_is_found(data, next, (room - 1) as nat);
            }
        }
    }

    proof fn lemma_block_area_in_space(data: Seq<u8>, at: int)
        requires
            Self::block_at(data, at) is Ok,
        ensures
            Self::block_at(data, at)->Ok_0.0 matches Some(b) ==> b.area_in_space(),
    {
        if !Self::bare(data[at]) {
            let (len, width) = shared::length_at(data, at + 1)->Some_0;
            let v = at + 1 + width;
            let bytes = [data[v], data[v + 1], data[v + 2]];
            if data[at] == TLV_LOCK_CONTROL {
                LockControlValue::law_decoded_in_address_space(bytes);
            } else if data[at] == TLV_MEMORY_CONTROL {
                MemoryControlValue::law_decoded_in_address_space(bytes);
            }
        }
    }
}

/// Parse the TLV length field starting at `data[offset]`.
///
/// Returns `(length_value, bytes_consumed)`.
fn parse_tlv_length(data: &[u8], offset: usize) -> (r: Result<(u16, usize), Type2Error>)
    ensures
        match shared::length_at(data@, offset as int) {
            Some((len, width)) => r matches Ok((l, w)) && l == len && w == width,
            None => r == Err::<(u16, usize), Type2Error>(Type2Error::InvalidTlv),
        },
{
    match shared::parse_tlv_length(data, offset) {
        Ok(found) => Ok(found),
        Err(_) => Err(Type2Error::InvalidTlv),
    }
}

/// Encode a TLV length field into `out`.
fn encode_tlv_length(len: u16, out: &mut DataVec) -> (r: Result<(), Type2Error>)
    ensures
        match r {
            Ok(()) => final(out).contents() == old(out).contents() + shared::length_field(len)
                && final(out).contents().len() <= DATA_CAPACITY,
            Err(e) => e == Type2Error::BufferFull && old(out).contents().len()
                + shared::length_field(len).len() > DATA_CAPACITY && final(out).contents() == (
            if len >= 0xFF && old(out).contents().len() < DATA_CAPACITY {
                old(out).contents().push(0xFF)
            } else {
                old(out).contents()
            }),
        },
{
    match shared::encode_tlv_length(len, out) {
        Ok(()) => Ok(()),
        Err(TlvError::BufferFull) => Err(Type2Error::BufferFull),
        Err(TlvError::InvalidTlv) => Err(Type2Error::InvalidTlv),
    }
}

/// Parse a sequence of TLV blocks from the data area.
///
/// `data` should be the raw bytes of the data area starting from block 4. Parsing stops at a
/// Terminator TLV or end of data.
pub fn parse_tlvs(data: &[u8]) -> (r: Result<TlvVec, Type2Error>)
    ensures
        match TlvView::parsed(data@) {
            Ok(blocks) => r matches Ok(v) && views(tlv_items(v)) == blocks,
            Err(e) => r == Err::<TlvVec, Type2Error>(e),
        },
{
    let mut result = tlvs_new();
    let ghost before = tlv_items(result);
    match parse_tlvs_into(data, &mut result) {
        Ok(()) => {},
        Err(e) => return Err(e),
    }
    assert(views(tlv_items(result)) =~= views(before) + views(tlv_items(result)));
    Ok(result)
}

/// Append a block, or fail if there is no room.
fn push_tlv(out: &mut TlvVec, tlv: Tlv) -> (r: Result<(), Type2Error>)
    ensures
        match r {
            Ok(()) => tlv_items(*old(out)).len() < TLV_CAPACITY && tlv_items(*final(out))
                == tlv_items(*old(out)).push(tlv),
            Err(e) => e == Type2Error::BufferFull && tlv_items(*old(out)).len() == TLV_CAPACITY
                && tlv_items(*final(out)) == tlv_items(*old(out)),
        },
{
    match tlvs_push(out, tlv) {
        Ok(()) => Ok(()),
        Err(_) => Err(Type2Error::BufferFull),
    }
}

/// The bytes `start .. end` in a buffer of their own.
fn copy_value(data: &[u8], start: usize, end: usize) -> (r: Result<DataVec, Type2Error>)
    requires
        start <= end <= data@.len(),
    ensures
        match r {
            Ok(v) => end - start <= DATA_CAPACITY && v.contents() == data@.subrange(
                start as int,
                end as int,
            ),
            Err(e) => end - start > DATA_CAPACITY && e == Type2Error::BufferFull,
        },
{
    let mut v = data_new();
    match v.try_extend(&data[start..end]) {
        Ok(()) => {},
        Err(e) => return Err(Type2Error::from(e)),
    }
    assert(v.contents() =~= data@.subrange(start as int, end as int));
    Ok(v)
}

/// What a block that was parsed stands for.
pub open spec fn block_view(block: Option<Tlv>) -> Option<TlvView> {
    match block {
        Some(tlv) => Some(tlv@),
        None => None,
    }
}

/// Parse the block at `offset`.
///
/// Returns the block (`None` for an unknown tag) and the offset of the next one.
fn parse_block(data: &[u8], offset: usize) -> (r: Result<(Option<Tlv>, usize), Type2Error>)
    requires
        offset < data@.len(),
    ensures
        match TlvView::block_at(data@, offset as int) {
            Ok((block, next)) => r matches Ok((b, n)) && block_view(b) == block && n == next
                && offset < n <= data@.len(),
            Err(e) => r == Err::<(Option<Tlv>, usize), Type2Error>(e),
        },
{
    let tag = data[offset];
    let offset = offset + 1;
    if tag == TLV_NULL {
        return Ok((Some(Tlv::Null), offset));
    }
    if tag == TLV_TERMINATOR {
        return Ok((Some(Tlv::Terminator), offset));
    }
    let (len, consumed) = match parse_tlv_length(data, offset) {
        Ok(found) => found,
        Err(e) => return Err(e),
    };
    let offset = offset + consumed;
    let len = len as usize;
    if len > data.len() - offset {
        return Err(Type2Error::InvalidTlv);
    }
    let next = offset + len;
    match tag {
        TLV_LOCK_CONTROL => {
            if len != 3 {
                return Err(Type2Error::InvalidTlv);
            }
            match LockControlValue::from_bytes(
                [data[offset], data[offset + 1], data[offset + 2]],
            ) {
                Ok(value) => Ok((Some(Tlv::LockControl(value)), next)),
                Err(e) => Err(e),
            }
        },
        TLV_MEMORY_CONTROL => {
            if len != 3 {
                return Err(Type2Error::InvalidTlv);
            }
            match MemoryControlValue::from_bytes(
                [data[offset], data[offset + 1], data[offset + 2]],
            ) {
                Ok(value) => Ok((Some(Tlv::MemoryControl(value)), next)),
                Err(e) => Err(e),
            }
        },
        TLV_NDEF_MESSAGE => match copy_value(data, offset, next) {
            Ok(v) => Ok((Some(Tlv::NdefMessage(v)), next)),
            Err(e) => Err(e),
        },
        TLV_PROPRIETARY => match copy_value(data, offset, next) {
            Ok(v) => Ok((Some(Tlv::Proprietary(v)), next)),
            Err(e) => Err(e),
        },
        // Unknown/reserved TLV: skip the value.
        _ => Ok((None, next)),
    }
}

/// The blocks that tell where the lock and reserved areas of a data area are, which was read
/// without regard to them.
pub(crate) fn announced(data: &[u8], complete: bool) -> (r: TlvVec)
    ensures
        views(tlv_items(r)) == TlvView::announced(data@, complete),
{
    if complete {
        if let Ok(tlvs) = parse_tlvs(data) {
            return tlvs;
        }
    }
    leading_controls(data)
}

/// Whether one of the blocks describes a lock or reserved area.
pub(crate) fn any_control(tlvs: &[Tlv]) -> (r: bool)
    ensures
        r == TlvView::any_control(views(tlvs@)),
{
    let mut i: usize = 0;
    while i < tlvs.len()
        invariant
            0 <= i <= tlvs@.len(),
            forall|j: int| 0 <= j < i ==> !(#[trigger] views(tlvs@)[j]).is_control(),
        decreases tlvs@.len() - i,
    {
        if matches!(&tlvs[i], Tlv::LockControl(_) | Tlv::MemoryControl(_)) {
            assert(views(tlvs@)[i as int].is_control());
            return true;
        }
        i += 1;
    }
    false
}

/// TLV parser that appends to the blocks already in `out`.
///
/// On an error, `out` has the blocks that came before it.
fn parse_tlvs_into(data: &[u8], out: &mut TlvVec) -> (r: Result<(), Type2Error>)
    ensures
        tlv_items(*old(out)).len() <= TLV_CAPACITY,
        ({
            let (blocks, error) = TlvView::appended(views(tlv_items(*old(out))), data@);
            &&& views(tlv_items(*final(out))) == blocks
            &&& match error {
                None => r is Ok,
                Some(e) => r == Err::<(), Type2Error>(e),
            }
        }),
{
    let mut offset: usize = 0;
    let ghost old_items = tlv_items(*out);
    let ghost all_room = (TLV_CAPACITY - old_items.len()) as nat;
    // The blocks already there take up no more than the capacity.
    let _ = tlvs_slice(out);
    let ghost mut done: Seq<TlvView> = seq![];
    proof {
        assert(views(old_items) + done =~= views(old_items));
        TlvView::lemma_progress_start(data@, all_room);
    }
    while offset < data.len()
        invariant
            0 <= offset <= data@.len(),
            old_items == tlv_items(*old(out)),
            old_items.len() <= TLV_CAPACITY,
            all_room == TLV_CAPACITY - old_items.len(),
            tlv_items(*out).len() <= TLV_CAPACITY,
            tlv_items(*out).len() == old_items.len() + done.len(),
            views(tlv_items(*out)) == views(old_items) + done,
            TlvView::progress(data@, offset as int, all_room, done),
        decreases data@.len() - offset,
    {
        let ghost at = offset as int;
        let ghost before = tlv_items(*out);
        let (block, next) = match parse_block(data, offset) {
            Ok(parsed) => parsed,
            Err(e) => {
                assert(done + seq![] =~= done);
                return Err(e);
            },
        };
        match block {
            Some(tlv) => {
                let last = matches!(tlv, Tlv::Terminator);
                let ghost item = tlv;
                let ghost view = tlv@;
                match push_tlv(out, tlv) {
                    Ok(()) => {},
                    Err(e) => {
                        assert(done + seq![] =~= done);
                        return Err(e);
                    },
                }
                assert(views(before.push(item)) =~= views(before).push(view));
                assert(views(tlv_items(*out)) =~= views(old_items) + done.push(view));
                if last {
                    assert(done + seq![view] =~= done.push(view));
                    return Ok(());
                }
                proof {
                    let room = (all_room - done.len()) as nat;
                    let rest = (room - 1) as nat;
                    if let Ok(more) = TlvView::parsed_from(data@, next as int, rest) {
                        assert(done + (seq![view] + more) =~= done.push(view) + more);
                    }
                    let more = TlvView::found_from(data@, next as int, rest);
                    assert(done + (seq![view] + more) =~= done.push(view) + more);
                    done = done.push(view);
                }
            },
            None => {},
        }
        offset = next;
    }
    assert(done + seq![] =~= done);
    Ok(())
}

/// The control blocks that a data area starts with, before its NDEF Message TLV.
///
/// The data area may hold lock and reserved bytes that break up the blocks behind the control
/// blocks: what cannot be parsed ends the search.
pub(crate) fn leading_controls(data: &[u8]) -> (r: TlvVec)
    ensures
        views(tlv_items(r)) == TlvView::leading_controls(data@),
{
    let mut result = tlvs_new();
    let mut offset: usize = 0;
    assert(views(tlv_items(result)) + TlvView::leading_controls(data@)
        =~= TlvView::leading_controls(data@));
    while offset < data.len() && tlvs_slice(&result).len() < TLV_CAPACITY
        invariant
            0 <= offset <= data@.len(),
            tlv_items(result).len() <= TLV_CAPACITY,
            TlvView::leading_controls(data@) == views(tlv_items(result)) + TlvView::controls_from(
                data@,
                offset as int,
                (TLV_CAPACITY - tlv_items(result).len()) as nat,
            ),
        decreases data@.len() - offset,
    {
        let ghost before = tlv_items(result);
        match parse_block(data, offset) {
            Err(_) | Ok((Some(Tlv::NdefMessage(_)), _)) | Ok((Some(Tlv::Terminator), _)) => {
                assert(views(before) + seq![] =~= views(before));
                return result;
            },
            Ok((Some(tlv), next)) => {
                if matches!(tlv, Tlv::LockControl(_) | Tlv::MemoryControl(_)) {
                    let ghost view = tlv@;
                    let _ = push_tlv(&mut result, tlv);
                    proof {
                        let rest = TlvView::controls_from(
                            data@,
                            next as int,
                            (TLV_CAPACITY - before.len() - 1) as nat,
                        );
                        assert(views(tlv_items(result)) + rest =~= views(before) + (seq![view]
                            + rest));
                    }
                }
                offset = next;
            },
            Ok((None, next)) => {
                offset = next;
            },
        }
    }
    assert(views(tlv_items(result)) + seq![] =~= views(tlv_items(result)));
    result
}

/// Where the first NDEF Message TLV of a data area starts.
pub(crate) fn ndef_position(data: &[u8]) -> (r: Option<usize>)
    ensures
        match TlvView::ndef_position(data@, 0) {
            Some(at) => r matches Some(found) && found == at && at < data@.len(),
            None => r is None,
        },
{
    let mut offset: usize = 0;
    while offset < data.len()
        invariant
            0 <= offset <= data@.len(),
            TlvView::ndef_position(data@, 0) == TlvView::ndef_position(data@, offset as int),
        decreases data@.len() - offset,
    {
        match parse_block(data, offset) {
            Ok((Some(Tlv::NdefMessage(_)), _)) => return Some(offset),
            Err(_) | Ok((Some(Tlv::Terminator), _)) => return None,
            Ok((_, next)) => {
                offset = next;
            },
        }
    }
    None
}

impl TlvView {
    /// Whether a parse has found `done` when it gets to `at`: what it comes to is that, and what
    /// is to come.
    spec fn progress(data: Seq<u8>, at: int, room: nat, done: Seq<TlvView>) -> bool {
        let left = (room - done.len()) as nat;
        &&& done.len() <= room
        &&& Self::parsed_from(data, 0, room) == match Self::parsed_from(data, at, left) {
            Ok(blocks) => Ok::<Seq<TlvView>, Type2Error>(done + blocks),
            Err(e) => Err(e),
        }
        &&& Self::found_from(data, 0, room) == done + Self::found_from(data, at, left)
    }

    proof fn lemma_progress_start(data: Seq<u8>, room: nat)
        ensures
            Self::progress(data, 0, room, seq![]),
    {
        if let Ok(blocks) = Self::parsed_from(data, 0, room) {
            assert(seq![] + blocks =~= blocks);
        }
        assert(seq![] + Self::found_from(data, 0, room) =~= Self::found_from(data, 0, room));
    }
}

impl Tlv {
    /// If this is an NDEF Message TLV, return the raw NDEF bytes.
    pub fn ndef_data(&self) -> (r: Option<&[u8]>)
        ensures
            match self@ {
                TlvView::NdefMessage(bytes) => r matches Some(s) && s@ == bytes,
                _ => r is None,
            },
    {
        match self {
            Tlv::NdefMessage(data) => Some(data_slice(data)),
            _ => None,
        }
    }

    /// The length of the V field (0 for NULL/Terminator).
    ///
    /// Returns [`Type2Error::OutOfRange`] when the value is longer than a TLV length field can
    /// represent.
    pub fn value_length(&self) -> (r: Result<u16, Type2Error>)
        ensures
            match self@.value_len() {
                len if len <= MAX_TLV_LENGTH => r matches Ok(l) && l == len,
                _ => r == Err::<u16, Type2Error>(Type2Error::OutOfRange),
            },
    {
        match self {
            Tlv::Null | Tlv::Terminator => Ok(0),
            Tlv::LockControl(_) | Tlv::MemoryControl(_) => Ok(3),
            Tlv::NdefMessage(data) | Tlv::Proprietary(data) => checked_value_length(
                data_slice(data).len(),
            ),
        }
    }

    /// Serialize this TLV block to bytes.
    ///
    /// The length of the value is checked before anything is emitted, so that an oversized
    /// value never produces a block whose length disagrees with the bytes that follow it.
    pub fn to_bytes(&self) -> (r: Result<DataVec, Type2Error>)
        ensures
            match self@.encoded() {
                Ok(bytes) => r matches Ok(v) && v.contents() == bytes,
                Err(e) => r == Err::<DataVec, Type2Error>(e),
            },
    {
        let mut out = data_new();
        match self {
            Tlv::Null => {
                let _ = out.try_push(TLV_NULL);
                assert(out.contents() =~= seq![TLV_NULL]);
            },
            Tlv::Terminator => {
                let _ = out.try_push(TLV_TERMINATOR);
                assert(out.contents() =~= seq![TLV_TERMINATOR]);
            },
            Tlv::LockControl(v) => {
                let value = v.to_bytes();
                let _ = out.try_push(TLV_LOCK_CONTROL);
                let _ = out.try_push(0x03);
                let _ = out.try_extend(value.as_slice());
                assert(out.contents() =~= seq![TLV_LOCK_CONTROL, 0x03] + value@);
            },
            Tlv::MemoryControl(v) => {
                let value = v.to_bytes();
                let _ = out.try_push(TLV_MEMORY_CONTROL);
                let _ = out.try_push(0x03);
                let _ = out.try_extend(value.as_slice());
                assert(out.contents() =~= seq![TLV_MEMORY_CONTROL, 0x03] + value@);
            },
            Tlv::NdefMessage(data) => {
                return encode_block(TLV_NDEF_MESSAGE, data_slice(data));
            },
            Tlv::Proprietary(data) => {
                return encode_block(TLV_PROPRIETARY, data_slice(data));
            },
        }
        Ok(out)
    }
}

impl TlvView {
    /// The number of bytes of the value.
    pub open spec fn value_len(self) -> nat {
        match self {
            TlvView::Null | TlvView::Terminator => 0,
            TlvView::LockControl(_) | TlvView::MemoryControl(_) => 3,
            TlvView::NdefMessage(data) => data.len(),
            TlvView::Proprietary(data) => data.len(),
        }
    }

    /// The bytes of a block with a value of any length: tag, length field, value.
    pub open spec fn block(tag: u8, value: Seq<u8>) -> Seq<u8> {
        seq![tag] + shared::length_field(value.len() as u16) + value
    }

    /// The bytes of a block with a value of any length, if the length can be encoded and the
    /// block fits in a buffer.
    pub open spec fn encoded_block(tag: u8, value: Seq<u8>) -> Result<Seq<u8>, Type2Error> {
        if value.len() > MAX_TLV_LENGTH {
            Err(Type2Error::OutOfRange)
        } else if Self::block(tag, value).len() > DATA_CAPACITY {
            Err(Type2Error::BufferFull)
        } else {
            Ok(Self::block(tag, value))
        }
    }

    /// The bytes of a block.
    pub open spec fn encoded(self) -> Result<Seq<u8>, Type2Error> {
        match self {
            TlvView::Null => Ok(seq![TLV_NULL]),
            TlvView::Terminator => Ok(seq![TLV_TERMINATOR]),
            TlvView::LockControl(v) => Ok(seq![TLV_LOCK_CONTROL, 0x03] + v.encoded()@),
            TlvView::MemoryControl(v) => Ok(seq![TLV_MEMORY_CONTROL, 0x03] + v.encoded()@),
            TlvView::NdefMessage(data) => Self::encoded_block(TLV_NDEF_MESSAGE, data),
            TlvView::Proprietary(data) => Self::encoded_block(TLV_PROPRIETARY, data),
        }
    }

    /// A block can be serialized if it fits in a buffer of 1024 bytes, and then it is its tag, the
    /// length of its value in the shortest form, and the value. Control blocks always fit. If it
    /// cannot, either no length field can hold the length, or the buffer is too small.
    pub proof fn law_serialize(self)
        ensures
            self is Null ==> self.encoded() == Ok::<Seq<u8>, Type2Error>(seq![0x00u8]),
            self is Terminator ==> self.encoded() == Ok::<Seq<u8>, Type2Error>(seq![0xFEu8]),
            self matches TlvView::LockControl(v) ==> self.encoded() == Ok::<Seq<u8>, Type2Error>(
                seq![0x01u8, 0x03u8] + v.encoded()@,
            ),
            self matches TlvView::MemoryControl(v) ==> self.encoded() == Ok::<
                Seq<u8>,
                Type2Error,
            >(seq![0x02u8, 0x03u8] + v.encoded()@),
            self is NdefMessage || self is Proprietary ==> {
                let (tag, value) = if self is NdefMessage {
                    (0x03u8, self->NdefMessage_0)
                } else {
                    (0xFDu8, self->Proprietary_0)
                };
                let len = value.len();
                let width = if len < 255 {
                    1int
                } else {
                    3int
                };
                &&& self.encoded() is Ok <==> 1 + width + len <= 1024
                &&& self.encoded() matches Ok(bytes) ==> {
                    &&& bytes.len() == 1 + width + len
                    &&& bytes[0] == tag
                    &&& width == 1 ==> bytes[1] == len
                    &&& width == 3 ==> bytes[1] == 255 && 256 * bytes[2] + bytes[3] == len
                    &&& bytes.skip(1 + width) == value
                }
                &&& self.encoded() is Err ==> self.encoded() == Err::<Seq<u8>, Type2Error>(
                    if len > 0xFFFE {
                        Type2Error::OutOfRange
                    } else {
                        Type2Error::BufferFull
                    },
                )
            },
            self.value_len() == (match self {
                TlvView::NdefMessage(data) => data.len(),
                TlvView::Proprietary(data) => data.len(),
                TlvView::LockControl(_) | TlvView::MemoryControl(_) => 3,
                TlvView::Null | TlvView::Terminator => 0,
            }),
    {
        if self is NdefMessage || self is Proprietary {
            let value = if self is NdefMessage {
                self->NdefMessage_0
            } else {
                self->Proprietary_0
            };
            let len = value.len() as u16;
            if value.len() <= 0xFFFE {
                shared::law_length_encoding(len);
                let width = shared::length_field(len).len();
                if self.encoded() is Ok {
                    assert(self.encoded()->Ok_0.skip((1 + width) as int) =~= value);
                }
            }
        }
    }

    /// Parsing a serialized block gives the block back, and nothing else, if its control value
    /// (where it has one) fits its bytes.
    pub proof fn law_encode_then_parse(self)
        requires
            self.encoded() is Ok,
            self.area_in_space(),
        ensures
            Self::parsed(self.encoded()->Ok_0) == Ok::<Seq<TlvView>, Type2Error>(seq![self]),
    {
        let bytes = self.encoded()->Ok_0;
        self.lemma_encoded_block_at(seq![], seq![]);
        assert(seq![] + bytes + seq![] =~= bytes);
        let rest = Self::parsed_from(bytes, bytes.len() as int, (TLV_CAPACITY - 1) as nat);
        assert(rest->Ok_0 =~= seq![]);
        assert(seq![self] + seq![] =~= seq![self]);
    }

    /// A serialized block is found wherever it stands in the data.
    pub proof fn lemma_encoded_block_at(self, before: Seq<u8>, after: Seq<u8>)
        requires
            self.encoded() is Ok,
            self.area_in_space(),
        ensures
            Self::block_at(before + self.encoded()->Ok_0 + after, before.len() as int) == Ok::<
                (Option<TlvView>, int),
                Type2Error,
            >((Some(self), (before.len() + self.encoded()->Ok_0.len()) as int)),
            self.encoded()->Ok_0.len() > 0,
    {
        let bytes = self.encoded()->Ok_0;
        let data = before + bytes + after;
        let at = before.len() as int;
        assert(forall|i: int| 0 <= i < bytes.len() ==> #[trigger] data[at + i] == bytes[i]);
        assert(data[at] == bytes[0]) by {
            assert(data[at + 0] == bytes[0]);
        }
        match self {
            TlvView::Null | TlvView::Terminator => {},
            TlvView::LockControl(v) => {
                v.law_encode_then_decode();
                assert(data[at + 1] == bytes[1]);
                assert([data[at + 2], data[at + 3], data[at + 4]]@ =~= v.encoded()@) by {
                    assert(data[at + 2] == bytes[2] && data[at + 3] == bytes[3] && data[at + 4]
                        == bytes[4]);
                }
                assert([data[at + 2], data[at + 3], data[at + 4]] == v.encoded());
            },
            TlvView::MemoryControl(v) => {
                v.law_encode_then_decode();
                assert(data[at + 1] == bytes[1]);
                assert([data[at + 2], data[at + 3], data[at + 4]]@ =~= v.encoded()@) by {
                    assert(data[at + 2] == bytes[2] && data[at + 3] == bytes[3] && data[at + 4]
                        == bytes[4]);
                }
                assert([data[at + 2], data[at + 3], data[at + 4]] == v.encoded());
            },
            TlvView::NdefMessage(value) => {
                Self::lemma_block_in_place(TLV_NDEF_MESSAGE, value, before, after);
            },
            TlvView::Proprietary(value) => {
                Self::lemma_block_in_place(TLV_PROPRIETARY, value, before, after);
            },
        }
    }

    proof fn lemma_block_in_place(tag: u8, value: Seq<u8>, before: Seq<u8>, after: Seq<u8>)
        requires
            value.len() <= MAX_TLV_LENGTH,
        ensures
            ({
                let data = before + Self::block(tag, value) + after;
                let lf = shared::length_field(value.len() as u16);
                let at = before.len() as int;
                &&& data[at] == tag
                &&& shared::length_at(data, at + 1) == Some(
                    (value.len() as u16, lf.len() as int),
                )
                &&& data.subrange(at + 1 + lf.len(), at + 1 + lf.len() + value.len()) == value
            }),
    {
        let data = before + Self::block(tag, value) + after;
        let lf = shared::length_field(value.len() as u16);
        let at = before.len() as int;
        shared::law_length_roundtrip(before.push(tag), value.len() as u16, value + after);
        assert(before.push(tag) + lf + (value + after) =~= data);
        assert(data.subrange(at + 1 + lf.len(), at + 1 + lf.len() + value.len()) =~= value);
    }
}

/// Serialize a block with a value of any length.
fn encode_block(tag: u8, value: &[u8]) -> (r: Result<DataVec, Type2Error>)
    ensures
        match TlvView::encoded_block(tag, value@) {
            Ok(bytes) => r matches Ok(v) && v.contents() == bytes,
            Err(e) => r == Err::<DataVec, Type2Error>(e),
        },
{
    let len = match checked_value_length(value.len()) {
        Ok(len) => len,
        Err(e) => return Err(e),
    };
    let mut out = data_new();
    match out.try_push(tag) {
        Ok(()) => {},
        Err(e) => return Err(Type2Error::from(e)),
    }
    match encode_tlv_length(len, &mut out) {
        Ok(()) => {},
        Err(e) => return Err(e),
    }
    match out.try_extend(value) {
        Ok(()) => {},
        Err(e) => return Err(Type2Error::from(e)),
    }
    assert(out.contents() =~= TlvView::block(tag, value@));
    Ok(out)
}

/// Convert a value length to the TLV length field width, rejecting anything the encoding
/// cannot represent (including the reserved `0xFFFF`).
fn checked_value_length(len: usize) -> (r: Result<u16, Type2Error>)
    ensures
        if len <= MAX_TLV_LENGTH {
            r matches Ok(l) && l == len
        } else {
            r == Err::<u16, Type2Error>(Type2Error::OutOfRange)
        },
{
    if len <= MAX_TLV_LENGTH as usize {
        Ok(len as u16)
    } else {
        Err(Type2Error::OutOfRange)
    }
}

} // verus!
