//! Capability Container (CC): block 3 of a Type 2 Tag.
//!
//! The CC holds 4 bytes of management data:
//! - CC0: magic number (0xE1)
//! - CC1: mapping version (major | minor nibbles)
//! - CC2: data area size / 8
//! - CC3: access conditions (read | write nibbles)

use super::Type2Error;
use vstd::prelude::*;
use vstd::std_specs::convert::{TryFromSpec, TryFromSpecImpl};

pub use crate::tag::{AccessCondition, TagState};

verus! {

/// Magic number indicating NFC Forum defined data.
pub const CC_MAGIC: u8 = 0xE1;

/// Major version this implementation supports.
pub const SUPPORTED_MAJOR_VERSION: u8 = 1;

/// NFC Forum Type 2 Tag Capability Container.
#[derive(Debug, Clone, PartialEq, Eq, Structural)]
pub struct CapabilityContainer {
    /// CC1 major version (upper nibble).
    pub version_major: u8,
    /// CC1 minor version (lower nibble).
    pub version_minor: u8,
    /// CC2: raw size field. Actual data area size = `size_field * 8` bytes.
    pub size_field: u8,
    /// Read access condition (upper nibble of CC3).
    pub read_access: AccessCondition,
    /// Write access condition (lower nibble of CC3).
    pub write_access: AccessCondition,
}

impl CapabilityContainer {
    /// Data area size in bytes.
    pub open spec fn area_size(self) -> nat {
        (self.size_field * 8) as nat
    }

    /// Whether the data area is larger than the 48 bytes of the static memory structure.
    pub open spec fn dynamic(self) -> bool {
        self.area_size() > 48
    }

    /// Whether NDEF operations are possible: supported version, read access granted.
    pub open spec fn valid(self) -> bool {
        self.version_major == SUPPORTED_MAJOR_VERSION && self.read_access
            == AccessCondition::Granted
    }

    /// Whether four bytes can carry every field: nibbles fit their half byte.
    pub open spec fn is_canonical(self) -> bool {
        self.version_major <= 0x0F && self.version_minor <= 0x0F && self.read_access.is_canonical()
            && self.write_access.is_canonical()
    }

    /// The four bytes that encode a container.
    pub open spec fn encoded(self) -> [u8; 4] {
        [
            CC_MAGIC,
            (self.version_major << 4) | (self.version_minor & 0x0F),
            self.size_field,
            (self.read_access.nibble() << 4) | self.write_access.nibble(),
        ]
    }

    /// The container that four bytes stand for.
    pub open spec fn decoded(bytes: [u8; 4]) -> Result<CapabilityContainer, Type2Error> {
        if bytes[0] != CC_MAGIC {
            Err(Type2Error::InvalidMagic(bytes[0]))
        } else if bytes[1] >> 4 > SUPPORTED_MAJOR_VERSION {
            Err(
                Type2Error::UnsupportedVersion {
                    major: bytes[1] >> 4,
                    minor: bytes[1] & 0x0F,
                },
            )
        } else {
            Ok(
                CapabilityContainer {
                    version_major: bytes[1] >> 4,
                    version_minor: bytes[1] & 0x0F,
                    size_field: bytes[2],
                    read_access: AccessCondition::of_nibble(bytes[3] >> 4),
                    write_access: AccessCondition::of_nibble(bytes[3] & 0x0F),
                },
            )
        }
    }

    /// Data area size in bytes (`size_field * 8`).
    pub fn data_area_size(&self) -> (r: u16)
        ensures
            r == self.area_size(),
            r == self.size_field * 8,
    {
        self.size_field as u16 * 8
    }

    /// Whether this is a dynamic memory tag (data area > 48 bytes).
    pub fn is_dynamic(&self) -> (r: bool)
        ensures
            r == self.dynamic(),
            r <==> self.size_field * 8 > 48,
    {
        self.size_field > 0x06
    }

    /// Check if the CC is valid for NDEF operations.
    ///
    /// Returns `true` if the version is compatible and read access is granted
    /// (upper nibble of CC3 = 0x0).
    pub fn is_valid(&self) -> (r: bool)
        ensures
            r <==> self.version_major == 1 && self.read_access == AccessCondition::Granted,
            r == self.valid(),
    {
        self.version_major == SUPPORTED_MAJOR_VERSION && self.read_access
            == AccessCondition::Granted
    }

    /// Determine the tag state given the NDEF Message TLV length.
    ///
    /// Returns `None` if the CC is not valid for NDEF operations, or if the
    /// write access and the length fit none of the three states.
    pub fn tag_state(&self, ndef_tlv_length: u16) -> (r: Option<TagState>)
        ensures
            r == Some(TagState::Initialized) <==> self.valid() && ndef_tlv_length == 0
                && self.write_access == AccessCondition::Granted,
            r == Some(TagState::ReadWrite) <==> self.valid() && ndef_tlv_length > 0
                && self.write_access == AccessCondition::Granted,
            r == Some(TagState::ReadOnly) <==> self.valid() && ndef_tlv_length > 0
                && self.write_access == AccessCondition::Denied,
            r is Some <==> self.version_major == 1 && self.read_access == AccessCondition::Granted
                && (self.write_access == AccessCondition::Granted || self.write_access
                == AccessCondition::Denied && ndef_tlv_length > 0),
    {
        if !self.is_valid() {
            return None;
        }
        if ndef_tlv_length == 0 && self.write_access == AccessCondition::Granted {
            Some(TagState::Initialized)
        } else if ndef_tlv_length > 0 && self.write_access == AccessCondition::Granted {
            Some(TagState::ReadWrite)
        } else if ndef_tlv_length > 0 && self.write_access == AccessCondition::Denied {
            Some(TagState::ReadOnly)
        } else {
            None
        }
    }

    /// Serialize to 4 CC bytes.
    pub fn to_bytes(&self) -> (r: [u8; 4])
        ensures
            r == self.encoded(),
    {
        [
            CC_MAGIC,
            (self.version_major << 4) | (self.version_minor & 0x0F),
            self.size_field,
            (self.read_access.to_nibble() << 4) | self.write_access.to_nibble(),
        ]
    }

    /// What makes a container valid is its major version and its read access, and nothing else:
    /// two containers that agree in both are both valid or both not, whatever their minor
    /// version, size and write access.
    pub proof fn law_validity(self, other: CapabilityContainer)
        ensures
            self.valid() <==> self.version_major == 1 && self.read_access.nibble() == 0
                && self.read_access == AccessCondition::Granted,
            self.version_major == other.version_major && self.read_access == other.read_access
                ==> self.valid() == other.valid(),
    {
    }

    /// The data area has eight bytes for each step of the size field, and a tag is dynamic if that
    /// is more than the 48 bytes of a static one.
    pub proof fn law_size(self)
        ensures
            self.area_size() == 8 * self.size_field,
            self.dynamic() <==> self.size_field > 6,
    {
    }

    /// Four bytes are a container if the first is 0xE1 and the upper half of the second is 0 or 1.
    /// Every field is then a byte or a half of one. Otherwise the error tells what was found.
    pub proof fn law_decode(bytes: [u8; 4])
        ensures
            bytes[0] != 0xE1 ==> Self::decoded(bytes) == Err::<CapabilityContainer, Type2Error>(
                Type2Error::InvalidMagic(bytes[0]),
            ),
            bytes[0] == 0xE1 && bytes[1] / 16 > 1 ==> (Self::decoded(bytes) matches Err(
                Type2Error::UnsupportedVersion { major, minor },
            ) && major == bytes[1] / 16 && minor == bytes[1] % 16),
            Self::decoded(bytes) is Ok <==> bytes[0] == 0xE1 && bytes[1] / 16 <= 1,
            Self::decoded(bytes) matches Ok(cc) ==> {
                &&& cc.version_major == bytes[1] / 16
                &&& cc.version_minor == bytes[1] % 16
                &&& cc.size_field == bytes[2]
                &&& cc.read_access == AccessCondition::of_nibble((bytes[3] / 16) as u8)
                &&& cc.write_access == AccessCondition::of_nibble((bytes[3] % 16) as u8)
                &&& cc.read_access == AccessCondition::Granted <==> bytes[3] < 16
                &&& cc.write_access == AccessCondition::Granted <==> bytes[3] % 16 == 0
                &&& cc.write_access == AccessCondition::Denied <==> bytes[3] % 16 == 15
                &&& cc.valid() <==> 16 <= bytes[1] < 32 && bytes[3] < 16
            },
    {
        let (v, a) = (bytes[1], bytes[3]);
        assert(v >> 4 == v / 16 && v & 0x0F == v % 16 && a >> 4 == a / 16 && a & 0x0F == a % 16)
            by (bit_vector);
    }

    /// A slice is parsed as its first four bytes are, and has to have as many. What follows them
    /// does not matter.
    pub proof fn law_parse_slice(slice: &[u8], bytes: [u8; 4])
        requires
            slice@.len() >= 4 ==> bytes@ == slice@.take(4),
        ensures
            <CapabilityContainer as TryFromSpec<&[u8]>>::obeys_try_from_spec(),
            <CapabilityContainer as TryFromSpec<[u8; 4]>>::obeys_try_from_spec(),
            <CapabilityContainer as TryFromSpec<[u8; 4]>>::try_from_spec(bytes) == Self::decoded(
                bytes,
            ),
            slice@.len() < 4 ==> <CapabilityContainer as TryFromSpec<&[u8]>>::try_from_spec(slice)
                == Err::<CapabilityContainer, Type2Error>(Type2Error::InvalidLength),
            slice@.len() >= 4 ==> <CapabilityContainer as TryFromSpec<&[u8]>>::try_from_spec(slice)
                == Self::decoded(bytes),
    {
        if slice@.len() >= 4 {
            let first = [slice@[0], slice@[1], slice@[2], slice@[3]];
            assert(first@ =~= bytes@);
            assert(first == bytes);
        }
    }

    /// The bytes of a container: the magic number, and in each of the others the fields where a
    /// parse finds them. Fields that do not fit their half of a byte are cut to it.
    pub proof fn law_encode(self)
        ensures
            self.encoded()[0] == 0xE1,
            self.encoded()[1] == self.version_major % 16 * 16 + self.version_minor % 16,
            self.encoded()[2] == self.size_field,
            self.encoded()[3] == (self.read_access.nibble() << 4u8) | self.write_access.nibble(),
            self.read_access.is_canonical() && self.write_access.is_canonical()
                ==> self.encoded()[3] == self.read_access.nibble() * 16
                + self.write_access.nibble(),
    {
        let (a, b) = (self.version_major, self.version_minor);
        let (c, d) = (self.read_access.nibble(), self.write_access.nibble());
        assert((a << 4) | (b & 0x0F) == a % 16 * 16 + b % 16) by (bit_vector);
        assert(c <= 15 && d <= 15 ==> (c << 4) | d == c * 16 + d) by (bit_vector);
    }

    /// Parsing the bytes of a container gives the container back, if its version is supported
    /// and its fields fit their nibbles.
    pub proof fn law_encode_then_decode(self)
        requires
            self.is_canonical(),
            self.version_major <= SUPPORTED_MAJOR_VERSION,
        ensures
            Self::decoded(self.encoded()) == Ok::<CapabilityContainer, Type2Error>(self),
    {
        let (a, b) = (self.version_major, self.version_minor);
        let (c, d) = (self.read_access.nibble(), self.write_access.nibble());
        self.read_access.law_encode_then_parse();
        self.write_access.law_encode_then_parse();
        assert(((a << 4) | (b & 0x0F)) >> 4 == a && ((a << 4) | (b & 0x0F)) & 0x0F == b)
            by (bit_vector)
            requires
                a <= 0x0F,
                b <= 0x0F,
        ;
        assert(((c << 4) | d) >> 4 == c && ((c << 4) | d) & 0x0F == d) by (bit_vector)
            requires
                c <= 0x0F,
                d <= 0x0F,
        ;
    }

    /// Serializing what four bytes were parsed into gives the bytes back.
    pub proof fn law_decode_then_encode(bytes: [u8; 4])
        requires
            Self::decoded(bytes) is Ok,
        ensures
            Self::decoded(bytes)->Ok_0.encoded() == bytes,
            Self::decoded(bytes)->Ok_0.is_canonical(),
    {
        let (v, a) = (bytes[1], bytes[3]);
        assert(((v >> 4) << 4) | ((v & 0x0F) & 0x0F) == v && v >> 4 <= 0x0F && v & 0x0F <= 0x0F)
            by (bit_vector);
        assert(((a >> 4) << 4) | (a & 0x0F) == a && a >> 4 <= 0x0F && a & 0x0F <= 0x0F)
            by (bit_vector);
        AccessCondition::law_parse_then_encode(a >> 4);
        AccessCondition::law_parse_then_encode(a & 0x0F);
        AccessCondition::law_parsed_is_canonical(a >> 4);
        AccessCondition::law_parsed_is_canonical(a & 0x0F);
        assert(Self::decoded(bytes)->Ok_0.encoded()@ =~= bytes@);
    }
}

impl TryFrom<[u8; 4]> for CapabilityContainer {
    type Error = Type2Error;

    fn try_from(bytes: [u8; 4]) -> (r: Result<Self, Type2Error>) {
        if bytes[0] != CC_MAGIC {
            return Err(Type2Error::InvalidMagic(bytes[0]));
        }
        let version_major = bytes[1] >> 4;
        let version_minor = bytes[1] & 0x0F;

        // Reject if major version is higher than what is supported.
        if version_major > SUPPORTED_MAJOR_VERSION {
            return Err(
                Type2Error::UnsupportedVersion { major: version_major, minor: version_minor },
            );
        }
        Ok(
            CapabilityContainer {
                version_major,
                version_minor,
                size_field: bytes[2],
                read_access: AccessCondition::from_nibble(bytes[3] >> 4),
                write_access: AccessCondition::from_nibble(bytes[3] & 0x0F),
            },
        )
    }
}

impl TryFromSpecImpl<[u8; 4]> for CapabilityContainer {
    open spec fn obeys_try_from_spec() -> bool {
        true
    }

    open spec fn try_from_spec(bytes: [u8; 4]) -> Result<Self, Type2Error> {
        CapabilityContainer::decoded(bytes)
    }
}

impl TryFrom<&[u8]> for CapabilityContainer {
    type Error = Type2Error;

    fn try_from(slice: &[u8]) -> (r: Result<Self, Type2Error>) {
        if slice.len() < 4 {
            return Err(Type2Error::InvalidLength);
        }
        let bytes: [u8; 4] = [slice[0], slice[1], slice[2], slice[3]];
        CapabilityContainer::try_from(bytes)
    }
}

impl TryFromSpecImpl<&[u8]> for CapabilityContainer {
    open spec fn obeys_try_from_spec() -> bool {
        true
    }

    open spec fn try_from_spec(slice: &[u8]) -> Result<Self, Type2Error> {
        if slice@.len() < 4 {
            Err(Type2Error::InvalidLength)
        } else {
            CapabilityContainer::decoded([slice@[0], slice@[1], slice@[2], slice@[3]])
        }
    }
}

} // verus!
