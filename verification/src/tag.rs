//! Types shared by the NFC Forum tag types.

use vstd::prelude::*;

verus! {

/// Tag lifecycle state.
#[derive(Debug, Clone, Copy, PartialEq, Eq, Structural)]
pub enum TagState {
    /// CC valid, NDEF present but empty (length = 0).
    Initialized,
    /// CC valid, NDEF present with data, write access granted.
    ReadWrite,
    /// CC valid, NDEF present with data, write access denied.
    ReadOnly,
}

/// Access condition for read or write operations.
#[derive(Debug, Clone, Copy, PartialEq, Eq, Structural)]
pub enum AccessCondition {
    /// Access granted without any security.
    Granted,
    /// No access granted.
    Denied,
    /// Proprietary access condition.
    Proprietary(u8),
    /// Reserved for future use.
    Rfu(u8),
}

impl AccessCondition {
    /// The condition that a nibble stands for: 0x0 grants access, 0xF denies it, 0x8 to 0xE
    /// are proprietary, and everything else is reserved.
    pub open spec fn of_nibble(nibble: u8) -> AccessCondition {
        if nibble == 0x00 {
            AccessCondition::Granted
        } else if nibble == 0x0F {
            AccessCondition::Denied
        } else if 0x08 <= nibble <= 0x0E {
            AccessCondition::Proprietary(nibble)
        } else {
            AccessCondition::Rfu(nibble)
        }
    }

    /// The nibble that stands for a condition.
    pub open spec fn nibble(self) -> u8 {
        match self {
            AccessCondition::Granted => 0x00,
            AccessCondition::Denied => 0x0F,
            AccessCondition::Proprietary(v) => v,
            AccessCondition::Rfu(v) => v,
        }
    }

    /// Whether the condition is one that some 4-bit nibble stands for.
    pub open spec fn is_canonical(self) -> bool {
        match self {
            AccessCondition::Granted => true,
            AccessCondition::Denied => true,
            AccessCondition::Proprietary(v) => 0x08 <= v <= 0x0E,
            AccessCondition::Rfu(v) => 0x01 <= v <= 0x07,
        }
    }

    /// Parse a 4-bit nibble (Type 2 Tag CC3 encoding).
    ///
    /// - 0x0: Granted
    /// - 0xF: Denied
    /// - 0x8 to 0xE: Proprietary
    /// - 0x1 to 0x7: RFU
    pub fn from_nibble(nibble: u8) -> (r: Self)
        ensures
            r == Self::of_nibble(nibble),
            r == AccessCondition::Granted <==> nibble == 0,
            r == AccessCondition::Denied <==> nibble == 15,
    {
        match nibble {
            0x00 => AccessCondition::Granted,
            0x0F => AccessCondition::Denied,
            0x08..=0x0E => AccessCondition::Proprietary(nibble),
            _ => AccessCondition::Rfu(nibble),
        }
    }

    /// Encode as a 4-bit nibble (Type 2 Tag CC3 encoding).
    pub fn to_nibble(self) -> (r: u8)
        ensures
            r == self.nibble(),
    {
        match self {
            AccessCondition::Granted => 0x00,
            AccessCondition::Denied => 0x0F,
            AccessCondition::Proprietary(v) => v,
            AccessCondition::Rfu(v) => v,
        }
    }

    /// Zero grants access and fifteen denies it, and nothing else does. Of the nibbles in between
    /// the upper ones are proprietary and the lower ones reserved, and they are kept.
    pub proof fn law_nibble_meaning(nibble: u8)
        ensures
            Self::of_nibble(nibble) == AccessCondition::Granted <==> nibble == 0,
            Self::of_nibble(nibble) == AccessCondition::Denied <==> nibble == 15,
            Self::of_nibble(nibble) is Proprietary <==> 8 <= nibble < 15,
            Self::of_nibble(nibble) is Rfu <==> 0 < nibble < 8 || nibble > 15,
            Self::of_nibble(nibble) matches AccessCondition::Proprietary(v) ==> v == nibble,
            Self::of_nibble(nibble) matches AccessCondition::Rfu(v) ==> v == nibble,
    {
    }

    /// Two conditions with the same nibble are the same, unless one of them is none that a nibble
    /// stands for.
    pub proof fn law_nibble_tells_condition(self, other: AccessCondition)
        ensures
            self.is_canonical() && other.is_canonical() && self.nibble() == other.nibble() ==> self
                == other,
            self == AccessCondition::Granted ==> self.nibble() == 0,
            self == AccessCondition::Denied ==> self.nibble() == 15,
            self matches AccessCondition::Proprietary(v) ==> self.nibble() == v,
            self matches AccessCondition::Rfu(v) ==> self.nibble() == v,
            self.is_canonical() <==> self.nibble() <= 15 && Self::of_nibble(self.nibble()) == self,
    {
    }

    /// Encoding what a nibble was parsed into gives the nibble back.
    pub proof fn law_parse_then_encode(nibble: u8)
        ensures
            Self::of_nibble(nibble).nibble() == nibble,
    {
    }

    /// Parsing the encoding of a condition gives the condition back, for every condition that
    /// has a nibble of its own.
    pub proof fn law_encode_then_parse(self)
        requires
            self.is_canonical(),
        ensures
            Self::of_nibble(self.nibble()) == self,
            self.nibble() <= 0x0F,
    {
    }

    /// A condition parsed from a 4-bit nibble is canonical.
    pub proof fn law_parsed_is_canonical(nibble: u8)
        requires
            nibble <= 0x0F,
        ensures
            Self::of_nibble(nibble).is_canonical(),
    {
    }
}

} // verus!
