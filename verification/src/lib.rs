//! Verified NFC Forum tag operations.
//!
//! The crate holds the command protocol, the memory model and the NDEF access
//! procedures of NFC Forum **Type 2 Tags** (T2TOP 1.1). It sits between the
//! ISO 14443-3A activation layer and NDEF message parsing, with raw bytes at
//! both boundaries:
//!
//! - [`type2::T2TTransceiver`]: implement it for the NFC-A hardware;
//! - [`type2::Command`] and [`type2::Answer`]: command serialization and
//!   response parsing;
//! - [`type2::reader::T2TReader`]: NDEF detection, read and write.
//!
//! Every function states in its contract what it returns. What the reader sends
//! and returns is stated over the exchanges with the tag ([`type2::trace`]). The
//! laws about it are in three modules: what is sent whatever comes back
//! ([`type2::sending`]), what the operations come to on a tag ([`type2::model`]),
//! and that a written message is read back ([`type2::roundtrip`]).

pub mod tag;
pub mod tlv;
pub mod vec;
pub mod type2;
