# nfc-forum-tags

Verified NFC Forum tag operations: the command protocol, the memory model and the
NDEF access procedures of Type 2 Tags (T2TOP 1.1), written in Rust and proved with
Verus.

The crate sits between the ISO 14443-3A activation layer and NDEF message parsing,
with raw bytes at both boundaries.

```rust
use nfc_forum_tags::type2::{T2TReader, T2TTransceiver};

// After ISO 14443-3A activation, with a `T2TTransceiver` for the hardware:
let mut reader = T2TReader::new(&mut my_transceiver);
let cc = reader.read_cc()?;
let ndef_bytes = reader.read_ndef()?;
reader.write_ndef(&ndef_bytes)?;
```

## Layout

| Module | Content |
|--------|---------|
| `vec` | fixed-capacity buffers (`heapless::Vec`) |
| `tag`, `tlv` | access conditions, TLV length fields |
| `type2` | commands and answers, `T2TTransceiver` |
| `type2::cc` | Capability Container |
| `type2::tlv` | TLV blocks, Lock and Memory Control values |
| `type2::memory` | sectors, blocks, lock and reserved areas, usable addresses |
| `type2::scanner` | finding the Terminator TLV while reading |
| `type2::reader` | `T2TReader` |
| `type2::trace` | what each reader operation sends and returns |
| `type2::sending` | laws on what is sent, whatever comes back |
| `type2::model` | a tag, and what the operations come to on it |
| `type2::roundtrip` | a written message is read back |

## What is proved

- Every function returns what its contract says, on every input that the contract
  admits, without overflow or panic.
- Encoding and decoding of commands, Capability Containers, control values, length
  fields and TLV blocks undo each other.
- No control block makes the reader go outside the address space.
- A READ or WRITE is repeated only after the intended sector has been selected
  again, and never while the sector is unknown. The first packet of a SECTOR SELECT
  may be repeated, the second never is.
- Data is written only between its first address and the limit, with the sector of
  each block selected, whatever the tag answers.
- A message that is refused is refused before any WRITE.
- Writing puts the new NDEF Message TLV and a terminator on the usable addresses, from
  the byte of the data area on where the old one was found, and changes no other byte.
  Blocks of unknown kinds before it count with all their bytes. Lock and reserved bytes
  keep their values, also when answers get lost and commands are repeated.
- The bytes of a message come in in order, at every moment of a write: first the whole
  block with a zero length, then the length field.
- A message that was written is read back, if up to its end the data area fits in the
  buffer, at most two blocks other than those of unknown kinds stand before it, and
  the control blocks are where they belong: before the NDEF Message TLV, on a dynamic
  tag, and with the areas that they describe behind the tag of that TLV. The areas may
  lie inside the message, if the end of the message does not look like a control block
  to the first reading, which takes the bytes of the areas for bytes of the message.
  `type2::roundtrip` also has the general condition.

What is not proved is stated in the contracts of the functions that wrap
`heapless::Vec`, and of `T2TTransceiver`, of which nothing is assumed but that its
log of exchanges is right.
