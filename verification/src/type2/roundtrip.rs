//! What the scanner and the parser make of the same bytes, and what a read makes of a written
//! NDEF message.

use super::cc::CapabilityContainer;
use super::memory::{LayoutView, ADDRESS_SPACE_END, DATA_START};
use super::model::TagModel;
use super::reader::{ReaderError, T2TReader};
use super::scanner::TlvScanState;
use super::tlv::{self, TlvView, TLV_NDEF_MESSAGE, TLV_TERMINATOR};
use super::trace::{ReaderState, WritePlan};
use super::{Exchange, T2TTransceiver, Type2Error};
use crate::tlv as shared;
use crate::vec::DATA_CAPACITY;
use vstd::prelude::*;

verus! {

impl TlvScanState {
    /// A value is passed over byte by byte.
    proof fn lemma_pass_value(len: u16, bytes: Seq<u8>, i: int)
        requires
            0 <= i,
            i + len <= bytes.len(),
        ensures
            Self::before_value(len).reach(bytes, i) == TlvScanState::Tag.reach(bytes, i + len),
        decreases len,
    {
        if len > 0 {
            Self::lemma_pass_value((len - 1) as u16, bytes, i + 1);
        }
    }

    /// A value that is cut short takes the scanner to the end of the bytes.
    proof fn lemma_cut_value(len: u16, bytes: Seq<u8>, i: int)
        requires
            0 <= i <= bytes.len(),
            i + len > bytes.len(),
        ensures
            Self::before_value(len).reach(bytes, i) == bytes.len(),
        decreases len,
    {
        if i < bytes.len() {
            Self::lemma_cut_value((len - 1) as u16, bytes, i + 1);
        }
    }
}

impl TlvView {
    /// The blocks from `at` on, if they end where the bytes end and none is a Terminator TLV.
    pub open spec fn whole_from(bytes: Seq<u8>, at: int) -> Option<Seq<TlvView>>
        decreases bytes.len() - at,
    {
        if at < 0 || at > bytes.len() {
            None
        } else if at == bytes.len() {
            Some(seq![])
        } else {
            match Self::block_at(bytes, at) {
                Err(_) => None,
                Ok((None, next)) => Self::whole_from(bytes, next),
                Ok((Some(block), next)) => if block is Terminator {
                    None
                } else {
                    match Self::whole_from(bytes, next) {
                        Some(rest) => Some(seq![block] + rest),
                        None => None,
                    }
                },
            }
        }
    }

    /// Where a length field can be read, the scanner reads it too; where it cannot, or where the
    /// value is cut short, the scanner gets to the end of the bytes.
    proof fn lemma_scan_length(bytes: Seq<u8>, at: int)
        requires
            0 <= at < bytes.len(),
            !Self::bare(bytes[at]),
        ensures
            match shared::length_at(bytes, at + 1) {
                None => TlvScanState::Tag.reach(bytes, at) == bytes.len(),
                Some((len, width)) => {
                    let v = at + 1 + width;
                    if v + len > bytes.len() {
                        TlvScanState::Tag.reach(bytes, at) == bytes.len()
                    } else {
                        TlvScanState::Tag.reach(bytes, at) == TlvScanState::Tag.reach(
                            bytes,
                            v + len,
                        ) && v + len <= TlvScanState::Tag.reach(bytes, at) <= bytes.len()
                    }
                },
            },
    {
        assert(TlvScanState::Tag.reach(bytes, at) == TlvScanState::Length.reach(bytes, at + 1));
        match shared::length_at(bytes, at + 1) {
            None => {
                if at + 1 < bytes.len() {
                    assert(TlvScanState::Length.reach(bytes, at + 1)
                        == TlvScanState::LengthExtMsb.reach(bytes, at + 2));
                    if at + 2 < bytes.len() {
                        let msb = bytes[at + 2];
                        assert(TlvScanState::LengthExtMsb.reach(bytes, at + 2)
                            == TlvScanState::LengthExtLsb(msb).reach(bytes, at + 3));
                    }
                }
            },
            Some((len, width)) => {
                let v = at + 1 + width;
                if width == 3 {
                    let msb = bytes[at + 2];
                    assert(TlvScanState::Length.reach(bytes, at + 1)
                        == TlvScanState::LengthExtMsb.reach(bytes, at + 2));
                    assert(TlvScanState::LengthExtMsb.reach(bytes, at + 2)
                        == TlvScanState::LengthExtLsb(msb).reach(bytes, at + 3));
                }
                assert(TlvScanState::Tag.reach(bytes, at) == TlvScanState::before_value(len).reach(
                    bytes,
                    v,
                ));
                if v + len <= bytes.len() {
                    TlvScanState::lemma_pass_value(len, bytes, v);
                    TlvScanState::Tag.lemma_reach_bounds(bytes, v + len);
                } else {
                    TlvScanState::lemma_cut_value(len, bytes, v);
                }
            },
        }
    }

    /// A block is the same whatever follows it.
    proof fn lemma_block_before(bytes: Seq<u8>, rest: Seq<u8>, at: int)
        requires
            0 <= at < bytes.len(),
            Self::block_at(bytes, at) is Ok,
        ensures
            Self::block_at(bytes + rest, at) == Self::block_at(bytes, at),
            at < Self::block_at(bytes, at)->Ok_0.1 <= bytes.len(),
            !(Self::block_at(bytes, at)->Ok_0.0 is Some && Self::block_at(
                bytes,
                at,
            )->Ok_0.0->Some_0 is Terminator) ==> TlvScanState::Tag.reach(bytes + rest, at)
                == TlvScanState::Tag.reach(bytes + rest, Self::block_at(bytes, at)->Ok_0.1),
    {
        let data = bytes + rest;
        if !Self::bare(bytes[at]) {
            let (len, width) = shared::length_at(bytes, at + 1)->Some_0;
            let v = at + 1 + width;
            assert(shared::length_at(data, at + 1) == shared::length_at(bytes, at + 1));
            assert(data.subrange(v, v + len) =~= bytes.subrange(v, v + len));
            Self::lemma_scan_length(data, at);
        }
    }

    /// Scanner and parser pass over the same blocks: after whole blocks, known or unknown, both
    /// stand at the next one.
    pub proof fn law_pass_whole_blocks(bytes: Seq<u8>, rest: Seq<u8>, at: int, room: nat)
        requires
            Self::whole_from(bytes, at) is Some,
            Self::whole_from(bytes, at)->Some_0.len() <= room,
        ensures
            ({
                let blocks = Self::whole_from(bytes, at)->Some_0;
                let data = bytes + rest;
                let next = bytes.len() as int;
                &&& TlvScanState::Tag.reach(data, at) == TlvScanState::Tag.reach(data, next)
                &&& Self::parsed_from(data, at, room) == match Self::parsed_from(
                    data,
                    next,
                    (room - blocks.len()) as nat,
                ) {
                    Ok(more) => Ok::<Seq<TlvView>, Type2Error>(blocks + more),
                    Err(e) => Err(e),
                }
            }),
        decreases bytes.len() - at,
    {
        let data = bytes + rest;
        let end = bytes.len() as int;
        let blocks = Self::whole_from(bytes, at)->Some_0;
        let more = Self::parsed_from(data, end, (room - blocks.len()) as nat);
        if at == end {
            if more is Ok {
                assert(blocks + more->Ok_0 =~= more->Ok_0);
            }
        } else {
            let (block, next) = Self::block_at(bytes, at)->Ok_0;
            Self::lemma_block_before(bytes, rest, at);
            if block is None {
                Self::law_pass_whole_blocks(bytes, rest, next, room);
            } else {
                let others = Self::whole_from(bytes, next)->Some_0;
                Self::law_pass_whole_blocks(bytes, rest, next, (room - 1) as nat);
                if more is Ok {
                    assert(seq![block->Some_0] + (others + more->Ok_0) =~= blocks + more->Ok_0);
                }
            }
        }
    }

    /// A parse that comes upon a malformed block behind whole blocks fails as that block does, and
    /// has found the whole blocks.
    pub proof fn law_error_behind_whole_blocks(
        bytes: Seq<u8>,
        rest: Seq<u8>,
        at: int,
        room: nat,
        error: Type2Error,
    )
        requires
            Self::whole_from(bytes, at) is Some,
            Self::whole_from(bytes, at)->Some_0.len() <= room,
            rest.len() > 0,
            Self::block_at(bytes + rest, bytes.len() as int) == Err::<
                (Option<TlvView>, int),
                Type2Error,
            >(error),
        ensures
            Self::parsed_from(bytes + rest, at, room) == Err::<Seq<TlvView>, Type2Error>(error),
            Self::found_from(bytes + rest, at, room) == Self::whole_from(bytes, at)->Some_0,
        decreases bytes.len() - at,
    {
        if at < bytes.len() {
            let (block, next) = Self::block_at(bytes, at)->Ok_0;
            Self::lemma_block_before(bytes, rest, at);
            let left = if block is None {
                room
            } else {
                (room - 1) as nat
            };
            Self::law_error_behind_whole_blocks(bytes, rest, next, left, error);
        }
    }

    /// A parse ends at a Terminator TLV: it comes once, as the last block, and whatever follows it
    /// is not looked at.
    pub proof fn law_terminator_ends_parse(bytes: Seq<u8>, rest: Seq<u8>, at: int, room: nat)
        requires
            0 <= at,
            Self::parsed_from(bytes, at, room) is Ok,
        ensures
            ({
                let blocks = Self::parsed_from(bytes, at, room)->Ok_0;
                &&& forall|i: int|
                    0 <= i < blocks.len() - 1 ==> !((#[trigger] blocks[i]) is Terminator)
                &&& blocks.len() > 0 && blocks.last() is Terminator ==> Self::parsed_from(
                    bytes + rest,
                    at,
                    room,
                ) == Self::parsed_from(bytes, at, room)
            }),
        decreases bytes.len() - at,
    {
        if at < bytes.len() {
            let (block, next) = Self::block_at(bytes, at)->Ok_0;
            let blocks = Self::parsed_from(bytes, at, room)->Ok_0;
            Self::lemma_block_before(bytes, rest, at);
            if block is None {
                Self::law_terminator_ends_parse(bytes, rest, next, room);
            } else if !(block->Some_0 is Terminator) {
                let left = (room - 1) as nat;
                let others = Self::parsed_from(bytes, next, left)->Ok_0;
                Self::law_terminator_ends_parse(bytes, rest, next, left);
                assert forall|i: int| 0 <= i < blocks.len() - 1 implies !((
                #[trigger] blocks[i]) is Terminator) by {
                    if i > 0 {
                        assert(blocks[i] == others[i - 1]);
                    }
                }
                if blocks.last() is Terminator {
                    assert(others.len() > 0 && others.last() == blocks.last());
                }
            }
        }
    }

    /// Where the blocks of a data area are appended to others and a Terminator TLV is among them,
    /// it comes once, as the last block, and whatever bytes follow it make no difference.
    pub proof fn law_append_ends_at_terminator(have: Seq<TlvView>, data: Seq<u8>, rest: Seq<u8>)
        requires
            have.len() <= tlv::TLV_CAPACITY,
            Self::appended(have, data).1 is None,
            exists|i: int|
                have.len() <= i < Self::appended(have, data).0.len() && (
                #[trigger] Self::appended(have, data).0[i]) is Terminator,
        ensures
            Self::appended(have, data + rest) == Self::appended(have, data),
            Self::appended(have, data).0.last() is Terminator,
            forall|i: int|
                have.len() <= i < Self::appended(have, data).0.len() - 1 ==> !((
                #[trigger] Self::appended(have, data).0[i]) is Terminator),
    {
        let room = (tlv::TLV_CAPACITY - have.len()) as nat;
        let blocks = Self::parsed_from(data, 0, room)->Ok_0;
        let all = have + blocks;
        Self::law_terminator_ends_parse(data, rest, 0, room);
        assert forall|i: int| have.len() <= i < all.len() - 1 implies !((
        #[trigger] all[i]) is Terminator) by {
            assert(all[i] == blocks[i - have.len()]);
        }
        let i = choose|i: int| have.len() <= i < all.len() && (#[trigger] all[i]) is Terminator;
        assert(i == all.len() - 1);
        assert(blocks.last() == all.last());
    }

    /// What stands before the NDEF Message TLV is whole blocks, none of them another one.
    pub proof fn law_whole_blocks_before_ndef(data: Seq<u8>, at: int)
        requires
            0 <= at,
            Self::ndef_position(data, at) is Some,
        ensures
            ({
                let position = Self::ndef_position(data, at)->Some_0;
                let lead = data.take(position);
                &&& at <= position < data.len()
                &&& data[position] == TLV_NDEF_MESSAGE
                &&& Self::whole_from(lead, at) is Some
                &&& forall|i: int|
                    0 <= i < Self::whole_from(lead, at)->Some_0.len() ==> !((
                    #[trigger] Self::whole_from(lead, at)->Some_0[i]) is NdefMessage)
            }),
        decreases data.len() - at,
    {
        let position = Self::ndef_position(data, at)->Some_0;
        let lead = data.take(position);
        Self::lemma_position_bounds(data, at);
        let (block, next) = Self::block_at(data, at)->Ok_0;
        if position != at {
            Self::law_whole_blocks_before_ndef(data, next);
            Self::lemma_block_within(data, position, at);
            let others = Self::whole_from(lead, next)->Some_0;
            let blocks = Self::whole_from(lead, at)->Some_0;
            assert forall|i: int| 0 <= i < blocks.len() implies !((
            #[trigger] blocks[i]) is NdefMessage) by {
                if block is Some && i > 0 {
                    assert(blocks[i] == others[i - 1]);
                } else if block is None {
                    assert(blocks[i] == others[i]);
                }
            }
        } else {
            Self::lemma_position_bounds(data, next);
            Self::lemma_block_before(data, seq![], at);
            assert(block is Some && block->Some_0 is NdefMessage);
            assert(lead.len() == at);
        }
    }

    /// A block is the same without what follows it.
    proof fn lemma_block_within(data: Seq<u8>, n: int, at: int)
        requires
            0 <= at < data.len(),
            Self::block_at(data, at) is Ok,
            Self::block_at(data, at)->Ok_0.1 <= n <= data.len(),
        ensures
            Self::block_at(data.take(n), at) == Self::block_at(data, at),
    {
        let bytes = data.take(n);
        if !Self::bare(data[at]) {
            let (len, width) = shared::length_at(data, at + 1)->Some_0;
            let v = at + 1 + width;
            assert(v + len <= n);
            assert(shared::length_at(bytes, at + 1) == shared::length_at(data, at + 1));
            assert(data.subrange(v, v + len) =~= bytes.subrange(v, v + len));
        }
    }

    /// The control blocks among some blocks.
    pub open spec fn controls_in(tlvs: Seq<TlvView>) -> Seq<TlvView>
        decreases tlvs.len(),
    {
        if tlvs.len() == 0 {
            seq![]
        } else if tlvs.last().is_control() {
            Self::controls_in(tlvs.drop_last()).push(tlvs.last())
        } else {
            Self::controls_in(tlvs.drop_last())
        }
    }

    proof fn lemma_controls_in_front(block: TlvView, rest: Seq<TlvView>)
        ensures
            Self::controls_in(seq![block] + rest) == (if block.is_control() {
                seq![block] + Self::controls_in(rest)
            } else {
                Self::controls_in(rest)
            }),
            Self::controls_in(rest).len() <= rest.len(),
        decreases rest.len(),
    {
        let all = seq![block] + rest;
        if rest.len() == 0 {
            assert(all.drop_last() =~= seq![]);
            assert(Self::controls_in(all.drop_last()) =~= seq![]);
            assert(Self::controls_in(all) =~= (if block.is_control() {
                seq![block] + Self::controls_in(rest)
            } else {
                Self::controls_in(rest)
            }));
        } else {
            assert(all.drop_last() =~= seq![block] + rest.drop_last());
            assert(all.last() == rest.last());
            Self::lemma_controls_in_front(block, rest.drop_last());
            assert(Self::controls_in(all) =~= (if block.is_control() {
                seq![block] + Self::controls_in(rest)
            } else {
                Self::controls_in(rest)
            }));
        }
    }

    /// Behind whole blocks the search for control blocks stops at an NDEF Message TLV, malformed
    /// or not, and has found those among the whole blocks.
    proof fn lemma_controls_before_ndef(data: Seq<u8>, n: int, at: int, room: nat)
        requires
            0 <= at <= n < data.len(),
            data[n] == TLV_NDEF_MESSAGE,
            Self::whole_from(data.take(n), at) is Some,
            Self::whole_from(data.take(n), at)->Some_0.len() <= room,
            forall|i: int|
                0 <= i < Self::whole_from(data.take(n), at)->Some_0.len() ==> !((
                #[trigger] Self::whole_from(data.take(n), at)->Some_0[i]) is NdefMessage),
        ensures
            Self::controls_from(data, at, room) == Self::controls_in(
                Self::whole_from(data.take(n), at)->Some_0,
            ),
        decreases data.len() - at,
    {
        let lead = data.take(n);
        let blocks = Self::whole_from(lead, at)->Some_0;
        if at < n {
            let (block, next) = Self::block_at(lead, at)->Ok_0;
            Self::lemma_block_before(lead, data.skip(n), at);
            assert(lead + data.skip(n) =~= data);
            let others = Self::whole_from(lead, next)->Some_0;
            assert forall|i: int| 0 <= i < others.len() implies !((
            #[trigger] others[i]) is NdefMessage) by {
                if block is Some {
                    assert(blocks[i + 1] == others[i]);
                } else {
                    assert(blocks[i] == others[i]);
                }
            }
            if block is None {
                Self::lemma_controls_before_ndef(data, n, next, room);
            } else {
                assert(blocks[0] == block->Some_0);
                Self::lemma_controls_in_front(block->Some_0, others);
                if block->Some_0.is_control() {
                    Self::lemma_controls_before_ndef(data, n, next, (room - 1) as nat);
                } else {
                    Self::lemma_controls_before_ndef(data, n, next, room);
                }
            }
        }
    }

    proof fn lemma_stop_early(bytes: Seq<u8>, at: int, room: nat)
        requires
            0 <= at <= bytes.len(),
        ensures
            Self::parsed_from(bytes.take(TlvScanState::Tag.reach(bytes, at)), at, room)
                == Self::parsed_from(bytes, at, room),
        decreases bytes.len() - at,
    {
        let stop = TlvScanState::Tag.reach(bytes, at);
        let cut = bytes.take(stop);
        TlvScanState::Tag.lemma_reach_bounds(bytes, at);
        if stop == bytes.len() {
            assert(cut =~= bytes);
        } else if at < bytes.len() {
            if Self::bare(bytes[at]) {
                if bytes[at] == tlv::TLV_NULL && room > 0 {
                    Self::lemma_stop_early(bytes, at + 1, (room - 1) as nat);
                }
            } else {
                Self::lemma_scan_length(bytes, at);
                let (len, width) = shared::length_at(bytes, at + 1)->Some_0;
                let v = at + 1 + width;
                assert(shared::length_at(cut, at + 1) == shared::length_at(bytes, at + 1));
                assert(cut.subrange(v, v + len) =~= bytes.subrange(v, v + len));
                assert(Self::block_at(cut, at) == Self::block_at(bytes, at));
                if let Ok((block, next)) = Self::block_at(bytes, at) {
                    assert(next == v + len);
                    if block is None {
                        Self::lemma_stop_early(bytes, next, room);
                    } else if room > 0 {
                        Self::lemma_stop_early(bytes, next, (room - 1) as nat);
                    }
                }
            }
        }
    }

    /// Stopping at the first Terminator TLV loses nothing: the bytes up to there hold the same
    /// blocks as all bytes.
    pub proof fn law_stop_early(bytes: Seq<u8>)
        ensures
            Self::parsed(TlvScanState::stream(bytes)) == Self::parsed(bytes),
    {
        Self::lemma_stop_early(bytes, 0, tlv::TLV_CAPACITY as nat);
    }
}

impl LayoutView {
    /// Whether the first `n` bytes of the data area lie in one piece: there is no lock or
    /// reserved byte before or among them.
    pub open spec fn clear(self, n: int) -> bool {
        forall|a: int| DATA_START <= a < DATA_START + n ==> !#[trigger] self.skips(a)
    }

    proof fn lemma_clear(self, n: int, a: int)
        requires
            self.clear(n),
            DATA_START <= a <= DATA_START + n,
        ensures
            self.usable(a).len() == a - DATA_START,
        decreases a,
    {
        if a > DATA_START {
            self.lemma_clear(n, a - 1);
            assert(!self.skips(a - 1));
        }
    }

    /// The bytes that lie in one piece are those from the start of the data area on.
    proof fn lemma_clear_bytes(self, n: int, memory: Seq<u8>)
        requires
            self.clear(n),
            0 <= n <= self.size,
            DATA_START + n <= ADDRESS_SPACE_END,
        ensures
            forall|k: int|
                0 <= k < n ==> #[trigger] self.bytes(memory)[k] == memory[DATA_START + k],
    {
        assert forall|k: int| 0 <= k < n implies #[trigger] self.bytes(memory)[k]
            == memory[DATA_START + k] by {
            assert(!self.skips(DATA_START + k));
            self.lemma_clear(n, DATA_START + k);
            self.lemma_usable_at(DATA_START + k, ADDRESS_SPACE_END as int);
        }
    }

    /// Blocks that describe no area add nothing.
    proof fn lemma_areas_plain(front: Seq<TlvView>, rest: Seq<TlvView>)
        requires
            !TlvView::any_control(rest),
        ensures
            Self::locks_of(front + rest) == Self::locks_of(front),
            Self::reserved_of(front + rest) == Self::reserved_of(front),
        decreases rest.len(),
    {
        if rest.len() == 0 {
            assert(front + rest =~= front);
        } else {
            let shorter = rest.drop_last();
            assert((front + rest).drop_last() =~= front + shorter);
            assert forall|i: int| 0 <= i < shorter.len() implies !(
            #[trigger] shorter[i]).is_control() by {
                assert(shorter[i] == rest[i]);
                assert(!rest[i].is_control());
            }
            assert(!rest[rest.len() - 1].is_control());
            Self::lemma_areas_plain(front, shorter);
        }
    }

    /// The areas of some blocks are those of the control blocks among them.
    proof fn lemma_areas_of_controls(tlvs: Seq<TlvView>)
        ensures
            Self::locks_of(TlvView::controls_in(tlvs)) == Self::locks_of(tlvs),
            Self::reserved_of(TlvView::controls_in(tlvs)) == Self::reserved_of(tlvs),
        decreases tlvs.len(),
    {
        if tlvs.len() > 0 {
            let before = tlvs.drop_last();
            Self::lemma_areas_of_controls(before);
            if tlvs.last().is_control() {
                let all = TlvView::controls_in(tlvs);
                assert(all.drop_last() =~= TlvView::controls_in(before));
            }
        }
    }

    /// The default lock area, and with it the layout without control blocks, leaves the data area
    /// in one piece.
    proof fn lemma_basic_clear(cc: CapabilityContainer)
        ensures
            Self::of(cc, seq![]).clear(cc.area_size() as int),
    {
    }
}

impl LayoutView {
    /// Whether two layouts leave out the same addresses up to `to`.
    pub open spec fn same_up_to(self, other: LayoutView, to: int) -> bool {
        forall|a: int| DATA_START <= a < to ==> #[trigger] self.skips(a) == other.skips(a)
    }

    proof fn lemma_same_usable(self, other: LayoutView, to: int)
        requires
            self.same_up_to(other, to),
        ensures
            self.usable(to) == other.usable(to),
        decreases to,
    {
        if to > DATA_START {
            assert(self.skips(to - 1) == other.skips(to - 1));
            self.lemma_same_usable(other, to - 1);
        }
    }

    /// The address after the first `n` usable ones.
    pub open spec fn end_of(self, n: int) -> int {
        if n <= 0 {
            DATA_START as int
        } else {
            self.usable(ADDRESS_SPACE_END as int)[n - 1] + 1
        }
    }

    /// Layouts that leave out the same addresses have the same bytes.
    proof fn lemma_same_bytes(self, other: LayoutView, n: int, memory: Seq<u8>)
        requires
            0 <= n <= other.usable(ADDRESS_SPACE_END as int).len(),
            n <= self.size,
            n <= other.size,
            self.same_up_to(other, other.end_of(n)),
        ensures
            forall|k: int|
                0 <= k < n ==> #[trigger] self.bytes(memory)[k] == other.bytes(memory)[k],
    {
        let space = ADDRESS_SPACE_END as int;
        if n > 0 {
            let end = other.end_of(n);
            other.lemma_usable_index(n - 1, space);
            self.lemma_same_usable(other, end);
            self.lemma_usable_prefix(end, space);
            other.lemma_usable_prefix(end, space);
            assert(other.usable(end).len() == n);
            assert forall|k: int| 0 <= k < n implies #[trigger] self.bytes(memory)[k]
                == other.bytes(memory)[k] by {
                assert(self.usable(end)[k] == self.usable(space).take(n)[k]);
                assert(other.usable(end)[k] == other.usable(space).take(n)[k]);
            }
        }
    }
}

impl TlvView {
    proof fn lemma_first_ndef(front: Seq<TlvView>, message: Seq<u8>, rest: Seq<TlvView>)
        requires
            forall|i: int| 0 <= i < front.len() ==> !((#[trigger] front[i]) is NdefMessage),
        ensures
            Self::first_ndef(front + seq![TlvView::NdefMessage(message)] + rest) == message,
        decreases front.len(),
    {
        let all = front + seq![TlvView::NdefMessage(message)] + rest;
        if front.len() > 0 {
            let others = front.drop_first();
            assert(all.first() == front[0]);
            assert forall|i: int| 0 <= i < others.len() implies !((
            #[trigger] others[i]) is NdefMessage) by {
                assert(others[i] == front[i + 1]);
            }
            assert(all.drop_first() =~= others + seq![TlvView::NdefMessage(message)] + rest);
            Self::lemma_first_ndef(others, message, rest);
        }
    }
}

impl WritePlan {
    /// Whole blocks, and after them the bytes of an NDEF message: the scanner stops where they
    /// end, and the parser finds the blocks, the message and the terminator.
    #[verifier::rlimit(30)]
    proof fn lemma_stream(lead: Seq<u8>, ndef: Seq<u8>, after: Seq<u8>)
        requires
            TlvView::whole_from(lead, 0) is Some,
            TlvView::whole_from(lead, 0)->Some_0.len() <= 2,
            Self::closed_block(ndef).len() <= DATA_CAPACITY,
        ensures
            ({
                let bytes = lead + Self::closed_block(ndef);
                let found = TlvView::whole_from(lead, 0)->Some_0 + seq![
                    TlvView::NdefMessage(ndef),
                ] + seq![TlvView::Terminator];
                &&& TlvScanState::stream(bytes + after) == bytes
                &&& TlvView::parsed(bytes) == Ok::<Seq<TlvView>, Type2Error>(found)
            }),
    {
        let message = TlvView::NdefMessage(ndef);
        let own = message.encoded()->Ok_0;
        let end = seq![TLV_TERMINATOR];
        let front = TlvView::whole_from(lead, 0)->Some_0;
        let bytes = lead + Self::closed_block(ndef);
        let all = bytes + after;
        let at = lead.len() as int;
        let last = (at + own.len()) as int;
        assert(all =~= lead + own + (end + after));
        assert(all =~= lead + (own + end + after));
        assert(bytes =~= lead + own + end);
        assert(bytes =~= lead + (own + end));
        TlvView::law_pass_whole_blocks(lead, own + end + after, 0, tlv::TLV_CAPACITY as nat);
        TlvView::law_pass_whole_blocks(lead, own + end, 0, tlv::TLV_CAPACITY as nat);
        message.lemma_encoded_block_at(lead, end + after);
        message.lemma_encoded_block_at(lead, end);
        TlvView::lemma_block_before(all, seq![], at);
        assert(all + seq![] =~= all);
        assert(all[last] == TLV_TERMINATOR);
        assert(TlvScanState::Tag.reach(all, last) == last + 1);
        assert(all.take(last + 1) =~= bytes);
        assert(bytes[last] == TLV_TERMINATOR);
        let room = (tlv::TLV_CAPACITY - front.len()) as nat;
        assert(TlvView::parsed_from(bytes, last, (room - 1) as nat) == Ok::<
            Seq<TlvView>,
            Type2Error,
        >(seq![TlvView::Terminator]));
        assert(TlvView::parsed_from(bytes, at, room) == Ok::<Seq<TlvView>, Type2Error>(
            seq![message] + seq![TlvView::Terminator],
        ));
        assert(front + (seq![message] + seq![TlvView::Terminator]) =~= front + seq![message]
            + seq![TlvView::Terminator]);
    }
}

impl TagModel {
    /// The layout that a write goes by.
    pub open spec fn write_layout(memory: Seq<u8>) -> LayoutView {
        let cc = Self::container(memory)->Ok_0;
        LayoutView::of(cc, Self::blocks(memory, cc)->Ok_0)
    }

    /// The layout that a read goes by.
    pub open spec fn read_layout(memory: Seq<u8>) -> LayoutView {
        Self::layout(memory, Self::container(memory)->Ok_0)
    }

    /// The bytes of the data area before the NDEF Message TLV.
    pub open spec fn lead(memory: Seq<u8>) -> Seq<u8> {
        Self::tlv_area(memory, Self::container(memory)->Ok_0)->Ok_0.take(Self::offset(memory))
    }

    /// The blocks before the NDEF Message TLV, without those of unknown kinds.
    pub open spec fn front(memory: Seq<u8>) -> Seq<TlvView> {
        TlvView::whole_from(Self::lead(memory), 0)->Some_0
    }

    /// The number of bytes of the data area up to the end of the NDEF message that a write puts
    /// there.
    pub open spec fn reach(memory: Seq<u8>, ndef: Seq<u8>) -> int {
        Self::offset(memory) + WritePlan::closed_block(ndef).len()
    }

    /// Whether the data area with the message can be taken in and parsed: it fits in a buffer up
    /// to the end of the message, and with at most two blocks before it there is room for the
    /// message and the terminator.
    pub open spec fn digestible(memory: Seq<u8>, ndef: Seq<u8>) -> bool {
        Self::front(memory).len() <= 2 && Self::reach(memory, ndef) <= DATA_CAPACITY
    }

    /// Whether reads go by the same areas before and after a write as the write does, up to the
    /// end of the message.
    pub open spec fn keeps_layout(memory: Seq<u8>, ndef: Seq<u8>) -> bool {
        let layout = Self::write_layout(memory);
        let end = layout.end_of(Self::reach(memory, ndef));
        &&& Self::read_layout(memory).same_up_to(layout, end)
        &&& Self::read_layout(Self::written(memory, ndef)).same_up_to(layout, end)
    }

    /// Whether a message can be read back once it has been written.
    pub open spec fn reads_back(memory: Seq<u8>, ndef: Seq<u8>) -> bool {
        &&& Self::whole(Self::written(memory, ndef))
        &&& Self::digestible(memory, ndef)
        &&& Self::keeps_layout(memory, ndef)
    }

    /// Whether no block but the first `n` is taken for a control block by which the data area has
    /// to be read.
    pub open spec fn controls_lead(memory: Seq<u8>, n: int) -> bool {
        let blocks = Self::announced(memory, Self::container(memory)->Ok_0);
        forall|i: int| 0 <= i < blocks.len() && (#[trigger] blocks[i]).is_control() ==> i < n
    }

    /// Whether the control blocks of the tag stand where they belong: before the NDEF Message
    /// TLV, on a dynamic tag, and with no lock or reserved byte before that TLV. Such bytes may
    /// lie anywhere behind its tag, in the message too.
    pub open spec fn orderly(memory: Seq<u8>) -> bool {
        let cc = Self::container(memory)->Ok_0;
        let tlvs = Self::blocks(memory, cc)->Ok_0;
        &&& Self::read_layout(memory).clear(Self::offset(memory) + 1)
        &&& Self::controls_lead(memory, Self::front(memory).len() as int)
        &&& forall|i: int|
            0 <= i < tlvs.len() && (#[trigger] tlvs[i]).is_control() ==> cc.dynamic() && i
                < Self::front(memory).len()
    }

    /// Whether nothing in the message is taken for a control block once it has been written. The
    /// first reading does not leave out the lock and reserved bytes inside the message, and so
    /// may take the end of the message for blocks.
    pub open spec fn unmistakable(memory: Seq<u8>, ndef: Seq<u8>) -> bool {
        Self::controls_lead(Self::written(memory, ndef), Self::front(memory).len() as int)
    }

    /// What is known of a memory that a message can be written to.
    proof fn lemma_writable(memory: Seq<u8>, ndef: Seq<u8>)
        requires
            Self::whole(memory),
            Self::plan(memory, ndef) is Ok,
        ensures
            ({
                let cc = Self::container(memory)->Ok_0;
                let lead = Self::lead(memory);
                let area = Self::tlv_area(memory, cc)->Ok_0;
                let offset = Self::offset(memory);
                let planned = Self::write_layout(memory);
                &&& 0 <= offset < area.len() <= Self::read_layout(memory).size
                &&& area[offset] == TLV_NDEF_MESSAGE
                &&& area =~= Self::read_layout(memory).bytes(memory).take(area.len() as int)
                &&& TlvView::whole_from(lead, 0) is Some
                &&& forall|i: int|
                    0 <= i < Self::front(memory).len() ==> !((
                    #[trigger] Self::front(memory)[i]) is NdefMessage)
                &&& Self::reach(memory, ndef) <= planned.size
                &&& planned.size == cc.area_size()
                &&& planned.size <= planned.usable(ADDRESS_SPACE_END as int).len()
                &&& Self::container(Self::written(memory, ndef)) == Self::container(memory)
            }),
    {
        let cc = Self::container(memory)->Ok_0;
        let area = Self::tlv_area(memory, cc)->Ok_0;
        let tlvs = Self::blocks(memory, cc)->Ok_0;
        let read = Self::read_layout(memory);
        TlvView::law_whole_blocks_before_ndef(area, 0);
        TlvScanState::Tag.lemma_reach_bounds(read.bytes(memory), 0);
        WritePlan::lemma_plan(cc, tlvs, Self::offset(memory), ndef, memory);
        assert(WritePlan::closed_block(ndef).len() == WritePlan::open_block(ndef).len());
    }

    /// What the data area holds after a write, by any layout that agrees with the one of the
    /// write.
    proof fn lemma_written_content(memory: Seq<u8>, ndef: Seq<u8>, layout: LayoutView)
        requires
            Self::whole(memory),
            Self::plan(memory, ndef) is Ok,
            Self::digestible(memory, ndef),
            Self::read_layout(memory).same_up_to(
                Self::write_layout(memory),
                Self::write_layout(memory).end_of(Self::reach(memory, ndef)),
            ),
            layout.same_up_to(
                Self::write_layout(memory),
                Self::write_layout(memory).end_of(Self::reach(memory, ndef)),
            ),
            layout.size == Self::container(memory)->Ok_0.area_size(),
        ensures
            ({
                let bytes = Self::lead(memory) + WritePlan::closed_block(ndef);
                let found = Self::front(memory) + seq![TlvView::NdefMessage(ndef)] + seq![
                    TlvView::Terminator,
                ];
                &&& layout.area(Self::written(memory, ndef)) == Ok::<Seq<u8>, Type2Error>(bytes)
                &&& TlvView::parsed(bytes) == Ok::<Seq<TlvView>, Type2Error>(found)
            }),
    {
        let cc = Self::container(memory)->Ok_0;
        let tlvs = Self::blocks(memory, cc)->Ok_0;
        let planned = Self::write_layout(memory);
        let read = Self::read_layout(memory);
        let usable = planned.usable(ADDRESS_SPACE_END as int);
        let offset = Self::offset(memory);
        let block = WritePlan::closed_block(ndef);
        let end = Self::reach(memory, ndef);
        let after = Self::written(memory, ndef);
        let area = Self::tlv_area(memory, cc)->Ok_0;
        let lead = Self::lead(memory);
        let bytes = lead + block;
        let all = layout.bytes(after);
        Self::lemma_writable(memory, ndef);
        WritePlan::lemma_plan(cc, tlvs, offset, ndef, memory);
        layout.lemma_same_bytes(planned, end, after);
        read.lemma_same_bytes(planned, end, memory);
        assert forall|k: int| 0 <= k < end implies #[trigger] bytes[k] == all[k] by {
            planned.lemma_usable_index(k, ADDRESS_SPACE_END as int);
            assert(usable[k] < memory.len());
            assert(all[k] == planned.bytes(after)[k]);
            assert(planned.bytes(after)[k] == after[usable[k]]);
            if k < offset {
                assert(lead[k] == area[k]);
                assert(area[k] == read.bytes(memory)[k]);
                assert(read.bytes(memory)[k] == planned.bytes(memory)[k]);
            }
        }
        assert(all =~= bytes + all.skip(end));
        WritePlan::lemma_stream(lead, ndef, all.skip(end));
    }

    /// What a write puts in memory is what a read finds there.
    ///
    /// This leaves out the writes after which a read goes by another layout, cannot take in the
    /// area up to the end of the message, or finds too many blocks.
    pub proof fn law_written_message(memory: Seq<u8>, ndef: Seq<u8>)
        requires
            Self::whole(memory),
            Self::plan(memory, ndef) is Ok,
            Self::digestible(memory, ndef),
            Self::keeps_layout(memory, ndef),
        ensures
            Self::message(Self::written(memory, ndef)) == Ok::<Seq<u8>, Type2Error>(ndef),
    {
        let after = Self::written(memory, ndef);
        Self::lemma_writable(memory, ndef);
        Self::lemma_written_content(memory, ndef, Self::read_layout(after));
        TlvView::lemma_first_ndef(Self::front(memory), ndef, seq![TlvView::Terminator]);
    }

    /// Where nothing breaks up the blocks before the NDEF Message TLV, and only they are taken for
    /// control blocks, a read goes by the layout that they describe.
    proof fn lemma_layout(memory: Seq<u8>, lead: Seq<u8>, cc: CapabilityContainer)
        requires
            memory.len() > DATA_START + lead.len(),
            lead.len() < cc.area_size(),
            lead.len() < DATA_CAPACITY,
            Self::container(memory) == Ok::<CapabilityContainer, Type2Error>(cc),
            forall|k: int| 0 <= k < lead.len() ==> memory[DATA_START + k] == #[trigger] lead[k],
            memory[(DATA_START + lead.len()) as int] == TLV_NDEF_MESSAGE,
            TlvView::whole_from(lead, 0) is Some,
            TlvView::whole_from(lead, 0)->Some_0.len() <= tlv::TLV_CAPACITY,
            forall|i: int|
                0 <= i < TlvView::whole_from(lead, 0)->Some_0.len() ==> !((
                #[trigger] TlvView::whole_from(lead, 0)->Some_0[i]) is NdefMessage),
            Self::controls_lead(memory, TlvView::whole_from(lead, 0)->Some_0.len() as int),
        ensures
            Self::read_layout(memory) == (if cc.dynamic() {
                LayoutView::of(cc, TlvView::whole_from(lead, 0)->Some_0)
            } else {
                LayoutView::of(cc, seq![])
            }),
    {
        let basic = LayoutView::of(cc, seq![]);
        let all = basic.bytes(memory);
        let n = lead.len() as int;
        let seen = basic.seen(memory);
        let front = TlvView::whole_from(lead, 0)->Some_0;
        let room = tlv::TLV_CAPACITY as nat;
        LayoutView::lemma_basic_clear(cc);
        basic.lemma_clear_bytes(cc.area_size() as int, memory);
        assert(all[n] == memory[DATA_START + n]);
        assert forall|k: int| 0 <= k < n implies #[trigger] lead[k] == all[k] by {
            assert(all[k] == memory[DATA_START + k]);
        }
        assert(all =~= lead + all.skip(n));
        TlvView::law_pass_whole_blocks(lead, all.skip(n), 0, room);
        TlvScanState::Tag.lemma_reach_bounds(all, n);
        assert(seen.len() > n && seen[n] == all[n]);
        assert(seen.take(n) =~= lead);
        let blocks = Self::announced(memory, Self::container(memory)->Ok_0);
        if basic.content(memory).len() <= DATA_CAPACITY && TlvView::parsed(seen) is Ok {
            assert(seen =~= lead + seen.skip(n));
            TlvView::law_pass_whole_blocks(lead, seen.skip(n), 0, room);
            let more = TlvView::parsed_from(seen, n, (room - front.len()) as nat)->Ok_0;
            assert(blocks == front + more);
            assert forall|i: int| 0 <= i < more.len() implies !(
            #[trigger] more[i]).is_control() by {
                assert(more[i] == blocks[front.len() + i]);
            }
            LayoutView::lemma_areas_plain(front, more);
        } else {
            TlvView::lemma_controls_before_ndef(seen, n, 0, room);
            assert(blocks == TlvView::controls_in(front));
            LayoutView::lemma_areas_of_controls(front);
        }
        assert(LayoutView::of(cc, blocks) == LayoutView::of(cc, front));
        if !TlvView::any_control(blocks) {
            LayoutView::lemma_no_control(cc, blocks);
        }
    }

    /// On an orderly tag a write and the reads before it go by one layout, and the bytes up to the
    /// tag of the NDEF Message TLV lie in one piece and stay as they are.
    proof fn lemma_orderly(memory: Seq<u8>, ndef: Seq<u8>)
        requires
            Self::whole(memory),
            Self::plan(memory, ndef) is Ok,
            Self::digestible(memory, ndef),
            Self::orderly(memory),
        ensures
            ({
                let cc = Self::container(memory)->Ok_0;
                let lead = Self::lead(memory);
                let offset = Self::offset(memory);
                let read = Self::read_layout(memory);
                let after = Self::written(memory, ndef);
                &&& Self::write_layout(memory) == read
                &&& read == (if cc.dynamic() {
                    LayoutView::of(cc, Self::front(memory))
                } else {
                    LayoutView::of(cc, seq![])
                })
                &&& !cc.dynamic() ==> !TlvView::any_control(Self::front(memory))
                &&& lead.len() == offset
                &&& after.len() == memory.len()
                &&& forall|k: int|
                    0 <= k < offset ==> after[DATA_START + k] == #[trigger] lead[k]
                &&& after[DATA_START + offset] == TLV_NDEF_MESSAGE
                &&& DATA_START + cc.area_size() <= memory.len()
            }),
    {
        let cc = Self::container(memory)->Ok_0;
        let tlvs = Self::blocks(memory, cc)->Ok_0;
        let read = Self::read_layout(memory);
        let area = Self::tlv_area(memory, cc)->Ok_0;
        let lead = Self::lead(memory);
        let front = Self::front(memory);
        let offset = Self::offset(memory);
        let after = Self::written(memory, ndef);
        let block = WritePlan::closed_block(ndef);
        Self::lemma_writable(memory, ndef);
        WritePlan::lemma_plan(cc, tlvs, offset, ndef, memory);
        Self::lemma_area_in_memory(memory, cc);
        read.lemma_clear_bytes(offset + 1, memory);
        assert forall|k: int| 0 <= k < lead.len() implies memory[DATA_START + k]
            == #[trigger] lead[k] by {
            assert(lead[k] == area[k]);
            assert(area[k] == read.bytes(memory)[k]);
        }
        assert(memory[DATA_START + offset] == TLV_NDEF_MESSAGE) by {
            assert(read.bytes(memory)[offset] == area[offset]);
            assert(read.bytes(memory)[offset] == memory[DATA_START + offset]);
        }
        Self::lemma_layout(memory, lead, cc);
        // The blocks are those before the NDEF Message TLV and others, which describe no area.
        assert(area =~= lead + area.skip(offset));
        TlvView::law_pass_whole_blocks(lead, area.skip(offset), 0, tlv::TLV_CAPACITY as nat);
        let more = TlvView::parsed_from(
            area,
            offset,
            (tlv::TLV_CAPACITY - front.len()) as nat,
        )->Ok_0;
        assert(tlvs == front + more);
        assert forall|i: int| 0 <= i < more.len() implies !(#[trigger] more[i]).is_control() by {
            assert(more[i] == tlvs[front.len() + i]);
        }
        LayoutView::lemma_areas_plain(front, more);
        if !cc.dynamic() {
            assert(!TlvView::any_control(tlvs));
            assert forall|i: int| 0 <= i < front.len() implies !(
            #[trigger] front[i]).is_control() by {
                assert(front[i] == tlvs[i]);
            }
            LayoutView::lemma_no_control(cc, tlvs);
        }
        assert(Self::write_layout(memory) == read);
        assert forall|k: int| 0 <= k < lead.len() implies after[DATA_START + k]
            == #[trigger] lead[k] by {
            read.lemma_clear(offset + 1, DATA_START + k);
        }
        assert(after[DATA_START + offset] == TLV_NDEF_MESSAGE) by {
            assert(!read.skips(DATA_START + offset));
            read.lemma_clear(offset + 1, DATA_START + offset);
            assert(block[0] == TLV_NDEF_MESSAGE);
        }
    }

    /// A message on an orderly tag can be read back, if the data area with it can be taken in and
    /// parsed, and nothing in it is taken for a control block. Lock and reserved areas may lie
    /// inside the message.
    pub proof fn law_orderly_tag_reads_back(memory: Seq<u8>, ndef: Seq<u8>)
        requires
            Self::whole(memory),
            Self::plan(memory, ndef) is Ok,
            Self::digestible(memory, ndef),
            Self::orderly(memory),
            Self::unmistakable(memory, ndef),
        ensures
            Self::reads_back(memory, ndef),
            Self::read_layout(Self::written(memory, ndef)) == Self::read_layout(memory),
            Self::write_layout(memory) == Self::read_layout(memory),
    {
        let cc = Self::container(memory)->Ok_0;
        let read = Self::read_layout(memory);
        let front = Self::front(memory);
        let after = Self::written(memory, ndef);
        Self::lemma_writable(memory, ndef);
        Self::lemma_orderly(memory, ndef);
        Self::lemma_layout(after, Self::lead(memory), cc);
        assert(Self::read_layout(after) == read);
        // The memory is still whole.
        Self::lemma_written_content(memory, ndef, read);
        let last = seq![TlvView::NdefMessage(ndef)] + seq![TlvView::Terminator];
        let found = front + seq![TlvView::NdefMessage(ndef)] + seq![TlvView::Terminator];
        assert(found =~= front + last);
        assert(!TlvView::any_control(last));
        LayoutView::lemma_areas_plain(front, last);
        if !cc.dynamic() {
            LayoutView::lemma_no_control(cc, front);
        }
        assert(LayoutView::of(cc, found) == read);
        assert(LayoutView::of(cc, seq![]).fits(after) && read.fits(after));
    }

    /// A message on an orderly tag can be read back, if the data area with it can be taken in and
    /// parsed, and no lock or reserved area lies before its end.
    pub proof fn law_message_in_one_piece_reads_back(memory: Seq<u8>, ndef: Seq<u8>)
        requires
            Self::whole(memory),
            Self::plan(memory, ndef) is Ok,
            Self::digestible(memory, ndef),
            Self::orderly(memory),
            Self::read_layout(memory).clear(Self::reach(memory, ndef)),
        ensures
            Self::unmistakable(memory, ndef),
            Self::reads_back(memory, ndef),
    {
        let cc = Self::container(memory)->Ok_0;
        let read = Self::read_layout(memory);
        let basic = LayoutView::of(cc, seq![]);
        let lead = Self::lead(memory);
        let front = Self::front(memory);
        let after = Self::written(memory, ndef);
        let offset = Self::offset(memory);
        let end = Self::reach(memory, ndef);
        let bytes = lead + WritePlan::closed_block(ndef);
        let all = basic.bytes(after);
        Self::lemma_writable(memory, ndef);
        Self::lemma_orderly(memory, ndef);
        LayoutView::lemma_basic_clear(cc);
        basic.lemma_clear_bytes(cc.area_size() as int, after);
        assert forall|k: int| 0 <= k < end implies #[trigger] bytes[k] == all[k] by {
            assert(all[k] == after[DATA_START + k]);
            if k < offset {
                assert(after[DATA_START + k] == lead[k]);
            } else {
                assert(!read.skips(DATA_START + k));
                read.lemma_clear(end, DATA_START + k);
            }
        }
        assert(all =~= bytes + all.skip(end));
        WritePlan::lemma_stream(lead, ndef, all.skip(end));
        let found = front + seq![TlvView::NdefMessage(ndef)] + seq![TlvView::Terminator];
        assert(basic.seen(after) == bytes);
        assert(Self::announced(after, cc) == found);
        Self::law_orderly_tag_reads_back(memory, ndef);
    }

    /// A memory that holds the data area reaches to its end.
    proof fn lemma_area_in_memory(memory: Seq<u8>, cc: CapabilityContainer)
        requires
            LayoutView::of(cc, seq![]).fits(memory),
            cc.area_size() > 0,
        ensures
            DATA_START + cc.area_size() <= memory.len(),
    {
        let basic = LayoutView::of(cc, seq![]);
        let last = DATA_START + cc.area_size() - 1;
        LayoutView::lemma_basic_clear(cc);
        assert(!basic.skips(last));
        basic.lemma_clear(cc.area_size() as int, last);
        basic.lemma_usable_at(last, ADDRESS_SPACE_END as int);
        assert(basic.usable(ADDRESS_SPACE_END as int)[cc.area_size() - 1] < memory.len());
    }

    /// On a tag whose data area starts with an NDEF Message TLV, and that has no lock or memory
    /// control blocks, every message that can be written can be read back.
    pub proof fn law_plain_tag_reads_back(memory: Seq<u8>, ndef: Seq<u8>)
        requires
            Self::whole(memory),
            Self::plan(memory, ndef) is Ok,
            !TlvView::any_control(Self::announced(memory, Self::container(memory)->Ok_0)),
            !TlvView::any_control(Self::blocks(memory, Self::container(memory)->Ok_0)->Ok_0),
            Self::offset(memory) == 0,
        ensures
            Self::reads_back(memory, ndef),
    {
        let cc = Self::container(memory)->Ok_0;
        assert(Self::lead(memory) =~= seq![]);
        assert(WritePlan::closed_block(ndef).len() == WritePlan::open_block(ndef).len());
        Self::lemma_writable(memory, ndef);
        LayoutView::lemma_basic_clear(cc);
        Self::law_message_in_one_piece_reads_back(memory, ndef);
    }
}

impl LayoutView {
    /// Blocks that describe no area leave the layout as it is without blocks.
    proof fn lemma_no_control(cc: CapabilityContainer, tlvs: Seq<TlvView>)
        requires
            !TlvView::any_control(tlvs),
        ensures
            Self::of(cc, tlvs) == Self::of(cc, seq![]),
    {
        Self::lemma_areas_plain(seq![], tlvs);
        assert(seq![] + tlvs =~= tlvs);
    }
}

impl LayoutView {
    /// Placing data puts its bytes on the usable addresses from the `k`-th on, in order, and
    /// leaves every other byte as it is.
    pub proof fn law_placed(self, memory: Seq<u8>, k: int, data: Seq<u8>, to: int)
        requires
            0 <= k,
            k + data.len() <= self.usable(to).len(),
            to <= memory.len(),
        ensures
            self.placed(memory, k, data).len() == memory.len(),
            forall|j: int|
                0 <= j < data.len() ==> self.placed(memory, k, data)[#[trigger] self.usable(to)[k
                    + j]] == data[j],
            forall|a: int|
                0 <= a < memory.len() && !(exists|j: int|
                    k <= j < k + data.len() && #[trigger] self.usable(to)[j] == a)
                    ==> #[trigger] self.placed(memory, k, data)[a] == memory[a],
    {
        let placed = self.placed(memory, k, data);
        assert forall|j: int| 0 <= j < data.len() implies placed[#[trigger] self.usable(to)[k + j]]
            == data[j] by {
            self.lemma_usable_index(k + j, to);
        }
        assert forall|a: int|
            0 <= a < memory.len() && !(exists|j: int|
                k <= j < k + data.len() && #[trigger] self.usable(to)[j] == a) implies
            #[trigger] placed[a] == memory[a] by {
            let n = self.usable(a).len() as int;
            if DATA_START <= a && !self.skips(a) && k <= n < k + data.len() {
                if a < to {
                    self.lemma_usable_at(a, to);
                    assert(self.usable(to)[n] == a);
                } else {
                    self.lemma_usable_prefix(to, a);
                }
            }
        }
    }

    /// The bytes of the data area are those at the usable addresses, one for each byte of its size.
    /// What a read sees of them ends with the first Terminator TLV, and has to fit in 1024 bytes.
    pub proof fn law_bytes(self, memory: Seq<u8>, k: int)
        ensures
            self.bytes(memory).len() == self.size,
            0 <= k < self.size ==> self.bytes(memory)[k] == memory[self.usable(261_120)[k]],
            self.content(memory) == TlvScanState::stream(self.bytes(memory)),
            self.content(memory).len() <= 1024 ==> self.area(memory) == Ok::<Seq<u8>, Type2Error>(
                self.content(memory),
            ) && self.seen(memory) == self.content(memory),
            self.content(memory).len() > 1024 ==> self.area(memory) == Err::<Seq<u8>, Type2Error>(
                Type2Error::BufferFull,
            ) && self.seen(memory) == self.content(memory).take(1024),
    {
    }
}

impl TagModel {
    /// The blocks of the data area are read by the layout without control blocks, or, on a dynamic
    /// tag on which that shows some, by the one that they describe.
    pub proof fn law_blocks(memory: Seq<u8>, cc: CapabilityContainer)
        ensures
            ({
                let basic = LayoutView::of(cc, seq![]);
                let blocks = TlvView::announced(
                    basic.seen(memory),
                    basic.content(memory).len() <= 1024,
                );
                let layout = if cc.size_field > 6 && TlvView::any_control(blocks) {
                    LayoutView::of(cc, blocks)
                } else {
                    basic
                };
                &&& Self::layout(memory, cc) == layout
                &&& layout.area(memory) matches Err(e) ==> Self::blocks(memory, cc) == Err::<
                    Seq<TlvView>,
                    Type2Error,
                >(e)
                &&& layout.area(memory) matches Ok(bytes) ==> {
                    &&& Self::blocks(memory, cc) == TlvView::parsed_from(bytes, 0, 4)
                    &&& Self::position(memory, cc) == TlvView::ndef_position(bytes, 0)
                }
            }),
    {
    }

    /// A tag without the magic number, with a later major version, with major version 0 or without
    /// read access can be neither read nor written. The reason is the same for both.
    pub proof fn law_unreadable_tag(memory: Seq<u8>, ndef: Seq<u8>)
        requires
            memory.len() >= 16,
            memory[12] != 0xE1 || memory[13] >= 32 || memory[13] < 16 || memory[15] >= 16,
        ensures
            ({
                let error = if memory[12] != 0xE1 {
                    Type2Error::InvalidMagic(memory[12])
                } else if memory[13] >= 32 {
                    Type2Error::UnsupportedVersion {
                        major: (memory[13] / 16) as u8,
                        minor: (memory[13] % 16) as u8,
                    }
                } else {
                    Type2Error::InvalidMagic(0)
                };
                &&& Self::message(memory) == Err::<Seq<u8>, Type2Error>(error)
                &&& Self::plan(memory, ndef) == Err::<WritePlan, Type2Error>(error)
            }),
    {
        CapabilityContainer::law_decode([memory[12], memory[13], memory[14], memory[15]]);
    }

    /// A tag with the magic number, major version 1 and read access can be read, whatever its write
    /// access: the message is that of the first NDEF Message TLV among its blocks. It cannot be
    /// only because its blocks are malformed, too many or too long.
    pub proof fn law_readable_tag(memory: Seq<u8>)
        requires
            memory.len() >= 16,
            memory[12] == 0xE1,
            16 <= memory[13] < 32,
            memory[15] < 16,
        ensures
            ({
                let cc = Self::container(memory)->Ok_0;
                &&& Self::container(memory) is Ok
                &&& cc.size_field == memory[14]
                &&& Self::message(memory) is Ok <==> Self::blocks(memory, cc) is Ok
                &&& Self::message(memory) matches Err(e) ==> e == Type2Error::InvalidTlv || e
                    == Type2Error::BufferFull
                &&& Self::blocks(memory, cc) matches Ok(blocks) ==> Self::message(memory)->Ok_0
                    == TlvView::first_ndef(blocks)
                &&& Self::blocks(memory, cc) matches Err(e) ==> Self::message(memory) == Err::<
                    Seq<u8>,
                    Type2Error,
                >(e)
            }),
    {
        CapabilityContainer::law_decode([memory[12], memory[13], memory[14], memory[15]]);
        let cc = Self::container(memory)->Ok_0;
        if let Ok(bytes) = Self::tlv_area(memory, cc) {
            TlvView::law_parse_errors(bytes, 0, 4);
        }
    }

    /// Whether a tag is read does not depend on its write access: two memories that differ in the
    /// lower half of byte 15 alone hold the same message.
    pub proof fn law_write_access_does_not_matter_to_a_read(memory: Seq<u8>, other: Seq<u8>)
        requires
            Self::whole(memory),
            memory.len() == other.len(),
            forall|a: int| 0 <= a < memory.len() && a != 15 ==> memory[a] == other[a],
            memory[15] / 16 == other[15] / 16,
        ensures
            Self::message(memory) is Ok <==> Self::message(other) is Ok,
            memory[12] == 0xE1 && 16 <= memory[13] < 32 && memory[15] < 16 ==> Self::message(memory)
                == Self::message(other),
    {
        CapabilityContainer::law_decode([memory[12], memory[13], memory[14], memory[15]]);
        CapabilityContainer::law_decode([other[12], other[13], other[14], other[15]]);
        if memory[12] == 0xE1 && 16 <= memory[13] < 32 && memory[15] < 16 {
            Self::law_readable_tag(memory);
            Self::law_readable_tag(other);
            let (c1, c2) = (Self::container(memory)->Ok_0, Self::container(other)->Ok_0);
            let basic = LayoutView::of(c1, seq![]);
            assert(LayoutView::of(c2, seq![]) == basic);
            basic.lemma_bytes_from_16(memory, other);
            let blocks = Self::announced(memory, c1);
            assert(LayoutView::of(c2, blocks) == LayoutView::of(c1, blocks));
            Self::layout(memory, c1).lemma_bytes_from_16(memory, other);
        }
    }

    /// Whether a message can be written to a tag with the magic number, major version 1 and read
    /// access: write access has to be granted, the blocks have to be such as can be parsed, and
    /// there has to be an NDEF Message TLV. Then all that counts is room. From the first byte of
    /// that TLV to the end of the data area there has to be room for its tag, a length field of one
    /// byte, or three from 255 on, the message and a terminator, which must not be more than 1024
    /// bytes. How long the message is that is there plays no part.
    pub proof fn law_writable_tag(memory: Seq<u8>, ndef: Seq<u8>)
        requires
            Self::whole(memory),
            memory[12] == 0xE1,
            16 <= memory[13] < 32,
            memory[15] < 16,
        ensures
            ({
                let cc = Self::container(memory)->Ok_0;
                let plan = Self::plan(memory, ndef);
                let k = Self::position(memory, cc)->Some_0;
                let width = if ndef.len() < 255 {
                    1int
                } else {
                    3int
                };
                let block = 1 + width + ndef.len() + 1;
                let refused = |e: Type2Error| plan == Err::<WritePlan, Type2Error>(e);
                &&& memory[15] > 0 ==> refused(Type2Error::ReadOnly)
                &&& memory[15] == 0 && Self::blocks(memory, cc) is Err ==> refused(
                    Self::blocks(memory, cc)->Err_0,
                )
                &&& memory[15] == 0 && Self::blocks(memory, cc) is Ok ==> {
                    &&& ndef.len() > 0xFFFE ==> refused(Type2Error::OutOfRange)
                    &&& ndef.len() <= 0xFFFE && Self::position(memory, cc) is None ==> refused(
                        Type2Error::InvalidTlv,
                    )
                    &&& ndef.len() <= 0xFFFE && Self::position(memory, cc) is Some ==> {
                        &&& k + block > memory[14] * 8 ==> refused(Type2Error::OutOfRange)
                        &&& k + block <= memory[14] * 8 && block > 1024 ==> refused(
                            Type2Error::BufferFull,
                        )
                        &&& k + block <= memory[14] * 8 && block <= 1024 ==> plan is Ok
                    }
                }
                &&& plan is Ok ==> {
                    &&& memory[15] == 0
                    &&& Self::offset(memory) == k
                    &&& plan->Ok_0.layout == LayoutView::of(cc, Self::blocks(memory, cc)->Ok_0)
                    &&& Self::opened(memory, ndef) == plan->Ok_0.layout.placed(
                        memory,
                        k,
                        WritePlan::open_block(ndef),
                    )
                    &&& Self::written(memory, ndef) == plan->Ok_0.layout.placed(
                        memory,
                        k,
                        WritePlan::closed_block(ndef),
                    )
                }
            }),
    {
        CapabilityContainer::law_decode([memory[12], memory[13], memory[14], memory[15]]);
        let cc = Self::container(memory)->Ok_0;
        if memory[15] == 0 && Self::blocks(memory, cc) is Ok {
            let bytes = Self::tlv_area(memory, cc)->Ok_0;
            TlvView::lemma_position_bounds(bytes, 0);
            WritePlan::law_plan(
                cc,
                Self::blocks(memory, cc)->Ok_0,
                Self::position(memory, cc),
                ndef,
            );
        }
    }

    /// Whether this memory starts its data area with an NDEF Message TLV that holds this message,
    /// and a Terminator TLV behind it.
    pub open spec fn starts_with(memory: Seq<u8>, message: Seq<u8>) -> bool {
        let len = message.len();
        let start = if len < 255 {
            18int
        } else {
            20int
        };
        &&& len <= 0xFFFE
        &&& start + len < memory.len()
        &&& memory[16] == 0x03
        &&& len < 255 ==> memory[17] == len
        &&& len >= 255 ==> memory[17] == 0xFF && 256 * memory[18] + memory[19] == len
        &&& memory.subrange(start, start + len) == message
        &&& memory[start + len] == 0xFE
    }

    proof fn lemma_closed(message: Seq<u8>)
        ensures
            message.len() <= 0xFFFE ==> {
                let closed = WritePlan::closed_block(message);
                let start = if message.len() < 255 {
                    2int
                } else {
                    4int
                };
                &&& closed.len() == start + message.len() + 1
                &&& closed[0] == 0x03
                &&& closed.last() == 0xFE
                &&& closed.subrange(start, closed.len() - 1) == message
                &&& start == 2 ==> closed[1] == message.len()
                &&& start == 4 ==> closed[1] == 0xFF && 256 * closed[2] + closed[3]
                    == message.len()
            },
    {
        if message.len() <= 0xFFFE {
            WritePlan::law_finished_block(message);
        }
    }

    /// What is known of a tag whose data area starts with an NDEF Message TLV and a terminator.
    #[verifier::rlimit(30)]
    proof fn lemma_plain(memory: Seq<u8>, message: Seq<u8>)
        requires
            memory.len() % 4 == 0,
            memory.len() >= 16 + memory[14] * 8,
            memory.len() >= 16,
            memory[12] == 0xE1,
            16 <= memory[13] < 32,
            memory[15] < 16,
            Self::starts_with(memory, message),
            WritePlan::closed_block(message).len() <= memory[14] * 8,
            WritePlan::closed_block(message).len() <= 1024,
        ensures
            ({
                let cc = Self::container(memory)->Ok_0;
                let basic = LayoutView::of(cc, seq![]);
                &&& Self::container(memory) is Ok
                &&& cc.size_field == memory[14]
                &&& Self::layout(memory, cc) == basic
                &&& Self::blocks(memory, cc) == Ok::<Seq<TlvView>, Type2Error>(
                    seq![TlvView::NdefMessage(message), TlvView::Terminator],
                )
                &&& LayoutView::of(cc, Self::blocks(memory, cc)->Ok_0) == basic
                &&& Self::position(memory, cc) == Some(0int)
                &&& basic.clear(cc.area_size() as int)
                &&& Self::whole(memory)
            }),
    {
        CapabilityContainer::law_decode([memory[12], memory[13], memory[14], memory[15]]);
        let cc = Self::container(memory)->Ok_0;
        let basic = LayoutView::of(cc, seq![]);
        let size = cc.area_size() as int;
        let closed = WritePlan::closed_block(message);
        let all = basic.bytes(memory);
        let usable = basic.usable(ADDRESS_SPACE_END as int);
        LayoutView::lemma_basic_clear(cc);
        basic.lemma_clear_bytes(size, memory);
        Self::lemma_closed(message);
        assert forall|k: int| 0 <= k < closed.len() implies #[trigger] closed[k] == all[k] by {
            assert(all[k] == memory[DATA_START + k]);
            let start: int = if message.len() < 255 {
                2
            } else {
                4
            };
            if start <= k < closed.len() - 1 {
                assert(closed.subrange(start, closed.len() - 1)[k - start] == closed[k]);
                assert(memory.subrange(16 + start, 16 + start + message.len())[k - start]
                    == memory[16 + k]);
            }
        }
        let rest = all.skip(closed.len() as int);
        assert(TlvView::whole_from(seq![], 0) == Some(Seq::<TlvView>::empty()));
        WritePlan::lemma_stream(seq![], message, rest);
        let found = seq![TlvView::NdefMessage(message), TlvView::Terminator];
        assert(seq![] + closed =~= closed);
        assert(closed + rest =~= all);
        assert(Seq::<TlvView>::empty() + seq![TlvView::NdefMessage(message)] + seq![
            TlvView::Terminator,
        ] =~= found);
        assert(basic.content(memory) == closed);
        assert(Self::announced(memory, cc) == found);
        assert(!TlvView::any_control(found));
        LayoutView::lemma_no_control(cc, found);
        TlvView::law_block(closed, 0);
        TlvView::law_ndef_is_found(closed, 0);
        let message_block = TlvView::NdefMessage(message);
        assert(closed =~= seq![] + message_block.encoded()->Ok_0 + seq![TLV_TERMINATOR]);
        message_block.lemma_encoded_block_at(seq![], seq![TLV_TERMINATOR]);
        basic.lemma_clear_fits(size, memory);
    }

    /// A message that stands at the start of the data area, with a terminator behind it, is the one
    /// that is read, on every tag with the magic number, major version 1 and read access.
    pub proof fn law_message_at_the_start(memory: Seq<u8>, message: Seq<u8>)
        requires
            memory.len() % 4 == 0,
            memory.len() >= 16,
            memory.len() >= 16 + memory[14] * 8,
            memory[12] == 0xE1,
            16 <= memory[13] < 32,
            memory[15] < 16,
            Self::starts_with(memory, message),
            message.len() < 255 ==> message.len() + 3 <= memory[14] * 8,
            message.len() >= 255 ==> message.len() + 5 <= memory[14] * 8 && message.len() <= 1019,
        ensures
            Self::message(memory) == Ok::<Seq<u8>, Type2Error>(message),
            Self::whole(memory),
    {
        Self::lemma_closed(message);
        Self::lemma_plain(memory, message);
        Self::law_readable_tag(memory);
        let found = seq![TlvView::NdefMessage(message), TlvView::Terminator];
        TlvView::law_first_message(found, 0);
    }

    /// On such a tag, with write access too, a message can be written whatever the one is that is
    /// there, if it fits in the data area and in a buffer. It then stands where the other one was,
    /// and no byte behind it has changed, nor one before the data area.
    pub proof fn law_write_at_the_start(memory: Seq<u8>, message: Seq<u8>, ndef: Seq<u8>)
        requires
            memory.len() % 4 == 0,
            memory.len() >= 16,
            memory.len() >= 16 + memory[14] * 8,
            memory[12] == 0xE1,
            16 <= memory[13] < 32,
            memory[15] == 0,
            Self::starts_with(memory, message),
            message.len() < 255 ==> message.len() + 3 <= memory[14] * 8,
            message.len() >= 255 ==> message.len() + 5 <= memory[14] * 8 && message.len() <= 1019,
        ensures
            ({
                let end = if ndef.len() < 255 {
                    19 + ndef.len()
                } else {
                    21 + ndef.len()
                };
                let written = Self::written(memory, ndef);
                &&& Self::plan(memory, ndef) is Ok <==> end <= 16 + memory[14] * 8 && end <= 1040
                &&& Self::plan(memory, ndef) is Ok ==> {
                    &&& written.len() == memory.len()
                    &&& Self::starts_with(written, ndef)
                    &&& forall|a: int|
                        0 <= a < 16 || end <= a < memory.len() ==> #[trigger] written[a]
                            == memory[a]
                    &&& Self::message(written) == Ok::<Seq<u8>, Type2Error>(ndef)
                }
            }),
    {
        Self::lemma_closed(message);
        Self::lemma_closed(ndef);
        Self::lemma_plain(memory, message);
        Self::law_writable_tag(memory, ndef);
        if Self::plan(memory, ndef) is Ok {
            Self::lemma_placed_plain(memory, ndef);
            Self::lemma_starts_with(Self::written(memory, ndef), ndef);
            Self::law_message_at_the_start(Self::written(memory, ndef), ndef);
        }
    }

    /// Where nothing is left out, the finished block lies in one piece.
    proof fn lemma_placed_plain(memory: Seq<u8>, ndef: Seq<u8>)
        requires
            Self::plan(memory, ndef) is Ok,
            Self::offset(memory) == 0,
            Self::plan(memory, ndef)->Ok_0.layout.clear(
                Self::container(memory)->Ok_0.area_size() as int,
            ),
            WritePlan::closed_block(ndef).len() <= Self::container(memory)->Ok_0.area_size(),
            memory.len() >= 16 + Self::container(memory)->Ok_0.area_size(),
        ensures
            ({
                let closed = WritePlan::closed_block(ndef);
                let written = Self::written(memory, ndef);
                &&& written.len() == memory.len()
                &&& forall|k: int|
                    0 <= k < closed.len() ==> #[trigger] closed[k] == written[16 + k]
                &&& forall|a: int|
                    0 <= a < 16 || 16 + closed.len() <= a < memory.len() ==> #[trigger] written[a]
                        == memory[a]
            }),
    {
        let layout = Self::plan(memory, ndef)->Ok_0.layout;
        let size = Self::container(memory)->Ok_0.area_size() as int;
        let closed = WritePlan::closed_block(ndef);
        let written = Self::written(memory, ndef);
        assert forall|k: int| 0 <= k < closed.len() implies #[trigger] closed[k] == written[16
            + k] by {
            assert(!layout.skips(DATA_START + k));
            layout.lemma_clear(size, DATA_START + k);
        }
        assert forall|a: int|
            0 <= a < 16 || 16 + closed.len() <= a < memory.len() implies #[trigger] written[a]
            == memory[a] by {
            if a >= 16 {
                layout.lemma_clear(size, 16 + closed.len() as int);
                layout.lemma_usable_prefix(16 + closed.len() as int, a);
            }
        }
    }

    /// A memory with the finished block of a message at the start of its data area.
    proof fn lemma_starts_with(memory: Seq<u8>, ndef: Seq<u8>)
        requires
            ndef.len() <= 0xFFFE,
            memory.len() >= 16 + WritePlan::closed_block(ndef).len(),
            forall|k: int|
                0 <= k < WritePlan::closed_block(ndef).len() ==> #[trigger] WritePlan::closed_block(
                    ndef,
                )[k] == memory[16 + k],
        ensures
            Self::starts_with(memory, ndef),
    {
        let closed = WritePlan::closed_block(ndef);
        let start: int = if ndef.len() < 255 {
            2
        } else {
            4
        };
        Self::lemma_closed(ndef);
        assert forall|j: int| 0 <= j < ndef.len() implies #[trigger] ndef[j] == memory[16 + start
            + j] by {
            assert(closed.subrange(start, closed.len() - 1)[j] == closed[start + j]);
        }
        assert(memory.subrange(16 + start, 16 + start + ndef.len()) =~= ndef);
        assert(closed[0] == memory[16int + 0] && closed[1] == memory[16int + 1]);
        assert(start == 4 ==> closed[2] == memory[16int + 2] && closed[3] == memory[16int + 3]);
        assert(closed[closed.len() - 1] == memory[16 + (closed.len() - 1)]);
    }
}

impl LayoutView {
    /// The data area lies behind the first 16 bytes: it is the same in two memories that agree
    /// from there on.
    proof fn lemma_bytes_from_16(self, memory: Seq<u8>, other: Seq<u8>)
        requires
            memory.len() == other.len(),
            forall|a: int| 0 <= a < memory.len() && a != 15 ==> memory[a] == other[a],
            self.fits(memory),
        ensures
            self.content(memory) == self.content(other),
    {
        assert forall|k: int| 0 <= k < self.size implies #[trigger] self.bytes(memory)[k]
            == self.bytes(other)[k] by {
            self.lemma_usable_index(k, ADDRESS_SPACE_END as int);
            assert(self.usable(ADDRESS_SPACE_END as int)[k] < memory.len());
        }
        assert(self.bytes(memory) =~= self.bytes(other));
    }

    /// A memory that reaches to the end of a data area in one piece holds it.
    proof fn lemma_clear_fits(self, size: int, memory: Seq<u8>)
        requires
            self.clear(size),
            self.size == size,
            memory.len() % 4 == 0,
            DATA_START + size <= memory.len(),
            DATA_START + size <= ADDRESS_SPACE_END,
        ensures
            self.fits(memory),
    {
        let usable = self.usable(ADDRESS_SPACE_END as int);
        self.lemma_clear(size, DATA_START + size);
        self.lemma_usable_prefix(DATA_START + size, ADDRESS_SPACE_END as int);
        assert forall|k: int| 0 <= k < self.size implies #[trigger] usable[k] < memory.len() by {
            assert(!self.skips(DATA_START + k));
            self.lemma_clear(size, DATA_START + k);
            self.lemma_usable_at(DATA_START + k, ADDRESS_SPACE_END as int);
        }
    }
}

impl ReaderState {
    /// Where no answer is lost, a message is written to every tag that admits it: one with the
    /// magic number, major version 1, read access and write access, whose blocks can be parsed and
    /// have an NDEF Message TLV among them, with enough room from there on. How long the message is
    /// that is there plays no part.
    pub proof fn law_write_succeeds_on_tag<E>(
        self,
        tags: Seq<TagModel>,
        log: Seq<Exchange<E>>,
        pos: int,
        ndef: Seq<u8>,
    )
        requires
            TagModel::history(tags, log),
            0 <= pos <= log.len(),
            tags[pos].agrees(self),
            self.selectable(),
            TagModel::whole(tags[pos].memory),
            tags[pos].memory[12] == 0xE1,
            16 <= tags[pos].memory[13] < 32,
            tags[pos].memory[15] == 0,
            ({
                let memory = tags[pos].memory;
                let cc = TagModel::container(memory)->Ok_0;
                let block = if ndef.len() < 255 {
                    3 + ndef.len()
                } else {
                    5 + ndef.len()
                };
                &&& TagModel::blocks(memory, cc) is Ok
                &&& TagModel::position(memory, cc) is Some
                &&& TagModel::position(memory, cc)->Some_0 + block <= memory[14] * 8
                &&& block <= 1024
            }),
            TagModel::lossless(log, pos),
            self.can_reach(tags[pos]),
            self.write_ndef(log, pos, ndef).sent,
        ensures
            self.write_ndef(log, pos, ndef).out is Ok,
            tags[self.write_ndef(log, pos, ndef).end].memory == TagModel::written(
                tags[pos].memory,
                ndef,
            ),
    {
        TagModel::law_writable_tag(tags[pos].memory, ndef);
        self.law_write_ndef_on_tag(tags, log, pos, ndef);
    }

    /// Where no answer is lost, a tag with the magic number, major version 1 and read access is
    /// read: a tag whose write access is denied like any other. What makes a read fail is then the
    /// blocks of the data area, and never the container.
    pub proof fn law_read_succeeds_on_tag<E>(
        self,
        tags: Seq<TagModel>,
        log: Seq<Exchange<E>>,
        pos: int,
    )
        requires
            TagModel::history(tags, log),
            0 <= pos <= log.len(),
            tags[pos].agrees(self),
            self.selectable(),
            TagModel::whole(tags[pos].memory),
            tags[pos].memory[12] == 0xE1,
            16 <= tags[pos].memory[13] < 32,
            tags[pos].memory[15] < 16,
            TagModel::lossless(log, pos),
            self.can_reach(tags[pos]),
            self.read_ndef(log, pos).sent,
        ensures
            match TagModel::blocks(
                tags[pos].memory,
                TagModel::container(tags[pos].memory)->Ok_0,
            ) {
                Ok(blocks) => self.read_ndef(log, pos).out == Ok::<Seq<u8>, ReaderError<E>>(
                    TlvView::first_ndef(blocks),
                ),
                Err(e) => (e == Type2Error::InvalidTlv || e == Type2Error::BufferFull)
                    && self.read_ndef(log, pos).out == Err::<Seq<u8>, ReaderError<E>>(
                    ReaderError::Protocol(e),
                ),
            },
    {
        TagModel::law_readable_tag(tags[pos].memory);
        self.law_read_ndef_on_tag(tags, log, pos);
    }

    /// Where no answer is lost, a message at the start of the data area is read, whether the tag
    /// can be written or not.
    pub proof fn law_read_message_at_the_start<E>(
        self,
        tags: Seq<TagModel>,
        log: Seq<Exchange<E>>,
        pos: int,
        message: Seq<u8>,
    )
        requires
            TagModel::history(tags, log),
            0 <= pos <= log.len(),
            tags[pos].agrees(self),
            self.selectable(),
            ({
                let memory = tags[pos].memory;
                &&& memory.len() % 4 == 0
                &&& memory.len() >= 16
                &&& memory.len() >= 16 + memory[14] * 8
                &&& memory[12] == 0xE1
                &&& 16 <= memory[13] < 32
                &&& memory[15] < 16
                &&& TagModel::starts_with(memory, message)
                &&& message.len() < 255 ==> message.len() + 3 <= memory[14] * 8
                &&& message.len() >= 255 ==> message.len() + 5 <= memory[14] * 8 && message.len()
                    <= 1019
            }),
            TagModel::lossless(log, pos),
            self.can_reach(tags[pos]),
            self.read_ndef(log, pos).sent,
        ensures
            self.read_ndef(log, pos).out == Ok::<Seq<u8>, ReaderError<E>>(message),
    {
        TagModel::law_message_at_the_start(tags[pos].memory, message);
        self.law_read_ndef_on_tag(tags, log, pos);
    }
}

impl<'t, T: T2TTransceiver> T2TReader<'t, T> {
    /// [`write_ndef`](T2TReader::write_ndef) to a tag that has a message at the start of its data
    /// area: where no answer is lost it succeeds for every message that fits in the data area and
    /// in a buffer, longer or shorter than the one that is there. The new message then stands in
    /// its place, with a terminator behind it, and every other byte is what it was. `before` and
    /// `after` are the reader before and after the call, and `tags` are the states of the tag.
    pub proof fn law_write_replaces_message(
        before: &Self,
        after: &Self,
        tags: Seq<TagModel>,
        message: Seq<u8>,
        ndef: Seq<u8>,
    )
        requires
            before.inv(),
            after.ran(
                before,
                before.state().write_ndef(after.log(), before.log().len() as int, ndef),
            ),
            TagModel::history(tags, after.log()),
            TagModel::lossless(after.log(), before.log().len() as int),
            tags[before.log().len() as int].agrees(before.state()),
            before.state().can_reach(tags[before.log().len() as int]),
            ({
                let memory = tags[before.log().len() as int].memory;
                &&& memory.len() % 4 == 0
                &&& memory.len() >= 16
                &&& memory.len() >= 16 + memory[14] * 8
                &&& memory[12] == 0xE1
                &&& 16 <= memory[13] < 32
                &&& memory[15] == 0
                &&& TagModel::starts_with(memory, message)
                &&& message.len() < 255 ==> message.len() + 3 <= memory[14] * 8
                &&& message.len() >= 255 ==> message.len() + 5 <= memory[14] * 8 && message.len()
                    <= 1019
            }),
        ensures
            ({
                let run = before.state().write_ndef(
                    after.log(),
                    before.log().len() as int,
                    ndef,
                );
                let memory = tags[before.log().len() as int].memory;
                let now = tags[after.log().len() as int].memory;
                let end = if ndef.len() < 255 {
                    19 + ndef.len()
                } else {
                    21 + ndef.len()
                };
                let fits = end <= 16 + memory[14] * 8 && end <= 1040;
                &&& run.out is Ok <==> fits
                &&& !fits ==> now == memory
                &&& fits ==> {
                    &&& now.len() == memory.len()
                    &&& TagModel::starts_with(now, ndef)
                    &&& forall|a: int|
                        0 <= a < 16 || end <= a < memory.len() ==> #[trigger] now[a] == memory[a]
                }
            }),
    {
        let pos = before.log().len() as int;
        let memory = tags[pos].memory;
        TagModel::law_message_at_the_start(memory, message);
        TagModel::law_write_at_the_start(memory, message, ndef);
        before.state().law_write_ndef_on_tag(tags, after.log(), pos, ndef);
    }
}

impl ReaderState {
    /// An NDEF message that has been written is read back: where both operations succeed the
    /// second one returns what the first one was given, whatever got lost and was repeated on the
    /// way. Where no answer is lost both succeed.
    pub proof fn law_write_then_read_on_tag<E>(
        self,
        tags: Seq<TagModel>,
        log: Seq<Exchange<E>>,
        pos: int,
        ndef: Seq<u8>,
    )
        requires
            TagModel::history(tags, log),
            0 <= pos <= log.len(),
            tags[pos].agrees(self),
            self.selectable(),
            TagModel::whole(tags[pos].memory),
            TagModel::plan(tags[pos].memory, ndef) is Ok,
            TagModel::reads_back(tags[pos].memory, ndef),
            self.write_ndef(log, pos, ndef).sent,
            self.write_ndef(log, pos, ndef).state.read_ndef(
                log,
                self.write_ndef(log, pos, ndef).end,
            ).sent,
        ensures
            ({
                let write = self.write_ndef(log, pos, ndef);
                let read = write.state.read_ndef(log, write.end);
                &&& write.is_done() && read.is_done() ==> read.out->Ok_0 == ndef
                &&& TagModel::lossless(log, pos) && self.can_reach(tags[pos]) ==> write.is_done()
                    && read.is_done()
            }),
    {
        let write = self.write_ndef(log, pos, ndef);
        self.law_write_ndef_on_tag(tags, log, pos, ndef);
        if write.is_done() {
            TagModel::law_written_message(tags[pos].memory, ndef);
            write.state.law_read_ndef_on_tag(tags, log, write.end);
        }
    }
}

impl<'t, T: T2TTransceiver> T2TReader<'t, T> {
    /// [`write_ndef`](T2TReader::write_ndef), and after it [`read_ndef`](T2TReader::read_ndef):
    /// what the first call was given is what the second one returns. `before`, `between` and
    /// `after` are the reader before, between and after the two calls, and `tags` are the states
    /// of the tag that the exchanges were made with.
    pub proof fn law_write_then_read(
        before: &Self,
        between: &Self,
        after: &Self,
        tags: Seq<TagModel>,
        ndef: Seq<u8>,
    )
        requires
            before.inv(),
            between.ran(
                before,
                before.state().write_ndef(between.log(), before.log().len() as int, ndef),
            ),
            after.ran(
                between,
                between.state().read_ndef(after.log(), between.log().len() as int),
            ),
            TagModel::history(tags, after.log()),
            tags[before.log().len() as int].agrees(before.state()),
            ({
                let memory = tags[before.log().len() as int].memory;
                &&& TagModel::whole(memory)
                &&& TagModel::plan(memory, ndef) is Ok
                &&& TagModel::reads_back(memory, ndef)
            }),
        ensures
            ({
                let pos = before.log().len() as int;
                let write = before.state().write_ndef(between.log(), pos, ndef);
                let read = between.state().read_ndef(after.log(), between.log().len() as int);
                &&& write.out is Ok && read.out is Ok ==> read.out->Ok_0 == ndef
                &&& TagModel::lossless(after.log(), pos) && before.state().can_reach(tags[pos])
                    ==> write.out is Ok && read.out is Ok
            }),
    {
        let pos = before.log().len() as int;
        before.state().lemma_write_ndef_stable(between.log(), after.log(), pos, ndef);
        before.state().law_write_then_read_on_tag(tags, after.log(), pos, ndef);
    }
}

} // verus!
