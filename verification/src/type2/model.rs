//! A Type 2 Tag, and what the reader's operations come to on it.
//!
//! [`TagModel`] is a tag's memory and its selected sector. [`TagModel::may`] says how a tag
//! answers and what an exchange can make of it, also where the answer is lost: the tag may then
//! have carried out the command or not, and may have any sector selected. The laws say what the
//! reader's operations return and what they leave in memory, for every such tag.

use super::cc::CapabilityContainer;
use super::memory::{
    LayoutView, ADDRESS_SPACE_END, CC_BLOCK, DATA_START, MAX_SECTOR,
};
use super::reader::{ReaderError, SectorState};
use super::scanner::TlvScanState;
use super::tlv::TlvView;
use super::trace::{Collected, ReaderState, Run, WritePlan};
use super::{Answer, Command, Exchange, Type2Error};
use crate::tag::AccessCondition;
use crate::vec::DATA_CAPACITY;
use vstd::prelude::*;

verus! {

/// A Type 2 Tag.
pub struct TagModel {
    /// All bytes of the tag, sector after sector.
    pub memory: Seq<u8>,
    /// The selected sector.
    pub sector: int,
}

impl TagModel {
    /// The address of the first byte of a block of the selected sector.
    pub open spec fn block_start(self, block_no: u8) -> int {
        self.sector * 1024 + block_no * 4
    }

    /// Whether the tag has this block of the selected sector.
    pub open spec fn has_block(self, block_no: u8) -> bool {
        0 <= self.sector && self.block_start(block_no) + 4 <= self.memory.len()
    }

    /// Whether the tag has this sector.
    pub open spec fn has_sector(self, sector: int) -> bool {
        0 <= sector && sector * 1024 < self.memory.len()
    }

    /// Whether these are the 16 bytes from the start of a block on, as far as the selected
    /// sector and the memory reach.
    pub open spec fn holds(self, block_no: u8, data: Seq<u8>) -> bool {
        &&& data.len() >= 16
        &&& forall|i: int|
            0 <= i < 16 && block_no * 4 + i < 1024 && self.block_start(block_no) + i
                < self.memory.len() ==> #[trigger] data[i] == self.memory[self.block_start(
                block_no,
            ) + i]
    }

    /// The memory with four bytes replaced.
    pub open spec fn put(memory: Seq<u8>, at: int, data: Seq<u8>) -> Seq<u8> {
        Seq::new(
            memory.len(),
            |a: int|
                if at <= a < at + 4 {
                    data[a - at]
                } else {
                    memory[a]
                },
        )
    }

    /// Whether the exchange can take place with this tag, and leave it as `after`.
    ///
    /// A command that the tag has answered has been carried out: READ returns the memory, WRITE
    /// is acknowledged if the tag has the block, and a sector that the tag has can be selected if
    /// it has more than one. Where the answer is lost the command may have been carried out or
    /// not, and any sector may be selected. Nothing is said of other commands, nor of a WRITE to a
    /// block that the tag does not have.
    pub open spec fn may<E>(self, x: Exchange<E>, after: TagModel) -> bool {
        match x {
            Exchange::Framed { cmd, reply } => match Command::of_wire(cmd) {
                Ok(Command::Read { block_no }) => {
                    &&& after.memory == self.memory
                    &&& reply matches Ok(frame) ==> {
                        &&& after.sector == self.sector
                        &&& self.has_block(block_no) ==> self.holds(block_no, frame)
                    }
                },
                Ok(Command::Write { block_no, data }) => self.has_block(block_no) ==> {
                    let written = Self::put(self.memory, self.block_start(block_no), data@);
                    match reply {
                        Ok(frame) => {
                            &&& Command::Write { block_no, data }.answer(frame) == Ok::<
                                Answer,
                                Type2Error,
                            >(Answer::Ack)
                            &&& after.memory == written
                            &&& after.sector == self.sector
                        },
                        Err(_) => after.memory == self.memory || after.memory == written,
                    }
                },
                Ok(Command::SectorSelectPart1) => {
                    &&& after.memory == self.memory
                    &&& reply matches Ok(frame) ==> {
                        &&& after.sector == self.sector
                        &&& self.has_sector(1) ==> Command::SectorSelectPart1.answer(frame)
                            == Ok::<Answer, Type2Error>(Answer::Ack)
                    }
                },
                _ => true,
            },
            Exchange::Passive { cmd, nack } => {
                &&& after.memory == self.memory
                &&& match nack {
                    Ok(None) => cmd.len() == 4 && self.has_sector(cmd[0] as int) ==> after.sector
                        == cmd[0],
                    Ok(Some(_)) => cmd.len() == 4 ==> !self.has_sector(cmd[0] as int),
                    Err(_) => true,
                }
            },
        }
    }

    /// Whether these are the states of a tag before, between and after the exchanges.
    pub open spec fn history<E>(tags: Seq<TagModel>, log: Seq<Exchange<E>>) -> bool {
        &&& tags.len() == log.len() + 1
        &&& forall|i: int| 0 <= i < log.len() ==> tags[i].may(#[trigger] log[i], tags[i + 1])
    }

    /// Whether the memory stayed as it was from position `from` up to position `to`.
    pub open spec fn still(tags: Seq<TagModel>, from: int, to: int) -> bool {
        forall|i: int| from <= i <= to ==> (#[trigger] tags[i]).memory == tags[from].memory
    }

    /// Whether the memory was one of these two from position `from` up to position `to`.
    pub open spec fn either(
        tags: Seq<TagModel>,
        from: int,
        to: int,
        before: Seq<u8>,
        after: Seq<u8>,
    ) -> bool {
        forall|i: int|
            from <= i <= to ==> (#[trigger] tags[i]).memory == before || tags[i].memory == after
    }

    /// Whether no answer got lost from position `pos` on.
    pub open spec fn lossless<E>(log: Seq<Exchange<E>>, pos: int) -> bool {
        forall|i: int|
            pos <= i < log.len() ==> match #[trigger] log[i] {
                Exchange::Framed { reply, .. } => reply is Ok,
                Exchange::Passive { nack, .. } => nack is Ok,
            }
    }

    /// Whether what the reader knows of the tag is right.
    pub open spec fn agrees(self, state: ReaderState) -> bool {
        &&& state.sector matches SectorState::Known(sector) ==> self.sector == sector
        &&& state.cache matches Some((block_no, data)) ==> data.len() == 16 && self.holds(
            block_no,
            data,
        )
    }
}

impl ReaderState {
    /// Selecting a sector leaves the memory as it is. If it succeeds the tag has selected the
    /// sector, and it succeeds where the tag has several sectors and no answer is lost.
    pub proof fn law_force_select_on_tag<E>(
        self,
        tags: Seq<TagModel>,
        log: Seq<Exchange<E>>,
        pos: int,
        sector: u8,
    )
        requires
            TagModel::history(tags, log),
            0 <= pos <= log.len(),
            sector <= MAX_SECTOR,
            tags[pos].has_sector(sector as int),
            self.force_select(log, pos, sector).sent,
        ensures
            ({
                let run = self.force_select(log, pos, sector);
                &&& pos <= run.end <= log.len()
                &&& TagModel::still(tags, pos, run.end)
                &&& tags[run.end].agrees(run.state)
                &&& run.is_done() ==> run.state.sector == SectorState::Known(sector)
                    && tags[run.end].sector == sector
                &&& !run.is_done() ==> run.state == self.unsure()
                &&& tags[pos].has_sector(1) && TagModel::lossless(log, pos) ==> run.is_done()
            }),
    {
        let p1 = Command::SectorSelectPart1;
        let p2 = Command::SectorSelectPart2 { sector_no: sector };
        p1.law_wire_roundtrip(seq![]);
        assert(p1.wire() + seq![] =~= p1.wire());
        assert(tags[pos].may(log[pos], tags[pos + 1]));
        if p1.answer(Exchange::reply_at(log, pos, p1.wire())->Some_0->Ok_0) is Ok {
            if pos + 1 < log.len() {
                assert(tags[pos + 1].may(log[pos + 1], tags[pos + 2]));
                assert(p2.wire()[0] == sector);
            }
        }
    }

    /// As [`law_force_select_on_tag`](ReaderState::law_force_select_on_tag), for a reader that
    /// sends nothing if the sector is already selected, and repeats packet 1.
    pub proof fn law_select_on_tag<E>(
        self,
        tags: Seq<TagModel>,
        log: Seq<Exchange<E>>,
        pos: int,
        sector: u8,
    )
        requires
            TagModel::history(tags, log),
            0 <= pos <= log.len(),
            tags[pos].agrees(self),
            sector <= MAX_SECTOR,
            tags[pos].has_sector(sector as int),
            self.select(log, pos, sector).sent,
        ensures
            ({
                let run = self.select(log, pos, sector);
                &&& pos <= run.end <= log.len()
                &&& TagModel::still(tags, pos, run.end)
                &&& tags[run.end].agrees(run.state)
                &&& run.is_done() ==> run.state.sector == SectorState::Known(sector)
                    && tags[run.end].sector == sector
                &&& self.sector == SectorState::Known(sector) ==> run.is_done() && run.state
                    == self
                &&& self.sector != SectorState::Known(sector) ==> run.state.cache is None
                &&& self.selectable() ==> run.state.selectable()
                &&& tags[pos].has_sector(1) && TagModel::lossless(log, pos) ==> run.is_done()
            }),
    {
        if self.sector != SectorState::Known(sector) {
            self.lemma_retry_select_on_tag(tags, log, pos, sector, self.retries);
        }
    }

    proof fn lemma_retry_select_on_tag<E>(
        self,
        tags: Seq<TagModel>,
        log: Seq<Exchange<E>>,
        pos: int,
        sector: u8,
        retries: nat,
    )
        requires
            TagModel::history(tags, log),
            0 <= pos <= log.len(),
            sector <= MAX_SECTOR,
            tags[pos].has_sector(sector as int),
            self.retry_select(log, pos, sector, retries).sent,
        ensures
            ({
                let run = self.retry_select(log, pos, sector, retries);
                &&& pos <= run.end <= log.len()
                &&& TagModel::still(tags, pos, run.end)
                &&& tags[run.end].agrees(run.state)
                &&& run.state.cache is None
                &&& run.state.selectable()
                &&& run.is_done() ==> run.state.sector == SectorState::Known(sector)
                    && tags[run.end].sector == sector
                &&& !run.is_done() ==> run.state == self.unsure()
                &&& tags[pos].has_sector(1) && TagModel::lossless(log, pos) ==> run.is_done()
            }),
        decreases retries,
    {
        let p1 = Command::SectorSelectPart1;
        if Exchange::reply_at(log, pos, p1.wire()) is Some && Exchange::reply_at(
            log,
            pos,
            p1.wire(),
        )->Some_0 is Err && retries > 0 {
            p1.law_wire_roundtrip(seq![]);
            assert(p1.wire() + seq![] =~= p1.wire());
            assert(tags[pos].may(log[pos], tags[pos + 1]));
            self.unsure().lemma_retry_select_on_tag(
                tags,
                log,
                pos + 1,
                sector,
                (retries - 1) as nat,
            );
        } else {
            self.law_force_select_on_tag(tags, log, pos, sector);
        }
    }

    proof fn lemma_transceive_read<E>(
        self,
        tags: Seq<TagModel>,
        log: Seq<Exchange<E>>,
        pos: int,
        retries: nat,
        block_no: u8,
    )
        requires
            TagModel::history(tags, log),
            0 <= pos <= log.len(),
            tags[pos].agrees(self),
            tags[pos].has_block(block_no),
            self.selectable(),
            self.transceive(
                log,
                pos,
                self.sector,
                retries,
                Command::Read { block_no }.wire(),
            ).sent,
        ensures
            ({
                let cmd = Command::Read { block_no }.wire();
                let run = self.transceive(log, pos, self.sector, retries, cmd);
                &&& pos <= run.end <= log.len()
                &&& TagModel::still(tags, pos, run.end)
                &&& tags[run.end].agrees(run.state)
                &&& run.state.selectable()
                &&& run.is_done() ==> {
                    &&& tags[run.end].sector == tags[pos].sector
                    &&& tags[run.end].holds(block_no, run.out->Ok_0)
                    &&& run.state.sector == self.sector
                }
                &&& TagModel::lossless(log, pos) ==> run.is_done()
            }),
        decreases retries,
    {
        let cmd = Command::Read { block_no };
        cmd.law_wire_roundtrip(seq![]);
        assert(cmd.wire() + seq![] =~= cmd.wire());
        assert(tags[pos].may(log[pos], tags[pos + 1]));
        if Exchange::reply_at(log, pos, cmd.wire())->Some_0 is Err && retries > 0 {
            if let SectorState::Known(sector) = self.sector {
                let select = self.unsure().force_select(log, pos + 1, sector);
                self.unsure().law_force_select_on_tag(tags, log, pos + 1, sector);
                if select.is_done() {
                    select.state.lemma_transceive_read(
                        tags,
                        log,
                        select.end,
                        (retries - 1) as nat,
                        block_no,
                    );
                }
            }
        }
    }

    proof fn lemma_transceive_write<E>(
        self,
        tags: Seq<TagModel>,
        log: Seq<Exchange<E>>,
        pos: int,
        retries: nat,
        block_no: u8,
        data: [u8; 4],
    )
        requires
            TagModel::history(tags, log),
            0 <= pos <= log.len(),
            self.sector matches SectorState::Known(sector) ==> tags[pos].sector == sector,
            tags[pos].has_block(block_no),
            self.selectable(),
            self.transceive(
                log,
                pos,
                self.sector,
                retries,
                Command::Write { block_no, data }.wire(),
            ).sent,
        ensures
            ({
                let cmd = Command::Write { block_no, data };
                let run = self.transceive(log, pos, self.sector, retries, cmd.wire());
                let before = tags[pos].memory;
                let written = TagModel::put(before, tags[pos].block_start(block_no), data@);
                &&& pos <= run.end <= log.len()
                &&& TagModel::either(tags, pos, run.end, before, written)
                &&& tags[run.end].agrees(run.state.uncached())
                &&& run.state.selectable()
                &&& run.is_done() ==> {
                    &&& tags[run.end].memory == written
                    &&& tags[run.end].sector == tags[pos].sector
                    &&& cmd.answer(run.out->Ok_0) == Ok::<Answer, Type2Error>(Answer::Ack)
                    &&& run.state.sector == self.sector
                }
                &&& !run.is_done() ==> run.state.cache is None
                &&& TagModel::lossless(log, pos) ==> run.is_done()
            }),
        decreases retries,
    {
        let cmd = Command::Write { block_no, data };
        let at = tags[pos].block_start(block_no);
        let before = tags[pos].memory;
        let written = TagModel::put(before, at, data@);
        cmd.law_wire_roundtrip(seq![]);
        assert(cmd.wire() + seq![] =~= cmd.wire());
        assert(tags[pos].may(log[pos], tags[pos + 1]));
        if Exchange::reply_at(log, pos, cmd.wire())->Some_0 is Err && retries > 0 {
            if let SectorState::Known(sector) = self.sector {
                let select = self.unsure().force_select(log, pos + 1, sector);
                self.unsure().law_force_select_on_tag(tags, log, pos + 1, sector);
                if select.is_done() {
                    assert(TagModel::put(written, at, data@) =~= written);
                    select.state.lemma_transceive_write(
                        tags,
                        log,
                        select.end,
                        (retries - 1) as nat,
                        block_no,
                        data,
                    );
                }
            }
        }
    }

    /// Whether a sector that is known to be selected is one that can be selected.
    pub open spec fn selectable(self) -> bool {
        self.sector matches SectorState::Known(sector) ==> sector <= MAX_SECTOR
    }

    /// READ of a block that the tag has leaves the memory as it is, also when answers get lost.
    /// If it succeeds it returns the memory from the block on, as far as the sector and the
    /// memory reach, and it succeeds where no answer is lost.
    pub proof fn law_read_on_tag<E>(
        self,
        tags: Seq<TagModel>,
        log: Seq<Exchange<E>>,
        pos: int,
        block_no: u8,
    )
        requires
            TagModel::history(tags, log),
            0 <= pos <= log.len(),
            tags[pos].agrees(self),
            tags[pos].has_block(block_no),
            self.selectable(),
            self.read(log, pos, block_no).sent,
        ensures
            ({
                let run = self.read(log, pos, block_no);
                &&& pos <= run.end <= log.len()
                &&& TagModel::still(tags, pos, run.end)
                &&& tags[run.end].agrees(run.state)
                &&& run.state.selectable()
                &&& run.is_done() ==> {
                    &&& tags[run.end].sector == tags[pos].sector
                    &&& run.out->Ok_0.len() == 16
                    &&& tags[run.end].holds(block_no, run.out->Ok_0)
                    &&& run.state.sector == self.sector
                    &&& run.state.cache == Some((block_no, run.out->Ok_0))
                }
                &&& TagModel::lossless(log, pos) ==> run.is_done()
            }),
    {
        if !(self.cache is Some && self.cache->Some_0.0 == block_no) {
            self.lemma_transceive_read(tags, log, pos, self.retries, block_no);
            let cmd = Command::Read { block_no }.wire();
            let run = self.transceive(log, pos, self.sector, self.retries, cmd);
            if run.is_done() {
                let frame = run.out->Ok_0;
                let data = Answer::first_16(frame)@;
                assert(forall|i: int| 0 <= i < 16 ==> data[i] == frame[i]);
                assert(tags[run.end].holds(block_no, data));
            }
        }
    }

    /// WRITE of a block that the tag has replaces the four bytes of that block in the sector that
    /// was selected at first, or leaves the memory as it is; no other byte changes, also when
    /// answers get lost and the command is repeated. If it succeeds the bytes are replaced, and
    /// it succeeds where no answer is lost.
    pub proof fn law_write_on_tag<E>(
        self,
        tags: Seq<TagModel>,
        log: Seq<Exchange<E>>,
        pos: int,
        block_no: u8,
        data: [u8; 4],
    )
        requires
            TagModel::history(tags, log),
            0 <= pos <= log.len(),
            tags[pos].agrees(self),
            tags[pos].has_block(block_no),
            self.selectable(),
            self.write(log, pos, block_no, data).sent,
        ensures
            ({
                let run = self.write(log, pos, block_no, data);
                let before = tags[pos].memory;
                let written = TagModel::put(before, tags[pos].block_start(block_no), data@);
                &&& pos <= run.end <= log.len()
                &&& TagModel::either(tags, pos, run.end, before, written)
                &&& tags[run.end].agrees(run.state)
                &&& run.state.selectable()
                &&& run.is_done() ==> {
                    &&& tags[run.end].memory == written
                    &&& tags[run.end].sector == tags[pos].sector
                    &&& run.state.sector == self.sector
                }
                &&& TagModel::lossless(log, pos) ==> run.is_done()
            }),
    {
        self.lemma_transceive_write(tags, log, pos, self.retries, block_no, data);
    }

    /// A block that has been written is read back.
    pub proof fn law_write_then_read_block_on_tag<E>(
        self,
        tags: Seq<TagModel>,
        log: Seq<Exchange<E>>,
        pos: int,
        block_no: u8,
        data: [u8; 4],
    )
        requires
            TagModel::history(tags, log),
            0 <= pos <= log.len(),
            tags[pos].agrees(self),
            tags[pos].has_block(block_no),
            self.selectable(),
            self.write(log, pos, block_no, data).is_done(),
            self.write(log, pos, block_no, data).state.read(
                log,
                self.write(log, pos, block_no, data).end,
                block_no,
            ).is_done(),
        ensures
            ({
                let write = self.write(log, pos, block_no, data);
                write.state.read(log, write.end, block_no).out->Ok_0.take(4) == data@
            }),
    {
        let write = self.write(log, pos, block_no, data);
        self.law_write_on_tag(tags, log, pos, block_no, data);
        let read = write.state.read(log, write.end, block_no);
        write.state.law_read_on_tag(tags, log, write.end, block_no);
        let got = read.out->Ok_0;
        let tag = tags[read.end];
        assert forall|i: int| 0 <= i < 4 implies got.take(4)[i] == #[trigger] data@[i] by {
            assert(got[i] == tag.memory[tag.block_start(block_no) + i]);
        }
        assert(got.take(4) =~= data@);
    }

    /// Whether the cached READ response does not reach past the end of a sector and around to
    /// this block.
    pub open spec fn ahead_of(self, block_no: u8) -> bool {
        self.cache matches Some((first, _)) ==> first <= block_no || (block_no - first) % 256 >= 4
    }

    /// The four bytes of a block are those in memory, from the cache or from the tag.
    proof fn lemma_read_page_on_tag<E>(
        self,
        tags: Seq<TagModel>,
        log: Seq<Exchange<E>>,
        pos: int,
        block_no: u8,
    )
        requires
            TagModel::history(tags, log),
            0 <= pos <= log.len(),
            tags[pos].agrees(self),
            tags[pos].has_block(block_no),
            self.selectable(),
            self.ahead_of(block_no),
            self.read_page(log, pos, block_no).sent,
        ensures
            ({
                let run = self.read_page(log, pos, block_no);
                let at = tags[pos].block_start(block_no);
                &&& pos <= run.end <= log.len()
                &&& TagModel::still(tags, pos, run.end)
                &&& tags[run.end].agrees(run.state)
                &&& run.state.selectable()
                &&& run.is_done() ==> {
                    &&& tags[run.end].sector == tags[pos].sector
                    &&& run.out->Ok_0 == tags[pos].memory.subrange(at, at + 4)
                    &&& run.state.sector == self.sector
                    &&& run.state.cache is Some
                    &&& run.state.cache->Some_0.0 <= block_no
                }
                &&& TagModel::lossless(log, pos) ==> run.is_done()
            }),
    {
        let tag = tags[pos];
        let at = tag.block_start(block_no);
        let run = self.read_page(log, pos, block_no);
        if self.cache is Some && (block_no - self.cache->Some_0.0) % 256 < 4 {
            let (first, data) = self.cache->Some_0;
            let skip = 4 * (block_no - first);
            assert(first <= block_no);
            assert((block_no - first) % 256 == block_no - first);
            let (got, want) = (data.subrange(skip, skip + 4), tag.memory.subrange(at, at + 4));
            assert forall|i: int| 0 <= i < 4 implies #[trigger] got[i] == want[i] by {
                assert(data[skip + i] == tag.memory[tag.block_start(first) + (skip + i)]);
            }
            assert(got =~= want);
        } else {
            self.law_read_on_tag(tags, log, pos, block_no);
            let read = self.read(log, pos, block_no);
            if read.is_done() {
                let data = read.out->Ok_0;
                let (got, want) = (data.subrange(0, 4), tag.memory.subrange(at, at + 4));
                assert forall|i: int| 0 <= i < 4 implies #[trigger] got[i] == want[i] by {
                    assert(data[i] == tag.memory[tag.block_start(block_no) + i]);
                }
                assert(got =~= want);
            }
        }
    }
}

impl LayoutView {
    /// Whether the memory holds the whole data area.
    pub open spec fn fits(self, memory: Seq<u8>) -> bool {
        let usable = self.usable(ADDRESS_SPACE_END as int);
        &&& memory.len() % 4 == 0
        &&& self.size <= usable.len()
        &&& forall|k: int| 0 <= k < self.size ==> #[trigger] usable[k] < memory.len()
    }

    /// The bytes of the data area: those at the usable addresses, as many as the area has.
    pub open spec fn bytes(self, memory: Seq<u8>) -> Seq<u8> {
        Seq::new(self.size, |k: int| memory[self.usable(ADDRESS_SPACE_END as int)[k]])
    }

    /// The bytes of the data area, up to and with a Terminator TLV if there is one.
    pub open spec fn content(self, memory: Seq<u8>) -> Seq<u8> {
        TlvScanState::stream(self.bytes(memory))
    }

    /// As much of that as fits in a buffer.
    pub open spec fn seen(self, memory: Seq<u8>) -> Seq<u8> {
        if self.content(memory).len() <= DATA_CAPACITY {
            self.content(memory)
        } else {
            self.content(memory).take(DATA_CAPACITY as int)
        }
    }

    proof fn lemma_collect(
        self,
        memory: Seq<u8>,
        addr: int,
        page: Seq<u8>,
        i: int,
        acc: Seq<u8>,
        scan: TlvScanState,
    )
        requires
            self.fits(memory),
            DATA_START <= addr,
            addr + 4 <= ADDRESS_SPACE_END,
            addr + 4 <= memory.len(),
            page == memory.subrange(addr, addr + 4),
            0 <= i <= 4,
            acc.len() == self.usable(addr + i).len(),
            acc.len() <= self.size,
            acc.len() <= DATA_CAPACITY,
            acc == self.bytes(memory).take(acc.len() as int),
            scan.reach(self.bytes(memory), acc.len() as int) == TlvScanState::Tag.reach(
                self.bytes(memory),
                0,
            ),
        ensures
            ({
                let bytes = self.bytes(memory);
                let stop = TlvScanState::Tag.reach(bytes, 0);
                match self.collect(addr, page, i, acc, scan) {
                    Collected::More(acc, scan) => {
                        &&& acc.len() == self.usable(addr + 4).len()
                        &&& acc.len() <= self.size
                        &&& acc.len() <= DATA_CAPACITY
                        &&& acc == bytes.take(acc.len() as int)
                        &&& scan.reach(bytes, acc.len() as int) == stop
                    },
                    Collected::Complete(acc) => acc == self.content(memory) && acc.len()
                        <= DATA_CAPACITY,
                    Collected::Full(acc) => acc == self.seen(memory) && self.content(memory).len()
                        > DATA_CAPACITY,
                }
            }),
        decreases 4 - i,
    {
        let bytes = self.bytes(memory);
        TlvScanState::Tag.lemma_reach_bounds(bytes, 0);
        if i < 4 {
            if self.skips(addr + i) {
                self.lemma_collect(memory, addr, page, i + 1, acc, scan);
            } else if acc.len() < self.size {
                let k = acc.len() as int;
                self.lemma_usable_at(addr + i, ADDRESS_SPACE_END as int);
                assert(bytes[k] == page[i]);
                scan.lemma_reach_bounds(bytes, k);
                if acc.len() == DATA_CAPACITY {
                    assert(acc =~= self.content(memory).take(k));
                } else {
                    assert(acc.push(page[i]) =~= bytes.take(k + 1));
                    if let Some(next) = scan.step(page[i]) {
                        self.lemma_collect(memory, addr, page, i + 1, acc.push(page[i]), next);
                    }
                }
            }
        }
    }

    /// As long as bytes of the data area are missing, the next one lies ahead.
    proof fn lemma_more_ahead(self, addr: int)
        requires
            DATA_START <= addr,
            self.usable(addr).len() < self.usable(ADDRESS_SPACE_END as int).len(),
        ensures
            addr <= self.usable(ADDRESS_SPACE_END as int)[self.usable(addr).len() as int],
            addr < ADDRESS_SPACE_END,
    {
        let k = self.usable(addr).len() as int;
        self.lemma_usable_index(k, ADDRESS_SPACE_END as int);
        let a = self.usable(ADDRESS_SPACE_END as int)[k];
        if a < addr {
            self.lemma_usable_at(a, addr);
        }
        if addr >= ADDRESS_SPACE_END {
            self.lemma_usable_prefix(ADDRESS_SPACE_END as int, addr);
        }
    }
}

impl ReaderState {
    /// Whether the reader can get to every sector of the tag: the tag takes SECTOR SELECT, or it
    /// has one sector and that is known to be selected.
    pub open spec fn can_reach(self, tag: TagModel) -> bool {
        tag.has_sector(1) || self.sector == SectorState::Known(0)
    }

    proof fn lemma_collect_area_on_tag<E>(
        self,
        tags: Seq<TagModel>,
        log: Seq<Exchange<E>>,
        pos: int,
        layout: LayoutView,
        addr: int,
        acc: Seq<u8>,
        scan: TlvScanState,
    )
        requires
            TagModel::history(tags, log),
            0 <= pos <= log.len(),
            tags[pos].agrees(self),
            self.selectable(),
            layout.fits(tags[pos].memory),
            DATA_START <= addr,
            addr % 4 == 0,
            addr % 1024 < 16 && self.sector == SectorState::Known((addr / 1024) as u8)
                ==> self.ahead_of((addr % 1024 / 4) as u8),
            acc.len() == layout.usable(addr).len(),
            acc.len() <= layout.size,
            acc.len() <= DATA_CAPACITY,
            acc == layout.bytes(tags[pos].memory).take(acc.len() as int),
            scan.reach(layout.bytes(tags[pos].memory), acc.len() as int)
                == TlvScanState::Tag.reach(layout.bytes(tags[pos].memory), 0),
            self.collect_area(log, pos, layout, addr, acc, scan).sent,
        ensures
            ({
                let run = self.collect_area(log, pos, layout, addr, acc, scan);
                let content = layout.content(tags[pos].memory);
                &&& pos <= run.end <= log.len()
                &&& TagModel::still(tags, pos, run.end)
                &&& tags[run.end].agrees(run.state)
                &&& run.state.selectable()
                &&& run.is_done() ==> run.out->Ok_0.0 == layout.seen(tags[pos].memory)
                    && run.out->Ok_0.1 == (content.len() <= DATA_CAPACITY)
                &&& TagModel::lossless(log, pos) && self.can_reach(tags[pos]) ==> {
                    &&& run.state.can_reach(tags[run.end])
                    &&& run.is_done()
                }
            }),
        decreases ADDRESS_SPACE_END + 4 - addr,
    {
        let memory = tags[pos].memory;
        if acc.len() >= layout.size {
            assert(acc =~= layout.content(memory));
        } else {
            layout.lemma_more_ahead(addr);
            assert(layout.usable(ADDRESS_SPACE_END as int)[acc.len() as int] < memory.len());
            let sector = (addr / 1024) as u8;
            let block_no = (addr % 1024 / 4) as u8;
            let select = self.select(log, pos, sector);
            self.law_select_on_tag(tags, log, pos, sector);
            if select.is_done() {
                let tag = tags[select.end];
                assert(tag.block_start(block_no) == addr);
                let read = select.state.read_page(log, select.end, block_no);
                select.state.lemma_read_page_on_tag(tags, log, select.end, block_no);
                if read.is_done() {
                    let page = read.out->Ok_0;
                    layout.lemma_collect(memory, addr, page, 0, acc, scan);
                    if let Collected::More(acc2, scan2) = layout.collect(addr, page, 0, acc, scan) {
                        read.state.lemma_collect_area_on_tag(
                            tags,
                            log,
                            read.end,
                            layout,
                            addr + 4,
                            acc2,
                            scan2,
                        );
                    }
                }
            }
        }
    }

    /// Collecting the data area of a tag leaves the memory as it is. If it succeeds it returns the
    /// bytes of the area up to the terminator, however many sectors they lie in, as far as they
    /// fit in a buffer; and it succeeds where no answer is lost.
    pub proof fn law_scan_area_on_tag<E>(
        self,
        tags: Seq<TagModel>,
        log: Seq<Exchange<E>>,
        pos: int,
        layout: LayoutView,
    )
        requires
            TagModel::history(tags, log),
            0 <= pos <= log.len(),
            tags[pos].agrees(self),
            self.selectable(),
            layout.fits(tags[pos].memory),
            self.scan_area(log, pos, layout).sent,
        ensures
            ({
                let run = self.scan_area(log, pos, layout);
                let content = layout.content(tags[pos].memory);
                &&& pos <= run.end <= log.len()
                &&& TagModel::still(tags, pos, run.end)
                &&& tags[run.end].agrees(run.state)
                &&& run.state.selectable()
                &&& run.is_done() ==> run.out->Ok_0.0 == layout.seen(tags[pos].memory)
                    && run.out->Ok_0.1 == (content.len() <= DATA_CAPACITY)
                &&& TagModel::lossless(log, pos) && self.can_reach(tags[pos]) ==> {
                    &&& run.state.can_reach(tags[run.end])
                    &&& run.is_done()
                }
            }),
    {
        assert(layout.bytes(tags[pos].memory).take(0) =~= seq![]);
        self.lemma_collect_area_on_tag(
            tags,
            log,
            pos,
            layout,
            DATA_START as int,
            seq![],
            TlvScanState::Tag,
        );
    }

    /// Reading the data area of a tag leaves the memory as it is. If it succeeds it returns the
    /// bytes of the area up to the terminator, however many sectors they lie in, and where no
    /// answer is lost it fails only if they do not fit in a buffer.
    pub proof fn law_read_area_on_tag<E>(
        self,
        tags: Seq<TagModel>,
        log: Seq<Exchange<E>>,
        pos: int,
        layout: LayoutView,
    )
        requires
            TagModel::history(tags, log),
            0 <= pos <= log.len(),
            tags[pos].agrees(self),
            self.selectable(),
            layout.fits(tags[pos].memory),
            self.read_area(log, pos, layout).sent,
        ensures
            ({
                let run = self.read_area(log, pos, layout);
                let content = layout.content(tags[pos].memory);
                &&& pos <= run.end <= log.len()
                &&& TagModel::still(tags, pos, run.end)
                &&& tags[run.end].agrees(run.state)
                &&& run.state.selectable()
                &&& run.is_done() ==> run.out->Ok_0 == content && content.len() <= DATA_CAPACITY
                &&& TagModel::lossless(log, pos) && self.can_reach(tags[pos]) ==> {
                    &&& run.state.can_reach(tags[run.end])
                    &&& run.out == if content.len() <= DATA_CAPACITY {
                        Ok::<Seq<u8>, ReaderError<E>>(content)
                    } else {
                        Err(ReaderError::Protocol(Type2Error::BufferFull))
                    }
                }
            }),
    {
        self.law_scan_area_on_tag(tags, log, pos, layout);
    }
}

/// A protocol error as the reader returns it.
pub open spec fn protocol<E, O>(r: Result<O, Type2Error>) -> Result<O, ReaderError<E>> {
    match r {
        Ok(out) => Ok(out),
        Err(e) => Err(ReaderError::Protocol(e)),
    }
}

impl LayoutView {
    /// The content of the data area, if it fits in a buffer.
    pub open spec fn area(self, memory: Seq<u8>) -> Result<Seq<u8>, Type2Error> {
        if self.content(memory).len() <= DATA_CAPACITY {
            Ok(self.content(memory))
        } else {
            Err(Type2Error::BufferFull)
        }
    }
}

impl TagModel {
    /// The Capability Container in memory.
    pub open spec fn container(memory: Seq<u8>) -> Result<CapabilityContainer, Type2Error> {
        CapabilityContainer::decoded([memory[12], memory[13], memory[14], memory[15]])
    }

    /// The blocks that tell where the lock and reserved areas are, found without regard to such
    /// areas.
    pub open spec fn announced(memory: Seq<u8>, cc: CapabilityContainer) -> Seq<TlvView> {
        let basic = LayoutView::of(cc, seq![]);
        TlvView::announced(basic.seen(memory), basic.content(memory).len() <= DATA_CAPACITY)
    }

    /// The layout by which the data area is read: the one that the control blocks describe, if
    /// the tag is dynamic and has some.
    pub open spec fn layout(memory: Seq<u8>, cc: CapabilityContainer) -> LayoutView {
        let blocks = Self::announced(memory, cc);
        if cc.dynamic() && TlvView::any_control(blocks) {
            LayoutView::of(cc, blocks)
        } else {
            LayoutView::of(cc, seq![])
        }
    }

    /// The content of the data area, by that layout.
    pub open spec fn tlv_area(memory: Seq<u8>, cc: CapabilityContainer) -> Result<
        Seq<u8>,
        Type2Error,
    > {
        Self::layout(memory, cc).area(memory)
    }

    /// The blocks of the data area, by that layout.
    pub open spec fn blocks(memory: Seq<u8>, cc: CapabilityContainer) -> Result<
        Seq<TlvView>,
        Type2Error,
    > {
        match Self::tlv_area(memory, cc) {
            Ok(bytes) => TlvView::parsed(bytes),
            Err(e) => Err(e),
        }
    }

    /// The NDEF message in memory, or why there is none to be read.
    pub open spec fn message(memory: Seq<u8>) -> Result<Seq<u8>, Type2Error> {
        match Self::container(memory) {
            Err(e) => Err(e),
            Ok(cc) => if !cc.valid() {
                Err(Type2Error::InvalidMagic(0))
            } else {
                match Self::blocks(memory, cc) {
                    Ok(tlvs) => Ok(TlvView::first_ndef(tlvs)),
                    Err(e) => Err(e),
                }
            },
        }
    }

    /// Whether the memory reaches as far as its Capability Container and its control blocks say:
    /// it holds the data area by the layouts that the reader goes by.
    pub open spec fn whole(memory: Seq<u8>) -> bool {
        &&& memory.len() >= 16
        &&& memory.len() % 4 == 0
        &&& Self::container(memory) matches Ok(cc) ==> {
            &&& LayoutView::of(cc, seq![]).fits(memory)
            &&& Self::layout(memory, cc).fits(memory)
            &&& Self::blocks(memory, cc) matches Ok(tlvs) ==> LayoutView::of(cc, tlvs).fits(memory)
        }
    }

    /// What has to be written where to put an NDEF message on the tag, or why it cannot be.
    pub open spec fn plan(memory: Seq<u8>, ndef: Seq<u8>) -> Result<WritePlan, Type2Error> {
        match Self::container(memory) {
            Err(e) => Err(e),
            Ok(cc) => if !cc.valid() {
                Err(Type2Error::InvalidMagic(0))
            } else if cc.write_access != AccessCondition::Granted {
                Err(Type2Error::ReadOnly)
            } else {
                match Self::blocks(memory, cc) {
                    Ok(tlvs) => WritePlan::of(cc, tlvs, Self::position(memory, cc), ndef),
                    Err(e) => Err(e),
                }
            },
        }
    }

    /// Where in the data area the NDEF Message TLV starts.
    pub open spec fn position(memory: Seq<u8>, cc: CapabilityContainer) -> Option<int> {
        TlvView::ndef_position(Self::tlv_area(memory, cc)->Ok_0, 0)
    }

    /// The number of bytes of the data area before the NDEF Message TLV.
    pub open spec fn offset(memory: Seq<u8>) -> int {
        Self::position(memory, Self::container(memory)->Ok_0)->Some_0
    }

    /// The memory with the NDEF Message TLV replaced by one that holds the message and has a zero
    /// length, and by a Terminator TLV.
    pub open spec fn opened(memory: Seq<u8>, ndef: Seq<u8>) -> Seq<u8> {
        Self::plan(memory, ndef)->Ok_0.layout.placed(
            memory,
            Self::offset(memory),
            WritePlan::open_block(ndef),
        )
    }

    /// The memory with the NDEF Message TLV replaced by one that holds the message, and by a
    /// Terminator TLV.
    pub open spec fn written(memory: Seq<u8>, ndef: Seq<u8>) -> Seq<u8> {
        Self::plan(memory, ndef)->Ok_0.layout.placed(
            memory,
            Self::offset(memory),
            WritePlan::closed_block(ndef),
        )
    }

    /// Whether from position `from` up to position `to` the memory was always on the way from
    /// `memory` to the one with the message in it: up to position `mid` with the first bytes of
    /// the block that has a zero length, and from there on with the whole of that block and the
    /// first bytes of the length.
    pub open spec fn commits_by(
        tags: Seq<TagModel>,
        from: int,
        mid: int,
        to: int,
        memory: Seq<u8>,
        ndef: Seq<u8>,
    ) -> bool {
        let plan = Self::plan(memory, ndef)->Ok_0;
        let k = Self::offset(memory);
        let opened = Self::opened(memory, ndef);
        &&& from <= mid <= to
        &&& Self::grows(tags, from, mid, plan.layout, memory, k, plan.payload)
        &&& mid < to ==> tags[mid].memory == opened
        &&& Self::grows(tags, mid + 1, to, plan.layout, opened, k + 1, plan.length_field)
    }

    /// Whether the bytes of an NDEF message came in in order, from position `from` up to position
    /// `to`: first the block with a zero length, then the length.
    pub open spec fn commits(
        tags: Seq<TagModel>,
        from: int,
        to: int,
        memory: Seq<u8>,
        ndef: Seq<u8>,
    ) -> bool {
        exists|mid: int| #[trigger] Self::commits_by(tags, from, mid, to, memory, ndef)
    }
}

impl ReaderState {
    /// Reading the Capability Container of a tag leaves the memory as it is. If it succeeds it
    /// returns the one in memory, and where no answer is lost it fails only as that one does.
    pub proof fn law_read_cc_on_tag<E>(
        self,
        tags: Seq<TagModel>,
        log: Seq<Exchange<E>>,
        pos: int,
    )
        requires
            TagModel::history(tags, log),
            0 <= pos <= log.len(),
            tags[pos].agrees(self),
            self.selectable(),
            tags[pos].memory.len() >= 16,
            self.read_cc(log, pos).sent,
        ensures
            ({
                let run = self.read_cc(log, pos);
                let cc = TagModel::container(tags[pos].memory);
                &&& pos <= run.end <= log.len()
                &&& TagModel::still(tags, pos, run.end)
                &&& tags[run.end].agrees(run.state)
                &&& run.state.selectable()
                &&& run.is_done() ==> Ok::<CapabilityContainer, Type2Error>(run.out->Ok_0) == cc
                &&& TagModel::lossless(log, pos) && self.can_reach(tags[pos]) ==> {
                    &&& run.state.can_reach(tags[run.end])
                    &&& run.out == protocol::<E, CapabilityContainer>(cc)
                }
            }),
    {
        let memory = tags[pos].memory;
        let select = self.select(log, pos, 0);
        self.law_select_on_tag(tags, log, pos, 0);
        if select.is_done() {
            let tag = tags[select.end];
            assert(tag.block_start(CC_BLOCK) == 12);
            let read = select.state.read(log, select.end, CC_BLOCK);
            select.state.law_read_on_tag(tags, log, select.end, CC_BLOCK);
            if read.is_done() {
                let data = read.out->Ok_0;
                assert(data[0] == memory[12]);
                assert(data[1] == memory[13]);
                assert(data[2] == memory[14]);
                assert(data[3] == memory[15]);
            }
        }
    }

    proof fn lemma_read_tlv_area_on_tag<E>(
        self,
        tags: Seq<TagModel>,
        log: Seq<Exchange<E>>,
        pos: int,
        cc: CapabilityContainer,
    )
        requires
            TagModel::history(tags, log),
            0 <= pos <= log.len(),
            tags[pos].agrees(self),
            self.selectable(),
            LayoutView::of(cc, seq![]).fits(tags[pos].memory),
            TagModel::layout(tags[pos].memory, cc).fits(tags[pos].memory),
            self.read_tlv_area(log, pos, cc).sent,
        ensures
            ({
                let run = self.read_tlv_area(log, pos, cc);
                let area = TagModel::tlv_area(tags[pos].memory, cc);
                &&& pos <= run.end <= log.len()
                &&& TagModel::still(tags, pos, run.end)
                &&& tags[run.end].agrees(run.state)
                &&& run.state.selectable()
                &&& run.is_done() ==> Ok::<Seq<u8>, Type2Error>(run.out->Ok_0) == area
                &&& TagModel::lossless(log, pos) && self.can_reach(tags[pos]) ==> {
                    &&& run.state.can_reach(tags[run.end])
                    &&& run.out == protocol::<E, Seq<u8>>(area)
                }
            }),
    {
        let basic = LayoutView::of(cc, seq![]);
        let first = self.scan_area(log, pos, basic);
        self.law_scan_area_on_tag(tags, log, pos, basic);
        if first.is_done() {
            let (bytes, complete) = first.out->Ok_0;
            let blocks = TlvView::announced(bytes, complete);
            if cc.dynamic() && TlvView::any_control(blocks) {
                first.state.law_read_area_on_tag(
                    tags,
                    log,
                    first.end,
                    LayoutView::of(cc, blocks),
                );
            }
        }
    }

    /// Reading the NDEF message of a tag leaves the memory as it is. If it succeeds it returns
    /// the message in memory, and where no answer is lost it fails only if there is none to be
    /// read, and says why.
    pub proof fn law_read_ndef_on_tag<E>(
        self,
        tags: Seq<TagModel>,
        log: Seq<Exchange<E>>,
        pos: int,
    )
        requires
            TagModel::history(tags, log),
            0 <= pos <= log.len(),
            tags[pos].agrees(self),
            self.selectable(),
            TagModel::whole(tags[pos].memory),
            self.read_ndef(log, pos).sent,
        ensures
            ({
                let run = self.read_ndef(log, pos);
                let message = TagModel::message(tags[pos].memory);
                &&& pos <= run.end <= log.len()
                &&& TagModel::still(tags, pos, run.end)
                &&& tags[run.end].agrees(run.state)
                &&& run.state.selectable()
                &&& run.is_done() ==> Ok::<Seq<u8>, Type2Error>(run.out->Ok_0) == message
                &&& TagModel::lossless(log, pos) && self.can_reach(tags[pos]) ==> {
                    &&& run.state.can_reach(tags[run.end])
                    &&& run.out == protocol::<E, Seq<u8>>(message)
                }
            }),
    {
        let head = self.read_cc(log, pos);
        self.law_read_cc_on_tag(tags, log, pos);
        if head.is_done() && head.out->Ok_0.valid() {
            head.state.lemma_read_tlv_area_on_tag(tags, log, head.end, head.out->Ok_0);
        }
    }
}

impl LayoutView {
    /// The memory with `data` on the usable addresses from the `k`-th on.
    pub open spec fn placed(self, memory: Seq<u8>, k: int, data: Seq<u8>) -> Seq<u8> {
        Seq::new(
            memory.len(),
            |a: int|
                if DATA_START <= a && !self.skips(a) && k <= self.usable(a).len() < k
                    + data.len() {
                    data[self.usable(a).len() - k]
                } else {
                    memory[a]
                },
        )
    }

    /// Whether this is the memory with the first bytes of `data`, none of them, some or all, on
    /// the usable addresses from the `k`-th on.
    pub open spec fn partly(self, memory: Seq<u8>, k: int, data: Seq<u8>, now: Seq<u8>) -> bool {
        exists|n: int|
            0 <= n <= data.len() && now == #[trigger] self.placed(memory, k, data.take(n))
    }

    /// Whether there are `len` usable addresses from the `k`-th on, all of them below `limit`.
    pub open spec fn has_room(self, k: int, len: nat, limit: int) -> bool {
        let usable = self.usable(ADDRESS_SPACE_END as int);
        &&& 0 <= k
        &&& k + len <= usable.len()
        &&& forall|j: int| k <= j < k + len ==> #[trigger] usable[j] < limit
    }

    /// One more byte goes to the next usable address, and to no other.
    proof fn lemma_placed_step(self, memory: Seq<u8>, k: int, data: Seq<u8>, di: int, addr: int)
        requires
            0 <= k,
            0 <= di < data.len(),
            DATA_START <= addr < memory.len(),
            !self.skips(addr),
            self.usable(addr).len() == k + di,
        ensures
            self.placed(memory, k, data.take(di + 1)) == self.placed(
                memory,
                k,
                data.take(di),
            ).update(addr, data[di]),
    {
        let now = self.placed(memory, k, data.take(di + 1));
        let before = self.placed(memory, k, data.take(di));
        assert forall|b: int| 0 <= b < memory.len() implies #[trigger] now[b] == before.update(
            addr,
            data[di],
        )[b] by {
            if b != addr && DATA_START <= b && !self.skips(b) {
                if b < addr {
                    self.lemma_usable_at(b, addr);
                } else {
                    self.lemma_usable_at(addr, b);
                }
            }
        }
        assert(now =~= before.update(addr, data[di]));
    }

    /// As long as data is left, the block at hand is below the limit.
    proof fn lemma_room_ahead(self, k: int, len: nat, limit: int, di: int, addr: int)
        requires
            self.has_room(k, len, limit),
            0 <= di < len,
            DATA_START <= addr,
            self.usable(addr).len() == k + di,
        ensures
            addr < limit,
            addr < ADDRESS_SPACE_END,
    {
        self.lemma_more_ahead(addr);
        assert(self.usable(ADDRESS_SPACE_END as int)[k + di] < limit);
    }

    /// Merging data into a block places it on the usable bytes of the block.
    proof fn lemma_merge(
        self,
        memory: Seq<u8>,
        k: int,
        base: int,
        i: int,
        page: Seq<u8>,
        data: Seq<u8>,
        di: int,
        limit: int,
    )
        requires
            self.has_room(k, data.len(), limit),
            DATA_START <= base,
            base + 4 <= memory.len(),
            0 <= i <= 4,
            0 <= di <= data.len(),
            di < data.len() ==> self.usable(base + i).len() == k + di,
            page == self.placed(memory, k, data.take(di)).subrange(base, base + 4),
        ensures
            self.merge(base, i, page, data, di, limit) is Some,
            ({
                let (merged, next) = self.merge(base, i, page, data, di, limit)->Some_0;
                let now = self.placed(memory, k, data.take(next));
                &&& di <= next <= data.len()
                &&& merged == now.subrange(base, base + 4)
                &&& forall|a: int|
                    0 <= a < memory.len() && !(base <= a < base + 4) ==> #[trigger] now[a]
                        == self.placed(memory, k, data.take(di))[a]
                &&& next < data.len() ==> self.usable(base + 4).len() == k + next
            }),
        decreases 4 - i,
    {
        if i < 4 && di < data.len() {
            self.lemma_room_ahead(k, data.len(), limit, di, base + i);
            if self.skips(base + i) {
                self.lemma_merge(memory, k, base, i + 1, page, data, di, limit);
            } else {
                self.lemma_placed_step(memory, k, data, di, base + i);
                let next = self.placed(memory, k, data.take(di + 1));
                assert(page.update(i, data[di]) =~= next.subrange(base, base + 4));
                self.lemma_merge(
                    memory,
                    k,
                    base,
                    i + 1,
                    page.update(i, data[di]),
                    data,
                    di + 1,
                    limit,
                );
            }
        }
    }

    /// A block that is usable as a whole takes four bytes.
    proof fn lemma_covered(
        self,
        memory: Seq<u8>,
        k: int,
        addr: int,
        data: Seq<u8>,
        di: int,
        limit: int,
    )
        requires
            self.has_room(k, data.len(), limit),
            DATA_START <= addr,
            addr + 4 <= memory.len(),
            0 <= di,
            di + 4 <= data.len(),
            self.covered(addr, data.len() - di),
            self.usable(addr).len() == k + di,
        ensures
            addr + 4 <= limit,
            TagModel::put(
                self.placed(memory, k, data.take(di)),
                addr,
                [data[di], data[di + 1], data[di + 2], data[di + 3]]@,
            ) == self.placed(memory, k, data.take(di + 4)),
            self.usable(addr + 4).len() == k + di + 4,
    {
        assert(self.usable(addr + 1).len() == k + di + 1);
        assert(self.usable(addr + 2).len() == k + di + 2);
        assert(self.usable(addr + 3).len() == k + di + 3);
        self.lemma_room_ahead(k, data.len(), limit, di + 3, addr + 3);
        self.lemma_placed_step(memory, k, data, di, addr);
        self.lemma_placed_step(memory, k, data, di + 1, addr + 1);
        self.lemma_placed_step(memory, k, data, di + 2, addr + 2);
        self.lemma_placed_step(memory, k, data, di + 3, addr + 3);
        assert(TagModel::put(
            self.placed(memory, k, data.take(di)),
            addr,
            [data[di], data[di + 1], data[di + 2], data[di + 3]]@,
        ) =~= self.placed(memory, k, data.take(di + 4)));
    }
}

impl TagModel {
    /// Whether from position `from` up to position `to` the memory was always the one before,
    /// `memory`, with the first bytes of `data` in place.
    pub open spec fn grows(
        tags: Seq<TagModel>,
        from: int,
        to: int,
        layout: LayoutView,
        memory: Seq<u8>,
        k: int,
        data: Seq<u8>,
    ) -> bool {
        forall|i: int|
            from <= i <= to ==> layout.partly(memory, k, data, (#[trigger] tags[i]).memory)
    }
}

impl ReaderState {
    proof fn lemma_write_block_on_tag<E>(
        self,
        tags: Seq<TagModel>,
        log: Seq<Exchange<E>>,
        pos: int,
        layout: LayoutView,
        addr: int,
        data: Seq<u8>,
        di: int,
        limit: int,
        memory: Seq<u8>,
        k: int,
    )
        requires
            TagModel::history(tags, log),
            0 <= pos <= log.len(),
            tags[pos].agrees(self),
            self.selectable(),
            memory.len() % 4 == 0,
            layout.has_room(k, data.len(), limit),
            limit <= memory.len(),
            0 <= di < data.len(),
            DATA_START <= addr,
            layout.usable(addr).len() == k + di,
            tags[pos].memory == layout.placed(memory, k, data.take(di)),
            self.write_block(log, pos, layout, addr, data, di, limit).sent,
        ensures
            ({
                let run = self.write_block(log, pos, layout, addr, data, di, limit);
                let next = run.out->Ok_0;
                &&& pos <= run.end <= log.len()
                &&& TagModel::grows(tags, pos, run.end, layout, memory, k, data)
                &&& tags[run.end].agrees(run.state)
                &&& run.state.selectable()
                &&& run.is_done() ==> {
                    &&& di <= next <= data.len()
                    &&& tags[run.end].memory == layout.placed(memory, k, data.take(next))
                    &&& next < data.len() ==> layout.usable(addr - addr % 4 + 4).len() == k + next
                }
                &&& TagModel::lossless(log, pos) && self.can_reach(tags[pos]) ==> {
                    &&& run.state.can_reach(tags[run.end])
                    &&& run.is_done()
                }
            }),
    {
        layout.lemma_room_ahead(k, data.len(), limit, di, addr);
        let base = addr - addr % 4;
        let sector = (addr / 1024) as u8;
        let block_no = (addr % 1024 / 4) as u8;
        let select = self.select(log, pos, sector);
        self.law_select_on_tag(tags, log, pos, sector);
        if select.is_done() {
            let tag = tags[select.end];
            assert(tag.block_start(block_no) == base);
            if layout.covered(addr, data.len() - di) {
                let page = [data[di], data[di + 1], data[di + 2], data[di + 3]];
                layout.lemma_covered(memory, k, addr, data, di, limit);
                select.state.law_write_on_tag(tags, log, select.end, block_no, page);
            } else {
                select.state.lemma_merge_block_on_tag(
                    tags,
                    log,
                    select.end,
                    layout,
                    addr,
                    data,
                    di,
                    limit,
                    memory,
                    k,
                );
            }
        }
    }

    proof fn lemma_merge_block_on_tag<E>(
        self,
        tags: Seq<TagModel>,
        log: Seq<Exchange<E>>,
        pos: int,
        layout: LayoutView,
        addr: int,
        data: Seq<u8>,
        di: int,
        limit: int,
        memory: Seq<u8>,
        k: int,
    )
        requires
            TagModel::history(tags, log),
            0 <= pos <= log.len(),
            tags[pos].agrees(self),
            self.selectable(),
            memory.len() % 4 == 0,
            layout.has_room(k, data.len(), limit),
            limit <= memory.len(),
            0 <= di < data.len(),
            DATA_START <= addr < limit,
            tags[pos].sector == addr / 1024,
            layout.usable(addr).len() == k + di,
            tags[pos].memory == layout.placed(memory, k, data.take(di)),
            self.merge_block(log, pos, layout, addr, data, di, limit).sent,
        ensures
            ({
                let run = self.merge_block(log, pos, layout, addr, data, di, limit);
                let next = run.out->Ok_0;
                &&& pos <= run.end <= log.len()
                &&& TagModel::grows(tags, pos, run.end, layout, memory, k, data)
                &&& tags[run.end].agrees(run.state)
                &&& run.state.selectable()
                &&& run.is_done() ==> {
                    &&& di <= next <= data.len()
                    &&& tags[run.end].memory == layout.placed(memory, k, data.take(next))
                    &&& next < data.len() ==> layout.usable(addr - addr % 4 + 4).len() == k + next
                    &&& run.state.sector == self.sector
                }
                &&& TagModel::lossless(log, pos) ==> run.is_done()
            }),
    {
        let base = addr - addr % 4;
        let block_no = (addr % 1024 / 4) as u8;
        let tag = tags[pos];
        assert(tag.block_start(block_no) == base);
        let read = self.read(log, pos, block_no);
        self.law_read_on_tag(tags, log, pos, block_no);
        if read.is_done() {
            let got = read.out->Ok_0;
            let cur = tag.memory.subrange(base, base + 4);
            assert forall|i: int| 0 <= i < 4 implies #[trigger] got.subrange(0, 4)[i]
                == cur[i] by {
                assert(got[i] == tag.memory[tag.block_start(block_no) + i]);
            }
            assert(got.subrange(0, 4) =~= cur);
            layout.lemma_merge(memory, k, base, addr % 4, cur, data, di, limit);
            let (merged, next) = layout.merge(base, addr % 4, cur, data, di, limit)->Some_0;
            if next != di {
                let page = [merged[0], merged[1], merged[2], merged[3]];
                assert(page@ =~= merged);
                assert(TagModel::put(tag.memory, base, page@) =~= layout.placed(
                    memory,
                    k,
                    data.take(next),
                ));
                read.state.law_write_on_tag(tags, log, read.end, block_no, page);
            }
        }
    }

    proof fn lemma_write_bytes_on_tag<E>(
        self,
        tags: Seq<TagModel>,
        log: Seq<Exchange<E>>,
        pos: int,
        layout: LayoutView,
        addr: int,
        data: Seq<u8>,
        di: int,
        limit: int,
        memory: Seq<u8>,
        k: int,
    )
        requires
            TagModel::history(tags, log),
            0 <= pos <= log.len(),
            tags[pos].agrees(self),
            self.selectable(),
            memory.len() % 4 == 0,
            layout.has_room(k, data.len(), limit),
            limit <= memory.len(),
            0 <= di <= data.len(),
            DATA_START <= addr,
            di < data.len() ==> layout.usable(addr).len() == k + di,
            tags[pos].memory == layout.placed(memory, k, data.take(di)),
            self.write_bytes(log, pos, layout, addr, data, di, limit).sent,
        ensures
            ({
                let run = self.write_bytes(log, pos, layout, addr, data, di, limit);
                let full = layout.placed(memory, k, data);
                &&& pos <= run.end <= log.len()
                &&& TagModel::grows(tags, pos, run.end, layout, memory, k, data)
                &&& tags[run.end].agrees(run.state)
                &&& run.state.selectable()
                &&& run.is_done() ==> tags[run.end].memory == full
                &&& TagModel::lossless(log, pos) && self.can_reach(tags[pos]) ==> {
                    &&& run.state.can_reach(tags[run.end])
                    &&& run.is_done()
                }
            }),
        decreases ADDRESS_SPACE_END + 4 - addr,
    {
        if di < data.len() {
            let block = self.write_block(log, pos, layout, addr, data, di, limit);
            self.lemma_write_block_on_tag(
                tags,
                log,
                pos,
                layout,
                addr,
                data,
                di,
                limit,
                memory,
                k,
            );
            if block.is_done() {
                block.state.lemma_write_bytes_on_tag(
                    tags,
                    log,
                    block.end,
                    layout,
                    addr - addr % 4 + 4,
                    data,
                    block.out->Ok_0,
                    limit,
                    memory,
                    k,
                );
            }
        } else {
            assert(data.take(di) =~= data);
        }
    }

    /// Writing data from a usable address on puts it on the usable addresses and changes no other
    /// byte, so that lock and reserved bytes keep their values. The bytes come in one after the
    /// other: at every moment, and so also if it fails, the first bytes of the data are in place
    /// and no other byte has changed. It succeeds where no answer is lost.
    pub proof fn law_write_bytes_on_tag<E>(
        self,
        tags: Seq<TagModel>,
        log: Seq<Exchange<E>>,
        pos: int,
        layout: LayoutView,
        k: int,
        data: Seq<u8>,
        limit: int,
    )
        requires
            TagModel::history(tags, log),
            0 <= pos <= log.len(),
            tags[pos].agrees(self),
            self.selectable(),
            tags[pos].memory.len() % 4 == 0,
            data.len() > 0,
            layout.has_room(k, data.len(), limit),
            limit <= tags[pos].memory.len(),
            self.write_bytes(
                log,
                pos,
                layout,
                layout.usable(ADDRESS_SPACE_END as int)[k],
                data,
                0,
                limit,
            ).sent,
        ensures
            ({
                let start = layout.usable(ADDRESS_SPACE_END as int)[k];
                let run = self.write_bytes(log, pos, layout, start, data, 0, limit);
                let before = tags[pos].memory;
                let after = layout.placed(before, k, data);
                &&& pos <= run.end <= log.len()
                &&& TagModel::grows(tags, pos, run.end, layout, before, k, data)
                &&& forall|i: int, a: int|
                    pos <= i <= run.end && 0 <= a < before.len() && (a < DATA_START
                        || layout.skips(a)) ==> #[trigger] tags[i].memory[a] == before[a]
                &&& tags[run.end].agrees(run.state)
                &&& run.state.selectable()
                &&& run.is_done() ==> tags[run.end].memory == after
                &&& TagModel::lossless(log, pos) && self.can_reach(tags[pos]) ==> {
                    &&& run.state.can_reach(tags[run.end])
                    &&& run.is_done()
                }
            }),
    {
        let start = layout.usable(ADDRESS_SPACE_END as int)[k];
        let memory = tags[pos].memory;
        layout.lemma_usable_index(k, ADDRESS_SPACE_END as int);
        assert(data.take(0) =~= seq![]);
        assert(layout.placed(memory, k, data.take(0)) =~= memory);
        self.lemma_write_bytes_on_tag(
            tags,
            log,
            pos,
            layout,
            start,
            data,
            0,
            limit,
            memory,
            k,
        );
    }
}

impl WritePlan {
    /// A plan stays inside the data area, and its two steps add up to the final block.
    pub proof fn lemma_plan(
        cc: CapabilityContainer,
        tlvs: Seq<TlvView>,
        offset: int,
        ndef: Seq<u8>,
        memory: Seq<u8>,
    )
        requires
            Self::of(cc, tlvs, Some(offset), ndef) is Ok,
            LayoutView::of(cc, tlvs).fits(memory),
            offset >= 0,
        ensures
            ({
                let plan = Self::of(cc, tlvs, Some(offset), ndef)->Ok_0;
                let layout = LayoutView::of(cc, tlvs);
                let opened = layout.placed(memory, offset, Self::open_block(ndef));
                &&& plan.layout == layout
                &&& plan.payload == Self::open_block(ndef)
                &&& plan.start == layout.usable(ADDRESS_SPACE_END as int)[offset]
                &&& plan.length_start == layout.usable(ADDRESS_SPACE_END as int)[offset + 1]
                &&& layout.has_room(offset, plan.payload.len(), plan.limit)
                &&& layout.has_room(offset + 1, plan.length_field.len(), plan.limit)
                &&& plan.length_field.len() > 0
                &&& plan.limit <= memory.len()
                &&& layout.placed(opened, offset + 1, plan.length_field) == layout.placed(
                    memory,
                    offset,
                    Self::closed_block(ndef),
                )
            }),
    {
        let plan = Self::of(cc, tlvs, Some(offset), ndef)->Ok_0;
        let layout = LayoutView::of(cc, tlvs);
        let usable = layout.usable(ADDRESS_SPACE_END as int);
        let last = layout.size - 1;
        assert(usable[last] < memory.len());
        assert forall|j: int| 0 <= j < layout.size implies #[trigger] usable[j] < plan.limit by {
            if j < last {
                layout.lemma_usable_increasing(j, last, ADDRESS_SPACE_END as int);
            }
        }
        let opened = layout.placed(memory, offset, Self::open_block(ndef));
        let (open, closed) = (Self::open_block(ndef), Self::closed_block(ndef));
        let field = plan.length_field;
        assert(open.len() == closed.len());
        assert(forall|i: int|
            0 <= i < open.len() && !(1 <= i < 1 + field.len()) ==> open[i] == closed[i]);
        assert(forall|i: int| 1 <= i < 1 + field.len() ==> closed[i] == field[i - 1]);
        let both = layout.placed(opened, offset + 1, field);
        let once = layout.placed(memory, offset, closed);
        assert forall|a: int| 0 <= a < memory.len() implies #[trigger] both[a] == once[a] by {
            let i = layout.usable(a).len() - offset;
            if DATA_START <= a && !layout.skips(a) && 0 <= i < closed.len() {
                if 1 <= i < 1 + field.len() {
                    assert(closed[i] == field[i - 1]);
                } else {
                    assert(open[i] == closed[i]);
                }
            }
        }
        assert(both =~= once);
    }
}

impl ReaderState {
    proof fn lemma_prepare_on_tag<E>(
        self,
        tags: Seq<TagModel>,
        log: Seq<Exchange<E>>,
        pos: int,
        ndef: Seq<u8>,
    )
        requires
            TagModel::history(tags, log),
            0 <= pos <= log.len(),
            tags[pos].agrees(self),
            self.selectable(),
            TagModel::whole(tags[pos].memory),
            self.prepare(log, pos, ndef).sent,
        ensures
            ({
                let run = self.prepare(log, pos, ndef);
                let plan = TagModel::plan(tags[pos].memory, ndef);
                &&& pos <= run.end <= log.len()
                &&& TagModel::still(tags, pos, run.end)
                &&& tags[run.end].agrees(run.state)
                &&& run.state.selectable()
                &&& run.is_done() ==> Ok::<WritePlan, Type2Error>(run.out->Ok_0) == plan
                &&& TagModel::lossless(log, pos) && self.can_reach(tags[pos]) ==> {
                    &&& run.state.can_reach(tags[run.end])
                    &&& run.out == protocol::<E, WritePlan>(plan)
                }
            }),
    {
        let head = self.read_cc(log, pos);
        self.law_read_cc_on_tag(tags, log, pos);
        if head.is_done() {
            let cc = head.out->Ok_0;
            if cc.valid() && cc.write_access == AccessCondition::Granted {
                head.state.lemma_read_tlv_area_on_tag(tags, log, head.end, cc);
            }
        }
    }

    proof fn lemma_commit_on_tag<E>(
        self,
        tags: Seq<TagModel>,
        log: Seq<Exchange<E>>,
        pos: int,
        ndef: Seq<u8>,
    )
        requires
            TagModel::history(tags, log),
            0 <= pos <= log.len(),
            tags[pos].agrees(self),
            self.selectable(),
            TagModel::whole(tags[pos].memory),
            TagModel::plan(tags[pos].memory, ndef) is Ok,
            self.commit(log, pos, TagModel::plan(tags[pos].memory, ndef)->Ok_0).sent,
        ensures
            ({
                let before = tags[pos].memory;
                let plan = TagModel::plan(before, ndef)->Ok_0;
                let run = self.commit(log, pos, plan);
                let written = TagModel::written(before, ndef);
                let now = tags[run.end].memory;
                &&& pos <= run.end <= log.len()
                &&& tags[run.end].agrees(run.state)
                &&& run.state.selectable()
                &&& TagModel::commits(tags, pos, run.end, before, ndef)
                &&& run.is_done() ==> now == written
                &&& forall|i: int, a: int|
                    pos <= i <= run.end && 0 <= a < before.len() && (a < DATA_START
                        || plan.layout.skips(a)) ==> #[trigger] tags[i].memory[a] == before[a]
                &&& TagModel::lossless(log, pos) && self.can_reach(tags[pos]) ==> {
                    &&& run.state.can_reach(tags[run.end])
                    &&& run.is_done()
                }
            }),
    {
        let before = tags[pos].memory;
        let cc = TagModel::container(before)->Ok_0;
        let tlvs = TagModel::blocks(before, cc)->Ok_0;
        let k = TagModel::offset(before);
        let plan = WritePlan::of(cc, tlvs, Some(k), ndef)->Ok_0;
        TlvView::lemma_position_bounds(TagModel::tlv_area(before, cc)->Ok_0, 0);
        WritePlan::lemma_plan(cc, tlvs, k, ndef, before);
        self.law_write_bytes_on_tag(
            tags,
            log,
            pos,
            plan.layout,
            k,
            plan.payload,
            plan.limit,
        );
        let block = self.write_bytes(
            log,
            pos,
            plan.layout,
            plan.start,
            plan.payload,
            0,
            plan.limit,
        );
        if block.is_done() {
            block.state.law_write_bytes_on_tag(
                tags,
                log,
                block.end,
                plan.layout,
                k + 1,
                plan.length_field,
                plan.limit,
            );
        }
        let run = self.commit(log, pos, plan);
        assert(TagModel::commits_by(tags, pos, block.end, run.end, before, ndef));
    }

    /// Writing an NDEF message to a tag. If the tag or the message does not admit it, nothing is
    /// changed. Otherwise, if it succeeds, the new block stands on the usable addresses from the
    /// place of the NDEF Message TLV on, counted in the bytes of the data area, and no other byte
    /// has changed. On the way, and so also if it fails, first the bytes of the new block come in
    /// one after the other, with a zero length, and only once they are all there come those of the
    /// length. Where no answer is lost it fails only if the message is not admitted, and says why.
    pub proof fn law_write_ndef_on_tag<E>(
        self,
        tags: Seq<TagModel>,
        log: Seq<Exchange<E>>,
        pos: int,
        ndef: Seq<u8>,
    )
        requires
            TagModel::history(tags, log),
            0 <= pos <= log.len(),
            tags[pos].agrees(self),
            self.selectable(),
            TagModel::whole(tags[pos].memory),
            self.write_ndef(log, pos, ndef).sent,
        ensures
            ({
                let run = self.write_ndef(log, pos, ndef);
                let before = tags[pos].memory;
                let plan = TagModel::plan(before, ndef);
                let written = TagModel::written(before, ndef);
                let now = tags[run.end].memory;
                &&& pos <= run.end <= log.len()
                &&& tags[run.end].agrees(run.state)
                &&& run.state.selectable()
                &&& plan is Err ==> TagModel::still(tags, pos, run.end) && !run.is_done()
                &&& plan is Ok ==> {
                    &&& TagModel::commits(tags, pos, run.end, before, ndef)
                    &&& run.is_done() ==> now == written
                    &&& forall|i: int, a: int|
                        pos <= i <= run.end && 0 <= a < before.len() && (a < DATA_START
                            || plan->Ok_0.layout.skips(a)) ==> #[trigger] tags[i].memory[a]
                            == before[a]
                }
                &&& TagModel::lossless(log, pos) && self.can_reach(tags[pos]) ==> {
                    &&& run.state.can_reach(tags[run.end])
                    &&& match plan {
                        Ok(_) => run.is_done(),
                        Err(e) => run.out == Err::<(), ReaderError<E>>(ReaderError::Protocol(e)),
                    }
                }
            }),
    {
        let before = tags[pos].memory;
        let prepared = self.prepare(log, pos, ndef);
        self.lemma_prepare_on_tag(tags, log, pos, ndef);
        if TagModel::plan(before, ndef) is Ok {
            let plan = TagModel::plan(before, ndef)->Ok_0;
            let k = TagModel::offset(before);
            assert(plan.payload.take(0) =~= seq![]);
            assert(plan.layout.placed(before, k, plan.payload.take(0)) =~= before);
            assert(TagModel::commits_by(tags, pos, prepared.end, prepared.end, before, ndef));
            if prepared.is_done() {
                let run = prepared.state.commit(log, prepared.end, plan);
                prepared.state.lemma_commit_on_tag(tags, log, prepared.end, ndef);
                let mid = choose|mid: int| #[trigger]
                    TagModel::commits_by(tags, prepared.end, mid, run.end, before, ndef);
                assert(TagModel::commits_by(tags, pos, mid, run.end, before, ndef));
            }
        }
    }
}

impl LayoutView {
    /// The first address that is past the limit or past the address space.
    pub open spec fn cap(limit: int) -> int {
        if limit <= ADDRESS_SPACE_END {
            limit
        } else {
            ADDRESS_SPACE_END as int
        }
    }

    /// The number of usable addresses from `addr` on that lie below the limit and in the address
    /// space.
    pub open spec fn room(self, addr: int, limit: int) -> int {
        self.usable(Self::cap(limit)).len() - self.usable(addr).len()
    }

    /// Whether a byte is left alone by a write from `addr` on: it lies before that, at or past
    /// the limit, or in a lock or reserved area.
    pub open spec fn spares(self, addr: int, limit: int, a: int) -> bool {
        a < addr || a >= limit || self.skips(a)
    }

    /// There are not more usable addresses than addresses.
    proof fn lemma_usable_growth(self, from: int, to: int)
        requires
            from <= to,
        ensures
            self.usable(from).len() <= self.usable(to).len() <= self.usable(from).len() + (to
                - from),
        decreases to - from,
    {
        if from < to {
            self.lemma_usable_growth(from, to - 1);
        }
    }

    /// Merging data into a block, by any layout and up to any limit.
    proof fn lemma_merge_any(
        self,
        base: int,
        i: int,
        page: Seq<u8>,
        data: Seq<u8>,
        di: int,
        limit: int,
    )
        requires
            DATA_START <= base,
            base + 4 <= ADDRESS_SPACE_END,
            0 <= i <= 4,
            base + i <= limit,
            0 <= di <= data.len(),
            page.len() == 4,
        ensures
            match self.merge(base, i, page, data, di, limit) {
                Some((merged, next)) => {
                    &&& di <= next <= data.len()
                    &&& merged.len() == 4
                    &&& forall|j: int|
                        0 <= j < 4 && self.spares(base + i, limit, base + j)
                            ==> #[trigger] merged[j] == page[j]
                    &&& next < data.len() ==> base + 4 <= limit && self.usable(base + 4).len()
                        == self.usable(base + i).len() + (next - di)
                    &&& next == data.len() ==> self.room(base + i, limit) >= data.len() - di
                },
                None => self.room(base + i, limit) < data.len() - di,
            },
        decreases 4 - i,
    {
        self.lemma_usable_growth(base + i, Self::cap(limit));
        if i < 4 && di < data.len() && base + i < limit {
            if self.skips(base + i) {
                self.lemma_merge_any(base, i + 1, page, data, di, limit);
            } else {
                self.lemma_merge_any(base, i + 1, page.update(i, data[di]), data, di + 1, limit);
            }
        }
    }
}

impl ReaderState {
    proof fn lemma_merge_block_any<E>(
        self,
        tags: Seq<TagModel>,
        log: Seq<Exchange<E>>,
        pos: int,
        layout: LayoutView,
        addr: int,
        data: Seq<u8>,
        di: int,
        limit: int,
    )
        requires
            TagModel::history(tags, log),
            0 <= pos <= log.len(),
            tags[pos].agrees(self),
            self.selectable(),
            tags[pos].memory.len() % 4 == 0,
            limit <= tags[pos].memory.len(),
            0 <= di < data.len(),
            DATA_START <= addr < limit,
            addr < ADDRESS_SPACE_END,
            tags[pos].sector == addr / 1024,
            self.merge_block(log, pos, layout, addr, data, di, limit).sent,
        ensures
            ({
                let run = self.merge_block(log, pos, layout, addr, data, di, limit);
                let (before, now) = (tags[pos].memory, tags[run.end].memory);
                &&& pos <= run.end <= log.len()
                &&& now.len() == before.len()
                &&& forall|a: int|
                    0 <= a < now.len() && layout.spares(addr, limit, a) ==> #[trigger] now[a]
                        == before[a]
                &&& tags[run.end].agrees(run.state)
                &&& run.state.selectable()
                &&& layout.step_is_right(run, addr, data.len() as int, di, limit)
                &&& run.is_done() ==> run.state.sector == self.sector
                &&& TagModel::lossless(log, pos) ==> {
                    ||| run.is_done()
                    ||| run.out == Err::<int, ReaderError<E>>(
                        ReaderError::Protocol(Type2Error::OutOfRange),
                    ) && layout.room(addr, limit) < data.len() - di
                }
            }),
    {
        let base = addr - addr % 4;
        let block_no = (addr % 1024 / 4) as u8;
        let tag = tags[pos];
        assert(tag.block_start(block_no) == base);
        let read = self.read(log, pos, block_no);
        self.law_read_on_tag(tags, log, pos, block_no);
        if read.is_done() {
            let got = read.out->Ok_0;
            let cur = tag.memory.subrange(base, base + 4);
            assert forall|i: int| 0 <= i < 4 implies #[trigger] got.subrange(0, 4)[i]
                == cur[i] by {
                assert(got[i] == tag.memory[tag.block_start(block_no) + i]);
            }
            assert(got.subrange(0, 4) =~= cur);
            layout.lemma_merge_any(base, addr % 4, cur, data, di, limit);
            if let Some((merged, next)) = layout.merge(base, addr % 4, cur, data, di, limit) {
                if next != di {
                    let page = [merged[0], merged[1], merged[2], merged[3]];
                    assert(page@ =~= merged);
                    let written = TagModel::put(tag.memory, base, page@);
                    assert forall|a: int|
                        0 <= a < tag.memory.len() && layout.spares(addr, limit, a) implies
                        #[trigger] written[a] == tag.memory[a] by {
                        if base <= a < base + 4 {
                            assert(merged[a - base] == cur[a - base]);
                        }
                    }
                    read.state.law_write_on_tag(tags, log, read.end, block_no, page);
                }
            }
        }
    }

    proof fn lemma_write_block_any<E>(
        self,
        tags: Seq<TagModel>,
        log: Seq<Exchange<E>>,
        pos: int,
        layout: LayoutView,
        addr: int,
        data: Seq<u8>,
        di: int,
        limit: int,
    )
        requires
            TagModel::history(tags, log),
            0 <= pos <= log.len(),
            tags[pos].agrees(self),
            self.selectable(),
            tags[pos].memory.len() % 4 == 0,
            limit <= tags[pos].memory.len(),
            0 <= di < data.len(),
            DATA_START <= addr,
            self.write_block(log, pos, layout, addr, data, di, limit).sent,
        ensures
            ({
                let run = self.write_block(log, pos, layout, addr, data, di, limit);
                let (before, now) = (tags[pos].memory, tags[run.end].memory);
                &&& pos <= run.end <= log.len()
                &&& now.len() == before.len()
                &&& forall|a: int|
                    0 <= a < now.len() && layout.spares(addr, limit, a) ==> #[trigger] now[a]
                        == before[a]
                &&& tags[run.end].agrees(run.state)
                &&& run.state.selectable()
                &&& layout.step_is_right(run, addr, data.len() as int, di, limit)
                &&& TagModel::lossless(log, pos) && self.can_reach(tags[pos]) ==> {
                    &&& run.state.can_reach(tags[run.end])
                    &&& run.is_done() || run.out == Err::<int, ReaderError<E>>(
                        ReaderError::Protocol(Type2Error::OutOfRange),
                    ) && layout.room(addr, limit) < data.len() - di
                }
            }),
    {
        if addr >= limit || addr >= ADDRESS_SPACE_END {
            layout.lemma_usable_growth(LayoutView::cap(limit), addr);
        } else {
            let sector = (addr / 1024) as u8;
            let block_no = (addr % 1024 / 4) as u8;
            let select = self.select(log, pos, sector);
            self.law_select_on_tag(tags, log, pos, sector);
            layout.lemma_usable_growth(addr, LayoutView::cap(limit));
            if select.is_done() {
                let tag = tags[select.end];
                if layout.covered(addr, data.len() - di) {
                    if addr + 4 <= limit {
                        let page = [data[di], data[di + 1], data[di + 2], data[di + 3]];
                        assert(tag.block_start(block_no) == addr);
                        assert(layout.usable(addr + 1).len() == layout.usable(addr).len() + 1);
                        assert(layout.usable(addr + 2).len() == layout.usable(addr).len() + 2);
                        assert(layout.usable(addr + 3).len() == layout.usable(addr).len() + 3);
                        assert(layout.usable(addr + 4).len() == layout.usable(addr).len() + 4);
                        layout.lemma_usable_growth(addr + 4, LayoutView::cap(limit));
                        select.state.law_write_on_tag(tags, log, select.end, block_no, page);
                    }
                } else {
                    select.state.lemma_merge_block_any(
                        tags,
                        log,
                        select.end,
                        layout,
                        addr,
                        data,
                        di,
                        limit,
                    );
                }
            }
        }
    }

    proof fn lemma_write_bytes_any<E>(
        self,
        tags: Seq<TagModel>,
        log: Seq<Exchange<E>>,
        pos: int,
        layout: LayoutView,
        addr: int,
        data: Seq<u8>,
        di: int,
        limit: int,
    )
        requires
            TagModel::history(tags, log),
            0 <= pos <= log.len(),
            tags[pos].agrees(self),
            self.selectable(),
            tags[pos].memory.len() % 4 == 0,
            limit <= tags[pos].memory.len(),
            0 <= di <= data.len(),
            DATA_START <= addr,
            self.write_bytes(log, pos, layout, addr, data, di, limit).sent,
        ensures
            ({
                let run = self.write_bytes(log, pos, layout, addr, data, di, limit);
                let (before, now) = (tags[pos].memory, tags[run.end].memory);
                &&& pos <= run.end <= log.len()
                &&& now.len() == before.len()
                &&& forall|a: int|
                    0 <= a < now.len() && layout.spares(addr, limit, a) ==> #[trigger] now[a]
                        == before[a]
                &&& tags[run.end].agrees(run.state)
                &&& run.state.selectable()
                &&& run.is_done() && di < data.len() ==> layout.room(addr, limit) >= data.len()
                    - di
                &&& TagModel::lossless(log, pos) && self.can_reach(tags[pos]) ==> {
                    &&& run.state.can_reach(tags[run.end])
                    &&& run.is_done() || run.out == Err::<(), ReaderError<E>>(
                        ReaderError::Protocol(Type2Error::OutOfRange),
                    ) && di < data.len() && layout.room(addr, limit) < data.len() - di
                }
            }),
        decreases ADDRESS_SPACE_END + 4 - addr,
    {
        if di < data.len() {
            let block = self.write_block(log, pos, layout, addr, data, di, limit);
            self.lemma_write_block_any(tags, log, pos, layout, addr, data, di, limit);
            if block.is_done() {
                block.state.lemma_write_bytes_any(
                    tags,
                    log,
                    block.end,
                    layout,
                    addr - addr % 4 + 4,
                    data,
                    block.out->Ok_0,
                    limit,
                );
            }
        }
    }

    /// Writing data from an address on, by any layout and up to any limit. Bytes before the
    /// address, at or past the limit, and in lock and reserved areas keep their values, however
    /// the write ends. It succeeds only if the data fits on the usable addresses below the limit.
    /// Where no answer is lost it succeeds if the data fits, and fails with an out-of-range error
    /// if it does not.
    pub proof fn law_write_bytes_any_layout_on_tag<E>(
        self,
        tags: Seq<TagModel>,
        log: Seq<Exchange<E>>,
        pos: int,
        layout: LayoutView,
        addr: int,
        data: Seq<u8>,
        limit: int,
    )
        requires
            TagModel::history(tags, log),
            0 <= pos <= log.len(),
            tags[pos].agrees(self),
            self.selectable(),
            tags[pos].memory.len() % 4 == 0,
            limit <= tags[pos].memory.len(),
            DATA_START <= addr,
            data.len() > 0,
            self.write_bytes(log, pos, layout, addr, data, 0, limit).sent,
        ensures
            ({
                let run = self.write_bytes(log, pos, layout, addr, data, 0, limit);
                let (before, now) = (tags[pos].memory, tags[run.end].memory);
                &&& now.len() == before.len()
                &&& forall|a: int|
                    0 <= a < now.len() && (a < addr || a >= limit || layout.skips(a))
                        ==> #[trigger] now[a] == before[a]
                &&& run.is_done() ==> layout.room(addr, limit) >= data.len()
                &&& TagModel::lossless(log, pos) && self.can_reach(tags[pos]) ==> (if layout.room(
                    addr,
                    limit,
                ) >= data.len() {
                    run.is_done()
                } else {
                    run.out == Err::<(), ReaderError<E>>(
                        ReaderError::Protocol(Type2Error::OutOfRange),
                    )
                })
            }),
    {
        self.lemma_write_bytes_any(tags, log, pos, layout, addr, data, 0, limit);
    }
}

impl LayoutView {
    /// Whether a block that has been written takes the data as far as it goes: to its end, or to
    /// the end of the block.
    spec fn step_is_right<E>(
        self,
        run: Run<E, int>,
        addr: int,
        len: int,
        di: int,
        limit: int,
    ) -> bool {
        let next = run.out->Ok_0;
        let after = addr - addr % 4 + 4;
        run.is_done() ==> {
            &&& addr < limit
            &&& addr < ADDRESS_SPACE_END
            &&& di <= next <= len
            &&& next < len ==> after <= limit && self.usable(after).len() == self.usable(addr).len()
                + (next - di)
            &&& next == len ==> self.room(addr, limit) >= len - di
        }
    }
}

} // verus!
