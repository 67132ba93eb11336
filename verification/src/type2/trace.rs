//! What a reader sends and returns, stated over the exchanges with the tag.
//!
//! A [`Run`] is the outcome of one reader operation, given the log of the
//! transceiver: which of the exchanges the operation made, what it returned, and
//! the reader's state afterwards. Each function below reads the exchanges from
//! position `pos` on: it says which command the reader sends there, and what the
//! reader makes of the reply.

use super::cc::CapabilityContainer;
use super::memory::{
    LayoutView, ADDRESS_SPACE_END, CC_BLOCK, DATA_START, MAX_SECTOR,
};
use super::reader::{ReaderError, SectorState};
use super::scanner::TlvScanState;
use super::tlv::{TlvView, TLV_NDEF_MESSAGE, TLV_TERMINATOR};
use super::{Answer, Command, Exchange, Type2Error};
use crate::tag::AccessCondition;
use crate::tlv::MAX_TLV_LENGTH;
use crate::vec::DATA_CAPACITY;
use vstd::prelude::*;

verus! {

/// What a reader knows between two operations.
pub struct ReaderState {
    /// The sector that the tag has selected, as far as it is known.
    pub sector: SectorState,
    /// The last block read and the 16 bytes that came back, unless they may be outdated.
    pub cache: Option<(u8, Seq<u8>)>,
    /// How often a command is repeated after a transceiver error.
    pub retries: nat,
}

/// The outcome of one reader operation.
pub struct Run<E, O> {
    /// Whether the exchanges are those that the operation makes.
    pub sent: bool,
    /// The position in the log after the exchanges of the operation.
    pub end: int,
    /// What the reader knows after the operation.
    pub state: ReaderState,
    /// What the operation returns.
    pub out: Result<O, ReaderError<E>>,
}

impl<E, O> Run<E, O> {
    /// The operation ends here, with a result.
    pub open spec fn done(state: ReaderState, end: int, out: O) -> Self {
        Run { sent: true, end, state, out: Ok(out) }
    }

    /// The operation ends here, with a protocol error.
    pub open spec fn refused(state: ReaderState, end: int, error: Type2Error) -> Self {
        Run { sent: true, end, state, out: Err(ReaderError::Protocol(error)) }
    }

    /// The operation ends here, with a transceiver error.
    pub open spec fn lost(state: ReaderState, end: int, error: E) -> Self {
        Run { sent: true, end, state, out: Err(ReaderError::Transceiver(error)) }
    }

    /// The log does not hold the exchange that the operation makes here.
    pub open spec fn unsent(state: ReaderState, end: int) -> Self {
        Run { sent: false, end, state, out: Err(ReaderError::Protocol(Type2Error::InvalidLength)) }
    }

    /// Whether the operation got to its result.
    pub open spec fn is_done(self) -> bool {
        self.sent && self.out is Ok
    }

    /// A larger operation that fails as this one did.
    pub open spec fn failed<P>(self) -> Run<E, P> {
        Run { sent: self.sent, end: self.end, state: self.state, out: Err(self.out->Err_0) }
    }
}

impl<E> Run<E, (Seq<u8>, bool)> {
    /// The bytes that were collected, if they are all there.
    pub open spec fn all_or_full(self) -> Run<E, Seq<u8>> {
        if !self.is_done() {
            self.failed()
        } else if self.out->Ok_0.1 {
            Run::done(self.state, self.end, self.out->Ok_0.0)
        } else {
            Run::refused(self.state, self.end, Type2Error::BufferFull)
        }
    }
}

impl<E> Exchange<E> {
    /// The reply to the command that the log holds at `pos`, if it is this one.
    pub open spec fn reply_at(log: Seq<Exchange<E>>, pos: int, cmd: Seq<u8>) -> Option<
        Result<Seq<u8>, E>,
    > {
        if 0 <= pos < log.len() {
            match log[pos] {
                Exchange::Framed { cmd: sent, reply } => if sent == cmd {
                    Some(reply)
                } else {
                    None
                },
                _ => None,
            }
        } else {
            None
        }
    }

    /// What came back for the passively acknowledged command that the log holds at `pos`, if it
    /// is this one.
    pub open spec fn nack_at(log: Seq<Exchange<E>>, pos: int, cmd: Seq<u8>) -> Option<
        Result<Option<u8>, E>,
    > {
        if 0 <= pos < log.len() {
            match log[pos] {
                Exchange::Passive { cmd: sent, nack } => if sent == cmd {
                    Some(nack)
                } else {
                    None
                },
                _ => None,
            }
        } else {
            None
        }
    }
}

impl ReaderState {
    /// After an ambiguous failure neither the sector nor the cache can be relied on.
    pub open spec fn unsure(self) -> ReaderState {
        ReaderState { sector: SectorState::Unknown, cache: None, retries: self.retries }
    }

    /// The same state without a cached block.
    pub open spec fn uncached(self) -> ReaderState {
        ReaderState { sector: self.sector, cache: None, retries: self.retries }
    }

    /// SECTOR SELECT: packet 1 has to be acknowledged, packet 2 has to be met with silence.
    /// Whatever else happens, the sector is unknown afterwards.
    pub open spec fn force_select<E>(self, log: Seq<Exchange<E>>, pos: int, sector: u8) -> Run<
        E,
        (),
    > {
        let unsure = self.unsure();
        if sector > MAX_SECTOR {
            Run::refused(self, pos, Type2Error::OutOfRange)
        } else {
            match Exchange::reply_at(log, pos, Command::SectorSelectPart1.wire()) {
                None => Run::unsent(unsure, pos),
                Some(Err(e)) => Run::lost(unsure, pos + 1, e),
                Some(Ok(frame)) => unsure.finish_select(log, pos + 1, frame, sector),
            }
        }
    }

    /// SECTOR SELECT after packet 1, to which `frame` came back.
    pub open spec fn finish_select<E>(
        self,
        log: Seq<Exchange<E>>,
        pos: int,
        frame: Seq<u8>,
        sector: u8,
    ) -> Run<E, ()> {
        match Command::SectorSelectPart1.answer(frame) {
            Err(e) => Run::refused(self, pos, e),
            Ok(Answer::Ack) => {
                let packet2 = Command::SectorSelectPart2 { sector_no: sector }.wire();
                match Exchange::nack_at(log, pos, packet2) {
                    None => Run::unsent(self, pos),
                    Some(Err(e)) => Run::lost(self, pos + 1, e),
                    Some(Ok(Some(code))) => Run::refused(self, pos + 1, Type2Error::Nack(code)),
                    Some(Ok(None)) => Run::done(
                        ReaderState { sector: SectorState::Known(sector), ..self },
                        pos + 1,
                        (),
                    ),
                }
            },
            Ok(Answer::Nack(code)) => Run::refused(self, pos, Type2Error::Nack(code)),
            Ok(_) => Run::refused(self, pos, Type2Error::InvalidLength),
        }
    }

    /// A command with up to `retries` repetitions after transceiver errors. Before each
    /// repetition the sector that was selected at first, `intended`, is selected again; if it
    /// was unknown at first, nothing is repeated.
    pub open spec fn transceive<E>(
        self,
        log: Seq<Exchange<E>>,
        pos: int,
        intended: SectorState,
        retries: nat,
        cmd: Seq<u8>,
    ) -> Run<E, Seq<u8>>
        decreases retries,
    {
        match Exchange::reply_at(log, pos, cmd) {
            None => Run::unsent(self, pos),
            Some(Ok(frame)) => Run::done(self, pos + 1, frame),
            Some(Err(e)) => match intended {
                SectorState::Unknown => Run::lost(self.unsure(), pos + 1, e),
                SectorState::Known(sector) => if retries == 0 {
                    Run::lost(self.unsure(), pos + 1, e)
                } else {
                    let select = self.unsure().force_select(log, pos + 1, sector);
                    if !select.is_done() {
                        select.failed()
                    } else {
                        select.state.transceive(
                            log,
                            select.end,
                            intended,
                            (retries - 1) as nat,
                            cmd,
                        )
                    }
                },
            },
        }
    }

    /// READ: the cached bytes if the block is the cached one, else 16 bytes from the tag, which
    /// are then cached.
    pub open spec fn read<E>(self, log: Seq<Exchange<E>>, pos: int, block_no: u8) -> Run<
        E,
        Seq<u8>,
    > {
        if self.cache is Some && self.cache->Some_0.0 == block_no {
            Run::done(self, pos, self.cache->Some_0.1)
        } else {
            let cmd = Command::Read { block_no };
            let run = self.transceive(log, pos, self.sector, self.retries, cmd.wire());
            if !run.is_done() {
                run
            } else {
                match cmd.answer(run.out->Ok_0) {
                    Err(e) => Run::refused(run.state, run.end, e),
                    Ok(Answer::Data(data)) => Run::done(
                        ReaderState { cache: Some((block_no, data@)), ..run.state },
                        run.end,
                        data@,
                    ),
                    Ok(Answer::Nack(code)) => Run::refused(
                        run.state,
                        run.end,
                        Type2Error::Nack(code),
                    ),
                    Ok(_) => Run::refused(run.state, run.end, Type2Error::InvalidLength),
                }
            }
        }
    }

    /// WRITE: the tag has to acknowledge. Nothing is cached afterwards.
    pub open spec fn write<E>(
        self,
        log: Seq<Exchange<E>>,
        pos: int,
        block_no: u8,
        data: [u8; 4],
    ) -> Run<E, ()> {
        let cmd = Command::Write { block_no, data };
        let run = self.transceive(log, pos, self.sector, self.retries, cmd.wire());
        if !run.is_done() {
            run.failed()
        } else {
            match cmd.answer(run.out->Ok_0) {
                Err(e) => Run::refused(run.state.uncached(), run.end, e),
                Ok(Answer::Ack) => Run::done(run.state.uncached(), run.end, ()),
                Ok(Answer::Nack(code)) => Run::refused(
                    run.state.uncached(),
                    run.end,
                    Type2Error::Nack(code),
                ),
                Ok(_) => Run::refused(run.state.uncached(), run.end, Type2Error::InvalidLength),
            }
        }
    }

    /// SECTOR SELECT with up to `retries` repetitions of packet 1 after transceiver errors.
    /// Packet 2 is never repeated: silence is its acknowledgement.
    pub open spec fn retry_select<E>(
        self,
        log: Seq<Exchange<E>>,
        pos: int,
        sector: u8,
        retries: nat,
    ) -> Run<E, ()>
        decreases retries,
    {
        match Exchange::reply_at(log, pos, Command::SectorSelectPart1.wire()) {
            Some(Err(_)) if retries > 0 => self.unsure().retry_select(
                log,
                pos + 1,
                sector,
                (retries - 1) as nat,
            ),
            _ => self.force_select(log, pos, sector),
        }
    }

    /// Selecting a sector: nothing is sent if it is the selected one, or if it is reserved.
    pub open spec fn select<E>(self, log: Seq<Exchange<E>>, pos: int, sector: u8) -> Run<E, ()> {
        if sector > MAX_SECTOR {
            Run::refused(self, pos, Type2Error::OutOfRange)
        } else if self.sector == SectorState::Known(sector) {
            Run::done(self, pos, ())
        } else {
            self.retry_select(log, pos, sector, self.retries)
        }
    }

    /// Reading the Capability Container: the first four bytes of block 3 in sector 0.
    pub open spec fn read_cc<E>(self, log: Seq<Exchange<E>>, pos: int) -> Run<
        E,
        CapabilityContainer,
    > {
        let select = self.select(log, pos, 0);
        if !select.is_done() {
            select.failed()
        } else {
            let read = select.state.read(log, select.end, CC_BLOCK);
            if !read.is_done() {
                read.failed()
            } else {
                let data = read.out->Ok_0;
                match CapabilityContainer::decoded([data[0], data[1], data[2], data[3]]) {
                    Ok(cc) => Run::done(read.state, read.end, cc),
                    Err(e) => Run::refused(read.state, read.end, e),
                }
            }
        }
    }

    /// The four bytes of a block: from the cached 16 bytes if they reach that far, else from the
    /// tag.
    pub open spec fn read_page<E>(self, log: Seq<Exchange<E>>, pos: int, block_no: u8) -> Run<
        E,
        Seq<u8>,
    > {
        match self.cache {
            Some((first, data)) if (block_no - first) % 256 < 4 => {
                let at = 4 * ((block_no - first) % 256);
                Run::done(self, pos, data.subrange(at, at + 4))
            },
            _ => {
                let read = self.read(log, pos, block_no);
                if !read.is_done() {
                    read
                } else {
                    Run::done(read.state, read.end, read.out->Ok_0.subrange(0, 4))
                }
            },
        }
    }

    /// Collecting the data area block by block from `addr` on, with `acc` and `scan` for what came
    /// before: bytes in lock and reserved areas are left out, and reading stops once the area is
    /// complete, a Terminator TLV has been read, or there is no room for more. Returns the bytes,
    /// and whether they are all there.
    pub open spec fn collect_area<E>(
        self,
        log: Seq<Exchange<E>>,
        pos: int,
        layout: LayoutView,
        addr: int,
        acc: Seq<u8>,
        scan: TlvScanState,
    ) -> Run<E, (Seq<u8>, bool)>
        decreases ADDRESS_SPACE_END + 4 - addr,
    {
        if acc.len() >= layout.size {
            Run::done(self, pos, (acc, true))
        } else if addr >= ADDRESS_SPACE_END {
            Run::refused(self, pos, Type2Error::OutOfRange)
        } else {
            let select = self.select(log, pos, (addr / 1024) as u8);
            if !select.is_done() {
                select.failed()
            } else {
                let read = select.state.read_page(log, select.end, (addr % 1024 / 4) as u8);
                if !read.is_done() {
                    read.failed()
                } else {
                    match layout.collect(addr, read.out->Ok_0, 0, acc, scan) {
                        Collected::More(acc, scan) => read.state.collect_area(
                            log,
                            read.end,
                            layout,
                            addr + 4,
                            acc,
                            scan,
                        ),
                        Collected::Complete(acc) => Run::done(read.state, read.end, (acc, true)),
                        Collected::Full(acc) => Run::done(read.state, read.end, (acc, false)),
                    }
                }
            }
        }
    }

    /// Collecting the data area from its start.
    pub open spec fn scan_area<E>(self, log: Seq<Exchange<E>>, pos: int, layout: LayoutView) -> Run<
        E,
        (Seq<u8>, bool),
    > {
        self.collect_area(log, pos, layout, DATA_START as int, seq![], TlvScanState::Tag)
    }

    /// Reading the data area: all of its bytes have to fit in a buffer.
    pub open spec fn read_area<E>(self, log: Seq<Exchange<E>>, pos: int, layout: LayoutView) -> Run<
        E,
        Seq<u8>,
    > {
        self.scan_area(log, pos, layout).all_or_full()
    }

    /// Reading the data area without regard to lock and reserved areas and, on a dynamic tag that
    /// has control blocks, once more with the layout that they describe. The first reading only
    /// has to show the control blocks: the blocks behind them may be broken up by lock and
    /// reserved bytes, or not fit in the buffer.
    pub open spec fn read_tlv_area<E>(
        self,
        log: Seq<Exchange<E>>,
        pos: int,
        cc: CapabilityContainer,
    ) -> Run<E, Seq<u8>> {
        let first = self.scan_area(log, pos, LayoutView::of(cc, seq![]));
        if !first.is_done() {
            first.failed()
        } else {
            let (bytes, complete) = first.out->Ok_0;
            let blocks = TlvView::announced(bytes, complete);
            if cc.dynamic() && TlvView::any_control(blocks) {
                first.state.read_area(log, first.end, LayoutView::of(cc, blocks))
            } else {
                first.all_or_full()
            }
        }
    }

    /// Reading the NDEF message: the value of the first NDEF Message TLV in the data area, or
    /// nothing if there is none.
    pub open spec fn read_ndef<E>(self, log: Seq<Exchange<E>>, pos: int) -> Run<E, Seq<u8>> {
        let head = self.read_cc(log, pos);
        if !head.is_done() {
            head.failed()
        } else {
            let cc = head.out->Ok_0;
            if !cc.valid() {
                Run::refused(head.state, head.end, Type2Error::InvalidMagic(0))
            } else {
                let area = head.state.read_tlv_area(log, head.end, cc);
                if !area.is_done() {
                    area
                } else {
                    match TlvView::parsed(area.out->Ok_0) {
                        Err(e) => Run::refused(area.state, area.end, e),
                        Ok(tlvs) => Run::done(area.state, area.end, TlvView::first_ndef(tlvs)),
                    }
                }
            }
        }
    }

    /// Writing `data[di..]` to the usable bytes of the block of `addr`, from `addr` on, and
    /// counting on in the data: a block that is usable as a whole and covered by what is left of
    /// the data is written at once, any other block is read and written back with its usable
    /// bytes replaced.
    pub open spec fn write_block<E>(
        self,
        log: Seq<Exchange<E>>,
        pos: int,
        layout: LayoutView,
        addr: int,
        data: Seq<u8>,
        di: int,
        limit: int,
    ) -> Run<E, int> {
        if addr >= limit || addr >= ADDRESS_SPACE_END {
            Run::refused(self, pos, Type2Error::OutOfRange)
        } else {
            let select = self.select(log, pos, (addr / 1024) as u8);
            let block_no = (addr % 1024 / 4) as u8;
            let base = addr - addr % 4;
            if !select.is_done() {
                select.failed()
            } else if layout.covered(addr, data.len() - di) {
                if base + 4 > limit {
                    Run::refused(select.state, select.end, Type2Error::OutOfRange)
                } else {
                    let write = select.state.write(
                        log,
                        select.end,
                        block_no,
                        [data[di], data[di + 1], data[di + 2], data[di + 3]],
                    );
                    if !write.is_done() {
                        write.failed()
                    } else {
                        Run::done(write.state, write.end, di + 4)
                    }
                }
            } else {
                select.state.merge_block(log, select.end, layout, addr, data, di, limit)
            }
        }
    }

    /// Reading the block of `addr` in the selected sector, and writing it back with its usable
    /// bytes from `addr` on replaced by `data[di..]`. It is not written back if it has none.
    pub open spec fn merge_block<E>(
        self,
        log: Seq<Exchange<E>>,
        pos: int,
        layout: LayoutView,
        addr: int,
        data: Seq<u8>,
        di: int,
        limit: int,
    ) -> Run<E, int> {
        let block_no = (addr % 1024 / 4) as u8;
        let read = self.read(log, pos, block_no);
        if !read.is_done() {
            read.failed()
        } else {
            match layout.merge(
                addr - addr % 4,
                addr % 4,
                read.out->Ok_0.subrange(0, 4),
                data,
                di,
                limit,
            ) {
                None => Run::refused(read.state, read.end, Type2Error::OutOfRange),
                Some((page, next)) => if next == di {
                    Run::done(read.state, read.end, next)
                } else {
                    let write = read.state.write(
                        log,
                        read.end,
                        block_no,
                        [page[0], page[1], page[2], page[3]],
                    );
                    if !write.is_done() {
                        write.failed()
                    } else {
                        Run::done(write.state, write.end, next)
                    }
                },
            }
        }
    }

    /// Writing `data[di..]` to the usable bytes from `addr` on, block by block.
    pub open spec fn write_bytes<E>(
        self,
        log: Seq<Exchange<E>>,
        pos: int,
        layout: LayoutView,
        addr: int,
        data: Seq<u8>,
        di: int,
        limit: int,
    ) -> Run<E, ()>
        decreases ADDRESS_SPACE_END + 4 - addr,
    {
        if di >= data.len() {
            Run::done(self, pos, ())
        } else {
            let block = self.write_block(log, pos, layout, addr, data, di, limit);
            if !block.is_done() {
                block.failed()
            } else {
                block.state.write_bytes(
                    log,
                    block.end,
                    layout,
                    addr - addr % 4 + 4,
                    data,
                    block.out->Ok_0,
                    limit,
                )
            }
        }
    }

    /// Carrying out a plan: first the whole block with a zero length, then the length.
    pub open spec fn commit<E>(self, log: Seq<Exchange<E>>, pos: int, plan: WritePlan) -> Run<
        E,
        (),
    > {
        let block = self.write_bytes(
            log,
            pos,
            plan.layout,
            plan.start,
            plan.payload,
            0,
            plan.limit,
        );
        if !block.is_done() {
            block
        } else {
            block.state.write_bytes(
                log,
                block.end,
                plan.layout,
                plan.length_start,
                plan.length_field,
                0,
                plan.limit,
            )
        }
    }

    /// Finding out, by reading alone, what has to be written where.
    pub open spec fn prepare<E>(self, log: Seq<Exchange<E>>, pos: int, ndef: Seq<u8>) -> Run<
        E,
        WritePlan,
    > {
        let head = self.read_cc(log, pos);
        if !head.is_done() {
            head.failed()
        } else {
            let cc = head.out->Ok_0;
            if !cc.valid() {
                Run::refused(head.state, head.end, Type2Error::InvalidMagic(0))
            } else if cc.write_access != AccessCondition::Granted {
                Run::refused(head.state, head.end, Type2Error::ReadOnly)
            } else {
                let area = head.state.read_tlv_area(log, head.end, cc);
                if !area.is_done() {
                    area.failed()
                } else {
                    match TlvView::parsed(area.out->Ok_0) {
                        Err(e) => Run::refused(area.state, area.end, e),
                        Ok(tlvs) => match WritePlan::of(
                            cc,
                            tlvs,
                            TlvView::ndef_position(area.out->Ok_0, 0),
                            ndef,
                        ) {
                            Err(e) => Run::refused(area.state, area.end, e),
                            Ok(plan) => Run::done(area.state, area.end, plan),
                        },
                    }
                }
            }
        }
    }

    /// Writing an NDEF message.
    pub open spec fn write_ndef<E>(self, log: Seq<Exchange<E>>, pos: int, ndef: Seq<u8>) -> Run<
        E,
        (),
    > {
        let plan = self.prepare(log, pos, ndef);
        if !plan.is_done() {
            plan.failed()
        } else {
            plan.state.commit(log, plan.end, plan.out->Ok_0)
        }
    }
}

/// What taking in the bytes of a block comes to.
pub enum Collected {
    /// All bytes so far, and where the next byte stands in the TLV stream.
    More(Seq<u8>, TlvScanState),
    /// All bytes of the data area, up to a Terminator TLV if there is one.
    Complete(Seq<u8>),
    /// All bytes so far, with no room for the next one.
    Full(Seq<u8>),
}

impl LayoutView {
    /// Takes in the bytes of the block at `addr` from the `i`-th on: bytes in lock and reserved
    /// areas are left out.
    pub open spec fn collect(
        self,
        addr: int,
        page: Seq<u8>,
        i: int,
        acc: Seq<u8>,
        scan: TlvScanState,
    ) -> Collected
        decreases 4 - i,
    {
        if i >= 4 {
            Collected::More(acc, scan)
        } else if self.skips(addr + i) {
            self.collect(addr, page, i + 1, acc, scan)
        } else if acc.len() >= self.size {
            Collected::Complete(acc)
        } else if acc.len() >= DATA_CAPACITY {
            Collected::Full(acc)
        } else {
            match scan.step(page[i]) {
                None => Collected::Complete(acc.push(page[i])),
                Some(next) => self.collect(addr, page, i + 1, acc.push(page[i]), next),
            }
        }
    }

    /// Whether `addr` is the start of a block without lock or reserved bytes, which `left` bytes
    /// of data cover.
    pub open spec fn covered(self, addr: int, left: int) -> bool {
        addr % 4 == 0 && left >= 4 && !self.skips(addr) && !self.skips(addr + 1) && !self.skips(
            addr + 2,
        ) && !self.skips(addr + 3)
    }

    /// Replaces the usable bytes of the block at `base`, from the `i`-th on, by `data[di..]`, and
    /// counts on in the data; `None` if a byte that is to be replaced lies beyond `limit`.
    pub open spec fn merge(
        self,
        base: int,
        i: int,
        page: Seq<u8>,
        data: Seq<u8>,
        di: int,
        limit: int,
    ) -> Option<(Seq<u8>, int)>
        decreases 4 - i,
    {
        if i >= 4 || di >= data.len() {
            Some((page, di))
        } else if base + i >= limit {
            None
        } else if self.skips(base + i) {
            self.merge(base, i + 1, page, data, di, limit)
        } else {
            self.merge(base, i + 1, page.update(i, data[di]), data, di + 1, limit)
        }
    }
}

/// What has to be written where to put an NDEF message on a tag.
pub struct WritePlan {
    /// The layout of the tag.
    pub layout: LayoutView,
    /// Where the NDEF Message TLV starts.
    pub start: int,
    /// The first address past the data area.
    pub limit: int,
    /// The NDEF Message TLV with a zero length field, the message, and the Terminator TLV.
    pub payload: Seq<u8>,
    /// Where the length field starts.
    pub length_start: int,
    /// The length field.
    pub length_field: Seq<u8>,
}

impl WritePlan {
    /// The length field of a block that is not complete yet: as wide as the final one, and zero.
    pub open spec fn open_length(len: nat) -> Seq<u8> {
        if len < 0xFF {
            seq![0x00u8]
        } else {
            seq![0xFFu8, 0x00, 0x00]
        }
    }

    /// The bytes written first.
    pub open spec fn open_block(ndef: Seq<u8>) -> Seq<u8> {
        seq![TLV_NDEF_MESSAGE] + Self::open_length(ndef.len()) + ndef + seq![TLV_TERMINATOR]
    }

    /// The bytes as they are in the end: the NDEF Message TLV and the Terminator TLV.
    pub open spec fn closed_block(ndef: Seq<u8>) -> Seq<u8> {
        TlvView::block(TLV_NDEF_MESSAGE, ndef) + seq![TLV_TERMINATOR]
    }

    /// The plan for an NDEF message on a tag with these TLVs, and with its NDEF Message TLV at
    /// `position` of the data area, or why there is none: the length cannot be encoded, there is
    /// no NDEF Message TLV to replace, the block does not fit in the data area (or in the address
    /// space), or it does not fit in a buffer.
    pub open spec fn of(
        cc: CapabilityContainer,
        tlvs: Seq<TlvView>,
        position: Option<int>,
        ndef: Seq<u8>,
    ) -> Result<WritePlan, Type2Error> {
        let field = crate::tlv::length_field(ndef.len() as u16);
        let layout = LayoutView::of(cc, tlvs);
        let usable = layout.usable(ADDRESS_SPACE_END as int);
        if ndef.len() > MAX_TLV_LENGTH {
            Err(Type2Error::OutOfRange)
        } else {
            match position {
                None => Err(Type2Error::InvalidTlv),
                Some(offset) => if offset + 1 + field.len() + ndef.len() + 1 > cc.area_size() {
                    Err(Type2Error::OutOfRange)
                } else if cc.area_size() > usable.len() {
                    Err(Type2Error::OutOfRange)
                } else if Self::open_block(ndef).len() > DATA_CAPACITY {
                    Err(Type2Error::BufferFull)
                } else {
                    Ok(
                        WritePlan {
                            layout,
                            start: usable[offset],
                            limit: usable[cc.area_size() - 1] + 1,
                            payload: Self::open_block(ndef),
                            length_start: usable[offset + 1],
                            length_field: field,
                        },
                    )
                },
            }
        }
    }
}

impl TlvView {
    /// The value of the first NDEF Message TLV, or nothing if there is none.
    pub open spec fn first_ndef(tlvs: Seq<TlvView>) -> Seq<u8>
        decreases tlvs.len(),
    {
        if tlvs.len() == 0 {
            seq![]
        } else {
            match tlvs.first() {
                TlvView::NdefMessage(bytes) => bytes,
                _ => Self::first_ndef(tlvs.drop_first()),
            }
        }
    }
}

/// A run depends on the exchanges that it makes, and on nothing after them: in a longer log it is
/// the same run. It ends where its exchanges end.
impl ReaderState {
    pub proof fn lemma_force_select_stable<E>(
        self,
        log: Seq<Exchange<E>>,
        longer: Seq<Exchange<E>>,
        pos: int,
        sector: u8,
    )
        requires
            0 <= pos <= log.len(),
            log.is_prefix_of(longer),
            self.force_select(log, pos, sector).sent,
        ensures
            self.force_select(longer, pos, sector) == self.force_select(log, pos, sector),
            pos <= self.force_select(log, pos, sector).end <= log.len(),
            self.force_select(log, pos, sector).state.retries == self.retries,
    {
    }

    pub proof fn lemma_transceive_stable<E>(
        self,
        log: Seq<Exchange<E>>,
        longer: Seq<Exchange<E>>,
        pos: int,
        intended: SectorState,
        retries: nat,
        cmd: Seq<u8>,
    )
        requires
            0 <= pos <= log.len(),
            log.is_prefix_of(longer),
            self.transceive(log, pos, intended, retries, cmd).sent,
        ensures
            self.transceive(longer, pos, intended, retries, cmd) == self.transceive(
                log,
                pos,
                intended,
                retries,
                cmd,
            ),
            pos <= self.transceive(log, pos, intended, retries, cmd).end <= log.len(),
            self.transceive(log, pos, intended, retries, cmd).state.retries == self.retries,
        decreases retries,
    {
        if let Some(Err(e)) = Exchange::reply_at(log, pos, cmd) {
            if let SectorState::Known(sector) = intended {
                if retries > 0 {
                    let select = self.unsure().force_select(log, pos + 1, sector);
                    self.unsure().lemma_force_select_stable(log, longer, pos + 1, sector);
                    if select.is_done() {
                        select.state.lemma_transceive_stable(
                            log,
                            longer,
                            select.end,
                            intended,
                            (retries - 1) as nat,
                            cmd,
                        );
                    }
                }
            }
        }
    }

    pub proof fn lemma_read_stable<E>(
        self,
        log: Seq<Exchange<E>>,
        longer: Seq<Exchange<E>>,
        pos: int,
        block_no: u8,
    )
        requires
            0 <= pos <= log.len(),
            log.is_prefix_of(longer),
            self.read(log, pos, block_no).sent,
        ensures
            self.read(longer, pos, block_no) == self.read(log, pos, block_no),
            pos <= self.read(log, pos, block_no).end <= log.len(),
            self.read(log, pos, block_no).state.retries == self.retries,
    {
        let cmd = Command::Read { block_no }.wire();
        if !(self.cache is Some && self.cache->Some_0.0 == block_no) {
            self.lemma_transceive_stable(log, longer, pos, self.sector, self.retries, cmd);
        }
    }

    pub proof fn lemma_write_stable<E>(
        self,
        log: Seq<Exchange<E>>,
        longer: Seq<Exchange<E>>,
        pos: int,
        block_no: u8,
        data: [u8; 4],
    )
        requires
            0 <= pos <= log.len(),
            log.is_prefix_of(longer),
            self.write(log, pos, block_no, data).sent,
        ensures
            self.write(longer, pos, block_no, data) == self.write(log, pos, block_no, data),
            pos <= self.write(log, pos, block_no, data).end <= log.len(),
            self.write(log, pos, block_no, data).state.retries == self.retries,
    {
        let cmd = Command::Write { block_no, data }.wire();
        self.lemma_transceive_stable(log, longer, pos, self.sector, self.retries, cmd);
    }

    pub proof fn lemma_select_stable<E>(
        self,
        log: Seq<Exchange<E>>,
        longer: Seq<Exchange<E>>,
        pos: int,
        sector: u8,
    )
        requires
            0 <= pos <= log.len(),
            log.is_prefix_of(longer),
            self.select(log, pos, sector).sent,
        ensures
            self.select(longer, pos, sector) == self.select(log, pos, sector),
            pos <= self.select(log, pos, sector).end <= log.len(),
            self.select(log, pos, sector).state.retries == self.retries,
    {
        if sector <= MAX_SECTOR && self.sector != SectorState::Known(sector) {
            self.lemma_retry_select_stable(log, longer, pos, sector, self.retries);
        }
    }

    pub proof fn lemma_retry_select_stable<E>(
        self,
        log: Seq<Exchange<E>>,
        longer: Seq<Exchange<E>>,
        pos: int,
        sector: u8,
        retries: nat,
    )
        requires
            0 <= pos <= log.len(),
            log.is_prefix_of(longer),
            self.retry_select(log, pos, sector, retries).sent,
            sector <= MAX_SECTOR,
        ensures
            self.retry_select(longer, pos, sector, retries) == self.retry_select(
                log,
                pos,
                sector,
                retries,
            ),
            pos <= self.retry_select(log, pos, sector, retries).end <= log.len(),
            self.retry_select(log, pos, sector, retries).state.retries == self.retries,
        decreases retries,
    {
        let p1 = Command::SectorSelectPart1.wire();
        assert(Exchange::reply_at(log, pos, p1) is Some);
        assert(Exchange::reply_at(longer, pos, p1) == Exchange::reply_at(log, pos, p1));
        if Exchange::reply_at(log, pos, p1)->Some_0 is Err && retries > 0 {
            self.unsure().lemma_retry_select_stable(
                log,
                longer,
                pos + 1,
                sector,
                (retries - 1) as nat,
            );
        } else {
            self.lemma_force_select_stable(log, longer, pos, sector);
        }
    }

    pub proof fn lemma_read_cc_stable<E>(
        self,
        log: Seq<Exchange<E>>,
        longer: Seq<Exchange<E>>,
        pos: int,
    )
        requires
            0 <= pos <= log.len(),
            log.is_prefix_of(longer),
            self.read_cc(log, pos).sent,
        ensures
            self.read_cc(longer, pos) == self.read_cc(log, pos),
            pos <= self.read_cc(log, pos).end <= log.len(),
            self.read_cc(log, pos).state.retries == self.retries,
    {
        let select = self.select(log, pos, 0);
        self.lemma_select_stable(log, longer, pos, 0);
        if select.is_done() {
            select.state.lemma_read_stable(log, longer, select.end, CC_BLOCK);
        }
    }

    pub proof fn lemma_read_page_stable<E>(
        self,
        log: Seq<Exchange<E>>,
        longer: Seq<Exchange<E>>,
        pos: int,
        block_no: u8,
    )
        requires
            0 <= pos <= log.len(),
            log.is_prefix_of(longer),
            self.read_page(log, pos, block_no).sent,
        ensures
            self.read_page(longer, pos, block_no) == self.read_page(log, pos, block_no),
            pos <= self.read_page(log, pos, block_no).end <= log.len(),
            self.read_page(log, pos, block_no).state.retries == self.retries,
    {
        if self.cache is None || (block_no - self.cache->Some_0.0) % 256 >= 4 {
            self.lemma_read_stable(log, longer, pos, block_no);
        }
    }

    pub proof fn lemma_collect_area_stable<E>(
        self,
        log: Seq<Exchange<E>>,
        longer: Seq<Exchange<E>>,
        pos: int,
        layout: LayoutView,
        addr: int,
        acc: Seq<u8>,
        scan: TlvScanState,
    )
        requires
            0 <= pos <= log.len(),
            log.is_prefix_of(longer),
            self.collect_area(log, pos, layout, addr, acc, scan).sent,
        ensures
            self.collect_area(longer, pos, layout, addr, acc, scan) == self.collect_area(
                log,
                pos,
                layout,
                addr,
                acc,
                scan,
            ),
            pos <= self.collect_area(log, pos, layout, addr, acc, scan).end <= log.len(),
            self.collect_area(log, pos, layout, addr, acc, scan).state.retries == self.retries,
        decreases ADDRESS_SPACE_END + 4 - addr,
    {
        if acc.len() < layout.size && addr < ADDRESS_SPACE_END {
            let (sector, block_no) = ((addr / 1024) as u8, (addr % 1024 / 4) as u8);
            let select = self.select(log, pos, sector);
            self.lemma_select_stable(log, longer, pos, sector);
            if select.is_done() {
                let read = select.state.read_page(log, select.end, block_no);
                select.state.lemma_read_page_stable(log, longer, select.end, block_no);
                if read.is_done() {
                    if let Collected::More(acc2, scan2) = layout.collect(
                        addr,
                        read.out->Ok_0,
                        0,
                        acc,
                        scan,
                    ) {
                        read.state.lemma_collect_area_stable(
                            log,
                            longer,
                            read.end,
                            layout,
                            addr + 4,
                            acc2,
                            scan2,
                        );
                    }
                }
            }
        }
    }

    pub proof fn lemma_scan_area_stable<E>(
        self,
        log: Seq<Exchange<E>>,
        longer: Seq<Exchange<E>>,
        pos: int,
        layout: LayoutView,
    )
        requires
            0 <= pos <= log.len(),
            log.is_prefix_of(longer),
            self.scan_area(log, pos, layout).sent,
        ensures
            self.scan_area(longer, pos, layout) == self.scan_area(log, pos, layout),
            pos <= self.scan_area(log, pos, layout).end <= log.len(),
            self.scan_area(log, pos, layout).state.retries == self.retries,
    {
        self.lemma_collect_area_stable(
            log,
            longer,
            pos,
            layout,
            DATA_START as int,
            seq![],
            TlvScanState::Tag,
        );
    }

    pub proof fn lemma_read_tlv_area_stable<E>(
        self,
        log: Seq<Exchange<E>>,
        longer: Seq<Exchange<E>>,
        pos: int,
        cc: CapabilityContainer,
    )
        requires
            0 <= pos <= log.len(),
            log.is_prefix_of(longer),
            self.read_tlv_area(log, pos, cc).sent,
        ensures
            self.read_tlv_area(longer, pos, cc) == self.read_tlv_area(log, pos, cc),
            pos <= self.read_tlv_area(log, pos, cc).end <= log.len(),
            self.read_tlv_area(log, pos, cc).state.retries == self.retries,
    {
        let basic = LayoutView::of(cc, seq![]);
        let first = self.scan_area(log, pos, basic);
        self.lemma_scan_area_stable(log, longer, pos, basic);
        if first.is_done() {
            let (bytes, complete) = first.out->Ok_0;
            let blocks = TlvView::announced(bytes, complete);
            if cc.dynamic() && TlvView::any_control(blocks) {
                first.state.lemma_scan_area_stable(
                    log,
                    longer,
                    first.end,
                    LayoutView::of(cc, blocks),
                );
            }
        }
    }

    pub proof fn lemma_write_block_stable<E>(
        self,
        log: Seq<Exchange<E>>,
        longer: Seq<Exchange<E>>,
        pos: int,
        layout: LayoutView,
        addr: int,
        data: Seq<u8>,
        di: int,
        limit: int,
    )
        requires
            0 <= pos <= log.len(),
            log.is_prefix_of(longer),
            self.write_block(log, pos, layout, addr, data, di, limit).sent,
        ensures
            self.write_block(longer, pos, layout, addr, data, di, limit) == self.write_block(
                log,
                pos,
                layout,
                addr,
                data,
                di,
                limit,
            ),
            pos <= self.write_block(log, pos, layout, addr, data, di, limit).end <= log.len(),
            self.write_block(log, pos, layout, addr, data, di, limit).state.retries
                == self.retries,
    {
        if addr < limit && addr < ADDRESS_SPACE_END {
            let (sector, block_no) = ((addr / 1024) as u8, (addr % 1024 / 4) as u8);
            let base = addr - addr % 4;
            let select = self.select(log, pos, sector);
            self.lemma_select_stable(log, longer, pos, sector);
            if select.is_done() && layout.covered(addr, data.len() - di) {
                if base + 4 <= limit {
                    let page = [data[di], data[di + 1], data[di + 2], data[di + 3]];
                    select.state.lemma_write_stable(log, longer, select.end, block_no, page);
                }
            } else if select.is_done() {
                select.state.lemma_merge_block_stable(
                    log,
                    longer,
                    select.end,
                    layout,
                    addr,
                    data,
                    di,
                    limit,
                );
            }
        }
    }

    pub proof fn lemma_merge_block_stable<E>(
        self,
        log: Seq<Exchange<E>>,
        longer: Seq<Exchange<E>>,
        pos: int,
        layout: LayoutView,
        addr: int,
        data: Seq<u8>,
        di: int,
        limit: int,
    )
        requires
            0 <= pos <= log.len(),
            log.is_prefix_of(longer),
            self.merge_block(log, pos, layout, addr, data, di, limit).sent,
        ensures
            self.merge_block(longer, pos, layout, addr, data, di, limit) == self.merge_block(
                log,
                pos,
                layout,
                addr,
                data,
                di,
                limit,
            ),
            pos <= self.merge_block(log, pos, layout, addr, data, di, limit).end <= log.len(),
            self.merge_block(log, pos, layout, addr, data, di, limit).state.retries
                == self.retries,
    {
        let block_no = (addr % 1024 / 4) as u8;
        let read = self.read(log, pos, block_no);
        self.lemma_read_stable(log, longer, pos, block_no);
        if read.is_done() {
            let cur = read.out->Ok_0.subrange(0, 4);
            if let Some((page, next)) = layout.merge(
                addr - addr % 4,
                addr % 4,
                cur,
                data,
                di,
                limit,
            ) {
                if next != di {
                    let page = [page[0], page[1], page[2], page[3]];
                    read.state.lemma_write_stable(log, longer, read.end, block_no, page);
                }
            }
        }
    }

    pub proof fn lemma_write_bytes_stable<E>(
        self,
        log: Seq<Exchange<E>>,
        longer: Seq<Exchange<E>>,
        pos: int,
        layout: LayoutView,
        addr: int,
        data: Seq<u8>,
        di: int,
        limit: int,
    )
        requires
            0 <= pos <= log.len(),
            log.is_prefix_of(longer),
            self.write_bytes(log, pos, layout, addr, data, di, limit).sent,
        ensures
            self.write_bytes(longer, pos, layout, addr, data, di, limit) == self.write_bytes(
                log,
                pos,
                layout,
                addr,
                data,
                di,
                limit,
            ),
            pos <= self.write_bytes(log, pos, layout, addr, data, di, limit).end <= log.len(),
            self.write_bytes(log, pos, layout, addr, data, di, limit).state.retries
                == self.retries,
        decreases ADDRESS_SPACE_END + 4 - addr,
    {
        if di < data.len() {
            let block = self.write_block(log, pos, layout, addr, data, di, limit);
            self.lemma_write_block_stable(log, longer, pos, layout, addr, data, di, limit);
            if block.is_done() {
                block.state.lemma_write_bytes_stable(
                    log,
                    longer,
                    block.end,
                    layout,
                    addr - addr % 4 + 4,
                    data,
                    block.out->Ok_0,
                    limit,
                );
            }
        }
    }

    pub proof fn lemma_prepare_stable<E>(
        self,
        log: Seq<Exchange<E>>,
        longer: Seq<Exchange<E>>,
        pos: int,
        ndef: Seq<u8>,
    )
        requires
            0 <= pos <= log.len(),
            log.is_prefix_of(longer),
            self.prepare(log, pos, ndef).sent,
        ensures
            self.prepare(longer, pos, ndef) == self.prepare(log, pos, ndef),
            pos <= self.prepare(log, pos, ndef).end <= log.len(),
            self.prepare(log, pos, ndef).state.retries == self.retries,
    {
        let head = self.read_cc(log, pos);
        self.lemma_read_cc_stable(log, longer, pos);
        if head.is_done() {
            let cc = head.out->Ok_0;
            if cc.valid() && cc.write_access == AccessCondition::Granted {
                head.state.lemma_read_tlv_area_stable(log, longer, head.end, cc);
            }
        }
    }

    pub proof fn lemma_write_ndef_stable<E>(
        self,
        log: Seq<Exchange<E>>,
        longer: Seq<Exchange<E>>,
        pos: int,
        ndef: Seq<u8>,
    )
        requires
            0 <= pos <= log.len(),
            log.is_prefix_of(longer),
            self.write_ndef(log, pos, ndef).sent,
        ensures
            self.write_ndef(longer, pos, ndef) == self.write_ndef(log, pos, ndef),
            pos <= self.write_ndef(log, pos, ndef).end <= log.len(),
            self.write_ndef(log, pos, ndef).state.retries == self.retries,
    {
        let prepared = self.prepare(log, pos, ndef);
        self.lemma_prepare_stable(log, longer, pos, ndef);
        if prepared.is_done() {
            let plan = prepared.out->Ok_0;
            let block = prepared.state.write_bytes(
                log,
                prepared.end,
                plan.layout,
                plan.start,
                plan.payload,
                0,
                plan.limit,
            );
            prepared.state.lemma_write_bytes_stable(
                log,
                longer,
                prepared.end,
                plan.layout,
                plan.start,
                plan.payload,
                0,
                plan.limit,
            );
            if block.is_done() {
                block.state.lemma_write_bytes_stable(
                    log,
                    longer,
                    block.end,
                    plan.layout,
                    plan.length_start,
                    plan.length_field,
                    0,
                    plan.limit,
                );
            }
        }
    }
}

} // verus!
