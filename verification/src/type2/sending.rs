//! What the reader sends, whatever comes back.

use super::cc::CapabilityContainer;
use super::memory::{LayoutView, ADDRESS_SPACE_END, CC_BLOCK, DATA_START, MAX_SECTOR};
use super::reader::{ReaderError, SectorState};
use super::scanner::TlvScanState;
use super::tlv::TlvView;
use super::trace::{Collected, ReaderState, Run, WritePlan};
use super::{Command, Exchange, Type2Error, ACK};
use crate::tag::AccessCondition;
use vstd::prelude::*;

verus! {

impl<E> Exchange<E> {
    /// Whether a WRITE command was sent.
    pub open spec fn is_write(self) -> bool {
        self is Framed && Command::of_wire(self.sent()) is Ok && Command::of_wire(
            self.sent(),
        )->Ok_0 is Write
    }

    /// The block that a WRITE command names.
    pub open spec fn written_block(self) -> u8 {
        Command::of_wire(self.sent())->Ok_0->Write_block_no
    }

    /// Whether no WRITE command was sent from position `from` up to position `to`.
    pub open spec fn no_write(log: Seq<Exchange<E>>, from: int, to: int) -> bool {
        forall|i: int| from <= i < to ==> !(#[trigger] log[i]).is_write()
    }
}

impl ReaderState {
    /// While the sector is unknown a command is sent once and never repeated.
    pub proof fn law_no_retry_while_unknown<E>(
        self,
        log: Seq<Exchange<E>>,
        pos: int,
        retries: nat,
        cmd: Seq<u8>,
    )
        requires
            self.transceive(log, pos, SectorState::Unknown, retries, cmd).sent,
        ensures
            self.transceive(log, pos, SectorState::Unknown, retries, cmd).end == pos + 1,
    {
    }

    /// A command is repeated at most `retries` times: each repetition takes two packets of SECTOR
    /// SELECT and the command. It is not repeated if it was answered.
    pub proof fn law_retries_are_bounded<E>(
        self,
        log: Seq<Exchange<E>>,
        pos: int,
        intended: SectorState,
        retries: nat,
        cmd: Seq<u8>,
    )
        requires
            self.transceive(log, pos, intended, retries, cmd).sent,
        ensures
            pos < self.transceive(log, pos, intended, retries, cmd).end <= pos + 1 + 3 * retries,
            self.transceive(log, pos, intended, retries, cmd).is_done() ==> (self.transceive(
                log,
                pos,
                intended,
                retries,
                cmd,
            ).end == pos + 1 <==> Exchange::reply_at(log, pos, cmd)->Some_0 is Ok),
        decreases retries,
    {
        if let Some(Err(_)) = Exchange::reply_at(log, pos, cmd) {
            if let SectorState::Known(sector) = intended {
                if retries > 0 {
                    let select = self.unsure().force_select(log, pos + 1, sector);
                    if select.is_done() {
                        select.state.law_retries_are_bounded(
                            log,
                            select.end,
                            intended,
                            (retries - 1) as nat,
                            cmd,
                        );
                    }
                }
            }
        }
    }

    /// A command that fails leaves the sector unknown and nothing in the cache.
    pub proof fn law_failure_leaves_sector_unknown<E>(
        self,
        log: Seq<Exchange<E>>,
        pos: int,
        intended: SectorState,
        retries: nat,
        cmd: Seq<u8>,
    )
        requires
            self.transceive(log, pos, intended, retries, cmd).sent,
            self.transceive(log, pos, intended, retries, cmd).out is Err,
        ensures
            self.transceive(log, pos, intended, retries, cmd).state == self.unsure(),
        decreases retries,
    {
        if let Some(Err(_)) = Exchange::reply_at(log, pos, cmd) {
            if let SectorState::Known(sector) = intended {
                if retries > 0 {
                    let select = self.unsure().force_select(log, pos + 1, sector);
                    if select.is_done() {
                        select.state.law_failure_leaves_sector_unknown(
                            log,
                            select.end,
                            intended,
                            (retries - 1) as nat,
                            cmd,
                        );
                    }
                }
            }
        }
    }

    /// A SECTOR SELECT that fails leaves the sector unknown and nothing in the cache.
    pub proof fn law_failed_select_leaves_sector_unknown<E>(
        self,
        log: Seq<Exchange<E>>,
        pos: int,
        sector: u8,
    )
        requires
            sector <= MAX_SECTOR,
            self.select(log, pos, sector).sent,
            self.select(log, pos, sector).out is Err,
        ensures
            self.select(log, pos, sector).state == self.unsure(),
    {
        self.lemma_retry_select(log, pos, sector, self.retries);
    }

    proof fn lemma_retry_select<E>(
        self,
        log: Seq<Exchange<E>>,
        pos: int,
        sector: u8,
        retries: nat,
    )
        requires
            sector <= MAX_SECTOR,
        ensures
            ({
                let run = self.retry_select(log, pos, sector, retries);
                &&& run.state.cache is None
                &&& !run.is_done() ==> run.state == self.unsure()
                &&& pos <= run.end <= pos + retries + 2
                &&& forall|i: int|
                    pos <= i < run.end - 1 ==> match #[trigger] log[i] {
                        Exchange::Framed { cmd, .. } => cmd == Command::SectorSelectPart1.wire(),
                        Exchange::Passive { .. } => false,
                    }
                &&& Exchange::no_write(log, pos, run.end)
            }),
        decreases retries,
    {
        let p1 = Command::SectorSelectPart1;
        p1.law_wire_roundtrip(seq![]);
        assert(p1.wire() + seq![] =~= p1.wire());
        if let Some(Err(_)) = Exchange::reply_at(log, pos, p1.wire()) {
            if retries > 0 {
                self.unsure().lemma_retry_select(log, pos + 1, sector, (retries - 1) as nat);
            }
        }
    }

    /// When a sector is selected, packet 1 of SECTOR SELECT is repeated at most `retries` times
    /// after the first, and packet 2 is sent at most once, as the last one.
    pub proof fn law_select_is_bounded<E>(self, log: Seq<Exchange<E>>, pos: int, sector: u8)
        ensures
            ({
                let run = self.select(log, pos, sector);
                &&& pos <= run.end <= pos + self.retries + 2
                &&& forall|i: int|
                    pos <= i < run.end - 1 ==> match #[trigger] log[i] {
                        Exchange::Framed { cmd, .. } => cmd == Command::SectorSelectPart1.wire(),
                        Exchange::Passive { .. } => false,
                    }
            }),
    {
        if sector <= MAX_SECTOR {
            self.lemma_retry_select(log, pos, sector, self.retries);
        }
    }

    /// A transceiver error on packet 1 of SECTOR SELECT is made up for: as long as there are
    /// retries left, selecting goes on as it would have without the failure.
    pub proof fn law_packet1_is_retried<E>(
        self,
        log: Seq<Exchange<E>>,
        pos: int,
        sector: u8,
        retries: nat,
    )
        requires
            retries > 0,
            Exchange::reply_at(log, pos, Command::SectorSelectPart1.wire()) is Some,
            Exchange::reply_at(log, pos, Command::SectorSelectPart1.wire())->Some_0 is Err,
        ensures
            self.retry_select(log, pos, sector, retries) == self.unsure().retry_select(
                log,
                pos + 1,
                sector,
                (retries - 1) as nat,
            ),
    {
    }

    /// A command that succeeds only when repeated comes right after a SECTOR SELECT of the sector
    /// that was selected at first, which succeeded, and that sector is the known one afterwards.
    pub proof fn law_retry_reselects_sector<E>(
        self,
        log: Seq<Exchange<E>>,
        pos: int,
        intended: SectorState,
        retries: nat,
        cmd: Seq<u8>,
    )
        requires
            self.transceive(log, pos, intended, retries, cmd).is_done(),
            self.transceive(log, pos, intended, retries, cmd).end > pos + 1,
        ensures
            ({
                let run = self.transceive(log, pos, intended, retries, cmd);
                &&& intended is Known
                &&& run.state.sector == intended
                &&& Exchange::reply_at(log, run.end - 1, cmd) is Some
                &&& Exchange::nack_at(
                    log,
                    run.end - 2,
                    Command::SectorSelectPart2 { sector_no: intended->Known_0 }.wire(),
                ) == Some(Ok::<Option<u8>, E>(None))
                &&& Exchange::reply_at(
                    log,
                    run.end - 3,
                    Command::SectorSelectPart1.wire(),
                ) is Some
            }),
        decreases retries,
    {
        assert(Exchange::reply_at(log, pos, cmd)->Some_0 is Err);
        assert(intended is Known && retries > 0);
        let sector = intended->Known_0;
        let select = self.unsure().force_select(log, pos + 1, sector);
        let left = (retries - 1) as nat;
        let again = select.state.transceive(log, select.end, intended, left, cmd);
        assert(select.is_done() && select.end == pos + 3);
        select.state.law_retries_are_bounded(log, select.end, intended, left, cmd);
        if again.end > select.end + 1 {
            select.state.law_retry_reselects_sector(log, select.end, intended, left, cmd);
        } else {
            assert(again.end == select.end + 1);
            assert(Exchange::reply_at(log, select.end, cmd)->Some_0 is Ok);
        }
    }

    /// Selecting the reserved sector is refused, and nothing is sent.
    pub proof fn law_reserved_sector_sends_nothing<E>(self, log: Seq<Exchange<E>>, pos: int)
        ensures
            self.select(log, pos, 0xFF) == Run::<E, ()>::refused(
                self,
                pos,
                Type2Error::OutOfRange,
            ),
    {
    }

    /// A block that was read is read again without sending anything.
    pub proof fn law_second_read_sends_nothing<E>(
        self,
        log: Seq<Exchange<E>>,
        pos: int,
        block_no: u8,
    )
        requires
            self.read(log, pos, block_no).is_done(),
        ensures
            ({
                let first = self.read(log, pos, block_no);
                first.state.read(log, first.end, block_no) == Run::<E, Seq<u8>>::done(
                    first.state,
                    first.end,
                    first.out->Ok_0,
                )
            }),
    {
    }

    /// After a WRITE, whatever became of it, and after a SECTOR SELECT that was sent, nothing is
    /// cached.
    pub proof fn law_cache_is_dropped<E>(
        self,
        log: Seq<Exchange<E>>,
        pos: int,
        block_no: u8,
        data: [u8; 4],
        sector: u8,
    )
        ensures
            self.write(log, pos, block_no, data).sent ==> self.write(
                log,
                pos,
                block_no,
                data,
            ).state.cache is None,
            self.select(log, pos, sector).sent && self.select(log, pos, sector).end > pos
                ==> self.select(log, pos, sector).state.cache is None,
    {
        let cmd = Command::Write { block_no, data }.wire();
        let run = self.transceive(log, pos, self.sector, self.retries, cmd);
        if run.sent && run.out is Err {
            self.law_failure_leaves_sector_unknown(log, pos, self.sector, self.retries, cmd);
        }
        if sector <= MAX_SECTOR {
            self.lemma_retry_select(log, pos, sector, self.retries);
        }
    }

    /// A command that the tag refuses with a NACK has been answered: it is not repeated.
    pub proof fn law_nack_is_not_retried<E>(
        self,
        log: Seq<Exchange<E>>,
        pos: int,
        block_no: u8,
        data: [u8; 4],
        code: u8,
    )
        requires
            self.write(log, pos, block_no, data).sent,
            Exchange::reply_at(log, pos, Command::Write { block_no, data }.wire()) == Some(
                Ok::<Seq<u8>, E>(seq![code]),
            ),
            code < 0x10,
            code != ACK,
        ensures
            self.write(log, pos, block_no, data).end == pos + 1,
            self.write(log, pos, block_no, data).out == Err::<(), ReaderError<E>>(
                ReaderError::Protocol(Type2Error::Nack(code)),
            ),
    {
        assert(code & 0x0F == code) by (bit_vector)
            requires
                code < 0x10,
        ;
    }

    proof fn lemma_transceive_no_write<E>(
        self,
        log: Seq<Exchange<E>>,
        pos: int,
        intended: SectorState,
        retries: nat,
        cmd: Seq<u8>,
    )
        requires
            Command::of_wire(cmd) is Ok,
            !(Command::of_wire(cmd)->Ok_0 is Write),
        ensures
            Exchange::no_write(log, pos, self.transceive(log, pos, intended, retries, cmd).end),
        decreases retries,
    {
        if let Some(Err(_)) = Exchange::reply_at(log, pos, cmd) {
            if let SectorState::Known(sector) = intended {
                if retries > 0 {
                    let select = self.unsure().force_select(log, pos + 1, sector);
                    self.unsure().lemma_select_no_write(log, pos + 1, sector);
                    if select.is_done() {
                        select.state.lemma_transceive_no_write(
                            log,
                            select.end,
                            intended,
                            (retries - 1) as nat,
                            cmd,
                        );
                    }
                }
            }
        }
    }

    proof fn lemma_select_no_write<E>(self, log: Seq<Exchange<E>>, pos: int, sector: u8)
        ensures
            Exchange::no_write(log, pos, self.force_select(log, pos, sector).end),
            Exchange::no_write(log, pos, self.select(log, pos, sector).end),
            pos <= self.select(log, pos, sector).end,
    {
        let p1 = Command::SectorSelectPart1;
        p1.law_wire_roundtrip(seq![]);
        assert(p1.wire() + seq![] =~= p1.wire());
        if sector <= MAX_SECTOR {
            self.lemma_retry_select(log, pos, sector, self.retries);
        }
    }

    proof fn lemma_read_no_write<E>(self, log: Seq<Exchange<E>>, pos: int, block_no: u8)
        ensures
            Exchange::no_write(log, pos, self.read(log, pos, block_no).end),
            Exchange::no_write(log, pos, self.read_page(log, pos, block_no).end),
    {
        let cmd = Command::Read { block_no };
        cmd.law_wire_roundtrip(seq![]);
        assert(cmd.wire() + seq![] =~= cmd.wire());
        self.lemma_transceive_no_write(log, pos, self.sector, self.retries, cmd.wire());
    }

    proof fn lemma_collect_area_no_write<E>(
        self,
        log: Seq<Exchange<E>>,
        pos: int,
        layout: LayoutView,
        addr: int,
        acc: Seq<u8>,
        scan: TlvScanState,
    )
        ensures
            Exchange::no_write(log, pos, self.collect_area(log, pos, layout, addr, acc, scan).end),
        decreases ADDRESS_SPACE_END + 4 - addr,
    {
        if acc.len() < layout.size && addr < ADDRESS_SPACE_END {
            let (sector, block_no) = ((addr / 1024) as u8, (addr % 1024 / 4) as u8);
            let select = self.select(log, pos, sector);
            self.lemma_select_no_write(log, pos, sector);
            if select.is_done() {
                let read = select.state.read_page(log, select.end, block_no);
                select.state.lemma_read_no_write(log, select.end, block_no);
                if read.is_done() {
                    if let Collected::More(acc2, scan2) = layout.collect(
                        addr,
                        read.out->Ok_0,
                        0,
                        acc,
                        scan,
                    ) {
                        read.state.lemma_collect_area_no_write(
                            log,
                            read.end,
                            layout,
                            addr + 4,
                            acc2,
                            scan2,
                        );
                    }
                }
            }
        }
    }

    proof fn lemma_read_tlv_area_no_write<E>(
        self,
        log: Seq<Exchange<E>>,
        pos: int,
        cc: CapabilityContainer,
    )
        ensures
            Exchange::no_write(log, pos, self.read_tlv_area(log, pos, cc).end),
    {
        let start = DATA_START as int;
        let basic = LayoutView::of(cc, seq![]);
        let first = self.scan_area(log, pos, basic);
        self.lemma_collect_area_no_write(log, pos, basic, start, seq![], TlvScanState::Tag);
        if first.is_done() {
            let (bytes, complete) = first.out->Ok_0;
            let blocks = TlvView::announced(bytes, complete);
            first.state.lemma_collect_area_no_write(
                log,
                first.end,
                LayoutView::of(cc, blocks),
                start,
                seq![],
                TlvScanState::Tag,
            );
        }
    }

    proof fn lemma_read_cc_no_write<E>(self, log: Seq<Exchange<E>>, pos: int)
        ensures
            Exchange::no_write(log, pos, self.read_cc(log, pos).end),
    {
        let select = self.select(log, pos, 0);
        self.lemma_select_no_write(log, pos, 0);
        if select.is_done() {
            select.state.lemma_read_no_write(log, select.end, CC_BLOCK);
        }
    }

    /// Reading an NDEF message sends no WRITE.
    pub proof fn law_read_ndef_sends_no_write<E>(self, log: Seq<Exchange<E>>, pos: int)
        ensures
            Exchange::no_write(log, pos, self.read_ndef(log, pos).end),
    {
        let head = self.read_cc(log, pos);
        self.lemma_read_cc_no_write(log, pos);
        if head.is_done() && head.out->Ok_0.valid() {
            head.state.lemma_read_tlv_area_no_write(log, head.end, head.out->Ok_0);
        }
    }

    /// A message that is refused, for whatever reason, is refused before any WRITE is sent: what
    /// comes before the first WRITE is reading alone.
    pub proof fn law_refused_write_sends_no_write<E>(
        self,
        log: Seq<Exchange<E>>,
        pos: int,
        ndef: Seq<u8>,
    )
        ensures
            Exchange::no_write(log, pos, self.prepare(log, pos, ndef).end),
            !self.prepare(log, pos, ndef).is_done() ==> Exchange::no_write(
                log,
                pos,
                self.write_ndef(log, pos, ndef).end,
            ),
    {
        let head = self.read_cc(log, pos);
        self.lemma_read_cc_no_write(log, pos);
        if head.is_done() && head.out->Ok_0.valid() {
            head.state.lemma_read_tlv_area_no_write(log, head.end, head.out->Ok_0);
        }
    }

    /// The number of the block of an address in its sector.
    pub open spec fn block_of(addr: int) -> u8 {
        (addr % 1024 / 4) as u8
    }

    /// The sector that is known to be selected after the exchanges from position `from` up to
    /// position `to`, if `start` was known before: the last one whose packet 2 was met with
    /// silence, unless an answer was lost or another SECTOR SELECT was begun since.
    pub open spec fn selected<E>(
        start: SectorState,
        log: Seq<Exchange<E>>,
        from: int,
        to: int,
    ) -> SectorState
        decreases to - from,
    {
        if to <= from {
            start
        } else {
            match log[to - 1] {
                Exchange::Passive { cmd, nack } => if nack == Ok::<Option<u8>, E>(None)
                    && cmd.len() == 4 {
                    SectorState::Known(cmd[0])
                } else {
                    SectorState::Unknown
                },
                Exchange::Framed { cmd, reply } => if reply is Err || cmd
                    == Command::SectorSelectPart1.wire() {
                    SectorState::Unknown
                } else {
                    Self::selected(start, log, from, to - 1)
                },
            }
        }
    }

    proof fn lemma_selected_split<E>(
        start: SectorState,
        log: Seq<Exchange<E>>,
        from: int,
        mid: int,
        to: int,
    )
        requires
            from <= mid <= to,
        ensures
            Self::selected(start, log, from, to) == Self::selected(
                Self::selected(start, log, from, mid),
                log,
                mid,
                to,
            ),
        decreases to - mid,
    {
        if mid < to {
            Self::lemma_selected_split(start, log, from, mid, to - 1);
        }
    }

    /// Whether the exchange at `i` is a WRITE to the block of an address from `from` up to
    /// `limit`, with the sector of that address known to be selected.
    pub open spec fn writes_at<E>(
        known: SectorState,
        x: Exchange<E>,
        from: int,
        limit: int,
        addr: int,
    ) -> bool {
        from <= addr < limit && known == SectorState::Known((addr / 1024) as u8)
            && Self::block_of(addr) == x.written_block()
    }

    /// Whether every WRITE that was sent from position `pos` up to position `end` went to the
    /// block of an address from `from` up to `limit`, in the sector of that address.
    pub open spec fn writes_between<E>(
        self,
        log: Seq<Exchange<E>>,
        pos: int,
        end: int,
        from: int,
        limit: int,
    ) -> bool {
        forall|i: int|
            pos <= i < end && (#[trigger] log[i]).is_write() ==> exists|addr: int|
                #[trigger] Self::writes_at(
                    Self::selected(self.sector, log, pos, i),
                    log[i],
                    from,
                    limit,
                    addr,
                )
    }

    proof fn lemma_force_select_tracked<E>(self, log: Seq<Exchange<E>>, pos: int, sector: u8)
        requires
            sector <= MAX_SECTOR,
            self.force_select(log, pos, sector).sent,
        ensures
            ({
                let run = self.force_select(log, pos, sector);
                &&& pos < run.end
                &&& run.state.sector == Self::selected(self.sector, log, pos, run.end)
                &&& run.is_done() ==> run.state.sector == SectorState::Known(sector)
            }),
    {
        let run = self.force_select(log, pos, sector);
        assert(Self::selected(self.sector, log, pos, pos + 1) == SectorState::Unknown);
        if run.end == pos + 2 {
            let p2 = Command::SectorSelectPart2 { sector_no: sector }.wire();
            assert(p2[0] == sector);
        }
    }

    proof fn lemma_select_tracked<E>(self, log: Seq<Exchange<E>>, pos: int, sector: u8)
        requires
            self.select(log, pos, sector).sent,
        ensures
            ({
                let run = self.select(log, pos, sector);
                &&& pos <= run.end
                &&& run.state.sector == Self::selected(self.sector, log, pos, run.end)
                &&& run.is_done() ==> run.state.sector == SectorState::Known(sector)
            }),
    {
        if sector <= MAX_SECTOR && self.sector != SectorState::Known(sector) {
            self.lemma_retry_select_tracked(log, pos, sector, self.retries);
        }
    }

    proof fn lemma_retry_select_tracked<E>(
        self,
        log: Seq<Exchange<E>>,
        pos: int,
        sector: u8,
        retries: nat,
    )
        requires
            sector <= MAX_SECTOR,
            self.retry_select(log, pos, sector, retries).sent,
        ensures
            ({
                let run = self.retry_select(log, pos, sector, retries);
                &&& pos < run.end
                &&& run.state.sector == Self::selected(self.sector, log, pos, run.end)
                &&& run.is_done() ==> run.state.sector == SectorState::Known(sector)
            }),
        decreases retries,
    {
        let p1 = Command::SectorSelectPart1.wire();
        if Exchange::reply_at(log, pos, p1) is Some && Exchange::reply_at(
            log,
            pos,
            p1,
        )->Some_0 is Err && retries > 0 {
            let again = self.unsure().retry_select(log, pos + 1, sector, (retries - 1) as nat);
            self.unsure().lemma_retry_select_tracked(
                log,
                pos + 1,
                sector,
                (retries - 1) as nat,
            );
            assert(Self::selected(self.sector, log, pos, pos + 1) == SectorState::Unknown);
            Self::lemma_selected_split(self.sector, log, pos, pos + 1, again.end);
        } else {
            self.lemma_force_select_tracked(log, pos, sector);
        }
    }

    proof fn lemma_transceive_tracked<E>(
        self,
        log: Seq<Exchange<E>>,
        pos: int,
        retries: nat,
        cmd: Seq<u8>,
    )
        requires
            self.transceive(log, pos, self.sector, retries, cmd).sent,
            self.sector matches SectorState::Known(sector) ==> sector <= MAX_SECTOR,
            cmd != Command::SectorSelectPart1.wire(),
        ensures
            ({
                let run = self.transceive(log, pos, self.sector, retries, cmd);
                &&& pos < run.end
                &&& run.state.sector == Self::selected(self.sector, log, pos, run.end)
                &&& run.is_done() ==> run.state.sector == self.sector
                &&& forall|i: int|
                    pos <= i < run.end && (#[trigger] log[i]).is_write() ==> log[i].sent() == cmd
                        && Self::selected(self.sector, log, pos, i) == self.sector
            }),
        decreases retries,
    {
        let run = self.transceive(log, pos, self.sector, retries, cmd);
        assert(Self::selected(self.sector, log, pos, pos) == self.sector);
        assert(Self::selected(self.sector, log, pos, pos + 1) == (if Exchange::reply_at(
            log,
            pos,
            cmd,
        )->Some_0 is Err {
            SectorState::Unknown
        } else {
            self.sector
        }));
        if Exchange::reply_at(log, pos, cmd)->Some_0 is Err && retries > 0 {
            if let SectorState::Known(sector) = self.sector {
                let select = self.unsure().force_select(log, pos + 1, sector);
                self.unsure().lemma_force_select_tracked(log, pos + 1, sector);
                self.unsure().lemma_select_no_write(log, pos + 1, sector);
                Self::lemma_selected_split(self.sector, log, pos, pos + 1, select.end);
                if select.is_done() {
                    select.state.lemma_transceive_tracked(
                        log,
                        select.end,
                        (retries - 1) as nat,
                        cmd,
                    );
                    Self::lemma_selected_split(self.sector, log, pos, select.end, run.end);
                    assert forall|i: int|
                        pos <= i < run.end && (#[trigger] log[i]).is_write() implies log[i].sent()
                        == cmd && Self::selected(self.sector, log, pos, i) == self.sector by {
                        if i >= select.end {
                            Self::lemma_selected_split(self.sector, log, pos, select.end, i);
                        }
                    }
                }
            }
        }
    }

    proof fn lemma_read_tracked<E>(self, log: Seq<Exchange<E>>, pos: int, block_no: u8)
        requires
            self.read(log, pos, block_no).sent,
            self.sector matches SectorState::Known(sector) ==> sector <= MAX_SECTOR,
        ensures
            ({
                let run = self.read(log, pos, block_no);
                &&& pos <= run.end
                &&& run.state.sector == Self::selected(self.sector, log, pos, run.end)
                &&& run.is_done() ==> run.state.sector == self.sector
            }),
    {
        let cmd = Command::Read { block_no };
        assert(cmd.wire()[0] != Command::SectorSelectPart1.wire()[0]);
        if !(self.cache is Some && self.cache->Some_0.0 == block_no) {
            self.lemma_transceive_tracked(log, pos, self.retries, cmd.wire());
        }
    }

    proof fn lemma_write_tracked<E>(
        self,
        log: Seq<Exchange<E>>,
        pos: int,
        block_no: u8,
        data: [u8; 4],
    )
        requires
            self.write(log, pos, block_no, data).sent,
            self.sector matches SectorState::Known(sector) ==> sector <= MAX_SECTOR,
        ensures
            ({
                let run = self.write(log, pos, block_no, data);
                &&& pos <= run.end
                &&& run.state.sector == Self::selected(self.sector, log, pos, run.end)
                &&& run.is_done() ==> run.state.sector == self.sector
                &&& forall|i: int|
                    pos <= i < run.end && (#[trigger] log[i]).is_write()
                        ==> log[i].written_block() == block_no && Self::selected(
                        self.sector,
                        log,
                        pos,
                        i,
                    ) == self.sector
            }),
    {
        let cmd = Command::Write { block_no, data };
        cmd.law_wire_roundtrip(seq![]);
        assert(cmd.wire() + seq![] =~= cmd.wire());
        assert(cmd.wire()[0] != Command::SectorSelectPart1.wire()[0]);
        self.lemma_transceive_tracked(log, pos, self.retries, cmd.wire());
    }

    proof fn lemma_merge_block_writes<E>(
        self,
        log: Seq<Exchange<E>>,
        pos: int,
        layout: LayoutView,
        addr: int,
        data: Seq<u8>,
        di: int,
        limit: int,
    )
        requires
            self.merge_block(log, pos, layout, addr, data, di, limit).sent,
            self.sector == SectorState::Known((addr / 1024) as u8),
            0 <= addr < ADDRESS_SPACE_END,
            addr < limit,
        ensures
            ({
                let run = self.merge_block(log, pos, layout, addr, data, di, limit);
                &&& pos <= run.end
                &&& run.state.sector == Self::selected(self.sector, log, pos, run.end)
                &&& self.writes_between(log, pos, run.end, addr, limit)
            }),
    {
        let block_no = Self::block_of(addr);
        let run = self.merge_block(log, pos, layout, addr, data, di, limit);
        let read = self.read(log, pos, block_no);
        self.lemma_read_tracked(log, pos, block_no);
        self.lemma_read_no_write(log, pos, block_no);
        if read.is_done() {
            if let Some((page, next)) = layout.merge(
                addr - addr % 4,
                addr % 4,
                read.out->Ok_0.subrange(0, 4),
                data,
                di,
                limit,
            ) {
                if next != di {
                    let page = [page[0], page[1], page[2], page[3]];
                    read.state.lemma_write_tracked(log, read.end, block_no, page);
                    Self::lemma_selected_split(self.sector, log, pos, read.end, run.end);
                    assert forall|i: int|
                        pos <= i < run.end && (#[trigger] log[i]).is_write() implies exists|a: int|
                        #[trigger] Self::writes_at(
                            Self::selected(self.sector, log, pos, i),
                            log[i],
                            addr,
                            limit,
                            a,
                        ) by {
                        Self::lemma_selected_split(self.sector, log, pos, read.end, i);
                        assert(Self::writes_at(
                            Self::selected(self.sector, log, pos, i),
                            log[i],
                            addr,
                            limit,
                            addr,
                        ));
                    }
                }
            }
        }
    }

    proof fn lemma_write_block_writes<E>(
        self,
        log: Seq<Exchange<E>>,
        pos: int,
        layout: LayoutView,
        addr: int,
        data: Seq<u8>,
        di: int,
        limit: int,
    )
        requires
            self.write_block(log, pos, layout, addr, data, di, limit).sent,
            0 <= addr,
        ensures
            ({
                let run = self.write_block(log, pos, layout, addr, data, di, limit);
                &&& pos <= run.end
                &&& run.state.sector == Self::selected(self.sector, log, pos, run.end)
                &&& self.writes_between(log, pos, run.end, addr, limit)
                &&& run.is_done() ==> addr < limit && addr < ADDRESS_SPACE_END
            }),
    {
        let run = self.write_block(log, pos, layout, addr, data, di, limit);
        if addr < limit && addr < ADDRESS_SPACE_END {
            let sector = (addr / 1024) as u8;
            let block_no = Self::block_of(addr);
            let select = self.select(log, pos, sector);
            self.lemma_select_tracked(log, pos, sector);
            self.lemma_select_no_write(log, pos, sector);
            if select.is_done() {
                if !layout.covered(addr, data.len() - di) {
                    select.state.lemma_merge_block_writes(
                        log,
                        select.end,
                        layout,
                        addr,
                        data,
                        di,
                        limit,
                    );
                } else if addr - addr % 4 + 4 <= limit {
                    let page = [data[di], data[di + 1], data[di + 2], data[di + 3]];
                    select.state.lemma_write_tracked(log, select.end, block_no, page);
                    assert forall|i: int|
                        select.end <= i < run.end && (#[trigger] log[i]).is_write() implies exists|
                        a: int|
                        #[trigger] Self::writes_at(
                            Self::selected(select.state.sector, log, select.end, i),
                            log[i],
                            addr,
                            limit,
                            a,
                        ) by {
                        assert(Self::writes_at(
                            Self::selected(select.state.sector, log, select.end, i),
                            log[i],
                            addr,
                            limit,
                            addr,
                        ));
                    }
                }
                self.lemma_writes_join(
                    select.state,
                    log,
                    pos,
                    select.end,
                    run.end,
                    addr,
                    addr,
                    limit,
                );
            }
        }
    }

    /// What was written up to `mid` and what was written from there on.
    proof fn lemma_writes_join<E>(
        self,
        then: ReaderState,
        log: Seq<Exchange<E>>,
        pos: int,
        mid: int,
        end: int,
        from: int,
        next: int,
        limit: int,
    )
        requires
            pos <= mid <= end,
            from <= next,
            then.sector == Self::selected(self.sector, log, pos, mid),
            self.writes_between(log, pos, mid, from, limit),
            then.writes_between(log, mid, end, next, limit),
        ensures
            self.writes_between(log, pos, end, from, limit),
            Self::selected(self.sector, log, pos, end) == Self::selected(
                then.sector,
                log,
                mid,
                end,
            ),
    {
        Self::lemma_selected_split(self.sector, log, pos, mid, end);
        assert forall|i: int| pos <= i < end && (#[trigger] log[i]).is_write() implies exists|
            a: int|
            #[trigger] Self::writes_at(
                Self::selected(self.sector, log, pos, i),
                log[i],
                from,
                limit,
                a,
            ) by {
            if i >= mid {
                Self::lemma_selected_split(self.sector, log, pos, mid, i);
                let known = Self::selected(then.sector, log, mid, i);
                let a = choose|a: int|
                    #[trigger] Self::writes_at(known, log[i], next, limit, a);
                assert(Self::writes_at(known, log[i], from, limit, a));
            }
        }
    }

    /// Whatever the tag answers, and whatever layout it claims to have, data is written to blocks
    /// between the address where it starts and the limit, and to no other: when a WRITE is sent
    /// the sector of such an address is the last one that was selected.
    pub proof fn law_writes_stay_below_limit<E>(
        self,
        log: Seq<Exchange<E>>,
        pos: int,
        layout: LayoutView,
        addr: int,
        data: Seq<u8>,
        di: int,
        limit: int,
    )
        requires
            0 <= addr,
            self.write_bytes(log, pos, layout, addr, data, di, limit).sent,
        ensures
            ({
                let run = self.write_bytes(log, pos, layout, addr, data, di, limit);
                &&& pos <= run.end
                &&& run.state.sector == Self::selected(self.sector, log, pos, run.end)
                &&& self.writes_between(log, pos, run.end, addr, limit)
            }),
        decreases ADDRESS_SPACE_END + 4 - addr,
    {
        if di < data.len() {
            let block = self.write_block(log, pos, layout, addr, data, di, limit);
            self.lemma_write_block_writes(log, pos, layout, addr, data, di, limit);
            if block.is_done() {
                let next = addr - addr % 4 + 4;
                let run = self.write_bytes(log, pos, layout, addr, data, di, limit);
                block.state.law_writes_stay_below_limit(
                    log,
                    block.end,
                    layout,
                    next,
                    data,
                    block.out->Ok_0,
                    limit,
                );
                self.lemma_writes_join(
                    block.state,
                    log,
                    pos,
                    block.end,
                    run.end,
                    addr,
                    next,
                    limit,
                );
            }
        }
    }
}

impl<E, O> Run<E, O> {
    /// Whether the operation failed with this protocol error, after the exchanges up to position
    /// `end`, and left the reader in this state.
    pub open spec fn refuses(self, state: ReaderState, end: int, error: Type2Error) -> bool {
        &&& self.sent
        &&& self.end == end
        &&& self.state == state
        &&& self.out == Err::<O, ReaderError<E>>(ReaderError::Protocol(error))
    }

    /// Whether the operation failed with this transceiver error, after the exchanges up to
    /// position `end`, and left the reader in this state.
    pub open spec fn loses(self, state: ReaderState, end: int, error: E) -> bool {
        &&& self.sent
        &&& self.end == end
        &&& self.state == state
        &&& self.out == Err::<O, ReaderError<E>>(ReaderError::Transceiver(error))
    }

    /// Whether the operation succeeded, after the exchanges up to position `end`, and left the
    /// reader in this state.
    pub open spec fn succeeds(self, state: ReaderState, end: int) -> bool {
        self.sent && self.end == end && self.state == state && self.out is Ok
    }

    /// Whether the operation ended where a part of it failed, and with the same error.
    pub open spec fn fails_as<P>(self, part: Run<E, P>) -> bool {
        &&& self.sent == part.sent
        &&& part.sent ==> {
            &&& self.end == part.end
            &&& self.state == part.state
            &&& self.out == Err::<O, ReaderError<E>>(part.out->Err_0)
        }
    }

    /// Whether the exchanges are those that the operation makes, and it got to its result.
    pub open spec fn went_well(self) -> bool {
        self.sent && self.out is Ok
    }
}

impl ReaderState {
    /// What the reader knows after a failure that leaves open what the tag has done: no sector and
    /// no block. How often it tries again is not touched.
    pub proof fn law_unsure(self)
        ensures
            self.unsure() == (ReaderState {
                sector: SectorState::Unknown,
                cache: None,
                retries: self.retries,
            }),
            self.uncached() == (ReaderState { cache: None, ..self }),
    {
    }

    /// Packet 1 of SECTOR SELECT is `C2 FF`. If its answer is not an acknowledgement nothing more
    /// is sent, the code of a refusal is returned, and the sector is unknown.
    pub proof fn law_packet1_is_refused<E>(
        self,
        log: Seq<Exchange<E>>,
        pos: int,
        sector: u8,
        frame: Seq<u8>,
    )
        requires
            0 <= pos < log.len(),
            log[pos] == (Exchange::<E>::Framed { cmd: seq![0xC2u8, 0xFFu8], reply: Ok(frame) }),
            frame.len() == 0 || frame[0] % 16 != 10,
            sector < 255,
        ensures
            ({
                let error = if frame.len() == 0 {
                    Type2Error::InvalidLength
                } else {
                    Type2Error::Nack((frame[0] % 16) as u8)
                };
                &&& self.force_select(log, pos, sector).refuses(self.unsure(), pos + 1, error)
                &&& self.sector != SectorState::Known(sector) ==> self.select(
                    log,
                    pos,
                    sector,
                ).refuses(self.unsure(), pos + 1, error)
                &&& self.unsure().sector == SectorState::Unknown
                &&& self.unsure().cache is None
            }),
    {
        Command::SectorSelectPart1.law_wire_bytes();
        Command::SectorSelectPart1.law_acknowledgement(frame);
    }

    /// If packet 1 is acknowledged, packet 2 is sent: the sector and three zeros. The sector is
    /// selected if nothing comes back. A code that comes back is returned, and so is an error of
    /// the transceiver, and then the sector is unknown.
    pub proof fn law_packet1_is_acknowledged<E>(
        self,
        log: Seq<Exchange<E>>,
        pos: int,
        sector: u8,
        frame: Seq<u8>,
    )
        requires
            0 <= pos < log.len(),
            log[pos] == (Exchange::<E>::Framed { cmd: seq![0xC2u8, 0xFFu8], reply: Ok(frame) }),
            frame.len() > 0,
            frame[0] % 16 == 10,
            sector < 255,
        ensures
            ({
                let run = self.force_select(log, pos, sector);
                &&& run.sent <==> pos + 1 < log.len() && log[pos + 1] is Passive && log[pos
                    + 1].sent() == seq![sector, 0u8, 0u8, 0u8]
                &&& run.sent ==> match log[pos + 1]->nack {
                    Ok(None) => run.succeeds(
                        ReaderState {
                            sector: SectorState::Known(sector),
                            cache: None,
                            retries: self.retries,
                        },
                        pos + 2,
                    ),
                    Ok(Some(code)) => run.refuses(
                        self.unsure(),
                        pos + 2,
                        Type2Error::Nack(code),
                    ),
                    Err(e) => run.loses(self.unsure(), pos + 2, e),
                }
                &&& self.sector != SectorState::Known(sector) ==> self.select(log, pos, sector)
                    == run
            }),
    {
        Command::SectorSelectPart1.law_wire_bytes();
        Command::SectorSelectPart2 { sector_no: sector }.law_wire_bytes();
        Command::SectorSelectPart1.law_acknowledgement(frame);
    }

    /// If packet 1 is lost it is sent again while there are tries left, when a sector is selected
    /// for its own sake. Between two attempts of another command it is not.
    pub proof fn law_packet1_is_lost<E>(
        self,
        log: Seq<Exchange<E>>,
        pos: int,
        sector: u8,
        error: E,
    )
        requires
            0 <= pos < log.len(),
            log[pos] == (Exchange::<E>::Framed { cmd: seq![0xC2u8, 0xFFu8], reply: Err(error) }),
            sector < 255,
        ensures
            self.force_select(log, pos, sector).loses(self.unsure(), pos + 1, error),
            self.sector != SectorState::Known(sector) && self.retries == 0 ==> self.select(
                log,
                pos,
                sector,
            ).loses(self.unsure(), pos + 1, error),
            self.sector != SectorState::Known(sector) && self.retries > 0 ==> self.select(
                log,
                pos,
                sector,
            ) == self.unsure().retry_select(log, pos + 1, sector, (self.retries - 1) as nat),
            forall|tries: nat| #[trigger]
                self.retry_select(log, pos, sector, tries) == (if tries == 0 {
                    self.force_select(log, pos, sector)
                } else {
                    self.unsure().retry_select(log, pos + 1, sector, (tries - 1) as nat)
                }),
    {
        Command::SectorSelectPart1.law_wire_bytes();
    }

    /// Where packet 1 is not lost a try to select a sector is as good as the only one.
    pub proof fn law_answered_packet1_ends_tries<E>(
        self,
        log: Seq<Exchange<E>>,
        pos: int,
        sector: u8,
        tries: nat,
    )
        requires
            !(0 <= pos < log.len() && log[pos] is Framed && log[pos].sent() == seq![
                0xC2u8,
                0xFFu8,
            ] && log[pos]->reply is Err),
        ensures
            self.retry_select(log, pos, sector, tries) == self.force_select(log, pos, sector),
    {
        Command::SectorSelectPart1.law_wire_bytes();
    }

    /// Nothing is sent to select the sector that is selected, or the reserved one. Otherwise
    /// packet 1 is what is sent first.
    pub proof fn law_select_sends<E>(self, log: Seq<Exchange<E>>, pos: int, sector: u8)
        ensures
            sector == 255 ==> {
                &&& self.select(log, pos, sector).refuses(self, pos, Type2Error::OutOfRange)
                &&& self.force_select(log, pos, sector).refuses(self, pos, Type2Error::OutOfRange)
            },
            sector < 255 && self.sector == SectorState::Known(sector) ==> self.select(
                log,
                pos,
                sector,
            ).succeeds(self, pos),
            sector < 255 ==> (self.force_select(log, pos, sector).sent ==> 0 <= pos < log.len()
                && log[pos] is Framed && log[pos].sent() == seq![0xC2u8, 0xFFu8]),
            sector < 255 && self.sector != SectorState::Known(sector) ==> (self.select(
                log,
                pos,
                sector,
            ).sent ==> 0 <= pos < log.len() && log[pos] is Framed && log[pos].sent() == seq![
                0xC2u8,
                0xFFu8,
            ]),
    {
        Command::SectorSelectPart1.law_wire_bytes();
    }

    /// A command is sent as it is, and what the tag answers is returned as it is.
    pub proof fn law_command_is_answered<E>(
        self,
        log: Seq<Exchange<E>>,
        pos: int,
        intended: SectorState,
        tries: nat,
        cmd: Seq<u8>,
    )
        ensures
            ({
                let run = self.transceive(log, pos, intended, tries, cmd);
                let here = 0 <= pos < log.len() && log[pos] is Framed && log[pos].sent() == cmd;
                &&& run.sent ==> here
                &&& here && log[pos]->reply is Ok ==> run.succeeds(self, pos + 1) && run.out->Ok_0
                    == log[pos]->reply->Ok_0
            }),
    {
    }

    /// A command that is lost is sent again, if there are tries left and it is known which sector
    /// it was meant for: that sector is selected, and then the command is sent with one try less.
    /// Otherwise, and if the sector cannot be selected, the error is returned.
    pub proof fn law_command_is_lost<E>(
        self,
        log: Seq<Exchange<E>>,
        pos: int,
        intended: SectorState,
        tries: nat,
        cmd: Seq<u8>,
    )
        requires
            0 <= pos < log.len(),
            log[pos] is Framed,
            log[pos].sent() == cmd,
            log[pos]->reply is Err,
        ensures
            ({
                let run = self.transceive(log, pos, intended, tries, cmd);
                let select = self.unsure().force_select(log, pos + 1, intended->Known_0);
                &&& intended is Unknown || tries == 0 ==> run.loses(
                    self.unsure(),
                    pos + 1,
                    log[pos]->reply->Err_0,
                )
                &&& intended is Known && tries > 0 && !select.went_well() ==> run.fails_as(select)
                &&& intended is Known && tries > 0 && select.went_well() ==> run
                    == select.state.transceive(
                    log,
                    select.end,
                    intended,
                    (tries - 1) as nat,
                    cmd,
                )
            }),
    {
    }

    /// A block that is cached is returned without sending anything. Any other one is asked for
    /// with `30` and the number of the block, and the first 16 bytes of the answer are returned
    /// and cached. A shorter answer is an error.
    pub proof fn law_read<E>(self, log: Seq<Exchange<E>>, pos: int, block_no: u8)
        ensures
            ({
                let run = self.read(log, pos, block_no);
                let sent = self.transceive(
                    log,
                    pos,
                    self.sector,
                    self.retries,
                    seq![0x30u8, block_no],
                );
                let frame = sent.out->Ok_0;
                let cached = self.cache is Some && self.cache->Some_0.0 == block_no;
                &&& cached ==> run.succeeds(self, pos) && run.out->Ok_0 == self.cache->Some_0.1
                &&& !cached && !sent.went_well() ==> run.fails_as(sent)
                &&& !cached && sent.went_well() && frame.len() < 16 ==> run.refuses(
                    sent.state,
                    sent.end,
                    Type2Error::InvalidLength,
                )
                &&& !cached && sent.went_well() && frame.len() >= 16 ==> {
                    &&& run.succeeds(
                        ReaderState { cache: Some((block_no, frame.take(16))), ..sent.state },
                        sent.end,
                    )
                    &&& run.out->Ok_0 == frame.take(16)
                }
            }),
    {
        let cmd = Command::Read { block_no };
        cmd.law_wire_bytes();
        let sent = self.transceive(log, pos, self.sector, self.retries, cmd.wire());
        cmd.law_read_answer(sent.out->Ok_0);
    }

    /// A block is written with `A2`, the number of the block and the four bytes. It is written if
    /// the tag acknowledges it, and the code of a refusal is returned. Nothing is cached
    /// afterwards.
    pub proof fn law_write<E>(
        self,
        log: Seq<Exchange<E>>,
        pos: int,
        block_no: u8,
        data: [u8; 4],
    )
        ensures
            ({
                let run = self.write(log, pos, block_no, data);
                let cmd = seq![0xA2u8, block_no, data[0], data[1], data[2], data[3]];
                let sent = self.transceive(log, pos, self.sector, self.retries, cmd);
                let frame = sent.out->Ok_0;
                let after = ReaderState { cache: None, ..sent.state };
                &&& !sent.went_well() ==> run.fails_as(sent)
                &&& sent.went_well() && frame.len() == 0 ==> run.refuses(
                    after,
                    sent.end,
                    Type2Error::InvalidLength,
                )
                &&& sent.went_well() && frame.len() > 0 && frame[0] % 16 == 10 ==> run.succeeds(
                    after,
                    sent.end,
                )
                &&& sent.went_well() && frame.len() > 0 && frame[0] % 16 != 10 ==> run.refuses(
                    after,
                    sent.end,
                    Type2Error::Nack((frame[0] % 16) as u8),
                )
            }),
    {
        let cmd = Command::Write { block_no, data };
        cmd.law_wire_bytes();
        let sent = self.transceive(log, pos, self.sector, self.retries, cmd.wire());
        cmd.law_acknowledgement(sent.out->Ok_0);
    }

    /// The container is the first four bytes of block 3 of sector 0, which is selected first.
    pub proof fn law_read_cc<E>(self, log: Seq<Exchange<E>>, pos: int)
        ensures
            ({
                let run = self.read_cc(log, pos);
                let select = self.select(log, pos, 0);
                let read = select.state.read(log, select.end, 3);
                let data = read.out->Ok_0;
                let cc = CapabilityContainer::decoded([data[0], data[1], data[2], data[3]]);
                &&& !select.went_well() ==> run.fails_as(select)
                &&& select.went_well() && !read.went_well() ==> run.fails_as(read)
                &&& select.went_well() && read.went_well() ==> match cc {
                    Ok(cc) => run.succeeds(read.state, read.end) && run.out->Ok_0 == cc,
                    Err(e) => run.refuses(read.state, read.end, e),
                }
            }),
    {
    }

    /// The four bytes of a block are taken from the cached bytes, if the block is one of the four
    /// that they hold, and else from the tag.
    pub proof fn law_read_page<E>(self, log: Seq<Exchange<E>>, pos: int, block_no: u8)
        ensures
            ({
                let run = self.read_page(log, pos, block_no);
                let read = self.read(log, pos, block_no);
                let (first, data) = self.cache->Some_0;
                let ahead = (block_no - first) % 256;
                let cached = self.cache is Some && ahead < 4;
                &&& cached ==> run.succeeds(self, pos) && run.out->Ok_0 == data.subrange(
                    4 * ahead,
                    4 * ahead + 4,
                )
                &&& !cached && !read.went_well() ==> run == read
                &&& !cached && read.went_well() ==> run.succeeds(read.state, read.end)
                    && run.out->Ok_0 == read.out->Ok_0.subrange(0, 4)
            }),
    {
    }
}

impl LayoutView {
    /// The bytes of a block are taken in one after the other. Those that are left out by the layout
    /// do not count. Taking in ends with the last byte of the data area, with a Terminator TLV, and
    /// where 1024 bytes are there and one more would come.
    pub proof fn law_collect(
        self,
        addr: int,
        page: Seq<u8>,
        i: int,
        acc: Seq<u8>,
        scan: TlvScanState,
    )
        requires
            0 <= i <= 4,
        ensures
            ({
                let got = self.collect(addr, page, i, acc, scan);
                &&& i == 4 ==> got == Collected::More(acc, scan)
                &&& i < 4 && self.skips(addr + i) ==> got == self.collect(
                    addr,
                    page,
                    i + 1,
                    acc,
                    scan,
                )
                &&& i < 4 && !self.skips(addr + i) ==> {
                    &&& acc.len() >= self.size ==> got == Collected::Complete(acc)
                    &&& 1024 <= acc.len() < self.size ==> got == Collected::Full(acc)
                    &&& acc.len() < self.size && acc.len() < 1024 ==> (match scan.step(page[i]) {
                        None => got == Collected::Complete(acc.push(page[i])),
                        Some(next) => got == self.collect(
                            addr,
                            page,
                            i + 1,
                            acc.push(page[i]),
                            next,
                        ),
                    })
                }
            }),
    {
    }

    /// The bytes of a block are replaced one after the other, while there is data left. Those that
    /// are left out by the layout keep their values. A byte at the limit or past it cannot be
    /// replaced.
    pub proof fn law_merge(
        self,
        base: int,
        i: int,
        page: Seq<u8>,
        data: Seq<u8>,
        di: int,
        limit: int,
    )
        requires
            0 <= i <= 4,
            0 <= di <= data.len(),
        ensures
            ({
                let got = self.merge(base, i, page, data, di, limit);
                &&& i == 4 || di == data.len() ==> got == Some((page, di))
                &&& i < 4 && di < data.len() && base + i >= limit ==> got is None
                &&& i < 4 && di < data.len() && base + i < limit ==> got == (if self.skips(
                    base + i,
                ) {
                    self.merge(base, i + 1, page, data, di, limit)
                } else {
                    self.merge(base, i + 1, page.update(i, data[di]), data, di + 1, limit)
                })
            }),
            self.covered(base, data.len() - di) <==> base % 4 == 0 && data.len() - di >= 4 && (
            forall|j: int| 0 <= j < 4 ==> !self.skips(#[trigger] (base + j))),
    {
        if self.covered(base, data.len() - di) {
            assert forall|j: int| 0 <= j < 4 implies !self.skips(#[trigger] (base + j)) by {}
        } else if forall|j: int| 0 <= j < 4 ==> !self.skips(#[trigger] (base + j)) {
            assert(!self.skips(base + 0) && !self.skips(base + 1) && !self.skips(base + 2)
                && !self.skips(base + 3));
        }
    }
}

impl ReaderState {
    /// The data area is collected block by block, each in its sector, until it is complete. What is
    /// not complete at the end of the address space cannot be collected.
    pub proof fn law_collect_area<E>(
        self,
        log: Seq<Exchange<E>>,
        pos: int,
        layout: LayoutView,
        addr: int,
        acc: Seq<u8>,
        scan: TlvScanState,
    )
        ensures
            ({
                let run = self.collect_area(log, pos, layout, addr, acc, scan);
                let select = self.select(log, pos, (addr / 1024) as u8);
                let read = select.state.read_page(log, select.end, (addr % 1024 / 4) as u8);
                &&& acc.len() >= layout.size ==> run.succeeds(self, pos) && run.out->Ok_0 == (
                    acc,
                    true,
                )
                &&& acc.len() < layout.size && addr >= 255 * 1024 ==> run.refuses(
                    self,
                    pos,
                    Type2Error::OutOfRange,
                )
                &&& acc.len() < layout.size && addr < 255 * 1024 ==> {
                    &&& !select.went_well() ==> run.fails_as(select)
                    &&& select.went_well() && !read.went_well() ==> run.fails_as(read)
                    &&& select.went_well() && read.went_well() ==> match layout.collect(
                        addr,
                        read.out->Ok_0,
                        0,
                        acc,
                        scan,
                    ) {
                        Collected::More(acc2, scan2) => run == read.state.collect_area(
                            log,
                            read.end,
                            layout,
                            addr + 4,
                            acc2,
                            scan2,
                        ),
                        Collected::Complete(all) => run.succeeds(read.state, read.end)
                            && run.out->Ok_0 == (all, true),
                        Collected::Full(some) => run.succeeds(read.state, read.end)
                            && run.out->Ok_0 == (some, false),
                    }
                }
            }),
    {
    }

    /// The data area is read from byte 16 on, and has to fit in a buffer.
    pub proof fn law_read_area<E>(self, log: Seq<Exchange<E>>, pos: int, layout: LayoutView)
        ensures
            ({
                let run = self.read_area(log, pos, layout);
                let all = self.collect_area(log, pos, layout, 16, seq![], TlvScanState::Tag);
                &&& self.scan_area(log, pos, layout) == all
                &&& !all.went_well() ==> run.fails_as(all)
                &&& all.went_well() && all.out->Ok_0.1 ==> run.succeeds(all.state, all.end)
                    && run.out->Ok_0 == all.out->Ok_0.0
                &&& all.went_well() && !all.out->Ok_0.1 ==> run.refuses(
                    all.state,
                    all.end,
                    Type2Error::BufferFull,
                )
            }),
    {
    }

    /// The data area is read without control blocks first. On a dynamic tag that has some it is
    /// read again by the layout that they describe, and otherwise the first reading counts.
    pub proof fn law_read_tlv_area<E>(
        self,
        log: Seq<Exchange<E>>,
        pos: int,
        cc: CapabilityContainer,
    )
        ensures
            ({
                let run = self.read_tlv_area(log, pos, cc);
                let basic = LayoutView::of(cc, seq![]);
                let first = self.scan_area(log, pos, basic);
                let blocks = TlvView::announced(first.out->Ok_0.0, first.out->Ok_0.1);
                let again = cc.size_field > 6 && TlvView::any_control(blocks);
                &&& !first.went_well() ==> run.fails_as(first)
                &&& first.went_well() && again ==> run == first.state.read_area(
                    log,
                    first.end,
                    LayoutView::of(cc, blocks),
                )
                &&& first.went_well() && !again ==> run == self.read_area(log, pos, basic)
            }),
    {
    }

    /// An NDEF message is read if the container can be read and has major version 1 and read
    /// access, and the blocks of the data area can be parsed. It is then the first one of them, or
    /// nothing.
    pub proof fn law_read_ndef<E>(self, log: Seq<Exchange<E>>, pos: int)
        ensures
            ({
                let run = self.read_ndef(log, pos);
                let head = self.read_cc(log, pos);
                let cc = head.out->Ok_0;
                let valid = cc.version_major == 1 && cc.read_access == AccessCondition::Granted;
                let area = head.state.read_tlv_area(log, head.end, cc);
                &&& !head.went_well() ==> run.fails_as(head)
                &&& head.went_well() && !valid ==> run.refuses(
                    head.state,
                    head.end,
                    Type2Error::InvalidMagic(0),
                )
                &&& head.went_well() && valid && !area.went_well() ==> run.fails_as(area)
                &&& head.went_well() && valid && area.went_well() ==> match TlvView::parsed_from(
                    area.out->Ok_0,
                    0,
                    4,
                ) {
                    Err(e) => run.refuses(area.state, area.end, e),
                    Ok(blocks) => run.succeeds(area.state, area.end) && run.out->Ok_0
                        == TlvView::first_ndef(blocks),
                }
            }),
    {
    }

    /// Data is written block by block, each in its sector, from an address on and up to a limit. A
    /// block that is usable as a whole is written at once, and any other one is read first, so
    /// that the bytes that are left out keep their values.
    pub proof fn law_write_block<E>(
        self,
        log: Seq<Exchange<E>>,
        pos: int,
        layout: LayoutView,
        addr: int,
        data: Seq<u8>,
        di: int,
        limit: int,
    )
        ensures
            ({
                let run = self.write_block(log, pos, layout, addr, data, di, limit);
                let select = self.select(log, pos, (addr / 1024) as u8);
                let block_no = (addr % 1024 / 4) as u8;
                let write = select.state.write(
                    log,
                    select.end,
                    block_no,
                    [data[di], data[di + 1], data[di + 2], data[di + 3]],
                );
                let past = addr >= limit || addr >= 255 * 1024;
                let covered = layout.covered(addr, data.len() - di);
                &&& past ==> run.refuses(self, pos, Type2Error::OutOfRange)
                &&& !past && !select.went_well() ==> run.fails_as(select)
                &&& !past && select.went_well() && covered && addr + 4 > limit ==> run.refuses(
                    select.state,
                    select.end,
                    Type2Error::OutOfRange,
                )
                &&& !past && select.went_well() && covered && addr + 4 <= limit ==> {
                    &&& !write.went_well() ==> run.fails_as(write)
                    &&& write.went_well() ==> run.succeeds(write.state, write.end)
                        && run.out->Ok_0 == di + 4
                }
                &&& !past && select.went_well() && !covered ==> run == select.state.merge_block(
                    log,
                    select.end,
                    layout,
                    addr,
                    data,
                    di,
                    limit,
                )
            }),
    {
    }

    /// A block that is not usable as a whole is read, and written back if some of its bytes have
    /// been replaced.
    pub proof fn law_merge_block<E>(
        self,
        log: Seq<Exchange<E>>,
        pos: int,
        layout: LayoutView,
        addr: int,
        data: Seq<u8>,
        di: int,
        limit: int,
    )
        ensures
            ({
                let run = self.merge_block(log, pos, layout, addr, data, di, limit);
                let block_no = (addr % 1024 / 4) as u8;
                let read = self.read(log, pos, block_no);
                let merged = layout.merge(
                    addr - addr % 4,
                    addr % 4,
                    read.out->Ok_0.subrange(0, 4),
                    data,
                    di,
                    limit,
                );
                let (page, next) = merged->Some_0;
                let write = read.state.write(
                    log,
                    read.end,
                    block_no,
                    [page[0], page[1], page[2], page[3]],
                );
                &&& !read.went_well() ==> run.fails_as(read)
                &&& read.went_well() && merged is None ==> run.refuses(
                    read.state,
                    read.end,
                    Type2Error::OutOfRange,
                )
                &&& read.went_well() && merged is Some && next == di ==> run.succeeds(
                    read.state,
                    read.end,
                ) && run.out->Ok_0 == di
                &&& read.went_well() && merged is Some && next != di ==> {
                    &&& !write.went_well() ==> run.fails_as(write)
                    &&& write.went_well() ==> run.succeeds(write.state, write.end)
                        && run.out->Ok_0 == next
                }
            }),
    {
    }

    /// The blocks are written one after the other until no data is left, and an error ends it.
    pub proof fn law_write_bytes<E>(
        self,
        log: Seq<Exchange<E>>,
        pos: int,
        layout: LayoutView,
        addr: int,
        data: Seq<u8>,
        di: int,
        limit: int,
    )
        ensures
            ({
                let run = self.write_bytes(log, pos, layout, addr, data, di, limit);
                let block = self.write_block(log, pos, layout, addr, data, di, limit);
                &&& di >= data.len() ==> run.succeeds(self, pos)
                &&& di < data.len() && !block.went_well() ==> run.fails_as(block)
                &&& di < data.len() && block.went_well() ==> run == block.state.write_bytes(
                    log,
                    block.end,
                    layout,
                    addr - addr % 4 + 4,
                    data,
                    block.out->Ok_0,
                    limit,
                )
            }),
    {
    }

    /// An NDEF message is written in three steps: finding out where it goes, writing it with a zero
    /// length, and writing the length. Each is taken only if the one before went well.
    pub proof fn law_write_ndef<E>(self, log: Seq<Exchange<E>>, pos: int, ndef: Seq<u8>)
        ensures
            ({
                let run = self.write_ndef(log, pos, ndef);
                let prepared = self.prepare(log, pos, ndef);
                let plan = prepared.out->Ok_0;
                let block = prepared.state.write_bytes(
                    log,
                    prepared.end,
                    plan.layout,
                    plan.start,
                    plan.payload,
                    0,
                    plan.limit,
                );
                &&& !prepared.went_well() ==> run.fails_as(prepared)
                &&& prepared.went_well() && !block.went_well() ==> run.fails_as(block)
                &&& prepared.went_well() && block.went_well() ==> run == block.state.write_bytes(
                    log,
                    block.end,
                    plan.layout,
                    plan.length_start,
                    plan.length_field,
                    0,
                    plan.limit,
                )
            }),
    {
    }

    /// Where an NDEF message goes is found out if the container has major version 1, read access
    /// and write access, and the blocks of the data area can be parsed. The reasons against it are
    /// looked at in this order.
    pub proof fn law_prepare<E>(self, log: Seq<Exchange<E>>, pos: int, ndef: Seq<u8>)
        ensures
            ({
                let run = self.prepare(log, pos, ndef);
                let head = self.read_cc(log, pos);
                let cc = head.out->Ok_0;
                let valid = cc.version_major == 1 && cc.read_access == AccessCondition::Granted;
                let writable = cc.write_access == AccessCondition::Granted;
                let area = head.state.read_tlv_area(log, head.end, cc);
                let bytes = area.out->Ok_0;
                let open = head.went_well() && valid && writable;
                &&& !head.went_well() ==> run.fails_as(head)
                &&& head.went_well() && !valid ==> run.refuses(
                    head.state,
                    head.end,
                    Type2Error::InvalidMagic(0),
                )
                &&& head.went_well() && valid && !writable ==> run.refuses(
                    head.state,
                    head.end,
                    Type2Error::ReadOnly,
                )
                &&& open && !area.went_well() ==> run.fails_as(area)
                &&& open && area.went_well() ==> match TlvView::parsed_from(bytes, 0, 4) {
                    Err(e) => run.refuses(area.state, area.end, e),
                    Ok(blocks) => match WritePlan::of(
                        cc,
                        blocks,
                        TlvView::ndef_position(bytes, 0),
                        ndef,
                    ) {
                        Err(e) => run.refuses(area.state, area.end, e),
                        Ok(plan) => run.succeeds(area.state, area.end) && run.out->Ok_0 == plan,
                    },
                }
            }),
    {
    }
}

impl WritePlan {
    /// Whether an NDEF message can be put where the NDEF Message TLV is depends on how much room
    /// there is from there to the end of the data area, and not on what is there now: its tag, its
    /// length field, the message and a terminator have to fit, and also in a buffer. It is then
    /// written from that byte of the data area on, and its length from the next one on.
    pub proof fn law_plan(
        cc: CapabilityContainer,
        tlvs: Seq<TlvView>,
        position: Option<int>,
        ndef: Seq<u8>,
    )
        requires
            position matches Some(offset) ==> offset >= 0,
        ensures
            ({
                let plan = Self::of(cc, tlvs, position, ndef);
                let layout = LayoutView::of(cc, tlvs);
                let usable = layout.usable(261_120);
                let width = if ndef.len() < 255 {
                    1int
                } else {
                    3int
                };
                let block = 1 + width + ndef.len() + 1;
                let fits = position->Some_0 + block <= cc.size_field * 8 <= usable.len();
                let refused = |e: Type2Error| plan == Err::<WritePlan, Type2Error>(e);
                &&& ndef.len() > 0xFFFE ==> refused(Type2Error::OutOfRange)
                &&& ndef.len() <= 0xFFFE && position is None ==> refused(Type2Error::InvalidTlv)
                &&& ndef.len() <= 0xFFFE && position is Some && !fits ==> refused(
                    Type2Error::OutOfRange,
                )
                &&& ndef.len() <= 0xFFFE && position is Some && fits && block > 1024 ==> refused(
                    Type2Error::BufferFull,
                )
                &&& plan is Ok <==> position is Some && fits && block <= 1024
                &&& plan matches Ok(p) ==> {
                    &&& p.layout == layout
                    &&& p.start == usable[position->Some_0]
                    &&& p.length_start == usable[position->Some_0 + 1]
                    &&& p.limit == usable[cc.size_field * 8 - 1] + 1
                    &&& p.payload.len() == block
                    &&& p.payload[0] == 0x03
                    &&& p.payload.last() == 0xFE
                    &&& p.payload.subrange(1 + width, block - 1) == ndef
                    &&& width == 1 ==> p.payload[1] == 0 && p.length_field == seq![
                        ndef.len() as u8,
                    ]
                    &&& width == 3 ==> {
                        &&& p.payload.subrange(1, 4) == seq![0xFFu8, 0u8, 0u8]
                        &&& p.length_field.len() == 3
                        &&& p.length_field[0] == 0xFF
                        &&& 256 * p.length_field[1] + p.length_field[2] == ndef.len()
                    }
                }
            }),
    {
        let open = Self::open_block(ndef);
        let width = Self::open_length(ndef.len()).len() as int;
        if ndef.len() <= 0xFFFE {
            crate::tlv::law_length_encoding(ndef.len() as u16);
        }
        assert(open.subrange(1 + width, open.len() - 1) =~= ndef);
        assert(open.subrange(1, 1 + width) =~= Self::open_length(ndef.len()));
        if ndef.len() < 255 {
            assert(crate::tlv::length_field(ndef.len() as u16) =~= seq![ndef.len() as u8]);
        }
    }

    /// The finished block is the one that was written with a zero length, with the length in its
    /// place: the tag, the length, the message and the terminator.
    pub proof fn law_finished_block(ndef: Seq<u8>)
        requires
            ndef.len() <= 0xFFFE,
        ensures
            ({
                let (open, closed) = (Self::open_block(ndef), Self::closed_block(ndef));
                let width = if ndef.len() < 255 {
                    1int
                } else {
                    3int
                };
                &&& closed.len() == 2 + width + ndef.len()
                &&& open.len() == closed.len()
                &&& closed[0] == 0x03
                &&& closed.last() == 0xFE
                &&& closed.subrange(1 + width, closed.len() - 1) == ndef
                &&& width == 1 ==> closed[1] == ndef.len()
                &&& width == 3 ==> closed[1] == 0xFF && 256 * closed[2] + closed[3] == ndef.len()
                &&& forall|i: int|
                    0 <= i < open.len() && !(1 <= i < 1 + width) ==> open[i] == closed[i]
            }),
    {
        let closed = Self::closed_block(ndef);
        let width = crate::tlv::length_field(ndef.len() as u16).len() as int;
        crate::tlv::law_length_encoding(ndef.len() as u16);
        assert(closed.subrange(1 + width, closed.len() - 1) =~= ndef);
    }
}

impl TlvView {
    /// The message among some blocks is the value of the first NDEF Message TLV, whatever comes
    /// before and behind it, and nothing if there is none.
    pub proof fn law_first_message(tlvs: Seq<TlvView>, at: int)
        requires
            forall|i: int|
                0 <= i < at && i < tlvs.len() ==> !((#[trigger] tlvs[i]) is NdefMessage),
            0 <= at <= tlvs.len(),
            at < tlvs.len() ==> tlvs[at] is NdefMessage,
        ensures
            at < tlvs.len() ==> Self::first_ndef(tlvs) == tlvs[at]->NdefMessage_0,
            at == tlvs.len() ==> Self::first_ndef(tlvs).len() == 0,
        decreases at,
    {
        if at > 0 {
            let others = tlvs.drop_first();
            assert(!(tlvs[0] is NdefMessage));
            assert forall|i: int| 0 <= i < at - 1 && i < others.len() implies !((
            #[trigger] others[i]) is NdefMessage) by {
                assert(others[i] == tlvs[i + 1]);
            }
            Self::law_first_message(others, at - 1);
        }
    }
}

} // verus!
