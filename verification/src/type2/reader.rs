//! High-level Type 2 Tag reader/writer.
//!
//! [`T2TReader`] orchestrates command sequences for NDEF detection, reading,
//! and writing on a Type 2 Tag after ISO 14443-3A activation. What each
//! operation sends and returns is the [`Run`] that its contract names.

use super::cc::CapabilityContainer;
use super::memory::{
    LayoutView, MemoryLayout, ADDRESS_SPACE_END, BLOCK_SIZE, CC_BLOCK, DATA_START, MAX_SECTOR,
    SECTOR_SIZE,
};
use super::scanner::{TlvScanState, TlvScanner};
use super::tlv::{self, Tlv, TlvView, TLV_CAPACITY, TLV_NDEF_MESSAGE, TLV_TERMINATOR};
use super::trace::{Collected, ReaderState, Run, WritePlan};
use super::{Answer, Command, Exchange, T2TTransceiver, Type2Error};
use crate::tag::AccessCondition;
use crate::tlv::MAX_TLV_LENGTH;
use crate::vec::{
    data_clone, data_new, data_slice, frame_slice, DataVec, FrameVec, VecExt, DATA_CAPACITY,
};
use vstd::prelude::*;
use vstd::std_specs::convert::FromSpecImpl;

verus! {

/// Errors from the T2T reader, wrapping transport and protocol errors.
#[derive(Debug)]
pub enum ReaderError<E> {
    /// The transceiver returned an error.
    Transceiver(E),
    /// Type 2 Tag protocol violation.
    Protocol(Type2Error),
}

impl<E> From<Type2Error> for ReaderError<E> {
    fn from(e: Type2Error) -> (r: Self) {
        ReaderError::Protocol(e)
    }
}

impl<E> FromSpecImpl<Type2Error> for ReaderError<E> {
    open spec fn obeys_from_spec() -> bool {
        true
    }

    open spec fn from_spec(e: Type2Error) -> Self {
        ReaderError::Protocol(e)
    }
}

/// Default number of retries on transient transceiver errors.
pub const DEFAULT_MAX_RETRIES: u8 = 1;

/// Tracked sector-selection state.
///
/// Block numbers are sector-relative, so the reader must never assume which
/// sector is active after an ambiguous failure. A Type 2 protocol infringement
/// resets the tag to sector 0, and a transceiver error cannot distinguish
/// "not transmitted" from "applied, but the response was lost": either way the
/// cached sector may no longer match the tag.
#[derive(Debug, Clone, Copy, PartialEq, Eq, Structural)]
pub enum SectorState {
    /// The tag is known to have this sector selected.
    Known(u8),
    /// The active sector is unknown; it must be re-established before any
    /// sector-relative command.
    Unknown,
}

/// High-level NFC Forum Type 2 Tag reader/writer.
///
/// Wraps a [`T2TTransceiver`] and tracks the currently selected sector.
/// Maintains a 16-byte read cache to avoid redundant RF transactions.
/// Retries transient transceiver errors up to `max_retries` times.
pub struct T2TReader<'t, T: T2TTransceiver> {
    transceiver: &'t mut T,
    sector: SectorState,
    cache_block: Option<u8>,
    cache_data: [u8; 16],
    max_retries: u8,
}

/// What a call returned, with the frame taken by its bytes.
pub open spec fn frame_out<E>(r: Result<FrameVec, ReaderError<E>>) -> Result<
    Seq<u8>,
    ReaderError<E>,
> {
    match r {
        Ok(frame) => Ok(frame.contents()),
        Err(e) => Err(e),
    }
}

/// What a call returned, with the block data taken by its bytes.
pub open spec fn block_out<E>(r: Result<[u8; 16], ReaderError<E>>) -> Result<
    Seq<u8>,
    ReaderError<E>,
> {
    match r {
        Ok(data) => Ok(data@),
        Err(e) => Err(e),
    }
}

/// What a call returned, with the data taken by its bytes.
pub open spec fn data_out<E>(r: Result<DataVec, ReaderError<E>>) -> Result<
    Seq<u8>,
    ReaderError<E>,
> {
    match r {
        Ok(data) => Ok(data.contents()),
        Err(e) => Err(e),
    }
}

/// What a call returned is all of its bytes, or its error.
pub proof fn law_returned_bytes<E>(
    frame: Result<FrameVec, ReaderError<E>>,
    block: Result<[u8; 16], ReaderError<E>>,
    data: Result<DataVec, ReaderError<E>>,
)
    ensures
        frame_out(frame) is Ok <==> frame is Ok,
        frame matches Ok(v) ==> frame_out(frame)->Ok_0 == v.contents(),
        frame matches Err(e) ==> frame_out(frame)->Err_0 == e,
        block_out(block) is Ok <==> block is Ok,
        block matches Ok(v) ==> block_out(block)->Ok_0 == v@,
        block matches Err(e) ==> block_out(block)->Err_0 == e,
        data_out(data) is Ok <==> data is Ok,
        data matches Ok(v) ==> data_out(data)->Ok_0 == v.contents(),
        data matches Err(e) ==> data_out(data)->Err_0 == e,
{
}

impl<'t, T: T2TTransceiver> T2TReader<'t, T> {
    /// What a reader that got from `before` to here has done: it has made the exchanges of the run
    /// and no others, and knows what is known after the run.
    pub proof fn law_ran<O>(&self, before: &Self, run: Run<T::Error, O>)
        ensures
            self.ran(before, run) ==> {
                &&& run.sent
                &&& self.log().len() == run.end
                &&& self.log().len() >= before.log().len()
                &&& forall|i: int|
                    0 <= i < before.log().len() ==> self.log()[i] == before.log()[i]
                &&& self.state().sector == run.state.sector
                &&& self.state().cache == run.state.cache
                &&& self.state().retries == run.state.retries
                &&& self.state().sector matches SectorState::Known(sector) ==> sector < 255
            },
            self.inv() <==> (self.state().sector matches SectorState::Known(sector) ==> sector
                < 255),
    {
    }

    /// The reference to the transceiver.
    pub closed spec fn link(&self) -> &mut T {
        self.transceiver
    }

    /// All exchanges made through the transceiver so far.
    pub closed spec fn log(&self) -> Seq<Exchange<T::Error>> {
        (*self.transceiver).log()
    }

    /// What the reader knows.
    pub closed spec fn state(&self) -> ReaderState {
        ReaderState {
            sector: self.sector,
            cache: match self.cache_block {
                Some(block_no) => Some((block_no, self.cache_data@)),
                None => None,
            },
            retries: self.max_retries as nat,
        }
    }

    /// A sector that is known to be selected is one that can be selected.
    pub open spec fn inv(&self) -> bool {
        match self.state().sector {
            SectorState::Known(sector) => sector <= MAX_SECTOR,
            SectorState::Unknown => true,
        }
    }

    /// Whether the reader got from `before` to here by this run: the log has grown by the run's
    /// exchanges, and the reader knows what it knows after the run.
    pub open spec fn ran<O>(&self, before: &Self, run: Run<T::Error, O>) -> bool {
        &&& run.sent
        &&& run.end == self.log().len()
        &&& run.state == self.state()
        &&& before.log().is_prefix_of(self.log())
        &&& self.inv()
    }

    /// Create a new reader. The default sector is 0.
    pub fn new(transceiver: &'t mut T) -> (r: Self)
        ensures
            r.inv(),
            r.log() == old(transceiver).log(),
            r.state() == (ReaderState {
                sector: SectorState::Known(0),
                cache: None,
                retries: DEFAULT_MAX_RETRIES as nat,
            }),
            r.state().retries == 1,
            *r.link() == *old(transceiver),
            *final(r.link()) == *final(transceiver),
    {
        T2TReader {
            transceiver,
            sector: SectorState::Known(0),
            cache_block: None,
            cache_data: [0u8;16],
            max_retries: DEFAULT_MAX_RETRIES,
        }
    }

    /// Set the maximum number of retries on transient transceiver errors.
    ///
    /// Default is 1 (one retry after the initial attempt). Set to 0 to
    /// disable retries. Only transceiver-level errors are retried; NACK
    /// responses from the tag are not retried.
    pub fn set_max_retries(&mut self, n: u8)
        ensures
            final(self).state() == (ReaderState { retries: n as nat, ..old(self).state() }),
            final(self).log() == old(self).log(),
            *final(self).link() == *old(self).link(),
            *final(final(self).link()) == *final(old(self).link()),
    {
        self.max_retries = n;
    }

    /// Get the currently selected sector number.
    /// Returns `None` when the active sector is unknown after an ambiguous
    /// error; the next sector-relative operation re-establishes it.
    pub fn current_sector(&self) -> (r: Option<u8>)
        ensures
            r == match self.state().sector {
                SectorState::Known(sector) => Some(sector),
                SectorState::Unknown => None,
            },
    {
        match self.sector {
            SectorState::Known(s) => Some(s),
            SectorState::Unknown => None,
        }
    }

    /// Current sector-selection state, including whether it is unknown.
    pub fn sector_state(&self) -> (r: SectorState)
        ensures
            r == self.state().sector,
    {
        self.sector
    }

    /// The block whose READ response is cached, if there is one.
    pub fn cached_block(&self) -> (r: Option<u8>)
        ensures
            r == match self.state().cache {
                Some((block_no, _)) => Some(block_no),
                None => None,
            },
    {
        self.cache_block
    }

    /// Get a mutable reference to the underlying transceiver.
    ///
    /// Useful for sending custom commands (e.g., NTAG-specific extensions)
    /// that are not part of the T2T spec.
    pub fn transceiver(&mut self) -> (r: &mut T)
        ensures
            *r == *old(self).link(),
            *final(self).link() == *final(r),
            *final(final(self).link()) == *final(old(self).link()),
            final(self).state() == old(self).state(),
            final(self).log() == final(r).log(),
    {
        self.transceiver
    }

    /// Invalidate the read cache.
    ///
    /// Call this after sending custom write commands directly through
    /// the transceiver to ensure subsequent reads reflect the new state.
    pub fn invalidate_cache(&mut self)
        ensures
            final(self).state() == old(self).state().uncached(),
            final(self).log() == old(self).log(),
            *final(self).link() == *old(self).link(),
            *final(final(self).link()) == *final(old(self).link()),
    {
        self.cache_block = None;
    }

    /// Transceive with retry on transceiver errors.
    ///
    /// Retries up to `max_retries` times on transceiver-level errors.
    /// Useful for sending custom commands with the same retry behavior
    /// as the built-in READ/WRITE.
    /// A transceiver error makes the active sector ambiguous, so every retry
    /// first re-establishes the sector that was intended when the command was
    /// issued. Without that, a failure which reset the tag to sector 0 would
    /// silently redirect the retry to the same block number in the wrong
    /// sector. If the sector was already unknown, no retry is attempted.
    pub fn transceive_with_retry(&mut self, cmd: &[u8]) -> (r: Result<
        FrameVec,
        ReaderError<T::Error>,
    >)
        requires
            old(self).inv(),
        ensures
            ({
                let run = old(self).state().transceive(
                    final(self).log(),
                    old(self).log().len() as int,
                    old(self).state().sector,
                    old(self).state().retries,
                    cmd@,
                );
                run.out == frame_out(r) && final(self).ran(old(self), run)
            }),
            *final(final(self).link()) == *final(old(self).link()),
    {
        let intended = self.sector;
        let mut left = self.max_retries;
        let ghost start = self.state();
        let ghost pos = self.log().len() as int;
        loop
            invariant
                self.inv(),
                start == old(self).state(),
                intended == start.sector,
                pos == old(self).log().len(),
                old(self).log().is_prefix_of(self.log()),
                *final(self.link()) == *final(old(self).link()),
                match intended {
                    SectorState::Known(sector) => sector <= MAX_SECTOR,
                    SectorState::Unknown => true,
                },
                forall|longer: Seq<Exchange<T::Error>>|
                    self.log().is_prefix_of(longer) ==> #[trigger] start.transceive(
                        longer,
                        pos,
                        intended,
                        start.retries,
                        cmd@,
                    ) == self.state().transceive(
                        longer,
                        self.log().len() as int,
                        intended,
                        left as nat,
                        cmd@,
                    ),
            decreases left,
        {
            let ghost before = self.log();
            let ghost state = self.state();
            match self.transceiver.transceive(cmd) {
                Ok(raw) => {
                    assert(self.log() == before.push(Exchange::framed(cmd@, Ok(raw))));
                    assert(before.is_prefix_of(self.log()));
                    return Ok(raw);
                },
                Err(e) => {
                    // Ambiguous failure: the tag may have reset to sector 0.
                    self.sector = SectorState::Unknown;
                    self.invalidate_cache();
                    let ghost failed = self.log();
                    assert(failed == before.push(Exchange::framed(cmd@, Err(e))));
                    assert(before.is_prefix_of(failed));
                    assert(self.state() == state.unsure());
                    match intended {
                        // Sector unknown before the command: retrying could hit any
                        // sector, so stop and report the error.
                        SectorState::Unknown => return Err(ReaderError::Transceiver(e)),
                        // Re-select before retrying so the retry provably lands in
                        // the intended sector.
                        SectorState::Known(s) => {
                            if left == 0 {
                                return Err(ReaderError::Transceiver(e));
                            }
                            match self.force_sector_select(s) {
                                Ok(()) => {},
                                Err(e) => {
                                    return Err(e);
                                },
                            }
                            proof {
                                let now = self.log();
                                assert forall|longer: Seq<Exchange<T::Error>>|
                                    now.is_prefix_of(longer) implies #[trigger] start.transceive(
                                    longer,
                                    pos,
                                    intended,
                                    start.retries,
                                    cmd@,
                                ) == self.state().transceive(
                                    longer,
                                    now.len() as int,
                                    intended,
                                    (left - 1) as nat,
                                    cmd@,
                                ) by {
                                    let at = before.len() as int;
                                    assert(before.is_prefix_of(longer));
                                    assert(longer[at] == failed[at]) by {
                                        assert(now[at] == failed[at]);
                                    }
                                    state.unsure().lemma_force_select_stable(
                                        now,
                                        longer,
                                        before.len() as int + 1,
                                        s,
                                    );
                                }
                            }
                            left = left - 1;
                        },
                    }
                },
            }
        }
    }

    /// Perform the SECTOR SELECT sequence unconditionally, without the
    /// known-state fast path.
    ///
    /// Any failure (transceiver error or NACK, in either packet) leaves the
    /// sector state [`SectorState::Unknown`] and the read cache invalidated,
    /// since the tag may or may not have applied the selection. Packet 1 is
    /// sent directly rather than through [`Self::transceive_with_retry`] to
    /// avoid recursing back into sector recovery.
    fn force_sector_select(&mut self, sector: u8) -> (r: Result<(), ReaderError<T::Error>>)
        requires
            old(self).inv(),
        ensures
            ({
                let run = old(self).state().force_select(
                    final(self).log(),
                    old(self).log().len() as int,
                    sector,
                );
                run.out == r && final(self).ran(old(self), run)
            }),
            *final(final(self).link()) == *final(old(self).link()),
    {
        if sector > MAX_SECTOR {
            return Err(ReaderError::from(Type2Error::OutOfRange));
        }
        let ghost at = self.log().len() as int;
        let answer = self.start_select();
        let ghost now = self.log();
        assert(now[at] == Exchange::framed(Command::SectorSelectPart1.wire(), answer));
        assert(old(self).log().is_prefix_of(now));
        let raw = match answer {
            Ok(raw) => raw,
            Err(e) => return Err(ReaderError::Transceiver(e)),
        };
        let result = self.finish_select(&raw, sector);
        assert(self.log()[at] == now[at]);
        result
    }

    /// Send Packet 1 of SECTOR SELECT. From here on the sector is unknown.
    fn start_select(&mut self) -> (r: Result<FrameVec, T::Error>)
        ensures
            final(self).log() == old(self).log().push(
                Exchange::framed(Command::SectorSelectPart1.wire(), r),
            ),
            final(self).state() == old(self).state().unsure(),
            *final(final(self).link()) == *final(old(self).link()),
    {
        self.invalidate_cache();
        self.sector = SectorState::Unknown;

        // Packet 1: [0xC2, 0xFF]
        let bytes1 = Command::SectorSelectPart1.to_bytes();
        self.transceiver.transceive(frame_slice(&bytes1))
    }

    /// Take the answer to Packet 1 of SECTOR SELECT, and send Packet 2 if it is an ACK.
    fn finish_select(&mut self, raw: &FrameVec, sector: u8) -> (r: Result<
        (),
        ReaderError<T::Error>,
    >)
        requires
            old(self).inv(),
            sector <= MAX_SECTOR,
        ensures
            ({
                let run = old(self).state().finish_select(
                    final(self).log(),
                    old(self).log().len() as int,
                    raw.contents(),
                    sector,
                );
                run.out == r && final(self).ran(old(self), run)
            }),
            *final(final(self).link()) == *final(old(self).link()),
    {
        match Command::SectorSelectPart1.parse_answer(frame_slice(raw)) {
            Ok(Answer::Ack) => {},
            Ok(Answer::Nack(code)) => return Err(ReaderError::from(Type2Error::Nack(code))),
            Ok(_) => return Err(ReaderError::from(Type2Error::InvalidLength)),
            Err(e) => return Err(ReaderError::from(e)),
        }

        // Packet 2: [sector_no, 0x00, 0x00, 0x00], with passive ACK (silence) on
        // success. An error here is ambiguous: the tag may have applied the
        // selection anyway, so the state stays Unknown.
        let cmd2 = Command::SectorSelectPart2 { sector_no: sector };
        let bytes2 = cmd2.to_bytes();
        let nack = match self.transceiver.transceive_no_response(frame_slice(&bytes2)) {
            Ok(nack) => nack,
            Err(e) => return Err(ReaderError::Transceiver(e)),
        };
        if let Some(nack_code) = nack {
            return Err(ReaderError::from(Type2Error::Nack(nack_code)));
        }
        self.sector = SectorState::Known(sector);
        Ok(())
    }

    /// Read 4 blocks (16 bytes) starting at `block_no` in the current sector.
    ///
    /// Results are cached; subsequent reads of the same block will
    /// be served from the cache without an RF transaction. Transceiver
    /// errors are retried up to `max_retries` times.
    pub fn read(&mut self, block_no: u8) -> (r: Result<[u8; 16], ReaderError<T::Error>>)
        requires
            old(self).inv(),
        ensures
            ({
                let run = old(self).state().read(
                    final(self).log(),
                    old(self).log().len() as int,
                    block_no,
                );
                run.out == block_out(r) && final(self).ran(old(self), run)
            }),
            *final(final(self).link()) == *final(old(self).link()),
    {
        if let Some(cached_block) = self.cache_block {
            if block_no == cached_block {
                return Ok(self.cache_data);
            }
        }
        let cmd = Command::Read { block_no };
        let bytes = cmd.to_bytes();
        let raw = match self.transceive_with_retry(frame_slice(&bytes)) {
            Ok(raw) => raw,
            Err(e) => return Err(e),
        };
        match cmd.parse_answer(frame_slice(&raw)) {
            Ok(Answer::Data(data)) => {
                self.cache_block = Some(block_no);
                self.cache_data = data;
                Ok(data)
            },
            Ok(Answer::Nack(code)) => Err(ReaderError::from(Type2Error::Nack(code))),
            Ok(_) => Err(ReaderError::from(Type2Error::InvalidLength)),
            Err(e) => Err(ReaderError::from(e)),
        }
    }

    /// Write 4 bytes to `block_no` in the current sector.
    ///
    /// Invalidates the read cache since the tag memory has changed.
    /// Transceiver errors are retried up to `max_retries` times.
    pub fn write(&mut self, block_no: u8, data: [u8; 4]) -> (r: Result<(), ReaderError<T::Error>>)
        requires
            old(self).inv(),
        ensures
            ({
                let run = old(self).state().write(
                    final(self).log(),
                    old(self).log().len() as int,
                    block_no,
                    data,
                );
                run.out == r && final(self).ran(old(self), run)
            }),
            *final(final(self).link()) == *final(old(self).link()),
    {
        let cmd = Command::Write { block_no, data };
        let bytes = cmd.to_bytes();
        let raw = match self.transceive_with_retry(frame_slice(&bytes)) {
            Ok(raw) => raw,
            Err(e) => return Err(e),
        };
        self.invalidate_cache();
        match cmd.parse_answer(frame_slice(&raw)) {
            Ok(Answer::Ack) => Ok(()),
            Ok(Answer::Nack(code)) => Err(ReaderError::from(Type2Error::Nack(code))),
            Ok(_) => Err(ReaderError::from(Type2Error::InvalidLength)),
            Err(e) => Err(ReaderError::from(e)),
        }
    }

    /// Select a sector (for tags > 1 KB).
    ///
    /// Sends SECTOR SELECT Packet 1, expects ACK, then sends Packet 2
    /// and expects passive ACK (silence). Invalidates the read cache.
    /// Packet 1 retries on transceiver errors; Packet 2 does not retry
    /// since passive ACK (silence) makes retry semantics ambiguous.
    pub fn sector_select(&mut self, sector: u8) -> (r: Result<(), ReaderError<T::Error>>)
        requires
            old(self).inv(),
        ensures
            ({
                let run = old(self).state().select(
                    final(self).log(),
                    old(self).log().len() as int,
                    sector,
                );
                run.out == r && final(self).ran(old(self), run)
            }),
            *final(final(self).link()) == *final(old(self).link()),
    {
        // Sector 0xFF is reserved by the protocol and must never be selected.
        if sector > MAX_SECTOR {
            return Err(ReaderError::from(Type2Error::OutOfRange));
        }
        if self.sector == SectorState::Known(sector) {
            return Ok(());
        }
        let mut left = self.max_retries;
        let ghost start = self.state();
        let ghost pos = self.log().len() as int;
        loop
            invariant
                self.inv(),
                sector <= MAX_SECTOR,
                start == old(self).state(),
                start.sector != SectorState::Known(sector),
                pos == old(self).log().len(),
                old(self).log().is_prefix_of(self.log()),
                *final(self.link()) == *final(old(self).link()),
                forall|longer: Seq<Exchange<T::Error>>|
                    self.log().is_prefix_of(longer) ==> #[trigger] start.retry_select(
                        longer,
                        pos,
                        sector,
                        start.retries,
                    ) == self.state().retry_select(
                        longer,
                        self.log().len() as int,
                        sector,
                        left as nat,
                    ),
            decreases left,
        {
            let ghost before = self.log();
            let ghost state = self.state();
            let answer = self.start_select();
            let ghost now = self.log();
            assert(before.is_prefix_of(now));
            assert(now[before.len() as int] == Exchange::framed(
                Command::SectorSelectPart1.wire(),
                answer,
            ));
            match answer {
                Ok(raw) => {
                    let result = self.finish_select(&raw, sector);
                    assert(before.is_prefix_of(self.log()));
                    assert(self.log()[before.len() as int] == now[before.len() as int]);
                    return result;
                },
                Err(e) => {
                    if left == 0 {
                        return Err(ReaderError::Transceiver(e));
                    }
                    proof {
                        assert forall|longer: Seq<Exchange<T::Error>>|
                            now.is_prefix_of(longer) implies #[trigger] start.retry_select(
                            longer,
                            pos,
                            sector,
                            start.retries,
                        ) == self.state().retry_select(
                            longer,
                            now.len() as int,
                            sector,
                            (left - 1) as nat,
                        ) by {
                            assert(before.is_prefix_of(longer));
                            assert(longer[before.len() as int] == now[before.len() as int]);
                        }
                    }
                    left = left - 1;
                },
            }
        }
    }

    /// Read and parse the Capability Container (block 3).
    pub fn read_cc(&mut self) -> (r: Result<CapabilityContainer, ReaderError<T::Error>>)
        requires
            old(self).inv(),
        ensures
            ({
                let run = old(self).state().read_cc(
                    final(self).log(),
                    old(self).log().len() as int,
                );
                run.out == r && final(self).ran(old(self), run)
            }),
            *final(final(self).link()) == *final(old(self).link()),
    {
        // Ensure the reader is in sector 0 for the CC.
        match self.sector_select(0) {
            Ok(()) => {},
            Err(e) => return Err(e),
        }
        let ghost selected = self.log();
        let result = self.read(CC_BLOCK);
        proof {
            old(self).state().lemma_select_stable(
                selected,
                self.log(),
                old(self).log().len() as int,
                0,
            );
        }
        let data = match result {
            Ok(data) => data,
            Err(e) => return Err(e),
        };
        match CapabilityContainer::try_from([data[0], data[1], data[2], data[3]]) {
            Ok(cc) => Ok(cc),
            Err(e) => Err(ReaderError::from(e)),
        }
    }

    /// The four bytes of a block, from the cached READ response where it reaches that far.
    fn read_page(&mut self, block_no: u8) -> (r: Result<[u8; 4], ReaderError<T::Error>>)
        requires
            old(self).inv(),
        ensures
            ({
                let run = old(self).state().read_page(
                    final(self).log(),
                    old(self).log().len() as int,
                    block_no,
                );
                &&& match r {
                    Ok(page) => run.out is Ok && run.out->Ok_0 == page@,
                    Err(e) => run.out == Err::<Seq<u8>, ReaderError<T::Error>>(e),
                }
                &&& final(self).ran(old(self), run)
            }),
            *final(final(self).link()) == *final(old(self).link()),
    {
        if let Some(first) = self.cache_block {
            let ahead = block_no.wrapping_sub(first);
            assert(ahead == (block_no - first) % 256);
            if ahead < 4 {
                let at = ahead as usize * BLOCK_SIZE;
                let page = [
                    self.cache_data[at],
                    self.cache_data[at + 1],
                    self.cache_data[at + 2],
                    self.cache_data[at + 3],
                ];
                assert(page@ =~= self.cache_data@.subrange(at as int, at + 4));
                return Ok(page);
            }
        }
        match self.read(block_no) {
            Ok(data) => {
                let page = [data[0], data[1], data[2], data[3]];
                assert(page@ =~= data@.subrange(0, 4));
                Ok(page)
            },
            Err(e) => Err(e),
        }
    }

    /// Read the raw data area bytes, skipping lock and reserved areas.
    ///
    /// Returns the contiguous data area bytes with lock/reserved regions
    /// removed. Stops early when a Terminator TLV (`0xFE`) is encountered
    /// at a TLV tag position, avoiding unnecessary reads past the end of
    /// meaningful data.
    pub fn read_data_area(&mut self, layout: &MemoryLayout) -> (r: Result<
        DataVec,
        ReaderError<T::Error>,
    >)
        requires
            old(self).inv(),
            layout@.in_bounds(),
        ensures
            ({
                let run = old(self).state().read_area(
                    final(self).log(),
                    old(self).log().len() as int,
                    layout@,
                );
                run.out == data_out(r) && final(self).ran(old(self), run)
            }),
            *final(final(self).link()) == *final(old(self).link()),
    {
        let mut result = data_new();
        match self.collect_data_area(layout, &mut result) {
            Ok(true) => Ok(result),
            Ok(false) => Err(ReaderError::from(Type2Error::BufferFull)),
            Err(e) => Err(e),
        }
    }

    /// Read the data area into an empty buffer. Returns whether all of it is there; otherwise the
    /// buffer ran full.
    fn collect_data_area(&mut self, layout: &MemoryLayout, result: &mut DataVec) -> (r: Result<
        bool,
        ReaderError<T::Error>,
    >)
        requires
            old(self).inv(),
            layout@.in_bounds(),
            old(result).contents().len() == 0,
        ensures
            ({
                let run = old(self).state().scan_area(
                    final(self).log(),
                    old(self).log().len() as int,
                    layout@,
                );
                &&& match r {
                    Ok(all) => run.out == Ok::<(Seq<u8>, bool), ReaderError<T::Error>>(
                        (final(result).contents(), all),
                    ),
                    Err(e) => run.out == Err::<(Seq<u8>, bool), ReaderError<T::Error>>(e),
                }
                &&& final(self).ran(old(self), run)
            }),
            *final(final(self).link()) == *final(old(self).link()),
    {
        assert(result.contents() =~= seq![]);
        let mut tlv_scan = TlvScanner::new();
        let mut byte_addr: u32 = DATA_START;
        let ghost start = self.state();
        let ghost pos = self.log().len() as int;

        while data_slice(result).len() < layout.data_area_size as usize
            invariant
                self.inv(),
                layout@.in_bounds(),
                start == old(self).state(),
                pos == old(self).log().len(),
                old(self).log().is_prefix_of(self.log()),
                *final(self.link()) == *final(old(self).link()),
                byte_addr <= ADDRESS_SPACE_END,
                byte_addr % 4 == 0,
                forall|longer: Seq<Exchange<T::Error>>|
                    self.log().is_prefix_of(longer) ==> #[trigger] start.collect_area(
                        longer,
                        pos,
                        layout@,
                        DATA_START as int,
                        seq![],
                        TlvScanState::Tag,
                    ) == self.state().collect_area(
                        longer,
                        self.log().len() as int,
                        layout@,
                        byte_addr as int,
                        result.contents(),
                        tlv_scan.state,
                    ),
            decreases ADDRESS_SPACE_END + 4 - byte_addr,
        {
            let ghost before = self.log();
            let ghost state = self.state();
            let ghost acc = result.contents();
            let ghost scan = tlv_scan.state;
            let (sector, block, _) = match MemoryLayout::locate(byte_addr) {
                Some(place) => place,
                None => return Err(ReaderError::from(Type2Error::OutOfRange)),
            };

            // Switch sector if needed.
            match self.sector_select(sector) {
                Ok(()) => {},
                Err(e) => return Err(e),
            }
            let ghost selected = self.log();
            let ghost select = state.select(selected, before.len() as int, sector);

            // The persistent cache avoids redundant RF reads when blocks fall
            // within the same 16-byte READ response.
            let fetched = self.read_page(block);
            let ghost now = self.log();
            proof {
                state.lemma_select_stable(selected, now, before.len() as int, sector);
            }
            let page = match fetched {
                Ok(page) => page,
                Err(e) => return Err(e),
            };
            let taken = collect_block(layout, byte_addr, &page, result, &mut tlv_scan);
            match taken {
                None => {},
                Some(all) => return Ok(all),
            }
            proof {
                assert forall|longer: Seq<Exchange<T::Error>>|
                    now.is_prefix_of(longer) implies #[trigger] start.collect_area(
                    longer,
                    pos,
                    layout@,
                    DATA_START as int,
                    seq![],
                    TlvScanState::Tag,
                ) == self.state().collect_area(
                    longer,
                    now.len() as int,
                    layout@,
                    byte_addr + 4,
                    result.contents(),
                    tlv_scan.state,
                ) by {
                    assert(selected.is_prefix_of(longer));
                    assert(before.is_prefix_of(longer));
                    state.lemma_select_stable(selected, longer, before.len() as int, sector);
                    select.state.lemma_read_page_stable(now, longer, select.end, block);
                }
            }
            byte_addr += 4;
        }
        Ok(true)
    }

    /// Read the data area, and read it again with the proper layout where control TLVs ask for
    /// that.
    ///
    /// For dynamic tags with Lock/Memory Control TLVs, performs a
    /// two-pass read: first pass discovers the control TLVs, second
    /// pass re-reads with the proper layout that skips lock/reserved
    /// areas. For static tags, a single pass suffices.
    ///
    /// Lock or reserved bytes may break up the blocks that the first pass
    /// sees. If it cannot parse them all, it goes by the control TLVs
    /// before the NDEF Message TLV.
    ///
    /// The persistent read cache makes the second pass cheap when
    /// blocks overlap with the first pass.
    fn read_data_area_with_layout(&mut self, cc: &CapabilityContainer) -> (r: Result<
        DataVec,
        ReaderError<T::Error>,
    >)
        requires
            old(self).inv(),
        ensures
            ({
                let run = old(self).state().read_tlv_area(
                    final(self).log(),
                    old(self).log().len() as int,
                    *cc,
                );
                run.out == data_out(r) && final(self).ran(old(self), run)
            }),
            *final(final(self).link()) == *final(old(self).link()),
    {
        let ghost start = self.state();
        let ghost pos = self.log().len() as int;
        let none: [Tlv; 0] = [];
        let basic_layout = MemoryLayout::from_cc_and_tlvs(cc, none.as_slice());
        let ghost basic = LayoutView::of(*cc, seq![]);
        proof {
            assert(super::tlv::views(none@) =~= seq![]);
            LayoutView::law_layout_in_bounds(*cc, seq![]);
        }
        let mut data_area = data_new();
        let complete = match self.collect_data_area(&basic_layout, &mut data_area) {
            Ok(complete) => complete,
            Err(e) => return Err(e),
        };
        let ghost first = self.log();

        // For dynamic tags: if Lock/Memory Control TLVs were found,
        // re-read with the proper layout that skips those areas.
        if cc.is_dynamic() {
            let blocks = tlv::announced(data_slice(&data_area), complete);
            if tlv::any_control(tlv::tlvs_slice(&blocks)) {
                proof {
                    lemma_announced_layout(
                        *cc,
                        data_area.contents(),
                        complete,
                        super::tlv::tlv_items(blocks),
                    );
                }
                let full_layout = MemoryLayout::from_cc_and_tlvs(cc, tlv::tlvs_slice(&blocks));
                let result = self.read_data_area(&full_layout);
                proof {
                    start.lemma_scan_area_stable(first, self.log(), pos, basic);
                }
                return result;
            }
        }
        if complete {
            Ok(data_area)
        } else {
            Err(ReaderError::from(Type2Error::BufferFull))
        }
    }

    /// Detect and read the NDEF message from the tag.
    ///
    /// Performs the NDEF detection procedure (Section 6.4.1):
    /// 1. Read CC
    /// 2. Validate CC
    /// 3. Read data area and parse TLVs
    /// 4. Find first NDEF Message TLV
    ///
    /// Returns the raw NDEF message bytes, or nothing if no NDEF
    /// message is present (INITIALIZED state).
    pub fn read_ndef(&mut self) -> (r: Result<DataVec, ReaderError<T::Error>>)
        requires
            old(self).inv(),
        ensures
            ({
                let run = old(self).state().read_ndef(
                    final(self).log(),
                    old(self).log().len() as int,
                );
                run.out == data_out(r) && final(self).ran(old(self), run)
            }),
            *final(final(self).link()) == *final(old(self).link()),
    {
        let ghost start = self.state();
        let ghost pos = self.log().len() as int;
        let cc = match self.read_cc() {
            Ok(cc) => cc,
            Err(e) => return Err(e),
        };
        let ghost head = self.log();
        if !cc.is_valid() {
            return Err(ReaderError::from(Type2Error::InvalidMagic(0)));
        }
        let area = self.read_data_area_with_layout(&cc);
        proof {
            start.lemma_read_cc_stable(head, self.log(), pos);
        }
        let data_area = match area {
            Ok(data_area) => data_area,
            Err(e) => return Err(e),
        };
        let tlvs = match tlv::parse_tlvs(data_slice(&data_area)) {
            Ok(tlvs) => tlvs,
            Err(e) => return Err(ReaderError::from(e)),
        };
        Ok(find_ndef(tlv::tlvs_slice(&tlvs)))
    }

    /// Write an NDEF message to the tag.
    ///
    /// Implements the NDEF write procedure (Section 6.4.3):
    /// 1. Read CC and verify INITIALIZED or READ/WRITE state
    /// 2. Read data area to find NDEF Message TLV position
    /// 3. Write L=0 to NDEF Message TLV
    /// 4. Write NDEF message data
    /// 5. Write Terminator TLV
    /// 6. Update L field with actual length
    ///
    /// `ndef_data` should be raw NDEF bytes.
    pub fn write_ndef(&mut self, ndef_data: &[u8]) -> (r: Result<(), ReaderError<T::Error>>)
        requires
            old(self).inv(),
        ensures
            ({
                let run = old(self).state().write_ndef(
                    final(self).log(),
                    old(self).log().len() as int,
                    ndef_data@,
                );
                run.out == r && final(self).ran(old(self), run)
            }),
            *final(final(self).link()) == *final(old(self).link()),
    {
        let ghost start = self.state();
        let ghost pos = self.log().len() as int;
        // Everything that can be refused is refused before any WRITE is issued.
        let plan = match self.prepare_write(ndef_data) {
            Ok(plan) => plan,
            Err(e) => return Err(e),
        };
        let ghost prepared = self.log();
        let result = self.commit_write(&plan);
        proof {
            start.lemma_prepare_stable(prepared, self.log(), pos, ndef_data@);
        }
        result
    }

    /// Find out, by reading alone, what has to be written where.
    fn prepare_write(&mut self, ndef_data: &[u8]) -> (r: Result<NdefPlan, ReaderError<T::Error>>)
        requires
            old(self).inv(),
        ensures
            ({
                let run = old(self).state().prepare(
                    final(self).log(),
                    old(self).log().len() as int,
                    ndef_data@,
                );
                &&& match r {
                    Ok(plan) => {
                        &&& run.out == Ok::<WritePlan, ReaderError<T::Error>>(plan@)
                        &&& plan@.layout.in_bounds()
                    },
                    Err(e) => run.out == Err::<WritePlan, ReaderError<T::Error>>(e),
                }
                &&& final(self).ran(old(self), run)
            }),
            *final(final(self).link()) == *final(old(self).link()),
    {
        let ghost start = self.state();
        let ghost pos = self.log().len() as int;
        let cc = match self.read_cc() {
            Ok(cc) => cc,
            Err(e) => return Err(e),
        };
        let ghost head = self.log();
        if !cc.is_valid() {
            return Err(ReaderError::from(Type2Error::InvalidMagic(0)));
        }
        if cc.write_access != AccessCondition::Granted {
            return Err(ReaderError::from(Type2Error::ReadOnly));
        }

        // Read the data area to find the NDEF Message TLV position.
        let area = self.read_data_area_with_layout(&cc);
        proof {
            start.lemma_read_cc_stable(head, self.log(), pos);
        }
        let data_area = match area {
            Ok(data_area) => data_area,
            Err(e) => return Err(e),
        };
        let tlvs = match tlv::parse_tlvs(data_slice(&data_area)) {
            Ok(tlvs) => tlvs,
            Err(e) => return Err(ReaderError::from(e)),
        };
        proof {
            lemma_parsed_layout(cc, data_area.contents(), super::tlv::tlv_items(tlvs));
        }
        let position = tlv::ndef_position(data_slice(&data_area));
        match NdefPlan::make(&cc, tlv::tlvs_slice(&tlvs), position, ndef_data) {
            Ok(plan) => Ok(plan),
            Err(e) => Err(ReaderError::from(e)),
        }
    }

    /// Write the block of a plan with a zero length, and then the length.
    fn commit_write(&mut self, plan: &NdefPlan) -> (r: Result<(), ReaderError<T::Error>>)
        requires
            old(self).inv(),
            plan@.layout.in_bounds(),
        ensures
            ({
                let run = old(self).state().commit(
                    final(self).log(),
                    old(self).log().len() as int,
                    plan@,
                );
                run.out == r && final(self).ran(old(self), run)
            }),
            *final(final(self).link()) == *final(old(self).link()),
    {
        let ghost start = self.state();
        let ghost pos = self.log().len() as int;
        // Write the payload over usable bytes only, jumping lock/reserved
        // regions so they are never modified.
        let block = self.write_usable_bytes(
            &plan.layout,
            plan.start,
            data_slice(&plan.payload),
            plan.limit,
        );
        let ghost written = self.log();
        match block {
            Ok(()) => {},
            Err(e) => return Err(e),
        }

        // Crash-safe length update: set the real L field last, again through
        // the skip-aware path.
        let result = self.write_usable_bytes(
            &plan.layout,
            plan.length_start,
            data_slice(&plan.length_field),
            plan.limit,
        );
        proof {
            start.lemma_write_bytes_stable(
                written,
                self.log(),
                pos,
                plan@.layout,
                plan@.start,
                plan@.payload,
                0,
                plan@.limit,
            );
        }
        result
    }

    /// Write `data` across the usable (non-skip) bytes of the data area,
    /// starting at physical `start_addr` and jumping over lock and reserved
    /// regions described by `layout` so they are preserved.
    ///
    /// Skip bytes that fall inside a written page are kept via
    /// read-modify-write; a fully usable, fully covered page is written
    /// directly. `limit_addr` is an exclusive physical bound: reaching it
    /// before `data` is consumed returns [`Type2Error::OutOfRange`], so a
    /// malformed layout cannot drive writes out of the data area.
    fn write_usable_bytes(
        &mut self,
        layout: &MemoryLayout,
        start_addr: u32,
        data: &[u8],
        limit_addr: u32,
    ) -> (r: Result<(), ReaderError<T::Error>>)
        requires
            old(self).inv(),
            layout@.in_bounds(),
        ensures
            ({
                let run = old(self).state().write_bytes(
                    final(self).log(),
                    old(self).log().len() as int,
                    layout@,
                    start_addr as int,
                    data@,
                    0,
                    limit_addr as int,
                );
                run.out == r && final(self).ran(old(self), run)
            }),
            *final(final(self).link()) == *final(old(self).link()),
    {
        let ghost start = self.state();
        let ghost pos = self.log().len() as int;
        let mut di: usize = 0;
        let mut addr: u32 = start_addr;
        while di < data.len()
            invariant
                self.inv(),
                layout@.in_bounds(),
                start == old(self).state(),
                pos == old(self).log().len(),
                old(self).log().is_prefix_of(self.log()),
                *final(self.link()) == *final(old(self).link()),
                di <= data@.len(),
                forall|longer: Seq<Exchange<T::Error>>|
                    self.log().is_prefix_of(longer) ==> #[trigger] start.write_bytes(
                        longer,
                        pos,
                        layout@,
                        start_addr as int,
                        data@,
                        0,
                        limit_addr as int,
                    ) == self.state().write_bytes(
                        longer,
                        self.log().len() as int,
                        layout@,
                        addr as int,
                        data@,
                        di as int,
                        limit_addr as int,
                    ),
            decreases u32::MAX - addr,
        {
            let ghost before = self.log();
            let ghost state = self.state();
            let next = match self.write_usable_block(layout, addr, data, di, limit_addr) {
                Ok(next) => next,
                Err(e) => return Err(e),
            };
            let ghost now = self.log();
            let ghost after = addr - addr % 4 + 4;
            proof {
                assert forall|longer: Seq<Exchange<T::Error>>|
                    now.is_prefix_of(longer) implies #[trigger] start.write_bytes(
                    longer,
                    pos,
                    layout@,
                    start_addr as int,
                    data@,
                    0,
                    limit_addr as int,
                ) == self.state().write_bytes(
                    longer,
                    now.len() as int,
                    layout@,
                    after,
                    data@,
                    next as int,
                    limit_addr as int,
                ) by {
                    assert(before.is_prefix_of(longer));
                    state.lemma_write_block_stable(
                        now,
                        longer,
                        before.len() as int,
                        layout@,
                        addr as int,
                        data@,
                        di as int,
                        limit_addr as int,
                    );
                }
            }
            di = next;
            addr = addr - addr % BLOCK_SIZE as u32 + BLOCK_SIZE as u32;
        }
        Ok(())
    }

    /// Write `data[di..]` to the usable bytes of the block of `addr`, from `addr` on, and return
    /// how far in the data that got.
    fn write_usable_block(
        &mut self,
        layout: &MemoryLayout,
        addr: u32,
        data: &[u8],
        di: usize,
        limit_addr: u32,
    ) -> (r: Result<usize, ReaderError<T::Error>>)
        requires
            old(self).inv(),
            layout@.in_bounds(),
            di <= data@.len(),
        ensures
            ({
                let run = old(self).state().write_block(
                    final(self).log(),
                    old(self).log().len() as int,
                    layout@,
                    addr as int,
                    data@,
                    di as int,
                    limit_addr as int,
                );
                &&& match r {
                    Ok(next) => run.out == Ok::<int, ReaderError<T::Error>>(next as int) && di
                        <= next <= data@.len() && addr < ADDRESS_SPACE_END,
                    Err(e) => run.out == Err::<int, ReaderError<T::Error>>(e),
                }
                &&& final(self).ran(old(self), run)
            }),
            *final(final(self).link()) == *final(old(self).link()),
    {
        let ghost state = self.state();
        let ghost pos = self.log().len() as int;
        if addr >= limit_addr {
            return Err(ReaderError::from(Type2Error::OutOfRange));
        }
        let (sector, block, offset) = match MemoryLayout::locate(addr) {
            Some(place) => place,
            None => return Err(ReaderError::from(Type2Error::OutOfRange)),
        };
        match self.sector_select(sector) {
            Ok(()) => {},
            Err(e) => return Err(e),
        }
        let ghost selected = self.log();
        let page_base = addr - offset as u32;

        // Fast path: a fully usable page that remaining data fully covers
        // needs no read-modify-write.
        if offset == 0 && data.len() - di >= BLOCK_SIZE && page_all_usable(layout, page_base) {
            if page_base + BLOCK_SIZE as u32 > limit_addr {
                return Err(ReaderError::from(Type2Error::OutOfRange));
            }
            let page = [data[di], data[di + 1], data[di + 2], data[di + 3]];
            let written = self.write(block, page);
            proof {
                state.lemma_select_stable(selected, self.log(), pos, sector);
            }
            return match written {
                Ok(()) => Ok(di + BLOCK_SIZE),
                Err(e) => Err(e),
            };
        }

        let result = self.merge_usable_block(layout, addr, data, di, limit_addr);
        proof {
            state.lemma_select_stable(selected, self.log(), pos, sector);
        }
        result
    }

    /// Read-modify-write of the block of `addr` in the selected sector: places `data[di..]` on its
    /// usable bytes from `addr` on, preserves any lock/reserved byte, and returns how far in the
    /// data that got.
    fn merge_usable_block(
        &mut self,
        layout: &MemoryLayout,
        addr: u32,
        data: &[u8],
        di: usize,
        limit_addr: u32,
    ) -> (r: Result<usize, ReaderError<T::Error>>)
        requires
            old(self).inv(),
            layout@.in_bounds(),
            addr < ADDRESS_SPACE_END,
            di <= data@.len(),
        ensures
            ({
                let run = old(self).state().merge_block(
                    final(self).log(),
                    old(self).log().len() as int,
                    layout@,
                    addr as int,
                    data@,
                    di as int,
                    limit_addr as int,
                );
                &&& match r {
                    Ok(next) => run.out == Ok::<int, ReaderError<T::Error>>(next as int) && di
                        <= next <= data@.len(),
                    Err(e) => run.out == Err::<int, ReaderError<T::Error>>(e),
                }
                &&& final(self).ran(old(self), run)
            }),
            *final(final(self).link()) == *final(old(self).link()),
    {
        let ghost state = self.state();
        let ghost pos = self.log().len() as int;
        let block = (addr % SECTOR_SIZE as u32 / BLOCK_SIZE as u32) as u8;
        let offset = (addr % BLOCK_SIZE as u32) as u8;
        let page_base = addr - offset as u32;
        let cur = match self.read(block) {
            Ok(cur) => cur,
            Err(e) => return Err(e),
        };
        let ghost got = self.log();
        let mut page = [cur[0], cur[1], cur[2], cur[3]];
        assert(page@ =~= cur@.subrange(0, 4));
        let next = match merge_block(layout, page_base, offset, &mut page, data, di, limit_addr) {
            Some(next) => next,
            None => return Err(ReaderError::from(Type2Error::OutOfRange)),
        };
        if next == di {
            return Ok(next);
        }
        let written = self.write(block, page);
        proof {
            assert(page =~= [page@[0], page@[1], page@[2], page@[3]]);
            state.lemma_read_stable(got, self.log(), pos, block);
        }
        match written {
            Ok(()) => Ok(next),
            Err(e) => Err(e),
        }
    }
}

/// The TLV blocks of a parse describe a layout whose areas lie in the address space.
proof fn lemma_parsed_layout(cc: CapabilityContainer, data: Seq<u8>, tlvs: Seq<Tlv>)
    requires
        TlvView::parsed(data) == Ok::<Seq<TlvView>, Type2Error>(super::tlv::views(tlvs)),
    ensures
        forall|i: int|
            0 <= i < tlvs.len() ==> match #[trigger] tlvs[i] {
                Tlv::LockControl(lc) => lc.in_bounds(),
                Tlv::MemoryControl(mc) => mc.in_bounds(),
                _ => true,
            },
        LayoutView::of(cc, super::tlv::views(tlvs)).in_bounds(),
{
    let all = super::tlv::views(tlvs);
    let parsed = TlvView::parsed_from(data, 0, TLV_CAPACITY as nat)->Ok_0;
    TlvView::law_parsed_areas_in_space(data, 0, TLV_CAPACITY as nat);
    assert forall|i: int| 0 <= i < all.len() implies (#[trigger] all[i]).area_in_space() by {
        assert(parsed[i].area_in_space());
    }
    LayoutView::law_layout_in_bounds(cc, all);
    assert forall|i: int| 0 <= i < tlvs.len() implies match #[trigger] tlvs[i] {
        Tlv::LockControl(lc) => lc.in_bounds(),
        Tlv::MemoryControl(mc) => mc.in_bounds(),
        _ => true,
    } by {
        assert(all[i] == tlvs[i]@);
        assert(all[i].area_in_space());
    }
}

/// The control blocks that a data area announces describe a layout whose areas lie in the address
/// space.
proof fn lemma_announced_layout(
    cc: CapabilityContainer,
    data: Seq<u8>,
    complete: bool,
    tlvs: Seq<Tlv>,
)
    requires
        TlvView::announced(data, complete) == super::tlv::views(tlvs),
    ensures
        forall|i: int|
            0 <= i < tlvs.len() ==> match #[trigger] tlvs[i] {
                Tlv::LockControl(lc) => lc.in_bounds(),
                Tlv::MemoryControl(mc) => mc.in_bounds(),
                _ => true,
            },
        LayoutView::of(cc, super::tlv::views(tlvs)).in_bounds(),
{
    let all = super::tlv::views(tlvs);
    TlvView::law_announced_areas_in_space(data, complete);
    assert forall|i: int| 0 <= i < all.len() implies (#[trigger] all[i]).area_in_space() by {
        assert(TlvView::announced(data, complete)[i].area_in_space());
    }
    LayoutView::law_layout_in_bounds(cc, all);
    assert forall|i: int| 0 <= i < tlvs.len() implies match #[trigger] tlvs[i] {
        Tlv::LockControl(lc) => lc.in_bounds(),
        Tlv::MemoryControl(mc) => mc.in_bounds(),
        _ => true,
    } by {
        assert(all[i] == tlvs[i]@);
        assert(all[i].area_in_space());
    }
}

/// The value of the first NDEF Message TLV, or nothing if there is none.
fn find_ndef(tlvs: &[Tlv]) -> (r: DataVec)
    ensures
        r.contents() == TlvView::first_ndef(super::tlv::views(tlvs@)),
{
    let ghost all = super::tlv::views(tlvs@);
    let mut i: usize = 0;
    assert(all.skip(0) =~= all);
    while i < tlvs.len()
        invariant
            0 <= i <= tlvs@.len(),
            all == super::tlv::views(tlvs@),
            TlvView::first_ndef(all) == TlvView::first_ndef(all.skip(i as int)),
        decreases tlvs@.len() - i,
    {
        assert(all.skip(i as int).first() == tlvs@[i as int]@);
        assert(all.skip(i as int).drop_first() =~= all.skip(i + 1));
        if let Tlv::NdefMessage(data) = &tlvs[i] {
            return data_clone(data);
        }
        i += 1;
    }
    data_new()
}

/// Whether no byte of the block at `page_base` lies in a lock or reserved area.
fn page_all_usable(layout: &MemoryLayout, page_base: u32) -> (r: bool)
    requires
        layout@.in_bounds(),
        page_base < ADDRESS_SPACE_END,
    ensures
        r == (!layout@.skips(page_base as int) && !layout@.skips(page_base + 1) && !layout@.skips(
            page_base + 2,
        ) && !layout@.skips(page_base + 3)),
{
    let mut i: u32 = 0;
    while i < BLOCK_SIZE as u32
        invariant
            0 <= i <= 4,
            layout@.in_bounds(),
            page_base < ADDRESS_SPACE_END,
            forall|j: int| 0 <= j < i ==> !#[trigger] layout@.skips(page_base + j),
        decreases 4 - i,
    {
        if layout.is_skip_area(page_base + i) {
            return false;
        }
        i += 1;
    }
    assert(!layout@.skips(page_base + 0));
    true
}

/// Places `data[di..]` on the usable bytes of a block, from its byte `offset` on, and returns how
/// far in the data that got, or `None` if it would have gone past `limit_addr`.
fn merge_block(
    layout: &MemoryLayout,
    page_base: u32,
    offset: u8,
    page: &mut [u8; 4],
    data: &[u8],
    di: usize,
    limit_addr: u32,
) -> (r: Option<usize>)
    requires
        layout@.in_bounds(),
        page_base < ADDRESS_SPACE_END,
        offset < 4,
        di <= data@.len(),
    ensures
        match layout@.merge(
            page_base as int,
            offset as int,
            old(page)@,
            data@,
            di as int,
            limit_addr as int,
        ) {
            Some((merged, next)) => r matches Some(n) && n == next && di <= n <= data@.len()
                && final(page)@ == merged,
            None => r is None,
        },
{
    let mut i: usize = offset as usize;
    let mut next: usize = di;
    while i < BLOCK_SIZE && next < data.len()
        invariant
            offset <= i <= BLOCK_SIZE,
            di <= next <= data@.len(),
            layout@.in_bounds(),
            page_base < ADDRESS_SPACE_END,
            layout@.merge(
                page_base as int,
                offset as int,
                old(page)@,
                data@,
                di as int,
                limit_addr as int,
            ) == layout@.merge(
                page_base as int,
                i as int,
                page@,
                data@,
                next as int,
                limit_addr as int,
            ),
        decreases BLOCK_SIZE - i,
    {
        let a = page_base + i as u32;
        if a >= limit_addr {
            return None;
        }
        // Preserve lock/reserved bytes.
        if !layout.is_skip_area(a) {
            page[i] = data[next];
            next += 1;
        }
        i += 1;
    }
    Some(next)
}

/// A position in the data area, as a number.
spec fn position_view(position: Option<usize>) -> Option<int> {
    match position {
        Some(at) => Some(at as int),
        None => None,
    }
}

/// What has to be written where to put an NDEF message on a tag.
struct NdefPlan {
    layout: MemoryLayout,
    start: u32,
    limit: u32,
    payload: DataVec,
    length_start: u32,
    length_field: DataVec,
}

impl NdefPlan {
    spec fn view(&self) -> WritePlan {
        WritePlan {
            layout: self.layout@,
            start: self.start as int,
            limit: self.limit as int,
            payload: self.payload.contents(),
            length_start: self.length_start as int,
            length_field: self.length_field.contents(),
        }
    }

    /// Works out where the message goes, or why it cannot be written.
    fn make(
        cc: &CapabilityContainer,
        tlvs: &[Tlv],
        position: Option<usize>,
        ndef_data: &[u8],
    ) -> (r: Result<NdefPlan, Type2Error>)
        requires
            position matches Some(at) ==> at < DATA_CAPACITY,
            forall|i: int|
                0 <= i < tlvs@.len() ==> match #[trigger] tlvs@[i] {
                    Tlv::LockControl(lc) => lc.in_bounds(),
                    Tlv::MemoryControl(mc) => mc.in_bounds(),
                    _ => true,
                },
            LayoutView::of(*cc, super::tlv::views(tlvs@)).in_bounds(),
        ensures
            match WritePlan::of(
                *cc,
                super::tlv::views(tlvs@),
                position_view(position),
                ndef_data@,
            ) {
                Ok(plan) => r matches Ok(p) && p@ == plan && p@.layout.in_bounds(),
                Err(e) => r == Err::<NdefPlan, Type2Error>(e),
            },
    {
        // Reject lengths that cannot be encoded in the NDEF Message TLV
        // length field before any arithmetic. The 3-byte length format is
        // `0xFF` followed by a big-endian u16, and `0xFFFF` is reserved, so
        // the largest encodable value is `0xFFFE`.
        if ndef_data.len() > MAX_TLV_LENGTH as usize {
            return Err(Type2Error::OutOfRange);
        }
        let ndef_len = ndef_data.len() as u16;
        let mut length_field = data_new();
        match crate::tlv::encode_tlv_length(ndef_len, &mut length_field) {
            Ok(()) => {},
            Err(_) => return Err(Type2Error::BufferFull),
        }
        assert(length_field.contents() =~= crate::tlv::length_field(ndef_len));

        let ndef_offset = match position {
            Some(offset) => offset,
            None => return Err(Type2Error::InvalidTlv),
        };

        // The data area counts only usable (non-skip) bytes, so
        // `data_area_size - ndef_offset` is the exact room left for
        // T + L + V + Terminator.
        let required_end = ndef_offset + 1 + data_slice(&length_field).len() + ndef_data.len() + 1;
        let data_area_size = cc.data_area_size();
        if required_end > data_area_size as usize {
            return Err(Type2Error::OutOfRange);
        }

        // The data area's usable bytes are not contiguous: control regions
        // before the NDEF TLV shift its physical address, and any region
        // within the value must be preserved, not overwritten.
        let layout = MemoryLayout::from_cc_and_tlvs(cc, tlvs);
        let start = match layout.usable_offset_to_address(ndef_offset as u16) {
            Some(addr) => addr,
            None => return Err(Type2Error::OutOfRange),
        };
        let length_start = match layout.usable_offset_to_address(ndef_offset as u16 + 1) {
            Some(addr) => addr,
            None => return Err(Type2Error::OutOfRange),
        };

        // Exclusive physical limit: one byte past the last usable byte of the
        // data area.
        let last = match layout.usable_offset_to_address(data_area_size - 1) {
            Some(addr) => addr,
            None => return Err(Type2Error::OutOfRange),
        };
        proof {
            layout@.lemma_usable_index(data_area_size - 1, ADDRESS_SPACE_END as int);
        }
        let payload = match open_block(ndef_data) {
            Ok(payload) => payload,
            Err(e) => return Err(e),
        };
        Ok(NdefPlan { layout, start, limit: last + 1, payload, length_start, length_field })
    }
}

/// The bytes to write first: `[T=0x03, L=0x00, ...ndef_data..., T=0xFE]`. L is initially 0 for
/// crash safety (Section 6.4.3).
fn open_block(ndef_data: &[u8]) -> (r: Result<DataVec, Type2Error>)
    ensures
        match r {
            Ok(payload) => payload.contents() == WritePlan::open_block(ndef_data@)
                && payload.contents().len() <= DATA_CAPACITY,
            Err(e) => e == Type2Error::BufferFull && WritePlan::open_block(ndef_data@).len()
                > DATA_CAPACITY,
        },
{
    let mut payload = data_new();
    match payload.try_push(TLV_NDEF_MESSAGE) {
        Ok(()) => {},
        Err(e) => return Err(Type2Error::from(e)),
    }
    if ndef_data.len() < 0xFF {
        match payload.try_push(0x00) {
            Ok(()) => {},
            Err(e) => return Err(Type2Error::from(e)),
        }
    } else {
        let open_length: [u8; 3] = [0xFF, 0x00, 0x00];
        match payload.try_extend(open_length.as_slice()) {
            Ok(()) => {},
            Err(e) => return Err(Type2Error::from(e)),
        }
    }
    match payload.try_extend(ndef_data) {
        Ok(()) => {},
        Err(e) => return Err(Type2Error::from(e)),
    }
    match payload.try_push(TLV_TERMINATOR) {
        Ok(()) => {},
        Err(e) => return Err(Type2Error::from(e)),
    }
    assert(payload.contents() =~= WritePlan::open_block(ndef_data@));
    Ok(payload)
}

/// Takes in the bytes of the block at `byte_addr`, leaving out those in lock and reserved areas.
/// Returns `true` once the data area is complete or a Terminator TLV has been taken in, and `false`
/// if the buffer has run full.
fn collect_block(
    layout: &MemoryLayout,
    byte_addr: u32,
    page: &[u8; 4],
    result: &mut DataVec,
    tlv_scan: &mut TlvScanner,
) -> (r: Option<bool>)
    requires
        layout@.in_bounds(),
        byte_addr < ADDRESS_SPACE_END,
    ensures
        match layout@.collect(
            byte_addr as int,
            page@,
            0,
            old(result).contents(),
            old(tlv_scan).state,
        ) {
            Collected::More(acc, scan) => r is None && final(result).contents() == acc
                && final(tlv_scan).state == scan,
            Collected::Complete(acc) => r == Some(true) && final(result).contents() == acc,
            Collected::Full(acc) => r == Some(false) && final(result).contents() == acc,
        },
{
    let mut i: usize = 0;
    while i < BLOCK_SIZE
        invariant
            0 <= i <= BLOCK_SIZE,
            layout@.in_bounds(),
            byte_addr < ADDRESS_SPACE_END,
            layout@.collect(
                byte_addr as int,
                page@,
                0,
                old(result).contents(),
                old(tlv_scan).state,
            ) == layout@.collect(
                byte_addr as int,
                page@,
                i as int,
                result.contents(),
                tlv_scan.state,
            ),
        decreases BLOCK_SIZE - i,
    {
        let addr = byte_addr + i as u32;
        if layout.is_skip_area(addr) {
            i += 1;
            continue ;
        }
        if data_slice(result).len() >= layout.data_area_size as usize {
            return Some(true);
        }
        match result.try_push(page[i]) {
            Ok(()) => {},
            Err(_) => return Some(false),
        }
        if tlv_scan.feed(page[i]) {
            return Some(true);
        }
        i += 1;
    }
    None
}

} // verus!
