//! Fixed-capacity buffers for tag operations.
//!
//! [`FrameVec`] holds command and response frames, [`DataVec`] holds larger
//! payloads (NDEF messages, data areas). Both are [`heapless::Vec`]s. What such
//! a buffer holds is named by [`frame_bytes`] and [`data_bytes`]; the functions
//! below that call into `heapless` state what each call does to it.

use vstd::prelude::*;

verus! {

/// Number of bytes that a [`FrameVec`] can hold.
pub const FRAME_CAPACITY: usize = 20;

/// Number of bytes that a [`DataVec`] can hold.
pub const DATA_CAPACITY: usize = 1024;

/// Buffer for command and response frames (20 bytes cover the 16-byte READ response).
pub type FrameVec = heapless::Vec<u8, FRAME_CAPACITY>;

/// Buffer for larger data: NDEF messages and data areas (up to 1024 bytes).
pub type DataVec = heapless::Vec<u8, DATA_CAPACITY>;

/// `heapless::Vec`, a vector of fixed capacity `N`. Nothing is assumed of its inside.
#[verifier::external_type_specification]
#[verifier::external_body]
#[verifier::reject_recursive_types(T)]
pub struct ExHeaplessVec<T, const N: usize>(heapless::Vec<T, N>);

/// The bytes that a [`FrameVec`] holds, in order.
pub uninterp spec fn frame_bytes(v: FrameVec) -> Seq<u8>;

/// The bytes that a [`DataVec`] holds, in order.
pub uninterp spec fn data_bytes(v: DataVec) -> Seq<u8>;

/// `heapless::Vec::new`: the new vector is empty.
#[verifier::external_body]
pub(crate) fn frame_new() -> (v: FrameVec)
    ensures
        frame_bytes(v) == Seq::<u8>::empty(),
{
    heapless::Vec::new()
}

/// `heapless::Vec::as_slice`: the whole vector as a slice, which is never longer than the
/// capacity.
#[verifier::external_body]
pub(crate) fn frame_slice(v: &FrameVec) -> (s: &[u8])
    ensures
        s@ == frame_bytes(*v),
        s@.len() <= FRAME_CAPACITY,
{
    v.as_slice()
}

/// `heapless::Vec::push`: appends the byte while there is room, and hands it back otherwise.
#[verifier::external_body]
pub(crate) fn frame_push(v: &mut FrameVec, val: u8) -> (r: Result<(), u8>)
    ensures
        match r {
            Ok(()) => frame_bytes(*old(v)).len() < FRAME_CAPACITY && frame_bytes(*final(v))
                == frame_bytes(*old(v)).push(val),
            Err(back) => back == val && frame_bytes(*old(v)).len() == FRAME_CAPACITY
                && frame_bytes(*final(v)) == frame_bytes(*old(v)),
        },
{
    v.push(val)
}

/// `heapless::Vec::extend_from_slice`: appends the whole slice if it fits, and changes nothing
/// otherwise.
#[verifier::external_body]
pub(crate) fn frame_extend(v: &mut FrameVec, slice: &[u8]) -> (r: Result<(), ()>)
    ensures
        match r {
            Ok(()) => frame_bytes(*old(v)).len() + slice@.len() <= FRAME_CAPACITY
                && frame_bytes(*final(v)) == frame_bytes(*old(v)) + slice@,
            Err(()) => frame_bytes(*old(v)).len() + slice@.len() > FRAME_CAPACITY
                && frame_bytes(*final(v)) == frame_bytes(*old(v)),
        },
{
    v.extend_from_slice(slice)
}

/// `heapless::Vec::new`: the new vector is empty.
#[verifier::external_body]
pub(crate) fn data_new() -> (v: DataVec)
    ensures
        data_bytes(v) == Seq::<u8>::empty(),
{
    heapless::Vec::new()
}

/// `heapless::Vec::as_slice`: the whole vector as a slice, which is never longer than the
/// capacity.
#[verifier::external_body]
pub(crate) fn data_slice(v: &DataVec) -> (s: &[u8])
    ensures
        s@ == data_bytes(*v),
        s@.len() <= DATA_CAPACITY,
{
    v.as_slice()
}

/// `heapless::Vec::push`: appends the byte while there is room, and hands it back otherwise.
#[verifier::external_body]
pub(crate) fn data_push(v: &mut DataVec, val: u8) -> (r: Result<(), u8>)
    ensures
        match r {
            Ok(()) => data_bytes(*old(v)).len() < DATA_CAPACITY && data_bytes(*final(v))
                == data_bytes(*old(v)).push(val),
            Err(back) => back == val && data_bytes(*old(v)).len() == DATA_CAPACITY
                && data_bytes(*final(v)) == data_bytes(*old(v)),
        },
{
    v.push(val)
}

/// `heapless::Vec::extend_from_slice`: appends the whole slice if it fits, and changes nothing
/// otherwise.
#[verifier::external_body]
pub(crate) fn data_extend(v: &mut DataVec, slice: &[u8]) -> (r: Result<(), ()>)
    ensures
        match r {
            Ok(()) => data_bytes(*old(v)).len() + slice@.len() <= DATA_CAPACITY
                && data_bytes(*final(v)) == data_bytes(*old(v)) + slice@,
            Err(()) => data_bytes(*old(v)).len() + slice@.len() > DATA_CAPACITY
                && data_bytes(*final(v)) == data_bytes(*old(v)),
        },
{
    v.extend_from_slice(slice)
}

/// `heapless::Vec`'s `Clone`: the clone holds the same bytes.
#[verifier::external_body]
pub(crate) fn data_clone(v: &DataVec) -> (r: DataVec)
    ensures
        data_bytes(r) == data_bytes(*v),
{
    v.clone()
}

/// Error returned when a fixed-capacity buffer is full.
#[derive(Debug, Clone, Copy, PartialEq, Eq, Structural)]
pub struct BufferFullError;

/// Fallible push and extend for the buffers of this crate.
pub trait VecExt<T> {
    /// What the buffer holds, in order.
    spec fn contents(&self) -> Seq<T>;

    /// How much the buffer can hold.
    spec fn limit() -> nat;

    /// Append one item, or fail and change nothing if the buffer is full.
    fn try_push(&mut self, val: T) -> (r: Result<(), BufferFullError>)
        ensures
            match r {
                Ok(()) => old(self).contents().len() < Self::limit() && final(self).contents()
                    == old(self).contents().push(val),
                Err(_) => old(self).contents().len() >= Self::limit() && final(self).contents()
                    == old(self).contents(),
            },
    ;

    /// Append a whole slice, or fail and change nothing if it does not fit.
    fn try_extend(&mut self, slice: &[T]) -> (r: Result<(), BufferFullError>) where T: Clone
        ensures
            match r {
                Ok(()) => old(self).contents().len() + slice@.len() <= Self::limit()
                    && final(self).contents() == old(self).contents() + slice@,
                Err(_) => old(self).contents().len() + slice@.len() > Self::limit()
                    && final(self).contents() == old(self).contents(),
            },
    ;
}

impl VecExt<u8> for FrameVec {
    open spec fn contents(&self) -> Seq<u8> {
        frame_bytes(*self)
    }

    open spec fn limit() -> nat {
        FRAME_CAPACITY as nat
    }

    fn try_push(&mut self, val: u8) -> (r: Result<(), BufferFullError>) {
        match frame_push(self, val) {
            Ok(()) => Ok(()),
            Err(_) => Err(BufferFullError),
        }
    }

    fn try_extend(&mut self, slice: &[u8]) -> (r: Result<(), BufferFullError>) {
        match frame_extend(self, slice) {
            Ok(()) => Ok(()),
            Err(_) => Err(BufferFullError),
        }
    }
}

impl VecExt<u8> for DataVec {
    open spec fn contents(&self) -> Seq<u8> {
        data_bytes(*self)
    }

    open spec fn limit() -> nat {
        DATA_CAPACITY as nat
    }

    fn try_push(&mut self, val: u8) -> (r: Result<(), BufferFullError>) {
        match data_push(self, val) {
            Ok(()) => Ok(()),
            Err(_) => Err(BufferFullError),
        }
    }

    fn try_extend(&mut self, slice: &[u8]) -> (r: Result<(), BufferFullError>) {
        match data_extend(self, slice) {
            Ok(()) => Ok(()),
            Err(_) => Err(BufferFullError),
        }
    }
}

/// A frame buffer holds 20 bytes and a data buffer 1024, and what they hold is all of their bytes.
pub proof fn law_buffers(frame: FrameVec, data: DataVec)
    ensures
        <FrameVec as VecExt<u8>>::limit() == 20,
        <DataVec as VecExt<u8>>::limit() == 1024,
        frame.contents() == frame_bytes(frame),
        data.contents() == data_bytes(data),
{
}

} // verus!
