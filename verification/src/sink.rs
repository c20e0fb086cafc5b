//! The destination of the encoded bytes.

use vstd::prelude::*;
use vstd::slice::slice_subrange;

verus! {

/// The one failure of this library: the sink could not take the bytes.
#[derive(Debug, Clone, Copy, PartialEq, Eq)]
pub struct SinkWriteFailure;

/// Anything that accepts an ordered sequence of byte writes and may fail.
///
/// A sink that keeps its bytes where contracts can see them says so with
/// `is_recorded`, and `write_all` then answers for `written` and `room`. A
/// sink over a file or a connection leaves the three as they are: nothing
/// is then claimed of what it holds.
pub trait Sink {
    /// Whether `written` and `room` describe this sink.
    open spec fn is_recorded(&self) -> bool {
        false
    }

    /// Every byte a recorded sink has accepted so far, in order.
    open spec fn written(&self) -> Seq<u8> {
        Seq::empty()
    }

    /// How many further bytes a recorded sink is certain to accept.
    open spec fn room(&self) -> nat {
        0
    }

    /// Appends all of `bytes`, or fails having accepted some prefix of them.
    fn write_all(&mut self, bytes: &[u8]) -> (r: Result<(), SinkWriteFailure>)
        ensures
            old(self).is_recorded() ==> {
                &&& final(self).is_recorded()
                &&& bytes@.len() <= old(self).room() ==> r is Ok
                &&& r is Ok ==> final(self).written() == old(self).written() + bytes@
                &&& r is Ok ==> final(self).room() + bytes@.len() >= old(self).room()
                &&& r is Err ==> old(self).written().is_prefix_of(final(self).written())
                &&& r is Err ==> final(self).written().is_prefix_of(old(self).written() + bytes@)
            },
    ;
}

/// A growable buffer in memory takes every write.
impl Sink for Vec<u8> {
    open spec fn is_recorded(&self) -> bool {
        true
    }

    open spec fn written(&self) -> Seq<u8> {
        self@
    }

    open spec fn room(&self) -> nat {
        if self@.len() <= usize::MAX {
            (usize::MAX - self@.len()) as nat
        } else {
            0
        }
    }

    fn write_all(&mut self, bytes: &[u8]) -> (r: Result<(), SinkWriteFailure>) {
        self.extend_from_slice(bytes);
        assert(self@ =~= old(self)@ + bytes@);
        Ok(())
    }
}

/// A buffer in memory that holds at most `limit` bytes. A write that does
/// not fit fills the buffer to its limit and fails.
pub struct BoundedSink {
    bytes: Vec<u8>,
    limit: usize,
}

impl BoundedSink {
    /// The most bytes that the buffer will hold.
    pub closed spec fn limit(&self) -> nat {
        self.limit as nat
    }

    /// An empty buffer with the given limit.
    pub fn new(limit: usize) -> (sink: Self)
        ensures
            sink.written() == Seq::<u8>::empty(),
            sink.limit() == limit,
    {
        BoundedSink { bytes: Vec::new(), limit }
    }

    /// The bytes accepted so far.
    pub fn into_bytes(self) -> (bytes: Vec<u8>)
        ensures
            bytes@ == self.written(),
    {
        self.bytes
    }
}

impl Sink for BoundedSink {
    open spec fn is_recorded(&self) -> bool {
        true
    }

    closed spec fn written(&self) -> Seq<u8> {
        self.bytes@
    }

    open spec fn room(&self) -> nat {
        if self.written().len() <= self.limit() {
            (self.limit() - self.written().len()) as nat
        } else {
            0
        }
    }

    fn write_all(&mut self, bytes: &[u8]) -> (r: Result<(), SinkWriteFailure>)
        ensures
            final(self).limit() == old(self).limit(),
            r is Ok <==> bytes@.len() <= old(self).room(),
            r is Err ==> final(self).written() == old(self).written() + bytes@.take(
                old(self).room() as int,
            ),
    {
        let free: usize = if self.bytes.len() <= self.limit {
            self.limit - self.bytes.len()
        } else {
            0
        };
        if bytes.len() <= free {
            self.bytes.extend_from_slice(bytes);
            assert(self.bytes@ =~= old(self).bytes@ + bytes@);
            Ok(())
        } else {
            self.bytes.extend_from_slice(slice_subrange(bytes, 0, free));
            assert(self.bytes@ =~= old(self).bytes@ + bytes@.take(free as int));
            assert(self.bytes@ =~= (old(self).bytes@ + bytes@).subrange(
                0,
                self.bytes@.len() as int,
            ));
            assert(old(self).bytes@ =~= self.bytes@.subrange(0, old(self).bytes@.len() as int));
            Err(SinkWriteFailure)
        }
    }
}

} // verus!
