//! The reading side of a connection: the bytes received so far, and the
//! decisions taken on them. The transport itself is driven from outside:
//! it hands received chunks in and learns when a frame is ready, when more
//! bytes are needed, and how the end of the stream is to be reported.
use crate::frame::{Frame, FrameError};
use crate::model::decode;
use bytes::BytesMut;
use vstd::prelude::*;

verus! {

#[verifier::external_type_specification]
#[verifier::external_body]
pub struct ExBytesMut(BytesMut);

/// The bytes that a `BytesMut` holds, first to last.
pub uninterp spec fn buffered(b: BytesMut) -> Seq<u8>;

/// Relies on `BytesMut::with_capacity`: the new buffer holds no bytes.
#[verifier::external_body]
fn new_buffer(capacity: usize) -> (r: BytesMut)
    ensures
        buffered(r) == Seq::<u8>::empty(),
{
    BytesMut::with_capacity(capacity)
}

/// Relies on `BytesMut::extend_from_slice`: the bytes of `chunk` are
/// appended after those already held.
#[verifier::external_body]
fn append(b: &mut BytesMut, chunk: &[u8])
    ensures
        buffered(*final(b)) == buffered(*old(b)) + chunk@,
{
    b.extend_from_slice(chunk)
}

/// Relies on `Buf::advance` for `BytesMut`: the first `n` bytes are dropped;
/// it panics where fewer are held, which `requires` rules out.
#[verifier::external_body]
fn discard_front(b: &mut BytesMut, n: usize)
    requires
        n <= buffered(*old(b)).len(),
    ensures
        buffered(*final(b)) == buffered(*old(b)).skip(n as int),
{
    bytes::Buf::advance(b, n)
}

/// Relies on `Deref` for `BytesMut`: the slice of the bytes it holds.
#[verifier::external_body]
fn contents(b: &BytesMut) -> (r: &[u8])
    ensures
        r@ == buffered(*b),
{
    &b[..]
}

/// The capacity that a new reader starts with; the buffer grows as needed.
pub const INITIAL_CAPACITY: usize = 4096;

/// How reading from a connection failed.
#[derive(Debug, Clone, Copy, PartialEq, Eq, Structural)]
pub enum ConnectionError {
    /// The peer closed the stream in the middle of a frame.
    ResetByPeer,
    /// The bytes received are not a frame.
    Protocol(FrameError),
}

/// The bytes received from a peer and not yet decoded.
#[derive(Debug)]
pub struct FrameReader {
    buffer: BytesMut,
}

impl View for FrameReader {
    type V = Seq<u8>;

    closed spec fn view(&self) -> Seq<u8> {
        buffered(self.buffer)
    }
}

/// What a decoding attempt on the received bytes did to them, given the
/// bytes before and after it and the result.
pub open spec fn next_frame_spec(
    before: Seq<u8>,
    after: Seq<u8>,
    r: Result<Option<Frame>, FrameError>,
) -> bool {
    match decode(before) {
        Ok((f, k)) => (r matches Ok(Some(g)) && g@ == f) && after == before.skip(k as int),
        Err(FrameError::Incomplete) => r matches Ok(None) && after == before,
        Err(e) => r == Err::<Option<Frame>, FrameError>(e) && after == before,
    }
}

impl FrameReader {
    /// A reader that holds no bytes yet.
    pub fn new() -> (r: FrameReader)
        ensures
            r@ == Seq::<u8>::empty(),
    {
        FrameReader { buffer: new_buffer(INITIAL_CAPACITY) }
    }

    /// Appends bytes received from the peer.
    pub fn receive(&mut self, chunk: &[u8])
        ensures
            final(self)@ == old(self)@ + chunk@,
    {
        append(&mut self.buffer, chunk);
    }

    /// The bytes held and not yet decoded.
    pub fn pending(&self) -> (r: &[u8])
        ensures
            r@ == self@,
    {
        contents(&self.buffer)
    }

    /// Whether no bytes are held.
    pub fn is_empty(&self) -> (r: bool)
        ensures
            r == (self@.len() == 0),
    {
        contents(&self.buffer).len() == 0
    }

    /// Decodes one frame from the front of the bytes held. On success the
    /// frame's bytes, and only those, are dropped; `Ok(None)` asks for more
    /// bytes and leaves everything as it was; a malformed frame is an error
    /// and leaves everything as it was too.
    pub fn next_frame(&mut self) -> (r: Result<Option<Frame>, FrameError>)
        ensures
            next_frame_spec(old(self)@, final(self)@, r),
    {
        let decoded = Frame::decode(contents(&self.buffer));
        match decoded {
            Ok((f, k)) => {
                discard_front(&mut self.buffer, k);
                Ok(Some(f))
            },
            Err(FrameError::Incomplete) => Ok(None),
            Err(e) => Err(e),
        }
    }

    /// How the end of the stream is reported: a clean close where no bytes
    /// are held, a reset by the peer where part of a frame is.
    pub fn end_of_stream(&self) -> (r: Result<Option<Frame>, ConnectionError>)
        ensures
            self@.len() == 0 ==> r matches Ok(None),
            self@.len() != 0 ==> r == Err::<Option<Frame>, ConnectionError>(
                ConnectionError::ResetByPeer,
            ),
    {
        if self.is_empty() {
            Ok(None)
        } else {
            Err(ConnectionError::ResetByPeer)
        }
    }
}

} // verus!
