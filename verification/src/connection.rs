//! The stream framer's state: the accumulation buffer that bridges a
//! byte-oriented transport and the frame codec, and the connection options.
//! The transport itself (socket I/O) lives outside this crate; it hands raw
//! chunks in and takes encoded bytes out.

use vstd::prelude::*;

use crate::codec::SpecParse;
use crate::codec::parse;
use crate::codec::spec_parse;
use crate::frame::Frame;
use crate::frame::ParseFrameError;
use vstd::slice::slice_subrange;
use vstd::slice::slice_to_vec;

verus! {

/// Represents a connection error.
#[derive(Debug, Clone, Copy, PartialEq, Eq, Structural)]
pub enum ConnectionError {
    /// The server closed the stream without sending a full response
    Eof,
    /// The stream's bytes violate the frame grammar
    FrameError(ParseFrameError),
}

/// The accumulation buffer of one connection: bytes already read from the
/// transport but not yet consumed into a complete frame.  Created empty at
/// connection establishment, appended to on every transport read, and
/// advanced past a frame's bytes only when that frame has been extracted.
#[derive(Debug)]
pub struct FrameBuffer {
    data: Vec<u8>,
}

impl View for FrameBuffer {
    type V = Seq<u8>;

    closed spec fn view(&self) -> Seq<u8> {
        self.data@
    }
}

impl FrameBuffer {
    /// Creates an empty buffer.
    pub fn new() -> (r: Self)
        ensures
            r@ == Seq::<u8>::empty(),
    {
        FrameBuffer { data: Vec::new() }
    }

    /// Absorbs one transport read.  A read of zero bytes means the peer
    /// closed the stream: that is the end-of-stream condition, distinct from
    /// an incomplete frame, and the buffer is left unchanged.
    pub fn receive(&mut self, chunk: &[u8]) -> (r: Result<(), ConnectionError>)
        ensures
            chunk@.len() == 0 ==> r == Err::<(), ConnectionError>(ConnectionError::Eof)
                && final(self)@ == old(self)@,
            chunk@.len() > 0 ==> r == Ok::<(), ConnectionError>(()) && final(self)@ == old(self)@
                + chunk@,
    {
        if chunk.len() == 0 {
            return Err(ConnectionError::Eof);
        }
        let mut i: usize = 0;
        while i < chunk.len()
            invariant
                i <= chunk@.len(),
                self.data@ == old(self)@ + chunk@.take(i as int),
            decreases chunk@.len() - i,
        {
            self.data.push(chunk[i]);
            proof {
                assert(old(self)@ + chunk@.take(i + 1) =~= (old(self)@ + chunk@.take(
                    i as int,
                )).push(chunk@[i as int]));
            }
            i += 1;
        }
        proof {
            assert(chunk@.take(chunk@.len() as int) =~= chunk@);
        }
        Ok(())
    }

    /// Attempts to extract one complete frame from the front of the buffer.
    /// On success the frame's bytes are consumed; `None` asks the caller to
    /// receive more bytes first; an error reports a grammar violation, after
    /// which the connection is desynchronized and must not be reused.
    pub fn try_parse(&mut self) -> (r: Result<Option<Frame>, ConnectionError>)
        ensures
            match r {
                Ok(Some(f)) => exists|n: int|
                    spec_parse(old(self)@) == (SpecParse::Found { v: f@, n }) && final(self)@
                        == old(self)@.skip(n),
                Ok(None) => spec_parse(old(self)@) is Incomplete && final(self)@ == old(self)@,
                Err(e) => e matches ConnectionError::FrameError(pe) && spec_parse(old(self)@) == (
                SpecParse::Fail { e: pe }) && final(self)@ == old(self)@,
            },
    {
        match parse(self.data.as_slice()) {
            Ok((f, n)) => {
                let tail = slice_to_vec(slice_subrange(self.data.as_slice(), n, self.data.len()));
                self.data = tail;
                proof {
                    assert(self.data@ =~= old(self)@.skip(n as int));
                }
                Ok(Some(f))
            },
            Err(e) => match e {
                ParseFrameError::Incomplete => Ok(None),
                _ => Err(ConnectionError::FrameError(e)),
            },
        }
    }

    /// The number of buffered bytes not yet consumed.
    pub fn len(&self) -> (r: usize)
        ensures
            r == self@.len(),
    {
        self.data.len()
    }
}

/// Represents connection options: the endpoint a client connects to.
#[derive(Debug)]
pub struct ConnectionOptions {
    host: String,
    port: u16,
}

impl ConnectionOptions {
    pub closed spec fn spec_host(&self) -> Seq<char> {
        self.host@
    }

    pub closed spec fn spec_port(&self) -> u16 {
        self.port
    }

    /// Creates a new connection option.
    pub fn new(host: &str, port: u16) -> (r: Self)
        ensures
            r.spec_host() == host@,
            r.spec_port() == port,
    {
        ConnectionOptions { host: host.to_owned(), port }
    }

    /// Returns the connection host.
    pub fn host(&self) -> (r: &str)
        ensures
            r@ == self.spec_host(),
    {
        self.host.as_str()
    }

    /// Returns the connection port.
    pub fn port(&self) -> (r: u16)
        ensures
            r == self.spec_port(),
    {
        self.port
    }
}

} // verus!
