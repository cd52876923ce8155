//! The per-connection frame accumulator: bytes are buffered across reads, and
//! requests are taken from the front one at a time, so one read may carry part
//! of a request or several of them.

use vstd::prelude::*;
use crate::buf::{copy_range, push_bytes};
use crate::parse::{decode_at, parse_msg, Parsed};
use crate::resp::{RespError, RespValue};

verus! {

/// The bytes received on one connection and not yet taken as requests.
pub struct Connection {
    buffer: Vec<u8>,
}

impl View for Connection {
    type V = Seq<u8>;

    closed spec fn view(&self) -> Seq<u8> {
        self.buffer@
    }
}

impl Connection {
    pub fn new() -> (c: Connection)
        ensures
            c@ == Seq::<u8>::empty(),
    {
        Connection { buffer: Vec::new() }
    }

    /// Adds bytes read from the peer.
    pub fn receive(&mut self, data: &[u8])
        ensures
            final(self)@ == old(self)@ + data@,
    {
        push_bytes(&mut self.buffer, data);
    }

    /// Takes the request at the front of the buffer. `None` means that the
    /// buffer holds no complete request yet and is kept as it is. Bytes that
    /// no request starts with are reported and dropped, since nothing after
    /// them can be framed.
    pub fn next_request(&mut self) -> (r: Option<Result<RespValue, RespError>>)
        ensures
            match parse_msg(old(self)@, 0) {
                Parsed::Done(m, e) => r matches Some(Ok(v)) && v@ == m && final(self)@
                    == old(self)@.subrange(e, old(self)@.len() as int),
                Parsed::Incomplete => r is None && final(self)@ == old(self)@,
                Parsed::Invalid => r matches Some(Err(RespError::Parse(_))) && final(self)@
                    == Seq::<u8>::empty(),
            },
    {
        match decode_at(self.buffer.as_slice(), 0) {
            Ok((v, e)) => {
                let rest = copy_range(self.buffer.as_slice(), e, self.buffer.len());
                self.buffer = rest;
                Some(Ok(v))
            },
            Err(RespError::Incomplete) => None,
            Err(err) => {
                self.buffer = Vec::new();
                Some(Err(err))
            },
        }
    }
}

} // verus!
