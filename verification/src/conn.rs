//! One connection's receive state: the accumulated buffer and the
//! parsed-request slot.  The reactor feeds bytes in as they arrive and
//! resets the state after each written response; sockets themselves stay
//! outside this crate.
use crate::parser::{spec_parse, HttpParser};
use crate::request::{HttpRequest, ReqView};
use vstd::prelude::*;

verus! {

/// The per-connection receive state.
pub struct Connection {
    pub buffer: Vec<u8>,
    pub request: Option<HttpRequest>,
}

/// The mathematical image of a [`Connection`].
pub ghost struct ConnView {
    pub buffer: Seq<u8>,
    pub request: Option<ReqView>,
}

impl View for Connection {
    type V = ConnView;

    open spec fn view(&self) -> ConnView {
        ConnView {
            buffer: self.buffer@,
            request: match self.request {
                Some(r) => Some(r@),
                None => None,
            },
        }
    }
}

impl Connection {
    /// A fresh connection: empty buffer, no request yet.
    pub fn new() -> (r: Connection)
        ensures
            r@.buffer == Seq::<u8>::empty(),
            r@.request is None,
    {
        Connection { buffer: Vec::new(), request: None }
    }

    /// Takes newly read bytes: they extend the buffer, and when no request
    /// is pending yet, the whole buffer is tried as one.  A request already
    /// parsed stays as it is, so one request is dispatched exactly once
    /// however the bytes arrived.
    pub fn feed(&mut self, data: &[u8])
        ensures
            final(self)@.buffer == old(self)@.buffer + data@,
            old(self)@.request is Some ==> final(self)@.request == old(self)@.request,
            old(self)@.request is None && spec_parse(old(self)@.buffer + data@) is Some
                ==> final(self)@.request == spec_parse(old(self)@.buffer + data@),
            old(self)@.request is None && spec_parse(old(self)@.buffer + data@) is None
                ==> final(self)@.request is None,
    {
        let ghost combined = old(self)@.buffer + data@;
        self.buffer.extend_from_slice(data);
        proof {
            assert(self.buffer@ =~= combined);
        }
        if self.request.is_none() {
            match HttpParser::parse(self.buffer.as_slice()) {
                Some(req) => {
                    proof {
                        assert(spec_parse(combined) == Some(req@));
                    }
                    self.request = Some(req);
                    proof {
                        assert(self@.request == Some(req@));
                    }
                },
                None => {
                    proof {
                        assert(spec_parse(combined) is None);
                    }
                },
            }
        }
    }

    /// Clears the buffer and the request slot after a written response, so
    /// a pipelined next request can follow on the same socket.
    pub fn reset(&mut self)
        ensures
            final(self)@.buffer == Seq::<u8>::empty(),
            final(self)@.request is None,
    {
        self.buffer.clear();
        self.request = None;
    }
}

} // verus!
