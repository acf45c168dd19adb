//! The request frame: a 32-bit length, 32-bit flags, and the body bytes.

use vstd::prelude::*;
use crate::traits::NewType;
use crate::fast_output::spec_le_u32_at;
use crate::fast_output::read_u32_le;

verus! {

/// The request header: the body's size and the reserved flags.
#[derive(Debug, Clone)]
pub struct RequestHeader {
    pub total_size: u32,
    pub flags: u32,
}

/// A framed request.
#[derive(Debug)]
pub struct Request {
    pub header: RequestHeader,
    pub body: Vec<u8>,
}

impl NewType for Request {
    fn new() -> Self {
        Request { header: RequestHeader { total_size: 0, flags: 0 }, body: Vec::new() }
    }
}

impl Request {
    /// Frames `body` under a header carrying its size and `flags`.
    pub fn make(flags: u32, body: Vec<u8>) -> (r: Request)
        requires
            body@.len() <= u32::MAX,
        ensures
            r.body@ == body@,
            r.header.total_size == body@.len(),
            r.header.flags == flags,
    {
        proof {
            vstd::std_specs::vec::axiom_spec_len(&body);
        }
        let sz = body.len() as u32;
        Request { header: RequestHeader { total_size: sz, flags }, body }
    }

    /// Decodes the eight header bytes of a request frame: the body size,
    /// then the flags, both little-endian.
    pub fn decode_header(head: &Vec<u8>) -> (r: RequestHeader)
        requires
            head@.len() == 8,
        ensures
            r.total_size == spec_le_u32_at(head@, 0),
            r.flags == spec_le_u32_at(head@, 4),
    {
        let total_size = read_u32_le(head, 0);
        let flags = read_u32_le(head, 4);
        RequestHeader { total_size, flags }
    }
}

} // verus!
