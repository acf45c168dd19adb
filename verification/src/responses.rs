//! The response frame: a 64-bit length header and the body bytes.

use vstd::prelude::*;

verus! {

/// The response header: the body's size.
#[derive(Debug)]
pub struct ResponseHeader {
    pub total_size: u64,
}

/// A framed response.
#[derive(Debug)]
pub struct Response {
    pub header: ResponseHeader,
    pub body: Vec<u8>,
}

impl Response {
    /// Frames `output` as a response whose header carries its length.
    pub fn from_vec(output: Vec<u8>) -> (r: Response)
        requires
            output@.len() <= u64::MAX,
        ensures
            r.body@ == output@,
            r.header.total_size == output@.len(),
    {
        proof {
            vstd::std_specs::vec::axiom_spec_len(&output);
        }
        let hsize = output.len() as u64;
        Response { header: ResponseHeader { total_size: hsize }, body: output }
    }

    /// The framed size.
    pub fn size(&self) -> (r: u64)
        ensures
            r == self.header.total_size,
    {
        self.header.total_size
    }
}

} // verus!
