//! The non-fatal error taxonomy, serializable onto the wire.  Errors that
//! concern a key carry the packed key bytes so a response can echo them.

use vstd::prelude::*;
use crate::constants::VBIN_ERROR;
use crate::constants::ERR_DATE_TIME;
use crate::constants::ERR_RET_NOT_FOUND;
use crate::constants::ERR_UNEXPECT_BYTE;
use crate::constants::ERR_TYPE_NOT_ATOMIC;
use crate::constants::ERR_OPER_NOT_SUPPORTED;
use crate::fast_output::spec_le_bytes_u16;
use crate::fast_output::spec_le_u16_at;
use crate::fast_output::push_u16_le;
use crate::fast_output::read_u16_le;
use crate::keys::spec_key_end;
use crate::keys::packed_key_end;
use crate::keys::bytes_range;
use crate::traits::InPutOutPut;

verus! {

/// The mathematical shape of an error: keys appear as byte sequences.
pub enum FlotonErrView {
    DateTime,
    ReturnNotFound(Seq<u8>),
    UnexpectedByte(u8),
    TypeNotAtomic(Seq<u8>, u8),
    OperationNoSupport(Seq<u8>, u8, u16),
}

/// A non-fatal error.  `ReturnNotFound`, `TypeNotAtomic` and
/// `OperationNoSupport` carry the packed key they concern.
#[derive(Debug)]
pub enum FlotonErr {
    DateTime,
    ReturnNotFound(Vec<u8>),
    UnexpectedByte(u8),
    TypeNotAtomic(Vec<u8>, u8),
    OperationNoSupport(Vec<u8>, u8, u16),
}

impl View for FlotonErr {
    type V = FlotonErrView;

    open spec fn view(&self) -> FlotonErrView {
        match self {
            FlotonErr::DateTime => FlotonErrView::DateTime,
            FlotonErr::ReturnNotFound(k) => FlotonErrView::ReturnNotFound(k@),
            FlotonErr::UnexpectedByte(b) => FlotonErrView::UnexpectedByte(*b),
            FlotonErr::TypeNotAtomic(k, t) => FlotonErrView::TypeNotAtomic(k@, *t),
            FlotonErr::OperationNoSupport(k, t, o) => FlotonErrView::OperationNoSupport(
                k@,
                *t,
                *o,
            ),
        }
    }
}

/// The wire form of an error: the error tag, the kind byte, then the
/// kind's payload.
pub open spec fn spec_err_wire(e: FlotonErrView) -> Seq<u8> {
    match e {
        FlotonErrView::DateTime => seq![VBIN_ERROR, ERR_DATE_TIME],
        FlotonErrView::ReturnNotFound(k) => seq![VBIN_ERROR, ERR_RET_NOT_FOUND] + k,
        FlotonErrView::UnexpectedByte(b) => seq![VBIN_ERROR, ERR_UNEXPECT_BYTE, b],
        FlotonErrView::TypeNotAtomic(k, t) => seq![VBIN_ERROR, ERR_TYPE_NOT_ATOMIC, t] + k,
        FlotonErrView::OperationNoSupport(k, t, o) => seq![VBIN_ERROR, ERR_OPER_NOT_SUPPORTED, t]
            + spec_le_bytes_u16(o) + k,
    }
}

/// What parsing an error at offset `i` of `s` yields: the parse result
/// (as a view) and the offset after it.  A read past the end of the
/// buffer yields an unexpected-byte report of 0; a buffer that does not
/// open with the error tag, or carries an unknown kind, is reported.
pub open spec fn spec_err_input(s: Seq<u8>, i: int) -> (Result<FlotonErrView, FlotonErrView>, int) {
    if i < 0 || i >= s.len() {
        (Err(FlotonErrView::UnexpectedByte(0)), i)
    } else if s[i] != VBIN_ERROR {
        (Err(FlotonErrView::UnexpectedByte(s[i])), i)
    } else if i + 2 > s.len() {
        (Err(FlotonErrView::UnexpectedByte(0)), i + 1)
    } else {
        let kind = s[i + 1];
        if kind == ERR_DATE_TIME {
            (Ok(FlotonErrView::DateTime), i + 2)
        } else if kind == ERR_RET_NOT_FOUND {
            match spec_key_end(s, i + 2) {
                Some(e) => (Ok(FlotonErrView::ReturnNotFound(s.subrange(i + 2, e))), e),
                None => (Err(FlotonErrView::UnexpectedByte(0)), i + 2),
            }
        } else if kind == ERR_UNEXPECT_BYTE {
            if i + 3 <= s.len() {
                (Ok(FlotonErrView::UnexpectedByte(s[i + 2])), i + 3)
            } else {
                (Err(FlotonErrView::UnexpectedByte(0)), i + 2)
            }
        } else if kind == ERR_TYPE_NOT_ATOMIC {
            if i + 3 <= s.len() {
                match spec_key_end(s, i + 3) {
                    Some(e) => (Ok(FlotonErrView::TypeNotAtomic(s.subrange(i + 3, e), s[i + 2])), e),
                    None => (Err(FlotonErrView::UnexpectedByte(0)), i + 3),
                }
            } else {
                (Err(FlotonErrView::UnexpectedByte(0)), i + 2)
            }
        } else if kind == ERR_OPER_NOT_SUPPORTED {
            if i + 5 <= s.len() {
                match spec_key_end(s, i + 5) {
                    Some(e) => (
                        Ok(
                            FlotonErrView::OperationNoSupport(
                                s.subrange(i + 5, e),
                                s[i + 2],
                                spec_le_u16_at(s, i + 3),
                            ),
                        ),
                        e,
                    ),
                    None => (Err(FlotonErrView::UnexpectedByte(0)), i + 5),
                }
            } else {
                (Err(FlotonErrView::UnexpectedByte(0)), i + 2)
            }
        } else {
            (Err(FlotonErrView::UnexpectedByte(kind)), i + 2)
        }
    }
}

impl FlotonErr {
    /// Appends the wire form of this error to `output`.
    pub fn output_binary(&self, output: &mut Vec<u8>)
        ensures
            final(output)@ == old(output)@ + spec_err_wire(self@),
    {
        output.push(VBIN_ERROR);
        match self {
            FlotonErr::DateTime => output.push(ERR_DATE_TIME),
            FlotonErr::ReturnNotFound(k) => {
                output.push(ERR_RET_NOT_FOUND);
                append_bytes(output, k);
            },
            FlotonErr::UnexpectedByte(b) => {
                output.push(ERR_UNEXPECT_BYTE);
                output.push(*b);
            },
            FlotonErr::TypeNotAtomic(k, t) => {
                output.push(ERR_TYPE_NOT_ATOMIC);
                output.push(*t);
                append_bytes(output, k);
            },
            FlotonErr::OperationNoSupport(k, t, o) => {
                output.push(ERR_OPER_NOT_SUPPORTED);
                output.push(*t);
                push_u16_le(output, *o);
                append_bytes(output, k);
            },
        }
        assert(output@ =~= old(output)@ + spec_err_wire(self@));
    }

    /// Parses one error from `input` at cursor `place`, advancing the
    /// cursor past what was consumed.
    pub fn input_binary(input: &Vec<u8>, place: &mut usize) -> (r: Result<FlotonErr, FlotonErr>)
        ensures
            ({
                let (sr, sp) = spec_err_input(input@, *old(place) as int);
                &&& *final(place) as int == sp
                &&& match (r, sr) {
                    (Ok(e), Ok(v)) => e@ == v,
                    (Err(e), Err(v)) => e@ == v,
                    _ => false,
                }
            }),
    {
        proof {
            vstd::std_specs::vec::axiom_spec_len(input);
        }
        if *place >= input.len() {
            return Err(FlotonErr::UnexpectedByte(0));
        }
        if input[*place] != VBIN_ERROR {
            return Err(FlotonErr::UnexpectedByte(input[*place]));
        }
        *place += 1;
        if *place >= input.len() {
            return Err(FlotonErr::UnexpectedByte(0));
        }
        let kind = input[*place];
        *place += 1;
        if kind == ERR_DATE_TIME {
            Ok(FlotonErr::DateTime)
        } else if kind == ERR_RET_NOT_FOUND {
            match packed_key_end(input, *place) {
                Some(e) => {
                    let k = bytes_range(input, *place, e);
                    *place = e;
                    Ok(FlotonErr::ReturnNotFound(k))
                },
                None => Err(FlotonErr::UnexpectedByte(0)),
            }
        } else if kind == ERR_UNEXPECT_BYTE {
            if *place < input.len() {
                let b = input[*place];
                *place += 1;
                Ok(FlotonErr::UnexpectedByte(b))
            } else {
                Err(FlotonErr::UnexpectedByte(0))
            }
        } else if kind == ERR_TYPE_NOT_ATOMIC {
            if *place < input.len() {
                let t = input[*place];
                *place += 1;
                match packed_key_end(input, *place) {
                    Some(e) => {
                        let k = bytes_range(input, *place, e);
                        *place = e;
                        Ok(FlotonErr::TypeNotAtomic(k, t))
                    },
                    None => Err(FlotonErr::UnexpectedByte(0)),
                }
            } else {
                Err(FlotonErr::UnexpectedByte(0))
            }
        } else if kind == ERR_OPER_NOT_SUPPORTED {
            if input.len() - *place >= 3 {
                let t = input[*place];
                let o = read_u16_le(input, *place + 1);
                *place += 3;
                match packed_key_end(input, *place) {
                    Some(e) => {
                        let k = bytes_range(input, *place, e);
                        *place = e;
                        Ok(FlotonErr::OperationNoSupport(k, t, o))
                    },
                    None => Err(FlotonErr::UnexpectedByte(0)),
                }
            } else {
                Err(FlotonErr::UnexpectedByte(0))
            }
        } else {
            Err(FlotonErr::UnexpectedByte(kind))
        }
    }
}

/// Appends every byte of `src` to `out`.
pub fn append_bytes(out: &mut Vec<u8>, src: &Vec<u8>)
    ensures
        final(out)@ == old(out)@ + src@,
{
    let mut j: usize = 0;
    while j < src.len()
        invariant
            j <= src@.len(),
            out@ == old(out)@ + src@.subrange(0, j as int),
        decreases src@.len() - j,
    {
        out.push(src[j]);
        j += 1;
        assert(out@ =~= old(out)@ + src@.subrange(0, j as int));
    }
    assert(out@ =~= old(out)@ + src@);
}

impl InPutOutPut for FlotonErr {
    fn output_binary(&self, output: &mut Vec<u8>) {
        FlotonErr::output_binary(self, output)
    }

    fn input_binary(input: &Vec<u8>, place: &mut usize) -> Result<Self, FlotonErr> {
        FlotonErr::input_binary(input, place)
    }
}

} // verus!