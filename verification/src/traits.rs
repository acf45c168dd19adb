//! Traits shared across the store's data structures.

use vstd::prelude::*;
use crate::errors::FlotonErr;

verus! {

/// Default construction for payloads created implicitly by the tries.
///
/// No contract is attached: structures that create fresh payloads expose
/// the created value through their own contracts instead.
pub trait NewType: Sized {
    fn new() -> Self;
}

/// Keys that report how many packed segments they carry.
pub trait KeyLike {
    fn depth(&self) -> usize;
}

/// Types that stream themselves into, and parse themselves out of, the
/// binary wire format.
///
/// The impls in this crate forward to inherent methods of the same names,
/// which carry the exact contracts; this trait only fixes the signatures
/// for users who want to be generic over wire types.
pub trait InPutOutPut: Sized {
    fn output_binary(&self, output: &mut Vec<u8>);

    fn input_binary(input: &Vec<u8>, place: &mut usize) -> Result<Self, FlotonErr>;
}

} // verus!
