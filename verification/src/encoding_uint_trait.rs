//! Shared shape of the variable-length unsigned-integer codecs: a bit string
//! being built or consumed, and the interface both codec flavours offer.

use crate::dyn_bit_string::DynBitString;
use vstd::prelude::*;

verus! {

/// Carrier for an encoded sequence of unsigned integers.
pub struct UintEncoding {
    /// the bits emitted or consumed so far
    pub bstr: DynBitString,
}

/// Continuation flag bit: more chunks follow.
pub const BITSTRING_CONTINUE: bool = true;

/// Terminator flag bit: the value is complete.
pub const BITSTRING_END: bool = false;

/// Error returned when a read runs past the end of the encoded bits.
#[derive(PartialEq, Eq, Structural, Debug, Clone, Copy)]
pub enum CodecReadErr {
    OutOfBits,
}

/// Interface shared by the codec flavours: building an encoding value by
/// value, and reading values back at a cursor.
pub trait EncodingUint: Sized {
    /// create a new, empty encoding
    fn new() -> Self;

    /// the bits emitted so far
    fn get_bitstr_encoding(&self) -> DynBitString;

    /// prepare to decode an encoded bit string
    fn from_bitstr_encoding(bstr_in: DynBitString) -> Self;

    /// concatenate one value's encoding to the bits built so far
    fn append_uint32(&mut self, v_in: u32);

    /// read the next value at the bit offset held by the cursor
    fn read_uint32(&self, bitstring_cursor: &mut usize) -> Result<u32, CodecReadErr>;
}

} // verus!
