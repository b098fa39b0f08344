use vstd::prelude::*;

verus! {

/// Why a decode failed. Every failure aborts the whole decode.
#[derive(Clone, Copy, Debug, PartialEq, Eq, Structural)]
pub enum SaveError {
    /// A read would go past the end of the buffer.
    UnexpectedEndOfFile,
    /// The bytes are not valid text in the encoding that the length prefix selects.
    StringEncodingError,
    /// The integer read for an enum field names none of its variants.
    InvalidEnumValue,
}

} // verus!
