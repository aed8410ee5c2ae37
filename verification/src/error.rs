use vstd::prelude::*;

verus! {

/// Why a decode call failed. Every failure is final: the first one met anywhere in
/// the value tree ends the whole call, and no variant carries partial progress.
#[derive(Clone, Copy, Debug, PartialEq, Eq, Structural)]
pub enum DecodeError {
    /// An integer was wanted and no numeric reading of the value exists.
    ExpectedInteger,
    /// A floating-point number was wanted and no numeric reading of the value exists.
    ExpectedNumber,
    /// A string was wanted and the value is neither a string nor a boxed string.
    ExpectedString,
    /// A sequence was wanted and the value is not an array, or a tuple was wanted and
    /// the value is no object at all.
    ExpectedArray,
    /// A map or struct was wanted and the value is not an object.
    ExpectedObject,
    /// A map cursor was asked for a value before it had announced a key.
    ExpectedMap,
    /// An enum was wanted and the value is neither a string nor an object that
    /// classifies as one: an array and a buffer are no enum.
    ExpectedEnum,
    /// A pair cursor was asked for a value past its last entry.
    ExpectedExternal,
    /// An array does not have the arity of the tuple asked for, or an enum object
    /// does not have exactly one key.
    LengthMismatch,
    /// A byte buffer was wanted and the value is neither a buffer nor a view of one.
    ExpectedBuffer,
    /// The value tree nests deeper than the limit the caller set.
    DepthExceeded,
}

} // verus!
