use vstd::prelude::*;

verus! {

/// Why a batch could not be put into the container format.
#[derive(Debug, Clone, Copy, PartialEq, Eq, Structural)]
pub enum EncodeError {
    /// A string, a map, an array or the string table is longer than the
    /// 32-bit length prefix of the container format can say.
    LengthOverflow,
}

} // verus!
