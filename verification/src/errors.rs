use vstd::prelude::*;

verus! {

/// The failure taxonomy of the library.
///
/// Every failure is local and synchronous: it is returned to the immediate
/// caller, which chooses how to recover.
#[derive(Clone, Copy, Debug, PartialEq, Eq, Structural)]
pub enum SdmError {
    /// An access beyond the length of a vector, a counter matrix, or the
    /// address book.
    IndexOutOfRange,
    /// A bitwise operation or a distance over two vectors whose lengths
    /// differ, or an engine operation whose query does not have the engine's
    /// address width.
    LengthMismatch,
    /// A growth request that exceeds the largest representable bit count.
    CapacityOverflow,
    /// A read or scan that selected no hard location within the radius.
    NoMatch,
}

} // verus!
