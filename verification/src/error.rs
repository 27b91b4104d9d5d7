//! The errors of the library.

use vstd::prelude::*;

verus! {

/// Why a call failed.
#[derive(Clone, Copy, Debug, PartialEq, Eq, Structural)]
pub enum Error {
    /// An address or a length lies outside the bytes that back a mapping.
    OutOfRange,
    /// A write was sent to storage that cannot be written.
    Unsupported,
    /// The mapping that a connector rests on could not be established.
    ConnectorInit,
    /// A value breaks an invariant of the library, such as a page size
    /// that is no power of two.
    Internal,
}

} // verus!
