//! Errors of the update codec.

use vstd::prelude::*;

verus! {

/// Why an update could not be read or written.
#[derive(Clone, Copy, Debug, PartialEq, Eq, Structural)]
pub enum Error {
    /// The bytes are not a well-formed update; nothing was applied.
    DecodeError,
    /// A payload is too long for the wire format; no bytes were produced.
    EncodeError,
}

} // verus!
