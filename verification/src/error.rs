//! The ways in which an operation of this library can fail.

use vstd::prelude::*;

verus! {

/// Why an image could not be decoded, encoded or converted.
#[derive(Clone, Copy, Debug, PartialEq, Eq, Structural)]
pub enum ImageError {
    /// The header is not one this library reads: an unknown magic token, a
    /// token that is no decimal number, too few tokens, or dimensions that
    /// no image can have.
    Format,
    /// The pixel buffer holds fewer bytes than the dimensions call for.
    BufferUnderrun,
    /// The image handed in does not have the shape the operation works on.
    Precondition,
}

} // verus!
