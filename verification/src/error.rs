//! The conditions under which an operation of the library fails.

use vstd::prelude::*;

verus! {

#[derive(Debug, Clone, Copy, PartialEq, Eq, Structural)]
pub enum Error {
    /// A mutating operation was attempted on a store opened read-only.
    ReadOnly,
    /// A required metadata key is absent.
    MissingKey,
    /// A metadata value does not hold a number.
    InvalidNumber,
    /// Two stored tiles share a position and level.
    DuplicateTile,
    /// Stored tile bytes could not be decoded.
    Decode,
    /// An image could not be encoded.
    Encode,
    /// An image does not have the size the tile asks for.
    InvalidImageSize,
    /// The image of an empty tile was asked for.
    EmptyTile,
    /// The image of an empty patch was asked for.
    EmptyPatch,
    /// The horizontal and vertical scale factors of a scaled read differ.
    ScaleMismatch,
    /// A region is larger than an image buffer can address.
    RegionTooLarge,
    /// A region without pixels was to be resampled.
    EmptyRegion,
    /// No tile occupies the level whose extent was asked for.
    NoTiles,
    /// A name matches no member of a vocabulary.
    UnknownName,
    /// A number is the code of no member of a vocabulary.
    UnknownCode,
}

} // verus!
