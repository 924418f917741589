//! What can go wrong while a mosaic is built.

use vstd::prelude::*;

verus! {

/// The ways in which building a mosaic fails.
#[derive(Clone, Copy, Debug, PartialEq, Eq, Structural)]
pub enum MosaicError {
    /// The catalog holds no tile, so no colour can be matched.
    EmptyCatalog,
    /// A colour of the picture has no tile assigned to it.
    MissingTile,
    /// A picture does not fit where it was to be copied.
    DimensionMismatch,
    /// A picture is beyond what can be scaled or held on this machine.
    TooLarge,
}

impl MosaicError {
    /// A sentence for the user.
    pub fn message(&self) -> (s: &'static str)
        ensures
            s@ == match *self {
                MosaicError::EmptyCatalog => "no usable tile image was found"@,
                MosaicError::MissingTile => "a colour of the image has no tile assigned"@,
                MosaicError::DimensionMismatch => "an image does not fit at the given position"@,
                MosaicError::TooLarge => "an image is too large"@,
            },
    {
        match self {
            MosaicError::EmptyCatalog => "no usable tile image was found",
            MosaicError::MissingTile => "a colour of the image has no tile assigned",
            MosaicError::DimensionMismatch => "an image does not fit at the given position",
            MosaicError::TooLarge => "an image is too large",
        }
    }
}

} // verus!
