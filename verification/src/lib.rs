//! Photo mosaics: a target picture is rebuilt as a grid of small tile pictures,
//! one tile per target pixel, each chosen as the tile whose representative
//! colour is nearest to the pixel under a red-weighted colour distance.
//!
//! Every function here carries a contract that Verus proves.  The few calls
//! into the `image` and `rayon` crates sit behind small wrappers whose
//! contracts are stated, not proved; each says so in its documentation.

pub mod color;
pub mod error;
pub mod raster;
pub mod tile;
pub mod resize;
pub mod catalog;
pub mod reduce;
pub mod compose;
pub mod batch;
