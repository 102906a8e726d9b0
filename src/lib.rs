//! Detection of elongated elliptical particles in binarized images.
//!
//! `raster` holds the grayscale image type, `contour` thins black shapes to
//! their outlines and walks those outlines, `consensus` runs the random
//! sample-and-consensus search that peels ellipses off one contour, and
//! `random` draws the sample indices.
use vstd::prelude::*;

pub mod consensus;
pub mod contour;
pub mod random;
pub mod raster;

verus! {

} // verus!
