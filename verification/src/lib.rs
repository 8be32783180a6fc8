//! Verified core of a converter that turns RGB images into the 7-color
//! indexed binary format of a small e-paper display, and assigns each
//! converted file a stable numbered slot in a destination directory.

use vstd::prelude::*;

pub mod color;
pub mod assign;
pub mod pack;
pub mod quantize;

verus! {

/// Width in pixels that every accepted input image must have.
pub const IMAGE_WIDTH: usize = 600;

/// Height in pixels that every accepted input image must have.
pub const IMAGE_HEIGHT: usize = 448;

} // verus!

