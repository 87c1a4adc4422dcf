//! A terminal framebuffer and styled-text rendering engine: an RGB color
//! type with capability-aware ANSI escape encoding, a styled character
//! buffer with word wrapping, and a 2D character grid that composites and
//! renders styled text row by row.

pub mod color;
pub mod palette;
pub mod pixels;
pub mod strfmt;
pub mod text;
pub mod utils;

use vstd::prelude::*;

verus! {

} // verus!
