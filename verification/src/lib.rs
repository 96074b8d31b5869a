//! A Game of Life universe with fading cells, rendering into an RGBA
//! pixel buffer, and stamps of patterns decoded from the Run Length
//! Encoded (RLE) pattern format.

pub mod arith;
pub mod rng;
pub mod rle;
pub mod universe;
pub mod render;
pub mod patterns;

pub use patterns::{patterns, PatternEntry};
pub use rle::Stamp;
pub use rng::Rng;
pub use universe::{Cell, Universe};
