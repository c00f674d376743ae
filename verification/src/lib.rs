//! Blackhole: lossless compression of 8-bit grayscale images.
//!
//! An image is filtered row by row, the residuals are folded onto small
//! numbers, and the result is stored in whichever container is shorter: an
//! adaptive binary arithmetic code or a DEFLATE stream.
pub mod archive;
pub mod bits;
pub mod bytes;
pub mod coder;
pub mod command;
pub mod deflate;
pub mod error;
pub mod filter;
pub mod interval;
pub mod laws;
pub mod model;
pub mod range;
