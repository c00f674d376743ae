//! What holds of the whole library, stated in plain numbers.
pub mod archive;
pub mod bits;
pub mod coder;
pub mod command;
pub mod error;
pub mod filter;
pub mod model;
pub mod range;
