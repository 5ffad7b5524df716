//! Evaluation of bit-level error-correcting codes under random corruption.
//!
//! A file's bytes are decomposed into a bitstream, encoded by an
//! error-correcting scheme, corrupted at a chosen severity (a number of
//! distinct bit positions flipped uniformly at random), decoded again, and
//! compared with the original to measure how much error survives decoding.

pub mod bits;
pub mod ecc;
pub mod harness;
pub mod sampler;
pub mod vote;
