//! Techniques for turning a stream of uniform random 64-bit words into
//! uniformly distributed floating-point numbers in [0, 1), stated and
//! proved at the level of IEEE 754 bit patterns.

pub mod campbell;
pub mod float_bits;
pub mod pekkizen;
pub mod perfect;
pub mod sources;
