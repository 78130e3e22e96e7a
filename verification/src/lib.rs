//! A lattice-inspired, error-tolerant encryption scheme.
//!
//! A secret numeric vector is used to derive a larger set of noisy linear
//! equations (the public key); the public key encodes Unicode text into a
//! sequence of integer records, one per character; the secret key recovers
//! the text by cancelling the linear component and rounding away the noise.

pub mod arith;
pub mod codec;
pub mod keys;
mod random;
mod text;
