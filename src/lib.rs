//! A permuted congruential generator (PCG, XSH-RR variant) with a 64-bit
//! state, together with the codec that turns an eight-byte seed into that
//! state and back.
//!
//! Every executable function here carries a contract over the spec functions
//! of [`stream`], which say bit for bit what the generator computes. The
//! laws of the generator and of the seed codec are proof functions:
//! [`period`] shows that the state sequence has the full period of 2^64, and
//! [`seed`] that packing and unpacking a seed are inverse to each other.

mod consts;
pub mod error;
pub mod generator;
pub mod period;
pub mod seed;
pub mod stream;

pub use error::PcgError;
pub use generator::Pcg;
pub use seed::{PcgSeed, U64};
