//! A seeded, bijective pseudorandom permutation of `[0, range)`, built from a
//! small Feistel network folded onto the domain by cycle walking.
//!
//! Its purpose is to visit a large index space (for example every IPv4
//! address) in an unpredictable but collision-free order without holding the
//! whole domain in memory.

pub mod generator;
pub mod iter;


pub use generator::BlackRockGenerator;
pub use iter::{BlackRockIpGenerator, BlackRockIter};
