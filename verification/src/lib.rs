//! Branch-and-bound search for binary sequences of low autocorrelation energy.
//!
//! A sequence of `n` signs is built from both ends towards the middle. The
//! library keeps, for every lag, the correlation of the pairs whose two
//! positions are already fixed, together with the range that the pairs
//! touching the free middle can still add, and derives from them a lower bound
//! on the energy of every completion.

pub mod sums;
pub mod model;
pub mod fixed_lemmas;
pub mod segment_lemmas;
pub mod chain_lemmas;
pub mod grow_lemmas;
pub mod bit_sequence;
pub mod free_bounds;
pub mod energy;
pub mod node_lemmas;
pub mod symmetry;
pub mod roots;
pub mod search;
pub mod bound_law;
pub mod range_law;
pub mod canonical_law;
pub mod search_law;
pub mod symmetry_law;
pub mod tight_bound;
