//! Permutations of a fixed 32-point domain, their cycle notation, and the
//! orbit of a point under a set of generating permutations.

pub mod cycle_text;
pub mod orbit;
pub mod permutation;
