//! Combinatorial machinery for podium-finish enumeration: mixed-radix and
//! permutation indexing, streaming combination and permutation generators,
//! a compact ordinal bitmap, and disjunctive-normal-form transforms.

pub mod comb;
pub mod dis_cons;
pub mod logic;
