//! Permutation patterns: order-isomorphic occurrence search inside a text
//! permutation, and level-by-level construction of the class of permutations
//! avoiding a finite basis of forbidden patterns.
pub mod avoidance;
pub mod patt;
pub mod perm;
