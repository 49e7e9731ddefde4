//! A block-parallel enumerator of permutations with pancake-flip counting
//! (the Fannkuch-Redux kernel), with its contracts proved.
pub mod factorial;
pub mod flips;
pub mod permutation;
pub mod order;
pub mod blocks;
pub mod reduce;
pub mod kernel;
pub mod sum;
