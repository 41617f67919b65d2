//! An array-backed, 1-indexed binary Merkle tree.
//!
//! The tree is stored as a flat vector whose slot 0 is an unused filler,
//! slot 1 holds the root, and the second half holds the leaves. Parent,
//! sibling and child positions are found by index arithmetic alone.

use vstd::prelude::*;

pub mod hash;
pub mod laws;
pub mod model;
pub mod tree;

verus! {

} // verus!
