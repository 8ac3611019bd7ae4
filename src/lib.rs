//! A kinematic chain: a tree of joints with integer positions, a mimic
//! relation that lets one joint follow another, and a fixed depth-first
//! traversal order shared by bulk assignment and pose computation.
//!
//! `joint` holds single joints and their rules, `chain` the tree kept as an
//! arena of nodes addressed by index, and `laws` the general facts proved
//! about them.

use vstd::prelude::*;

pub mod chain;
pub mod joint;
pub mod laws;

verus! {

} // verus!
