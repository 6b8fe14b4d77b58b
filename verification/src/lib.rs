//! Keyboard layout search for a 26-key, letters-only keyboard: the key
//! geometry, layouts and their validation, mirror symmetry, corpus
//! statistics, hard constraints and the discrete features that the
//! penalty model weighs.
use vstd::prelude::*;

pub mod geometry;
pub mod text;
pub mod layout_26;
pub mod symmetry;
pub mod corpus;
pub mod constraints;
pub mod cost;
pub mod results;
pub mod duration;
pub mod coordinator;
pub mod merge;
pub mod events;

verus! {

} // verus!
