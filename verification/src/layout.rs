//! Layout rules: where an element is placed relative to its parent, and how
//! its size follows from the sizes of other elements.
use vstd::prelude::*;

pub mod position;
pub mod size;

verus! {

/// An entity of the game world, by its stable 64-bit identifier.
pub type EntityId = u64;

} // verus!
