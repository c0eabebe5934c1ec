//! Copy-on-write maps of custom properties, shared between the nodes of a
//! document tree, and the outline radius shorthand.

use vstd::prelude::*;

pub mod chain;
pub mod custom_properties_map;
pub mod overlay;
pub mod outline_radius;

verus! {

} // verus!
