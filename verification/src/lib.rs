//! A verified model of a dynamically typed, JSON-like data-object store:
//! mutable key/value objects whose values carry runtime type tags, with
//! schema defaults, typed extraction, and a JSON text codec.

pub mod data;
pub mod json;
pub mod laws;
pub mod model;

use vstd::prelude::*;

verus! {

} // verus!
