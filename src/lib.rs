use vstd::prelude::*;

pub mod canonical;
pub mod error;
pub mod linear_quadtree;
pub mod node;
pub mod path;
pub mod quadrant;
pub mod store;

pub use error::{QuadtreeError, SpatialError};
pub use quadrant::Quadrant;

verus! {

} // verus!
