use vstd::prelude::*;

verus! {

/// Why an address or a tree operation could not be carried out.
#[derive(Clone, Copy, Debug, PartialEq, Eq, Structural)]
pub enum QuadtreeError {
    /// The point lies outside the domain of the tree.
    BoundsError,
    /// Two points could not be told apart at the deepest level, or the
    /// overflow counter of an address is exhausted.
    DepthError,
}

impl QuadtreeError {
    /// A sentence that describes the error.
    pub fn message(&self) -> (r: &'static str)
        ensures
            *self == QuadtreeError::BoundsError ==> r@ == "Point out of bounds"@,
            *self == QuadtreeError::DepthError ==> r@ == "Maximum tree recursion depth reached"@,
    {
        match self {
            QuadtreeError::BoundsError => "Point out of bounds",
            QuadtreeError::DepthError => "Maximum tree recursion depth reached",
        }
    }
}

/// Failure to place an item in a spatial index.
#[derive(Clone, Copy, Debug, PartialEq, Eq, Structural)]
pub enum SpatialError {
    QuadtreeInsertError,
}

impl SpatialError {
    /// A sentence that describes the error.
    pub fn message(&self) -> (r: &'static str)
        ensures
            r@ == "quad tree insert error"@,
    {
        "quad tree insert error"
    }
}

} // verus!
