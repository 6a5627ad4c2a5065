use vstd::prelude::*;

verus! {

/// Errors raised by the library.
#[derive(Debug, Clone, Copy, PartialEq, Eq, Structural)]
pub enum OctreeError {
    /// The edge length asked of a new tree is not a power of two of at least two.
    DimensionError,
    /// A position lies outside the tree on some axis.
    OutOfBoundsError,
}

impl OctreeError {
    /// A sentence that describes the error.
    pub fn description(&self) -> (r: &'static str)
        ensures
            *self == OctreeError::DimensionError ==> r@
                == "Invalid dimension for octree. Must be an exponent of 2."@,
            *self == OctreeError::OutOfBoundsError ==> r@
                == "Node location provided is out of octree bounds."@,
    {
        match *self {
            OctreeError::DimensionError => "Invalid dimension for octree. Must be an exponent of 2.",
            OctreeError::OutOfBoundsError => "Node location provided is out of octree bounds.",
        }
    }
}

} // verus!
