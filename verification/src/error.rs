use vstd::prelude::*;

verus! {

/// Errors of the spatial index.
#[derive(Debug, PartialEq, Eq)]
pub enum QuadtreeError {
    /// A cell holds more nodes than it can.
    CapacityExceeded,
    /// The node lies outside the bounds of the tree.
    InvalidBounds,
    /// No node has the given id.
    NodeNotFound(u32),
    /// A value could not be serialised.
    SerializationError(String),
    /// The operation is not possible in the tree's present shape.
    InvalidOperation(String),
}

/// Result of the spatial index's operations.
pub type Result<T> = std::result::Result<T, QuadtreeError>;

/// The message carried by the error for a split below the deepest level.
pub open spec fn depth_exceeded_message() -> Seq<char> {
    "Max quadtree depth exceeded"@
}

/// The message carried by the error for an inner cell without the child a node
/// belongs to.
pub open spec fn child_missing_message() -> Seq<char> {
    "Child node missing"@
}

impl QuadtreeError {
    /// The error for a cell that would be split below the deepest level.
    pub fn depth_exceeded() -> (e: QuadtreeError)
        ensures
            e matches QuadtreeError::InvalidOperation(m) && m@ == depth_exceeded_message(),
    {
        QuadtreeError::InvalidOperation(String::from_str("Max quadtree depth exceeded"))
    }

    /// The error for an inner cell that lacks the child a node belongs to.
    pub fn child_missing() -> (e: QuadtreeError)
        ensures
            e matches QuadtreeError::InvalidOperation(m) && m@ == child_missing_message(),
    {
        QuadtreeError::InvalidOperation(String::from_str("Child node missing"))
    }
}

} // verus!
