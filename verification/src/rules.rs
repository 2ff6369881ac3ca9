use vstd::prelude::*;

use crate::error::{depth_exceeded_message, QuadtreeError};

verus! {

/// The number of nodes a leaf cell stores before it splits.
pub const MAX_NODES_PER_CELL: usize = 8;

/// The deepest level at which a cell can still exist; a cell at this depth
/// does not split.
pub const MAX_DEPTH: usize = 16;

/// Index of the child cell that holds a point, from where the point lies
/// against the cell's centre: `right` when it is strictly right of the centre,
/// `bottom` when it is strictly below it. The children are ordered north-east,
/// north-west, south-west, south-east.
pub open spec fn spec_child_index(right: bool, bottom: bool) -> usize {
    if right {
        if bottom { 3 } else { 0 }
    } else {
        if bottom { 2 } else { 1 }
    }
}

/// Child index of a point, given where it lies against the cell's centre.
pub fn child_index(right: bool, bottom: bool) -> (idx: usize)
    ensures
        idx == spec_child_index(right, bottom),
        idx < 4,
{
    match (right, bottom) {
        (true, false) => 0,
        (false, false) => 1,
        (false, true) => 2,
        (true, true) => 3,
    }
}

/// Every child index stands for exactly one side of the centre on each axis.
pub proof fn lemma_child_index_distinct(r1: bool, b1: bool, r2: bool, b2: bool)
    ensures
        spec_child_index(r1, b1) == spec_child_index(r2, b2) <==> (r1 == r2 && b1 == b2),
        spec_child_index(r1, b1) < 4,
{
}

/// What a cell does with a node handed to it for insertion.
#[derive(Debug, Clone, Copy, PartialEq, Eq)]
pub enum InsertStep {
    /// Keep the node in this leaf cell.
    Store,
    /// The leaf is full: split it into four children, then place the node.
    Split,
    /// This cell has children: hand the node to the child that holds its centre.
    Descend,
}

/// The decision a cell makes on an insertion: a node whose bounds miss the
/// cell is refused; a leaf keeps it while it holds fewer than
/// `MAX_NODES_PER_CELL` nodes and splits otherwise; an inner cell routes it to
/// a child.
pub open spec fn spec_insert_step(intersects: bool, is_leaf: bool, stored: usize) -> Option<InsertStep> {
    if !intersects {
        None
    } else if !is_leaf {
        Some(InsertStep::Descend)
    } else if stored < MAX_NODES_PER_CELL {
        Some(InsertStep::Store)
    } else {
        Some(InsertStep::Split)
    }
}

/// Decide what a cell does with a node: `intersects` tells whether the node's
/// bounds meet the cell's, `is_leaf` whether the cell has no children, and
/// `stored` how many nodes the cell holds.
pub fn insert_step(intersects: bool, is_leaf: bool, stored: usize) -> (r: Result<InsertStep, QuadtreeError>)
    ensures
        !intersects <==> r == Err::<InsertStep, QuadtreeError>(QuadtreeError::InvalidBounds),
        intersects ==> r == Ok::<InsertStep, QuadtreeError>(spec_insert_step(intersects, is_leaf, stored).unwrap()),
{
    if !intersects {
        return Err(QuadtreeError::InvalidBounds);
    }
    if is_leaf {
        if stored < MAX_NODES_PER_CELL {
            Ok(InsertStep::Store)
        } else {
            Ok(InsertStep::Split)
        }
    } else {
        Ok(InsertStep::Descend)
    }
}

/// Whether a cell at `depth` may split into four children: it may while it
/// lies above `MAX_DEPTH`; below that the split is refused.
pub fn check_split(depth: usize) -> (r: Result<(), QuadtreeError>)
    ensures
        depth < MAX_DEPTH <==> r is Ok,
        depth >= MAX_DEPTH ==> (r matches Err(QuadtreeError::InvalidOperation(m)) && m@ == depth_exceeded_message()),
{
    if depth >= MAX_DEPTH {
        return Err(QuadtreeError::depth_exceeded());
    }
    Ok(())
}

} // verus!
