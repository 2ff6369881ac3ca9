use synapse_core::error::Result;
use synapse_core::rules::{check_split, child_index, insert_step, InsertStep, MAX_DEPTH, MAX_NODES_PER_CELL};
use synapse_core::QuadtreeError;

#[test]
fn child_index_orders_ne_nw_sw_se() {
    assert_eq!(child_index(true, false), 0);
    assert_eq!(child_index(false, false), 1);
    assert_eq!(child_index(false, true), 2);
    assert_eq!(child_index(true, true), 3);
}

#[test]
fn insert_step_refuses_nodes_outside_the_cell() {
    let r: Result<InsertStep> = insert_step(false, true, 0);
    assert_eq!(r, Err(QuadtreeError::InvalidBounds));
    assert_eq!(insert_step(false, false, 3), Err(QuadtreeError::InvalidBounds));
    assert_eq!(insert_step(false, true, MAX_NODES_PER_CELL), Err(QuadtreeError::InvalidBounds));
}

#[test]
fn insert_step_stores_until_the_leaf_is_full() {
    for stored in 0..MAX_NODES_PER_CELL {
        assert_eq!(insert_step(true, true, stored), Ok(InsertStep::Store));
    }
    assert_eq!(insert_step(true, true, MAX_NODES_PER_CELL), Ok(InsertStep::Split));
    assert_eq!(insert_step(true, true, 100), Ok(InsertStep::Split));
}

#[test]
fn insert_step_routes_through_inner_cells() {
    assert_eq!(insert_step(true, false, 0), Ok(InsertStep::Descend));
    assert_eq!(insert_step(true, false, 9), Ok(InsertStep::Descend));
}

#[test]
fn cell_capacity_and_depth_limits() {
    assert_eq!(MAX_NODES_PER_CELL, 8);
    assert_eq!(MAX_DEPTH, 16);
}

#[test]
fn check_split_allows_cells_above_the_deepest_level() {
    assert_eq!(check_split(0), Ok(()));
    assert_eq!(check_split(15), Ok(()));
}

#[test]
fn check_split_refuses_at_the_deepest_level() {
    assert_eq!(check_split(16), Err(QuadtreeError::InvalidOperation("Max quadtree depth exceeded".to_string())));
    assert_eq!(check_split(17), Err(QuadtreeError::InvalidOperation("Max quadtree depth exceeded".to_string())));
}

#[test]
fn error_constructors_carry_their_messages() {
    assert_eq!(
        QuadtreeError::depth_exceeded(),
        QuadtreeError::InvalidOperation("Max quadtree depth exceeded".to_string())
    );
    assert_eq!(
        QuadtreeError::child_missing(),
        QuadtreeError::InvalidOperation("Child node missing".to_string())
    );
    assert_ne!(QuadtreeError::NodeNotFound(3), QuadtreeError::NodeNotFound(4));
    assert_ne!(QuadtreeError::CapacityExceeded, QuadtreeError::InvalidBounds);
    assert_eq!(
        QuadtreeError::SerializationError("x".to_string()),
        QuadtreeError::SerializationError("x".to_string())
    );
}
