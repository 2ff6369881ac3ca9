# synapse_core

The spatial index of a node editor, verified with Verus.

- `src/quadtree.rs`: the quadtree (`QuadtreeNode`, `Quadtree`, `NodeData`). It is
  generic over the region type `B: Region`; the index never looks inside a
  region, it asks the `Region` methods (overlap, side of the centre, quadrants,
  corner cell, width order). Where a result turns on those answers, the
  contracts state it over the answers the region can give. The contracts state the shape invariant of the
  tree (capacity, depth, four children on the quadrants of their parent, Morton
  codes), what every operation does to the stored nodes (in pre-order) and to
  the id cache, and the laws that tie them together.
- `src/history.rs`: laws over sequences of calls (what find and query give
  after later calls, where stored nodes come from, query after remove, hit
  test against query), stated over the effect each call's contract gives.
- `src/morton.rs`: Morton (Z-order) codes, with their bit layout and laws.
- `src/rules.rs`: cell capacity, split depth, child order and the insertion
  decision.
- `src/json.rs`, `src/status.rs`: the JSON framing and the status codes of the
  JavaScript interface.
- `app/`: the f32 geometry (`Vec2`, `AABB`, and `Region` for `AABB`), Bezier
  curves and CSS matrices, the locked index, and the WASM bindings.

Storage: a cell keeps its nodes in a `Vec`, whose contents vstd specifies;
`smallvec::SmallVec` has no such specification, and one written for a
collection generic in the region type could not be stated. A cell's children
are a `Vec` of none or four cells: Verus could not prove that recursion through
an array of optional boxes ends. The cell functions accept any number of
children.
