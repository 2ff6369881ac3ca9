use synapse_core::quadtree::QuadtreeNode;
use synapse_core::{NodeData, Quadtree, QuadtreeError, Region};

/// An axis-aligned box in f32, with the geometry of the editor's bounds.
#[derive(Debug, Clone, Copy, PartialEq)]
struct Aabb {
    min: (f32, f32),
    max: (f32, f32),
}

impl Aabb {
    fn new(min: (f32, f32), max: (f32, f32)) -> Self {
        Aabb { min, max }
    }

    fn center(&self) -> (f32, f32) {
        ((self.min.0 + self.max.0) * 0.5, (self.min.1 + self.max.1) * 0.5)
    }

    fn width(&self) -> f32 {
        self.max.0 - self.min.0
    }

    fn height(&self) -> f32 {
        self.max.1 - self.min.1
    }
}

impl Region for Aabb {
    fn intersects(&self, other: &Self) -> bool {
        self.min.0 <= other.max.0
            && self.max.0 >= other.min.0
            && self.min.1 <= other.max.1
            && self.max.1 >= other.min.1
    }

    fn center_sides(&self, item: &Self) -> (bool, bool) {
        let c = self.center();
        let p = item.center();
        (p.0 > c.0, p.1 > c.1)
    }

    fn quadrants(&self) -> (Self, Self, Self, Self) {
        let c = self.center();
        let hw = self.width() * 0.5;
        let hh = self.height() * 0.5;
        (
            Aabb::new((c.0, c.1 - hh), (c.0 + hw, c.1)),
            Aabb::new((c.0 - hw, c.1 - hh), (c.0, c.1)),
            Aabb::new((c.0 - hw, c.1), (c.0, c.1 + hh)),
            Aabb::new((c.0, c.1), (c.0 + hw, c.1 + hh)),
        )
    }

    fn corner_cell(&self) -> (u32, u32) {
        (self.min.0 as u32, self.min.1 as u32)
    }

    fn wider_than(&self, other: &Self) -> bool {
        self.width().partial_cmp(&other.width()).unwrap() == std::cmp::Ordering::Greater
    }
}

fn world() -> Aabb {
    Aabb::new((0.0, 0.0), (100.0, 100.0))
}

fn node(id: u32, min: (f32, f32), max: (f32, f32)) -> NodeData<Aabb> {
    NodeData::new(id, Aabb::new(min, max), format!("node{}", id))
}

fn ids(nodes: &[NodeData<Aabb>]) -> Vec<u32> {
    let mut v: Vec<u32> = nodes.iter().map(|n| n.id).collect();
    v.sort();
    v
}

#[test]
fn test_quadtree_insert_query() {
    let bounds = Aabb::new((0.0, 0.0), (100.0, 100.0));
    let mut qt = Quadtree::new(bounds);

    let node1 = NodeData::new(1, Aabb::new((10.0, 10.0), (20.0, 20.0)), "node1".to_string());
    qt.insert(node1).unwrap();

    let results = qt.query(&Aabb::new((15.0, 15.0), (25.0, 25.0)));
    assert_eq!(results.len(), 1);
}

#[test]
fn test_hit_test() {
    let bounds = Aabb::new((0.0, 0.0), (100.0, 100.0));
    let mut qt = Quadtree::new(bounds);

    let node = NodeData::new(1, Aabb::new((10.0, 10.0), (20.0, 20.0)), "node".to_string());
    qt.insert(node).unwrap();

    let hit = qt.hit_test(&Aabb::new((15.0, 15.0), (15.0, 15.0)));
    assert!(hit.is_some());
    assert_eq!(hit.unwrap().id, 1);
}

#[test]
fn node_data_new_has_no_runtime_data() {
    let n = NodeData::new(7, Aabb::new((1.0, 2.0), (3.0, 4.0)), "seven".to_string());
    assert_eq!(n.id, 7);
    assert_eq!(n.label, "seven");
    assert!(n.data.is_empty());
    let c = n.clone();
    assert_eq!(c.id, 7);
    assert_eq!(c.bounds, n.bounds);
    assert_eq!(c.label, n.label);
}

#[test]
fn insert_outside_bounds_is_refused() {
    let mut qt = Quadtree::new(world());
    let r = qt.insert(node(1, (200.0, 200.0), (210.0, 210.0)));
    assert_eq!(r, Err(QuadtreeError::InvalidBounds));
    assert!(qt.find(1).is_none());
    assert!(qt.get_all().is_empty());
}

#[test]
fn find_after_insert_returns_the_node() {
    let mut qt = Quadtree::new(world());
    qt.insert(node(3, (10.0, 10.0), (20.0, 20.0))).unwrap();
    let found = qt.find(3).unwrap();
    assert_eq!(found.id, 3);
    assert_eq!(found.label, "node3");
    assert_eq!(found.bounds, Aabb::new((10.0, 10.0), (20.0, 20.0)));
    assert!(qt.find(4).is_none());
}

#[test]
fn insert_under_an_existing_id_replaces_the_cached_node() {
    let mut qt = Quadtree::new(world());
    qt.insert(node(1, (10.0, 10.0), (20.0, 20.0))).unwrap();
    qt.insert(NodeData::new(1, Aabb::new((50.0, 50.0), (60.0, 60.0)), "moved".to_string())).unwrap();
    assert_eq!(qt.find(1).unwrap().label, "moved");
    assert_eq!(qt.get_all().len(), 1);
    // the tree keeps both copies
    assert_eq!(qt.query(&world()).len(), 2);
}

#[test]
fn query_returns_only_intersecting_nodes() {
    let mut qt = Quadtree::new(world());
    qt.insert(node(1, (10.0, 10.0), (20.0, 20.0))).unwrap();
    qt.insert(node(2, (70.0, 70.0), (80.0, 80.0))).unwrap();
    qt.insert(node(3, (15.0, 60.0), (25.0, 65.0))).unwrap();
    assert_eq!(ids(&qt.query(&Aabb::new((0.0, 0.0), (30.0, 30.0)))), vec![1]);
    assert_eq!(ids(&qt.query(&Aabb::new((0.0, 0.0), (100.0, 100.0)))), vec![1, 2, 3]);
    assert_eq!(ids(&qt.query(&Aabb::new((40.0, 40.0), (45.0, 45.0)))), Vec::<u32>::new());
    // edges count as intersecting
    assert_eq!(ids(&qt.query(&Aabb::new((20.0, 20.0), (30.0, 30.0)))), vec![1]);
}

#[test]
fn a_full_cell_splits_and_keeps_every_node() {
    let mut qt = Quadtree::new(world());
    for i in 0..20u32 {
        let x = (i % 5) as f32 * 20.0 + 2.0;
        let y = (i / 5) as f32 * 20.0 + 2.0;
        qt.insert(node(i, (x, y), (x + 1.0, y + 1.0))).unwrap();
    }
    assert_eq!(qt.query(&world()).len(), 20);
    assert_eq!(qt.get_all().len(), 20);
    for i in 0..20u32 {
        assert_eq!(qt.find(i).unwrap().id, i);
    }
    let hits = qt.query(&Aabb::new((0.0, 0.0), (10.0, 10.0)));
    assert_eq!(ids(&hits), vec![0]);
}

#[test]
fn cell_splits_after_max_nodes_per_cell() {
    let mut cell = QuadtreeNode {
        bounds: world(),
        depth: 0,
        morton_code: 0,
        nodes: Vec::new(),
        children: Vec::new(),
    };
    cell.insert(node(0, (1.0, 1.0), (2.0, 2.0))).unwrap();
    for i in 1..8u32 {
        cell.insert(node(i, (i as f32 * 10.0, 1.0), (i as f32 * 10.0 + 1.0, 2.0))).unwrap();
    }
    assert_eq!(cell.nodes.len(), 8);
    assert!(cell.children.is_empty());
    cell.insert(node(8, (90.0, 90.0), (91.0, 91.0))).unwrap();
    assert!(cell.nodes.is_empty());
    assert_eq!(cell.children.len(), 4);
    for child in &cell.children {
        assert_eq!(child.depth, 1);
    }
    // children carry the Morton code of their lower corner
    assert_eq!(cell.children[0].morton_code, synapse_core::interleave(50, 0));
    assert_eq!(cell.children[1].morton_code, synapse_core::interleave(0, 0));
    assert_eq!(cell.children[2].morton_code, synapse_core::interleave(0, 50));
    assert_eq!(cell.children[3].morton_code, synapse_core::interleave(50, 50));
    let mut out = Vec::new();
    cell.query(&world(), &mut out);
    assert_eq!(ids(&out), (0..9).collect::<Vec<u32>>());
}

#[test]
fn splitting_stops_at_the_deepest_level() {
    let mut qt = Quadtree::new(world());
    // nine nodes with the same centre keep landing in one child
    let mut last = Ok(());
    for i in 0..9u32 {
        last = qt.insert(node(i, (10.0, 10.0), (10.0, 10.0)));
    }
    assert_eq!(
        last,
        Err(QuadtreeError::InvalidOperation("Max quadtree depth exceeded".to_string()))
    );
}

#[test]
fn remove_takes_a_node_out_of_tree_and_cache() {
    let mut qt = Quadtree::new(world());
    qt.insert(node(1, (10.0, 10.0), (20.0, 20.0))).unwrap();
    qt.insert(node(2, (30.0, 30.0), (40.0, 40.0))).unwrap();
    assert_eq!(qt.remove(1), Ok(()));
    assert!(qt.find(1).is_none());
    assert_eq!(qt.find(2).unwrap().id, 2);
    assert_eq!(ids(&qt.query(&world())), vec![2]);
    // removing an absent id succeeds and changes nothing
    assert_eq!(qt.remove(99), Ok(()));
    assert_eq!(ids(&qt.get_all()), vec![2]);
}

#[test]
fn cell_find_and_remove_by_id() {
    let mut cell = QuadtreeNode {
        bounds: world(),
        depth: 0,
        morton_code: 0,
        nodes: Vec::new(),
        children: Vec::new(),
    };
    cell.insert(node(5, (1.0, 1.0), (2.0, 2.0))).unwrap();
    cell.insert(NodeData::new(5, Aabb::new((3.0, 3.0), (4.0, 4.0)), "second".to_string())).unwrap();
    cell.insert(node(6, (5.0, 5.0), (6.0, 6.0))).unwrap();
    // the first node with the id
    assert_eq!(cell.find(5).unwrap().label, "node5");
    assert_eq!(cell.remove(5), Ok(()));
    assert!(cell.find(5).is_none());
    assert_eq!(cell.find(6).unwrap().id, 6);
    assert_eq!(cell.nodes.len(), 1);
}

#[test]
fn hit_test_prefers_the_narrowest_node() {
    let mut qt = Quadtree::new(world());
    qt.insert(node(1, (0.0, 0.0), (50.0, 50.0))).unwrap();
    qt.insert(node(2, (10.0, 10.0), (20.0, 20.0))).unwrap();
    qt.insert(node(3, (12.0, 12.0), (40.0, 18.0))).unwrap();
    let p = Aabb::new((15.0, 15.0), (15.0, 15.0));
    assert_eq!(qt.hit_test(&p).unwrap().id, 2);
    let miss = Aabb::new((90.0, 90.0), (90.0, 90.0));
    assert!(qt.hit_test(&miss).is_none());
}

#[test]
fn hit_test_keeps_the_first_of_equally_narrow_nodes() {
    let mut qt = Quadtree::new(world());
    qt.insert(node(1, (10.0, 10.0), (20.0, 20.0))).unwrap();
    qt.insert(node(2, (12.0, 12.0), (22.0, 22.0))).unwrap();
    let p = Aabb::new((15.0, 15.0), (15.0, 15.0));
    assert_eq!(qt.hit_test(&p).unwrap().id, 1);
}

#[test]
fn update_moves_a_cached_node() {
    let mut qt = Quadtree::new(world());
    qt.insert(node(1, (10.0, 10.0), (20.0, 20.0))).unwrap();
    let to = Aabb::new((70.0, 70.0), (80.0, 80.0));
    assert_eq!(qt.update(1, to), Ok(()));
    let moved = qt.find(1).unwrap();
    assert_eq!(moved.bounds, to);
    assert_eq!(moved.label, "node1");
    assert_eq!(ids(&qt.query(&Aabb::new((0.0, 0.0), (30.0, 30.0)))), Vec::<u32>::new());
    assert_eq!(ids(&qt.query(&Aabb::new((60.0, 60.0), (90.0, 90.0)))), vec![1]);
}

#[test]
fn update_of_an_unknown_id_does_nothing() {
    let mut qt = Quadtree::new(world());
    qt.insert(node(1, (10.0, 10.0), (20.0, 20.0))).unwrap();
    assert_eq!(qt.update(2, world()), Ok(()));
    assert_eq!(ids(&qt.get_all()), vec![1]);
}

#[test]
fn update_to_bounds_outside_drops_the_node() {
    let mut qt = Quadtree::new(world());
    qt.insert(node(1, (10.0, 10.0), (20.0, 20.0))).unwrap();
    let r = qt.update(1, Aabb::new((500.0, 500.0), (510.0, 510.0)));
    assert_eq!(r, Err(QuadtreeError::InvalidBounds));
    assert!(qt.find(1).is_none());
    assert!(qt.query(&world()).is_empty());
}

#[test]
fn clear_empties_a_tree_that_never_split() {
    let mut qt = Quadtree::new(world());
    qt.insert(node(1, (10.0, 10.0), (20.0, 20.0))).unwrap();
    qt.insert(node(2, (30.0, 30.0), (40.0, 40.0))).unwrap();
    qt.clear();
    assert!(qt.find(1).is_none());
    assert!(qt.get_all().is_empty());
    assert!(qt.query(&world()).is_empty());
}

#[test]
fn clear_empties_a_tree_that_split() {
    let mut qt = Quadtree::new(world());
    for i in 0..9u32 {
        let x = i as f32 * 10.0 + 1.0;
        qt.insert(node(i, (x, x), (x + 1.0, x + 1.0))).unwrap();
    }
    qt.clear();
    assert!(qt.get_all().is_empty());
    assert!(qt.find(0).is_none());
    assert!(qt.query(&world()).is_empty());
    assert!(qt.hit_test(&Aabb::new((15.0, 15.0), (15.0, 15.0))).is_none());
    // the cleared tree takes nodes again
    qt.insert(node(1, (10.0, 10.0), (20.0, 20.0))).unwrap();
    assert_eq!(ids(&qt.query(&world())), vec![1]);
}

#[test]
fn query_finds_nodes_that_spill_out_of_their_cell() {
    let mut qt = Quadtree::new(world());
    qt.insert(node(1, (90.0, 90.0), (110.0, 110.0))).unwrap();
    let results = qt.query(&Aabb::new((105.0, 105.0), (108.0, 108.0)));
    assert_eq!(ids(&results), vec![1]);
}

#[test]
fn query_returns_nodes_in_pre_order() {
    let mut cell = QuadtreeNode {
        bounds: world(),
        depth: 0,
        morton_code: 0,
        nodes: Vec::new(),
        children: Vec::new(),
    };
    // eight nodes in the north-west quadrant, then one in the north-east
    for i in 0..8u32 {
        let x = i as f32 * 5.0 + 1.0;
        cell.insert(node(i, (x, 1.0), (x + 1.0, 2.0))).unwrap();
    }
    cell.insert(node(8, (60.0, 1.0), (61.0, 2.0))).unwrap();
    let mut out = Vec::new();
    cell.query(&world(), &mut out);
    let order: Vec<u32> = out.iter().map(|n| n.id).collect();
    assert_eq!(order, vec![8, 0, 1, 2, 3, 4, 5, 6, 7]);
}

#[test]
fn get_all_lists_each_cached_node_once() {
    let mut qt = Quadtree::new(world());
    qt.insert(node(4, (10.0, 10.0), (20.0, 20.0))).unwrap();
    qt.insert(node(9, (30.0, 30.0), (40.0, 40.0))).unwrap();
    qt.insert(node(2, (50.0, 50.0), (60.0, 60.0))).unwrap();
    assert_eq!(ids(&qt.get_all()), vec![2, 4, 9]);
}

#[test]
fn insert_below_a_split_succeeds_where_the_leaf_has_room() {
    let mut qt = Quadtree::new(world());
    for i in 0..9u32 {
        let x = (i % 3) as f32 * 30.0 + 5.0;
        let y = (i / 3) as f32 * 30.0 + 5.0;
        qt.insert(node(i, (x, y), (x + 1.0, y + 1.0))).unwrap();
    }
    // the root has split; each quadrant's leaf still has room
    assert!(qt.insert(node(20, (60.0, 60.0), (70.0, 70.0))).is_ok());
    assert!(qt.insert(node(21, (60.0, 10.0), (70.0, 20.0))).is_ok());
    assert!(qt.insert(node(22, (10.0, 60.0), (20.0, 70.0))).is_ok());
    // every cached node is stored in the tree
    let stored = ids(&qt.query(&world()));
    let cached = ids(&qt.get_all());
    assert_eq!(stored, cached);
    assert_eq!(stored.len(), 12);
}

#[test]
fn cell_functions_accept_children_in_any_number() {
    let leaf = |id: u32, x: f32| QuadtreeNode {
        bounds: world(),
        depth: 1,
        morton_code: 0,
        nodes: vec![node(id, (x, x), (x + 1.0, x + 1.0))],
        children: Vec::new(),
    };
    let mut cell = QuadtreeNode {
        bounds: world(),
        depth: 0,
        morton_code: 0,
        nodes: vec![node(1, (5.0, 5.0), (6.0, 6.0))],
        children: vec![leaf(2, 20.0), leaf(3, 40.0)],
    };
    assert_eq!(cell.find(3).unwrap().id, 3);
    let mut out = Vec::new();
    cell.query(&world(), &mut out);
    assert_eq!(out.iter().map(|n| n.id).collect::<Vec<u32>>(), vec![1, 2, 3]);
    assert!(cell.remove(2).is_ok());
    assert!(cell.find(2).is_none());
    assert_eq!(cell.children.len(), 2);
    assert!(cell.children[0].nodes.is_empty());
}

#[test]
fn query_after_remove_is_the_earlier_result_without_the_id() {
    let mut qt = Quadtree::new(world());
    for i in 0..12u32 {
        let x = (i % 4) as f32 * 25.0 + 3.0;
        let y = (i / 4) as f32 * 30.0 + 3.0;
        qt.insert(node(i, (x, y), (x + 10.0, y + 10.0))).unwrap();
    }
    let area = Aabb::new((0.0, 0.0), (60.0, 60.0));
    let before: Vec<u32> = qt.query(&area).iter().map(|n| n.id).collect();
    assert!(before.contains(&5));
    qt.remove(5).unwrap();
    let after: Vec<u32> = qt.query(&area).iter().map(|n| n.id).collect();
    let expected: Vec<u32> = before.into_iter().filter(|&id| id != 5).collect();
    assert_eq!(after, expected);
}

#[test]
fn hit_test_is_the_first_narrowest_of_the_query_at_the_point() {
    let mut qt = Quadtree::new(world());
    qt.insert(node(1, (0.0, 0.0), (50.0, 50.0))).unwrap();
    qt.insert(node(2, (10.0, 10.0), (30.0, 30.0))).unwrap();
    qt.insert(node(3, (12.0, 12.0), (32.0, 32.0))).unwrap();
    qt.insert(node(4, (60.0, 60.0), (61.0, 61.0))).unwrap();
    let point = Aabb::new((20.0, 20.0), (20.0, 20.0));
    let found = qt.query(&point);
    let mut best: Option<&NodeData<Aabb>> = None;
    for n in &found {
        best = match best {
            Some(b) if b.bounds.width() <= n.bounds.width() => Some(b),
            _ => Some(n),
        };
    }
    assert_eq!(qt.hit_test(&point).map(|n| n.id), best.map(|n| n.id));
    assert_eq!(qt.hit_test(&point).unwrap().id, 2);
    assert!(qt.hit_test(&Aabb::new((90.0, 5.0), (90.0, 5.0))).is_none());
}

#[test]
fn find_survives_calls_on_other_ids() {
    let mut qt = Quadtree::new(world());
    qt.insert(node(7, (40.0, 40.0), (45.0, 45.0))).unwrap();
    for i in 0..20u32 {
        let x = (i % 5) as f32 * 19.0 + 1.0;
        let y = (i / 5) as f32 * 19.0 + 1.0;
        qt.insert(node(100 + i, (x, y), (x + 2.0, y + 2.0))).unwrap();
    }
    qt.remove(103).unwrap();
    qt.update(110, Aabb::new((70.0, 70.0), (72.0, 72.0))).unwrap();
    let n = qt.find(7).unwrap();
    assert_eq!(n.id, 7);
    assert_eq!(n.bounds, Aabb::new((40.0, 40.0), (45.0, 45.0)));
    assert!(qt.query(&Aabb::new((41.0, 41.0), (42.0, 42.0))).iter().any(|m| m.id == 7));
}

#[test]
fn a_full_leaf_splits_to_take_the_next_node() {
    let mut qt = Quadtree::new(world());
    for i in 0..8u32 {
        let x = (i % 4) as f32 * 25.0 + 5.0;
        let y = (i / 4) as f32 * 50.0 + 5.0;
        qt.insert(node(i, (x, y), (x + 1.0, y + 1.0))).unwrap();
    }
    assert!(qt.insert(node(8, (80.0, 80.0), (81.0, 81.0))).is_ok());
    assert_eq!(qt.query(&world()).len(), 9);
}
