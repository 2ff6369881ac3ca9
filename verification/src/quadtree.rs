use std::collections::HashMap;
use vstd::multiset::Multiset;
use vstd::std_specs::iter::IteratorSpec;
use vstd::prelude::*;

use crate::error::{depth_exceeded_message, QuadtreeError};
use crate::morton::{interleave, is_morton_code, lemma_morton_origin};
use crate::rules::{
    check_split, child_index, insert_step, spec_child_index, InsertStep, MAX_DEPTH, MAX_NODES_PER_CELL,
};

verus! {

/// The geometry of the regions a tree is built over. The index itself never
/// looks inside a region; it asks these questions of it.
pub trait Region: Sized + Copy {
    /// Whether the two regions overlap, edges included.
    fn intersects(&self, other: &Self) -> bool;

    /// Where the centre of `item` lies against the centre of this region:
    /// (strictly to the right, strictly below).
    fn center_sides(&self, item: &Self) -> (bool, bool);

    /// The four quadrants of this region around its centre, in the order
    /// north-east, north-west, south-west, south-east.
    fn quadrants(&self) -> (Self, Self, Self, Self);

    /// The integer cell of the region's lower corner, for its Morton code.
    fn corner_cell(&self) -> (u32, u32);

    /// Whether this region is wider than `other`.
    fn wider_than(&self, other: &Self) -> bool;
}

/// `r` is an answer that the region's `intersects` gives for `a` against `b`.
pub open spec fn answers_intersects<B: Region>(a: B, b: B, r: bool) -> bool {
    call_ensures(B::intersects, (&a, &b), r)
}

/// `sides` is an answer that the region's `center_sides` gives for `item`
/// against `cell`.
pub open spec fn answers_center_sides<B: Region>(cell: B, item: B, sides: (bool, bool)) -> bool {
    call_ensures(B::center_sides, (&cell, &item), sides)
}

/// The region cannot answer that `a` misses `b`: asked, it says they meet.
pub open spec fn surely_meets<B: Region>(a: B, b: B) -> bool {
    !answers_intersects(a, b, false)
}

/// The region can answer that `a` meets `b`.
pub open spec fn may_meet<B: Region>(a: B, b: B) -> bool {
    answers_intersects(a, b, true)
}

/// `quads` is an answer that the region's `quadrants` gives for `cell`.
pub open spec fn answers_quadrants<B: Region>(cell: B, quads: (B, B, B, B)) -> bool {
    call_ensures(B::quadrants, (&cell,), quads)
}

/// `corner` is an answer that the region's `corner_cell` gives for `cell`.
pub open spec fn answers_corner_cell<B: Region>(cell: B, corner: (u32, u32)) -> bool {
    call_ensures(B::corner_cell, (&cell,), corner)
}

/// Quadrant `i` (north-east, north-west, south-west, south-east) of `quads`.
pub open spec fn quadrant_at<B>(quads: (B, B, B, B), i: int) -> B {
    if i == 0 {
        quads.0
    } else if i == 1 {
        quads.1
    } else if i == 2 {
        quads.2
    } else {
        quads.3
    }
}

/// The region routes every node that meets a cell into a quadrant that meets
/// it: for a node it can say meets a cell, whatever it answers for the side of
/// the cell's centre the node's centre lies on, and for the cell's quadrants,
/// it cannot say that the quadrant so picked misses the node. (Boxes with
/// exact arithmetic route so: a box that meets a cell and whose centre lies
/// left of the cell's centre reaches into the cell's left half.)
pub open spec fn routes_into_meeting_quadrants<B: Region>() -> bool {
    forall|cell: B, item: B, sides: (bool, bool), quads: (B, B, B, B)|
        #![trigger answers_center_sides(cell, item, sides), answers_quadrants(cell, quads)]
        may_meet(cell, item) && answers_center_sides(cell, item, sides) && answers_quadrants(cell, quads) ==> surely_meets(
            quadrant_at(quads, spec_child_index(sides.0, sides.1) as int),
            item,
        )
}

/// What a stored node is, as the contracts see it.
pub struct NodeView<B> {
    pub id: u32,
    pub bounds: B,
    pub label: Seq<char>,
    pub data: Seq<u8>,
}

/// Node data stored in the tree.
pub struct NodeData<B> {
    pub id: u32,
    pub bounds: B,
    pub label: String,
    pub data: Vec<u8>,
}

impl<B> View for NodeData<B> {
    type V = NodeView<B>;

    open spec fn view(&self) -> NodeView<B> {
        NodeView { id: self.id, bounds: self.bounds, label: self.label@, data: self.data@ }
    }
}

impl<B: Copy> NodeData<B> {
    /// A node with the given id, bounds and label, and no runtime data.
    pub fn new(id: u32, bounds: B, label: String) -> (n: NodeData<B>)
        ensures
            n.id == id,
            n.bounds == bounds,
            n.label@ == label@,
            n.data@ == Seq::<u8>::empty(),
    {
        NodeData { id, bounds, label, data: Vec::new() }
    }
}

impl<B: Copy> Clone for NodeData<B> {
    /// A copy of this node.
    fn clone(&self) -> (n: NodeData<B>)
        ensures
            n@ == self@,
    {
        NodeData { id: self.id, bounds: self.bounds, label: self.label.clone(), data: self.data.clone() }
    }
}

/// A cell of the quadtree: a leaf stores nodes, an inner cell has four
/// children (north-east, north-west, south-west, south-east).
pub struct QuadtreeNode<B> {
    pub bounds: B,
    pub depth: usize,
    pub morton_code: u64,
    pub nodes: Vec<NodeData<B>>,
    pub children: Vec<QuadtreeNode<B>>,
}

/// `z` is the Morton code of some integer cell.
pub open spec fn has_morton_code(z: u64) -> bool {
    exists|x: u32, y: u32| #[trigger] is_morton_code(z, x, y)
}

/// The four cells' bounds are an answer of the region's `quadrants` for `bounds`.
pub open spec fn are_quadrants_of<B: Region>(bounds: B, cells: Seq<QuadtreeNode<B>>) -> bool {
    exists|quads: (B, B, B, B)|
        #[trigger] answers_quadrants(bounds, quads) && cells[0].bounds == quads.0 && cells[1].bounds
            == quads.1 && cells[2].bounds == quads.2 && cells[3].bounds == quads.3
}

/// The views of a sequence of nodes.
pub open spec fn views<B>(s: Seq<NodeData<B>>) -> Seq<NodeView<B>> {
    s.map_values(|n: NodeData<B>| n@)
}

impl<B> QuadtreeNode<B> {
    /// Every node stored in this cell and below it: the cell's own nodes, then
    /// those under each of its children in order.
    pub open spec fn items(self) -> Seq<NodeView<B>>
        decreases self, 0int,
    {
        proof {
            assert(decreases_to!(self => self.children));
            assert(decreases_to!(self.children => self.children@));
        }
        views(self.nodes@) + items_of_first(self.children@, self.children.len() as int)
    }
}

/// The nodes stored under the first `c` cells of `cells`, in order.
pub open spec fn items_of_first<B>(cells: Seq<QuadtreeNode<B>>, c: int) -> Seq<NodeView<B>>
    decreases cells, c,
{
    if c <= 0 || c > cells.len() {
        Seq::empty()
    } else {
        items_of_first(cells, c - 1) + cells[c - 1].items()
    }
}

impl<B: Region> QuadtreeNode<B> {
    /// Shape of a well-formed cell: no deeper than `MAX_DEPTH`, carrying the
    /// Morton code of some integer cell, holding only nodes that the region
    /// can say meet it; either a leaf with at most
    /// `MAX_NODES_PER_CELL` nodes, or an inner cell with no nodes of its own and
    /// four well-formed children one level deeper, whose bounds are the four
    /// quadrants of its own (north-east, north-west, south-west, south-east),
    /// each carrying the Morton code of its lower corner and holding only nodes
    /// the region can route to it.
    pub open spec fn wf(self) -> bool
        decreases self,
    {
        &&& self.depth <= MAX_DEPTH
        &&& has_morton_code(self.morton_code)
        &&& (self.children.len() == 0 || self.children.len() == 4)
        &&& self.children.len() == 0 ==> self.nodes.len() <= MAX_NODES_PER_CELL
        &&& forall|k: int| 0 <= k < self.nodes.len() ==> may_meet(self.bounds, #[trigger] self.nodes@[k].bounds)
        &&& self.children.len() == 4 ==> {
            &&& self.nodes.len() == 0
            &&& are_quadrants_of(self.bounds, self.children@)
            &&& forall|k: int| 0 <= k < 4 ==> carries_corner_code(#[trigger] self.children@[k])
            &&& forall|k: int, v: NodeView<B>|
                0 <= k < 4 && #[trigger] self.children@[k].items().contains(v) ==> may_route(self.bounds, v.bounds, k)
            &&& self.children@[0].depth == self.depth + 1
            &&& self.children@[1].depth == self.depth + 1
            &&& self.children@[2].depth == self.depth + 1
            &&& self.children@[3].depth == self.depth + 1
            &&& self.children@[0].wf()
            &&& self.children@[1].wf()
            &&& self.children@[2].wf()
            &&& self.children@[3].wf()
        }
    }

}

/// The region can route `item` from `cell` into child `i`: it can answer that
/// the centre of `item` lies on the sides of the cell's centre that pick child
/// `i`.
pub open spec fn may_route<B: Region>(cell: B, item: B, i: int) -> bool {
    exists|sides: (bool, bool)|
        #[trigger] answers_center_sides(cell, item, sides) && spec_child_index(sides.0, sides.1) == i
}

impl<B: Region> QuadtreeNode<B> {
    /// Whichever child the region routes `item` into at each level, the leaf
    /// it reaches below this cell still has room for one more node.
    pub open spec fn room_on_every_path(self, item: B) -> bool
        decreases self,
    {
        if self.children.len() == 0 {
            self.nodes.len() < MAX_NODES_PER_CELL
        } else if self.children.len() == 4 {
            proof {
                assert(decreases_to!(self => self.children));
                assert(decreases_to!(self.children => self.children@));
            }
            &&& may_route(self.bounds, item, 0) ==> self.children@[0].room_on_every_path(item)
            &&& may_route(self.bounds, item, 1) ==> self.children@[1].room_on_every_path(item)
            &&& may_route(self.bounds, item, 2) ==> self.children@[2].room_on_every_path(item)
            &&& may_route(self.bounds, item, 3) ==> self.children@[3].room_on_every_path(item)
        } else {
            false
        }
    }
}

/// `new` is `old` with every node of the given id taken out, cell by cell:
/// every cell keeps its bounds, depth, Morton code and number of children, and
/// its own nodes lose those with the id, the rest keeping their order.
pub open spec fn cell_without_id<B>(old: QuadtreeNode<B>, new: QuadtreeNode<B>, id: u32) -> bool
    decreases old, 0int,
{
    proof {
        assert(decreases_to!(old => old.children));
        assert(decreases_to!(old.children => old.children@));
    }
    &&& new.bounds == old.bounds
    &&& new.depth == old.depth
    &&& new.morton_code == old.morton_code
    &&& new.children.len() == old.children.len()
    &&& views(new.nodes@) == without_id(views(old.nodes@), id)
    &&& cells_without_id(old.children@, new.children@, old.children.len() as int, id)
}

/// The first `c` cells of `news` are those of `olds` with every node of the
/// given id taken out, cell by cell.
pub open spec fn cells_without_id<B>(olds: Seq<QuadtreeNode<B>>, news: Seq<QuadtreeNode<B>>, c: int, id: u32) -> bool
    decreases olds, c,
{
    if c <= 0 || c > olds.len() {
        true
    } else {
        cells_without_id(olds, news, c - 1, id) && cell_without_id(olds[c - 1], news[c - 1], id)
    }
}

proof fn lemma_cells_without_id<B>(olds: Seq<QuadtreeNode<B>>, news: Seq<QuadtreeNode<B>>, n: int, id: u32)
    requires
        0 <= n <= olds.len(),
        forall|k: int| 0 <= k < n ==> cell_without_id(#[trigger] olds[k], news[k], id),
    ensures
        cells_without_id(olds, news, n, id),
    decreases n,
{
    if n > 0 {
        lemma_cells_without_id(olds, news, n - 1, id);
    }
}

/// `f` picks the elements of `a` out of `b`, in order: element `i` of `a` is
/// element `f(i)` of `b`, and later elements come from later positions.
pub open spec fn picks<A>(a: Seq<A>, b: Seq<A>, f: spec_fn(int) -> int) -> bool {
    &&& forall|i: int| 0 <= i < a.len() ==> 0 <= #[trigger] f(i) < b.len() && a[i] == b[f(i)]
    &&& forall|i: int, j: int| 0 <= i < j < a.len() ==> #[trigger] f(i) < #[trigger] f(j)
}

/// `a` is `b` with some of its elements left out, the others in their order.
pub open spec fn is_subsequence<A>(a: Seq<A>, b: Seq<A>) -> bool {
    exists|f: spec_fn(int) -> int| #[trigger] picks(a, b, f)
}

proof fn lemma_subsequence_extend<A>(a: Seq<A>, b: Seq<A>, y: A)
    requires
        is_subsequence(a, b),
    ensures
        is_subsequence(a, b.push(y)),
{
    let f = choose|f: spec_fn(int) -> int| #[trigger] picks(a, b, f);
    assert(picks(a, b.push(y), f));
}

proof fn lemma_subsequence_push<A>(a: Seq<A>, b: Seq<A>, y: A)
    requires
        is_subsequence(a, b),
    ensures
        is_subsequence(a.push(y), b.push(y)),
{
    let f = choose|f: spec_fn(int) -> int| #[trigger] picks(a, b, f);
    let g = |i: int| if i == a.len() { b.len() as int } else { f(i) };
    assert forall|i: int| 0 <= i < a.push(y).len() implies 0 <= #[trigger] g(i) < b.push(y).len() && a.push(y)[i]
        == b.push(y)[g(i)] by {
        if i < a.len() {
            assert(f(i) < b.len());
        }
    }
    assert forall|i: int, j: int| 0 <= i < j < a.push(y).len() implies #[trigger] g(i) < #[trigger] g(j) by {
        if j < a.len() {
            assert(f(i) < f(j));
        } else {
            assert(f(i) < b.len());
        }
    }
    assert(picks(a.push(y), b.push(y), g));
}

proof fn lemma_subsequence_empty<A>(b: Seq<A>)
    ensures
        is_subsequence(Seq::<A>::empty(), b),
{
    let f = |i: int| 0int;
    assert(picks(Seq::<A>::empty(), b, f));
}

/// The error an insertion gives when it would split a cell at the deepest level.
pub open spec fn is_depth_error(r: Result<(), QuadtreeError>) -> bool {
    r matches Err(QuadtreeError::InvalidOperation(m)) && m@ == depth_exceeded_message()
}

impl<B: Region> QuadtreeNode<B> {
    /// Along some path the region can route `item` down from this cell, it
    /// reaches a full leaf at the deepest level, which cannot split.
    pub open spec fn full_at_bottom_on_a_path(self, item: B) -> bool
        decreases self,
    {
        if self.children.len() == 0 {
            self.depth >= MAX_DEPTH && self.nodes.len() >= MAX_NODES_PER_CELL
        } else if self.children.len() == 4 {
            proof {
                assert(decreases_to!(self => self.children));
                assert(decreases_to!(self.children => self.children@));
            }
            ||| may_route(self.bounds, item, 0) && self.children@[0].full_at_bottom_on_a_path(item)
            ||| may_route(self.bounds, item, 1) && self.children@[1].full_at_bottom_on_a_path(item)
            ||| may_route(self.bounds, item, 2) && self.children@[2].full_at_bottom_on_a_path(item)
            ||| may_route(self.bounds, item, 3) && self.children@[3].full_at_bottom_on_a_path(item)
        } else {
            false
        }
    }
}

/// `s` with `x` put in at position `p`.
pub open spec fn inserted_at<A>(s: Seq<A>, p: int, x: A) -> Seq<A> {
    s.take(p) + seq![x] + s.skip(p)
}

impl<B> QuadtreeNode<B> {
    /// The leaf below this cell that holds `x` has it as its last node.
    pub open spec fn ends_leaf_with(self, x: NodeView<B>) -> bool
        decreases self,
    {
        if self.children.len() == 0 {
            self.nodes.len() > 0 && self.nodes@.last()@ == x
        } else if self.children.len() == 4 {
            proof {
                assert(decreases_to!(self => self.children));
                assert(decreases_to!(self.children => self.children@));
            }
            ||| self.children@[0].ends_leaf_with(x)
            ||| self.children@[1].ends_leaf_with(x)
            ||| self.children@[2].ends_leaf_with(x)
            ||| self.children@[3].ends_leaf_with(x)
        } else {
            false
        }
    }
}

proof fn lemma_inserted_in_middle<A>(pre: Seq<A>, c: Seq<A>, suf: Seq<A>, i: int, x: A)
    requires
        0 <= i <= c.len(),
    ensures
        pre + inserted_at(c, i, x) + suf == inserted_at(pre + c + suf, pre.len() + i, x),
{
    let whole = pre + c + suf;
    let p = pre.len() + i;
    assert(whole.take(p) =~= pre + c.take(i));
    assert(whole.skip(p) =~= c.skip(i) + suf);
    assert(pre + inserted_at(c, i, x) + suf =~= inserted_at(whole, p, x));
}

/// Putting `x` into one child of a cell with four children, at some position
/// of that child's nodes, puts it into the cell's nodes at some position.
proof fn lemma_insert_into_child<B>(old: QuadtreeNode<B>, new: QuadtreeNode<B>, idx: int, i: int, x: NodeView<B>)
    requires
        old.children.len() == 4,
        new.children.len() == 4,
        new.nodes == old.nodes,
        0 <= idx < 4,
        new.children@ == old.children@.update(idx, new.children@[idx]),
        0 <= i <= old.children@[idx].items().len(),
        new.children@[idx].items() == inserted_at(old.children@[idx].items(), i, x),
    ensures
        exists|p: int| 0 <= p <= old.items().len() && new.items() == inserted_at(old.items(), p, x),
{
    lemma_items_four(old);
    lemma_items_four(new);
    let a = views(old.nodes@);
    let ch = old.children@;
    let nc = new.children@;
    let c = ch[idx].items();
    let e = Seq::<NodeView<B>>::empty();
    if idx == 0 {
        let pre = a;
        let suf = ch[1].items() + ch[2].items() + ch[3].items();
        assert(old.items() =~= pre + c + suf);
        assert(new.items() =~= pre + nc[0].items() + suf);
        lemma_inserted_in_middle(pre, c, suf, i, x);
        assert(new.items() == inserted_at(old.items(), pre.len() + i, x));
    } else if idx == 1 {
        let pre = a + ch[0].items();
        let suf = ch[2].items() + ch[3].items();
        assert(old.items() =~= pre + c + suf);
        assert(new.items() =~= pre + nc[1].items() + suf);
        lemma_inserted_in_middle(pre, c, suf, i, x);
        assert(new.items() == inserted_at(old.items(), pre.len() + i, x));
    } else if idx == 2 {
        let pre = a + ch[0].items() + ch[1].items();
        let suf = ch[3].items();
        assert(old.items() =~= pre + c + suf);
        assert(new.items() =~= pre + nc[2].items() + suf);
        lemma_inserted_in_middle(pre, c, suf, i, x);
        assert(new.items() == inserted_at(old.items(), pre.len() + i, x));
    } else {
        let pre = a + ch[0].items() + ch[1].items() + ch[2].items();
        assert(old.items() =~= pre + c + e);
        assert(new.items() =~= pre + nc[3].items() + e);
        lemma_inserted_in_middle(pre, c, e, i, x);
        assert(new.items() == inserted_at(old.items(), pre.len() + i, x));
    }
}

/// A cell with no children stores exactly its own nodes.
proof fn lemma_items_leaf<B>(cell: QuadtreeNode<B>)
    requires
        cell.children.len() == 0,
    ensures
        cell.items() == views(cell.nodes@),
{
    assert(cell.items() =~= views(cell.nodes@));
}

/// A cell with four children stores its own nodes, then those under each child.
proof fn lemma_items_four<B>(cell: QuadtreeNode<B>)
    requires
        cell.children.len() == 4,
    ensures
        cell.items() == views(cell.nodes@) + cell.children@[0].items() + cell.children@[1].items()
            + cell.children@[2].items() + cell.children@[3].items(),
{
    reveal_with_fuel(items_of_first, 5);
    let ch = cell.children@;
    assert(items_of_first(ch, 4) =~= ch[0].items() + ch[1].items() + ch[2].items() + ch[3].items());
    assert(cell.items() =~= views(cell.nodes@) + ch[0].items() + ch[1].items() + ch[2].items() + ch[3].items());
}

/// Where each of the first `n` cells holds what its counterpart held without
/// the nodes with a given id, so do the first `n` cells together.
proof fn lemma_items_of_first_filter<B>(
    old_cells: Seq<QuadtreeNode<B>>,
    new_cells: Seq<QuadtreeNode<B>>,
    n: int,
    id: u32,
)
    requires
        old_cells.len() == new_cells.len(),
        0 <= n <= old_cells.len(),
        forall|k: int| 0 <= k < n ==> #[trigger] new_cells[k].items() == without_id(old_cells[k].items(), id),
    ensures
        items_of_first(new_cells, n) == without_id(items_of_first(old_cells, n), id),
    decreases n,
{
    let p = |v: NodeView<B>| v.id != id;
    if n > 0 {
        lemma_items_of_first_filter(old_cells, new_cells, n - 1, id);
        Seq::filter_distributes_over_add(items_of_first(old_cells, n - 1), old_cells[n - 1].items(), p);
        assert(new_cells[n - 1].items() == without_id(old_cells[n - 1].items(), id));
    } else {
        assert(items_of_first(old_cells, 0).filter(p) =~= Seq::<NodeView<B>>::empty()) by {
            reveal(Seq::filter);
        }
    }
}

/// The nodes under the first `c` cells come first among those under the first `n`.
proof fn lemma_items_of_first_prefix<B>(cells: Seq<QuadtreeNode<B>>, c: int, n: int)
    requires
        0 <= c <= n <= cells.len(),
    ensures
        items_of_first(cells, n) == items_of_first(cells, c) + items_of_first(cells, n).skip(
            items_of_first(cells, c).len() as int,
        ),
    decreases n - c,
{
    if c < n {
        lemma_items_of_first_prefix(cells, c, n - 1);
        assert(items_of_first(cells, n) =~= items_of_first(cells, c) + items_of_first(cells, n).skip(
            items_of_first(cells, c).len() as int,
        ));
    } else {
        assert(items_of_first(cells, n) =~= items_of_first(cells, c) + items_of_first(cells, n).skip(
            items_of_first(cells, c).len() as int,
        ));
    }
}

/// The first node in `s` with the given id, if any.
pub open spec fn first_with_id<B>(s: Seq<NodeView<B>>, id: u32) -> Option<NodeView<B>>
    decreases s.len(),
{
    if s.len() == 0 {
        None
    } else if s[0].id == id {
        Some(s[0])
    } else {
        first_with_id(s.drop_first(), id)
    }
}

/// The nodes of `s` whose id is not `id`, in their order.
pub open spec fn without_id<B>(s: Seq<NodeView<B>>, id: u32) -> Seq<NodeView<B>> {
    s.filter(|v: NodeView<B>| v.id != id)
}

/// The view of an optional node.
pub open spec fn opt_view<B>(n: Option<NodeData<B>>) -> Option<NodeView<B>> {
    match n {
        Some(d) => Some(d@),
        None => None,
    }
}

proof fn lemma_first_with_id_append<B>(a: Seq<NodeView<B>>, b: Seq<NodeView<B>>, id: u32)
    ensures
        first_with_id(a + b, id) == if first_with_id(a, id) is Some {
            first_with_id(a, id)
        } else {
            first_with_id(b, id)
        },
    decreases a.len(),
{
    if a.len() == 0 {
        assert(a + b =~= b);
    } else {
        assert((a + b).drop_first() =~= a.drop_first() + b);
        lemma_first_with_id_append(a.drop_first(), b, id);
    }
}

proof fn lemma_views_push<B>(s: Seq<NodeData<B>>, n: NodeData<B>)
    ensures
        views(s.push(n)) == views(s).push(n@),
{
    assert(views(s.push(n)) =~= views(s).push(n@));
}

/// The nodes under four cells, counted with multiplicity.
pub open spec fn cells_multiset<B>(cells: Seq<QuadtreeNode<B>>) -> Multiset<NodeView<B>> {
    cells[0].items().to_multiset().add(cells[1].items().to_multiset()).add(
        cells[2].items().to_multiset(),
    ).add(cells[3].items().to_multiset())
}

/// The errors an insertion can end with: the node misses the cell, or a cell
/// would have to split below the deepest level.
pub open spec fn is_insert_error(e: QuadtreeError) -> bool {
    ||| e == QuadtreeError::InvalidBounds
    ||| (e matches QuadtreeError::InvalidOperation(m) && m@ == depth_exceeded_message())
}

proof fn lemma_items_multiset<B>(cell: QuadtreeNode<B>)
    requires
        cell.children.len() == 4,
    ensures
        cell.items().to_multiset() == views(cell.nodes@).to_multiset().add(
            cells_multiset(cell.children@),
        ),
{
    broadcast use vstd::multiset::group_multiset_axioms;
    lemma_items_four(cell);
    let ch = cell.children@;
    let a = views(cell.nodes@);
    vstd::seq_lib::lemma_multiset_commutative(a, ch[0].items());
    vstd::seq_lib::lemma_multiset_commutative(a + ch[0].items(), ch[1].items());
    vstd::seq_lib::lemma_multiset_commutative(a + ch[0].items() + ch[1].items(), ch[2].items());
    vstd::seq_lib::lemma_multiset_commutative(
        a + ch[0].items() + ch[1].items() + ch[2].items(),
        ch[3].items(),
    );
}

proof fn lemma_cells_multiset_update_exact<B>(cells: Seq<QuadtreeNode<B>>, idx: int, cell: QuadtreeNode<B>, x: NodeView<B>)
    requires
        cells.len() == 4,
        0 <= idx < 4,
        cell.items().to_multiset() == cells[idx].items().to_multiset().insert(x),
    ensures
        cells_multiset(cells.update(idx, cell)) == cells_multiset(cells).insert(x),
{
    broadcast use vstd::multiset::group_multiset_axioms;
    let u = cells.update(idx, cell);
    assert(cells_multiset(u) =~= cells_multiset(cells).insert(x));
}

proof fn lemma_cells_multiset_update_same<B>(cells: Seq<QuadtreeNode<B>>, idx: int, cell: QuadtreeNode<B>)
    requires
        cells.len() == 4,
        0 <= idx < 4,
        cell.items().to_multiset() == cells[idx].items().to_multiset(),
    ensures
        cells_multiset(cells.update(idx, cell)) == cells_multiset(cells),
{
    broadcast use vstd::multiset::group_multiset_axioms;
    let u = cells.update(idx, cell);
    assert(cells_multiset(u) =~= cells_multiset(cells));
}

/// The cell's Morton code is that of the integer cell the region gives as its
/// lower corner.
pub open spec fn carries_corner_code<B: Region>(cell: QuadtreeNode<B>) -> bool {
    exists|c: (u32, u32)|
        #[trigger] answers_corner_cell(cell.bounds, c) && is_morton_code(cell.morton_code, c.0, c.1)
}

/// When child `idx` has taken `x`, which the region can route to it, and
/// holds no more than before plus `x`, every child still holds only nodes the
/// region can route to it.
proof fn lemma_routed_after_insert<B: Region>(
    bounds: B,
    cells: Seq<QuadtreeNode<B>>,
    idx: int,
    cell: QuadtreeNode<B>,
    x: NodeView<B>,
)
    requires
        cells.len() == 4,
        0 <= idx < 4,
        forall|k: int, v: NodeView<B>|
            0 <= k < 4 && #[trigger] cells[k].items().contains(v) ==> may_route(bounds, v.bounds, k),
        may_route(bounds, x.bounds, idx),
        cell.items().to_multiset().subset_of(cells[idx].items().to_multiset().insert(x)),
    ensures
        forall|k: int, v: NodeView<B>|
            0 <= k < 4 && #[trigger] cells.update(idx, cell)[k].items().contains(v) ==> may_route(
                bounds,
                v.bounds,
                k,
            ),
{
    broadcast use vstd::multiset::group_multiset_axioms;
    broadcast use vstd::seq_lib::group_to_multiset_ensures;
    let u = cells.update(idx, cell);
    assert forall|k: int, v: NodeView<B>| 0 <= k < 4 && #[trigger] u[k].items().contains(v) implies may_route(
        bounds,
        v.bounds,
        k,
    ) by {
        if k == idx {
            assert(cell.items().to_multiset().count(v) > 0);
            assert(cells[k].items().to_multiset().insert(x).count(v) > 0);
            if v != x {
                assert(cells[k].items().to_multiset().count(v) > 0);
                assert(cells[k].items().contains(v));
            }
        } else {
            assert(u[k] == cells[k]);
        }
    }
}

proof fn lemma_cells_multiset_update_within<B>(
    cells: Seq<QuadtreeNode<B>>,
    idx: int,
    cell: QuadtreeNode<B>,
    bound: Multiset<NodeView<B>>,
)
    requires
        cells.len() == 4,
        0 <= idx < 4,
        cells_multiset(cells).subset_of(bound),
        cell.items().to_multiset().subset_of(cells[idx].items().to_multiset()),
    ensures
        cells_multiset(cells.update(idx, cell)).subset_of(bound),
{
    broadcast use vstd::multiset::group_multiset_axioms;
    let u = cells.update(idx, cell);
    assert forall|v: NodeView<B>| #[trigger] cells_multiset(u).count(v) <= bound.count(v) by {
        assert(cells_multiset(cells).count(v) <= bound.count(v));
        assert(cell.items().to_multiset().count(v) <= cells[idx].items().to_multiset().count(v));
    }
}

proof fn lemma_cells_multiset_update<B>(
    cells: Seq<QuadtreeNode<B>>,
    idx: int,
    cell: QuadtreeNode<B>,
    bound: Multiset<NodeView<B>>,
    x: NodeView<B>,
)
    requires
        cells.len() == 4,
        0 <= idx < 4,
        cells_multiset(cells).subset_of(bound),
        cell.items().to_multiset().subset_of(cells[idx].items().to_multiset().insert(x)),
    ensures
        cells_multiset(cells.update(idx, cell)).subset_of(bound.insert(x)),
{
    broadcast use vstd::multiset::group_multiset_axioms;
    let u = cells.update(idx, cell);
    assert forall|v: NodeView<B>| #[trigger] cells_multiset(u).count(v) <= bound.insert(x).count(v) by {
        assert(cells_multiset(cells).count(v) <= bound.count(v));
        assert(cell.items().to_multiset().count(v) <= cells[idx].items().to_multiset().insert(x).count(v));
    }
}

/// `r` is an answer that the region's `wider_than` gives for `a` against `b`.
pub open spec fn answers_wider<B: Region>(a: B, b: B, r: bool) -> bool {
    call_ensures(B::wider_than, (&a, &b), r)
}

/// `out` is `s` with, in order, every node kept for which the region answered
/// that its bounds meet `q`, and every node dropped for which it answered they
/// miss `q`.
pub open spec fn kept_by_answers<B: Region>(s: Seq<NodeView<B>>, q: B, out: Seq<NodeView<B>>) -> bool
    decreases s.len(),
{
    if s.len() == 0 {
        out.len() == 0
    } else {
        let x = s.last();
        ||| (answers_intersects(x.bounds, q, true) && out.len() > 0 && out.last() == x
            && kept_by_answers(s.drop_last(), q, out.drop_last()))
        ||| (answers_intersects(x.bounds, q, false) && kept_by_answers(s.drop_last(), q, out))
    }
}

/// `r` is what choosing the narrowest of `rest` gives, starting from `best` and
/// going front to back: the first candidate is taken, and a later one replaces
/// the current choice exactly when the region answered that the current choice
/// is wider than it.
pub open spec fn narrowest_by_answers<B: Region>(
    best: Option<NodeView<B>>,
    rest: Seq<NodeView<B>>,
    r: Option<NodeView<B>>,
) -> bool
    decreases rest.len(),
{
    if rest.len() == 0 {
        r == best
    } else {
        let x = rest[0];
        match best {
            None => narrowest_by_answers(Some(x), rest.drop_first(), r),
            Some(b) => {
                ||| (answers_wider(b.bounds, x.bounds, true) && narrowest_by_answers(Some(x), rest.drop_first(), r))
                ||| (answers_wider(b.bounds, x.bounds, false) && narrowest_by_answers(Some(b), rest.drop_first(), r))
            },
        }
    }
}

pub(crate) proof fn lemma_kept_push<B: Region>(s: Seq<NodeView<B>>, q: B, out: Seq<NodeView<B>>, x: NodeView<B>, hit: bool)
    requires
        kept_by_answers(s, q, out),
        answers_intersects(x.bounds, q, hit),
    ensures
        hit ==> kept_by_answers(s.push(x), q, out.push(x)),
        !hit ==> kept_by_answers(s.push(x), q, out),
{
    assert(s.push(x).drop_last() =~= s);
    assert(out.push(x).drop_last() =~= out);
}

pub(crate) proof fn lemma_kept_concat<B: Region>(
    a: Seq<NodeView<B>>,
    oa: Seq<NodeView<B>>,
    b: Seq<NodeView<B>>,
    ob: Seq<NodeView<B>>,
    q: B,
)
    requires
        kept_by_answers(a, q, oa),
        kept_by_answers(b, q, ob),
    ensures
        kept_by_answers(a + b, q, oa + ob),
    decreases b.len(),
{
    if b.len() == 0 {
        assert(a + b =~= a);
        assert(oa + ob =~= oa);
    } else {
        let x = b.last();
        let b1 = b.drop_last();
        assert((a + b).drop_last() =~= a + b1);
        assert((a + b).last() == x);
        if answers_intersects(x.bounds, q, true) && ob.len() > 0 && ob.last() == x
            && kept_by_answers(b1, q, ob.drop_last()) {
            lemma_kept_concat(a, oa, b1, ob.drop_last(), q);
            assert((oa + ob).drop_last() =~= oa + ob.drop_last());
        } else {
            lemma_kept_concat(a, oa, b1, ob, q);
        }
    }
}

pub(crate) proof fn lemma_kept_facts<B: Region>(s: Seq<NodeView<B>>, q: B, out: Seq<NodeView<B>>)
    requires
        kept_by_answers(s, q, out),
    ensures
        forall|i: int| 0 <= i < out.len() ==> s.contains(#[trigger] out[i]),
        forall|i: int| 0 <= i < s.len() && surely_meets(#[trigger] s[i].bounds, q) ==> out.contains(s[i]),
    decreases s.len(),
{
    if s.len() > 0 {
        let x = s.last();
        let s1 = s.drop_last();
        if answers_intersects(x.bounds, q, true) && out.len() > 0 && out.last() == x
            && kept_by_answers(s1, q, out.drop_last()) {
            let o1 = out.drop_last();
            lemma_kept_facts(s1, q, o1);
            assert forall|i: int| 0 <= i < out.len() implies s.contains(#[trigger] out[i]) by {
                if i < o1.len() {
                    assert(o1[i] == out[i]);
                    let k = choose|k: int| 0 <= k < s1.len() && s1[k] == o1[i];
                    assert(s[k] == out[i]);
                } else {
                    assert(s[s.len() - 1] == out[i]);
                }
            }
            assert forall|i: int| 0 <= i < s.len() && surely_meets(#[trigger] s[i].bounds, q) implies out.contains(s[i]) by {
                if i < s1.len() {
                    assert(s1[i] == s[i]);
                    let k = choose|k: int| 0 <= k < o1.len() && o1[k] == s1[i];
                    assert(out[k] == s[i]);
                } else {
                    assert(out[out.len() - 1] == s[i]);
                }
            }
        } else {
            assert(answers_intersects(x.bounds, q, false) && kept_by_answers(s1, q, out));
            lemma_kept_facts(s1, q, out);
            assert forall|i: int| 0 <= i < out.len() implies s.contains(#[trigger] out[i]) by {
                let k = choose|k: int| 0 <= k < s1.len() && s1[k] == out[i];
                assert(s[k] == out[i]);
            }
            assert forall|i: int| 0 <= i < s.len() && surely_meets(#[trigger] s[i].bounds, q) implies out.contains(s[i]) by {
                if i < s1.len() {
                    assert(s1[i] == s[i]);
                }
            }
        }
    }
}


impl<B: Region> QuadtreeNode<B> {
    /// The first node with the given id, looking at this cell's nodes and then
    /// at its children in order.
    pub fn find(&self, id: u32) -> (r: Option<NodeData<B>>)
        ensures
            opt_view(r) == first_with_id(self.items(), id),
        decreases self,
    {
        let ghost own = views(self.nodes@);
        let mut i: usize = 0;
        while i < self.nodes.len()
            invariant
                i <= self.nodes.len(),
                own == views(self.nodes@),
                first_with_id(own.take(i as int), id) is None,
            decreases self.nodes.len() - i,
        {
            let ghost x = own[i as int];
            proof {
                assert(own.take(i as int + 1) =~= own.take(i as int) + seq![x]);
                lemma_first_with_id_append(own.take(i as int), seq![x], id);
                assert(seq![x].drop_first() =~= Seq::<NodeView<B>>::empty());
                assert(first_with_id(Seq::<NodeView<B>>::empty(), id) is None);
            }
            if self.nodes[i].id == id {
                proof {
                    assert(first_with_id(own.take(i as int + 1), id) == Some(x));
                    lemma_first_with_id_append(own.take(i as int + 1), own.skip(i as int + 1), id);
                    assert(own =~= own.take(i as int + 1) + own.skip(i as int + 1));
                    lemma_first_with_id_append(own, items_of_first(self.children@, self.children.len() as int), id);
                }
                return Some(self.nodes[i].clone());
            }
            i = i + 1;
        }
        assert(own.take(i as int) =~= own);
        proof {
            assert(items_of_first(self.children@, 0) =~= Seq::<NodeView<B>>::empty());
            assert(own + items_of_first(self.children@, 0) =~= own);
        }
        let mut c: usize = 0;
        while c < self.children.len()
            invariant
                c <= self.children.len(),
                own == views(self.nodes@),
                first_with_id(own + items_of_first(self.children@, c as int), id) is None,
            decreases self.children.len() - c,
        {
            let found = self.children[c].find(id);
            proof {
                let ch = self.children@;
                let n = ch.len() as int;
                let pre = own + items_of_first(ch, c as int);
                assert(own + items_of_first(ch, c as int + 1) =~= pre + ch[c as int].items());
                lemma_first_with_id_append(pre, ch[c as int].items(), id);
                lemma_items_of_first_prefix(ch, c as int + 1, n);
                let rest = items_of_first(ch, n).skip(items_of_first(ch, c as int + 1).len() as int);
                assert(self.items() =~= (own + items_of_first(ch, c as int + 1)) + rest);
                lemma_first_with_id_append(own + items_of_first(ch, c as int + 1), rest, id);
            }
            if found.is_some() {
                return found;
            }
            c = c + 1;
        }
        proof {
            assert(self.items() =~= own + items_of_first(self.children@, c as int));
        }
        None
    }

    /// Removes every node with the given id from this cell and the cells below
    /// it; never fails.
    pub fn remove(&mut self, id: u32) -> (r: Result<(), QuadtreeError>)
        ensures
            r is Ok,
            old(self).wf() ==> final(self).wf(),
            forall|item: B| #[trigger] old(self).room_on_every_path(item) ==> final(self).room_on_every_path(item),
            final(self).items() == without_id(old(self).items(), id),
            final(self).bounds == old(self).bounds,
            final(self).depth == old(self).depth,
            final(self).morton_code == old(self).morton_code,
            final(self).children.len() == old(self).children.len(),
            final(self).nodes.len() <= old(self).nodes.len(),
            views(final(self).nodes@) == without_id(views(old(self).nodes@), id),
            cell_without_id(*old(self), *final(self), id),
            forall|k: int|
                0 <= k < old(self).children.len() ==> {
                    &&& (#[trigger] final(self).children@[k]).items() == without_id(old(self).children@[k].items(), id)
                    &&& cell_without_id(old(self).children@[k], final(self).children@[k], id)
                },
        decreases *old(self),
    {
        let ghost pred = |v: NodeView<B>| v.id != id;
        let mut taken: Vec<NodeData<B>> = Vec::new();
        std::mem::swap(&mut taken, &mut self.nodes);
        let ghost orig = taken@;
        assert(orig.len() == taken.len());
        let mut j: usize = 0;
        while taken.len() > 0
            invariant
                j <= orig.len(),
                taken.len() + j == orig.len(),
                taken@ == orig.skip(j as int),
                self.children == old(self).children,
                self.depth == old(self).depth,
                self.bounds == old(self).bounds,
                self.morton_code == old(self).morton_code,
                orig == old(self).nodes@,
                orig.len() <= usize::MAX,
                pred == (|v: NodeView<B>| v.id != id),
                old(self).wf() ==> forall|k: int|
                    0 <= k < self.nodes.len() ==> may_meet(self.bounds, #[trigger] self.nodes@[k].bounds),
                views(self.nodes@) == views(orig.take(j as int)).filter(pred),
                self.nodes.len() <= j,
            decreases taken.len(),
        {
            let n = taken.remove(0);
            proof {
                assert(n == orig[j as int]);
                assert(old(self).nodes@[j as int] == n);
                assert(old(self).wf() ==> may_meet(self.bounds, n.bounds));
                assert(pred(n@) == (n.id != id));
                assert(orig.take(j as int + 1) =~= orig.take(j as int).push(n));
                lemma_views_push(orig.take(j as int), n);
                views(orig.take(j as int)).lemma_filter_push(n@, pred);
            }
            if n.id != id {
                proof {
                    lemma_views_push(self.nodes@, n);
                }
                self.nodes.push(n);
            }
            proof {
                assert(taken@ =~= orig.skip(j as int + 1));
            }
            j = j + 1;
        }
        proof {
            assert(orig.take(j as int) =~= orig);
        }
        let ghost before = *self;
        let mut c: usize = 0;
        while c < self.children.len()
            invariant
                c <= self.children.len(),
                self.children.len() == before.children.len(),
                self.nodes == before.nodes,
                self.depth == before.depth,
                self.bounds == before.bounds,
                self.morton_code == before.morton_code,
                old(self).children == before.children,
                forall|k: int|
                    0 <= k < c ==> (old(self).children@[k].wf() ==> (#[trigger] self.children@[k]).wf())
                        && (forall|item: B| #[trigger] old(self).children@[k].room_on_every_path(item)
                            ==> self.children@[k].room_on_every_path(item))
                        && self.children@[k].items() == without_id(old(self).children@[k].items(), id)
                        && cell_without_id(old(self).children@[k], self.children@[k], id),
                forall|k: int| c <= k < self.children.len() ==> #[trigger] self.children@[k] == old(self).children@[k],
            decreases self.children.len() - c,
        {
            proof {
                assert(decreases_to!(*old(self) => old(self).children));
                assert(decreases_to!(old(self).children => old(self).children@));
                assert(decreases_to!(old(self).children@ => old(self).children@[c as int]));
            }
            let _ = self.children[c].remove(id);
            c = c + 1;
        }
        proof {
            let p = |v: NodeView<B>| v.id != id;
            assert(pred == p);
            if old(self).wf() && self.children.len() == 4 {
                let quads = choose|quads: (B, B, B, B)|
                    #[trigger] answers_quadrants(old(self).bounds, quads) && old(self).children@[0].bounds == quads.0
                        && old(self).children@[1].bounds == quads.1 && old(self).children@[2].bounds
                        == quads.2 && old(self).children@[3].bounds == quads.3;
                assert(answers_quadrants(self.bounds, quads));
                assert(are_quadrants_of(self.bounds, self.children@));
                assert forall|k: int| 0 <= k < 4 implies carries_corner_code(#[trigger] self.children@[k]) by {
                    let o = old(self).children@[k];
                    assert(carries_corner_code(o));
                    let cc = choose|cc: (u32, u32)|
                        #[trigger] answers_corner_cell(o.bounds, cc) && is_morton_code(o.morton_code, cc.0, cc.1);
                    assert(answers_corner_cell(self.children@[k].bounds, cc));
                }
                assert forall|k: int, v: NodeView<B>|
                    0 <= k < 4 && #[trigger] self.children@[k].items().contains(v) implies may_route(
                        self.bounds,
                        v.bounds,
                        k,
                    ) by {
                    assert(self.children@[k].items() == old(self).children@[k].items().filter(p));
                    old(self).children@[k].items().lemma_filter_contains_rev(p, v);
                }
            }
            assert forall|item: B| #[trigger] old(self).room_on_every_path(item) implies self.room_on_every_path(
                item,
            ) by {
                if self.children.len() == 4 {
                    assert(old(self).children@[0].room_on_every_path(item) ==> self.children@[0].room_on_every_path(item));
                    assert(old(self).children@[1].room_on_every_path(item) ==> self.children@[1].room_on_every_path(item));
                    assert(old(self).children@[2].room_on_every_path(item) ==> self.children@[2].room_on_every_path(item));
                    assert(old(self).children@[3].room_on_every_path(item) ==> self.children@[3].room_on_every_path(item));
                }
            }
            let n = self.children.len() as int;
            lemma_cells_without_id(old(self).children@, self.children@, n, id);
            lemma_items_of_first_filter(old(self).children@, self.children@, n, id);
            Seq::filter_distributes_over_add(views(orig), items_of_first(old(self).children@, n), p);
        }
        Ok(())
    }

    /// Appends to `results`, in pre-order (this cell's nodes, then those under
    /// each child in turn), every node of this cell and the cells below it
    /// whose bounds meet `query_bounds`.
    pub fn query(&self, query_bounds: &B, results: &mut Vec<NodeData<B>>)
        ensures
            old(results)@.len() <= final(results)@.len(),
            views(final(results)@).take(old(results)@.len() as int) == views(old(results)@),
            kept_by_answers(
                self.items(),
                *query_bounds,
                views(final(results)@).skip(old(results)@.len() as int),
            ),
        decreases self,
    {
        let ghost start = views(results@);
        let ghost n0 = results@.len();
        let ghost q = *query_bounds;
        let ghost own = views(self.nodes@);
        proof {
            assert(own.take(0) =~= Seq::<NodeView<B>>::empty());
            assert(views(results@).skip(n0 as int) =~= Seq::<NodeView<B>>::empty());
            assert(views(results@).take(n0 as int) =~= start);
        }
        let mut i: usize = 0;
        while i < self.nodes.len()
            invariant
                i <= self.nodes.len(),
                own == views(self.nodes@),
                q == *query_bounds,
                n0 <= results@.len(),
                n0 == start.len(),
                views(results@).take(n0 as int) == start,
                kept_by_answers(own.take(i as int), q, views(results@).skip(n0 as int)),
            decreases self.nodes.len() - i,
        {
            let ghost x = own[i as int];
            let ghost out = views(results@).skip(n0 as int);
            let hit = self.nodes[i].bounds.intersects(query_bounds);
            proof {
                assert(x.bounds == self.nodes@[i as int].bounds);
                assert(own.take(i as int + 1) =~= own.take(i as int).push(x));
                lemma_kept_push(own.take(i as int), q, out, x, hit);
            }
            if hit {
                let n = self.nodes[i].clone();
                let ghost prev = results@;
                results.push(n);
                proof {
                    lemma_views_push(prev, n);
                    assert(n@ == x);
                    assert(views(results@).skip(n0 as int) =~= out.push(x));
                    assert(views(results@).take(n0 as int) =~= start);
                }
            }
            i = i + 1;
        }
        proof {
            assert(own.take(i as int) =~= own);
            assert(own =~= own + items_of_first(self.children@, 0));
        }
        let mut c: usize = 0;
        while c < self.children.len()
            invariant
                c <= self.children.len(),
                own == views(self.nodes@),
                q == *query_bounds,
                n0 <= results@.len(),
                n0 == start.len(),
                views(results@).take(n0 as int) == start,
                kept_by_answers(own + items_of_first(self.children@, c as int), q, views(results@).skip(n0 as int)),
            decreases self.children.len() - c,
        {
            let ghost before = views(results@);
            self.children[c].query(query_bounds, results);
            proof {
                let ch = self.children@;
                let after = views(results@);
                let mid = before.len();
                assert(after.take(mid as int) == before);
                assert(after.skip(n0 as int) =~= before.skip(n0 as int) + after.skip(mid as int));
                assert(after.take(n0 as int) =~= before.take(n0 as int));
                lemma_kept_concat(
                    own + items_of_first(ch, c as int),
                    before.skip(n0 as int),
                    ch[c as int].items(),
                    after.skip(mid as int),
                    q,
                );
                assert(own + items_of_first(ch, c as int) + ch[c as int].items()
                    =~= own + items_of_first(ch, c as int + 1));
            }
            c = c + 1;
        }
        proof {
            assert(own + items_of_first(self.children@, c as int) =~= self.items());
        }
    }

    /// An empty leaf cell.
    fn new(bounds: B, depth: usize, morton_code: u64) -> (n: Self)
        requires
            depth <= MAX_DEPTH,
            has_morton_code(morton_code),
        ensures
            n.wf(),
            n.bounds == bounds,
            n.depth == depth,
            n.morton_code == morton_code,
            n.nodes@ == Seq::<NodeData<B>>::empty(),
            n.children@ == Seq::<QuadtreeNode<B>>::empty(),
            n.items() == Seq::<NodeView<B>>::empty(),
    {
        let n = QuadtreeNode { bounds, depth, morton_code, nodes: Vec::new(), children: Vec::new() };
        proof {
            assert(n.items() =~= Seq::<NodeView<B>>::empty());
        }
        n
    }

    /// Index of the child cell that holds the centre of `item`.
    fn get_child_index(&self, item: &B) -> (idx: usize)
        ensures
            idx < 4,
            exists|sides: (bool, bool)|
                #[trigger] answers_center_sides(self.bounds, *item, sides) && idx == spec_child_index(
                    sides.0,
                    sides.1,
                ),
    {
        let sides = self.bounds.center_sides(item);
        let idx = child_index(sides.0, sides.1);
        proof {
            assert(answers_center_sides(self.bounds, *item, sides));
        }
        idx
    }

    /// Splits this full leaf into four children, one level deeper, on the
    /// quadrants of its bounds; hands its nodes down to the children that hold
    /// their centres, then places `node_to_insert` the same way. Refused at the
    /// deepest level.
    fn subdivide(&mut self, node_to_insert: NodeData<B>) -> (r: Result<(), QuadtreeError>)
        requires
            old(self).wf(),
            old(self).children.len() == 0,
            old(self).nodes.len() >= MAX_NODES_PER_CELL,
            may_meet(old(self).bounds, node_to_insert.bounds),
        ensures
            final(self).wf(),
            is_depth_error(r) ==> final(self).full_at_bottom_on_a_path(node_to_insert.bounds),
            forall|k: int|
                0 <= k < final(self).children.len() && (#[trigger] final(self).children@[k]).children.len() == 0
                    ==> is_subsequence(views(final(self).children@[k].nodes@), views(old(self).nodes@).push(node_to_insert@)),
            final(self).depth == old(self).depth,
            final(self).bounds == old(self).bounds,
            final(self).morton_code == old(self).morton_code,
            final(self).items().to_multiset().subset_of(
                old(self).items().to_multiset().insert(node_to_insert@),
            ),
            r is Ok ==> final(self).items().contains(node_to_insert@),
            r is Err ==> final(self).items().to_multiset().subset_of(old(self).items().to_multiset()),
            r matches Err(e) ==> is_insert_error(e),
            old(self).depth >= MAX_DEPTH ==> {
                &&& r matches Err(QuadtreeError::InvalidOperation(m)) && m@ == depth_exceeded_message()
                &&& *final(self) == *old(self)
            },
            old(self).depth < MAX_DEPTH ==> {
                &&& final(self).children.len() == 4
                &&& final(self).nodes.len() == 0
                &&& are_quadrants_of(old(self).bounds, final(self).children@)
                &&& forall|k: int| 0 <= k < 4 ==> carries_corner_code(#[trigger] final(self).children@[k])
                &&& forall|k: int, v: NodeView<B>|
                    0 <= k < 4 && #[trigger] final(self).children@[k].items().contains(v) ==> may_route(
                        old(self).bounds,
                        v.bounds,
                        k,
                    )
            },
            routes_into_meeting_quadrants::<B>() ==> {
                &&& r is Ok ==> final(self).items().to_multiset() == old(self).items().to_multiset().insert(
                    node_to_insert@,
                )
                &&& r is Err ==> final(self).items().to_multiset() == old(self).items().to_multiset()
                &&& r matches Err(e) ==> (e matches QuadtreeError::InvalidOperation(m) && m@ == depth_exceeded_message())
            },
        decreases MAX_DEPTH - old(self).depth, 0nat,
    {
        broadcast use vstd::multiset::group_multiset_axioms;
        broadcast use vstd::seq_lib::group_to_multiset_ensures;

        check_split(self.depth)?;
        let quads = self.bounds.quadrants();
        let ghost parent_bounds = self.bounds;
        proof {
            assert(answers_quadrants(parent_bounds, quads));
        }
        let ne = quads.0;
        let nw = quads.1;
        let sw = quads.2;
        let se = quads.3;
        let depth = self.depth + 1;
        let c0 = ne.corner_cell();
        let m0 = interleave(c0.0, c0.1);
        let c1 = nw.corner_cell();
        let m1 = interleave(c1.0, c1.1);
        let c2 = sw.corner_cell();
        let m2 = interleave(c2.0, c2.1);
        let c3 = se.corner_cell();
        let m3 = interleave(c3.0, c3.1);
        proof {
            assert(has_morton_code(m0));
            assert(has_morton_code(m1));
            assert(has_morton_code(m2));
            assert(has_morton_code(m3));
            assert(answers_corner_cell(ne, c0));
            assert(answers_corner_cell(nw, c1));
            assert(answers_corner_cell(sw, c2));
            assert(answers_corner_cell(se, c3));
        }
        self.children.push(QuadtreeNode::new(ne, depth, m0));
        self.children.push(QuadtreeNode::new(nw, depth, m1));
        self.children.push(QuadtreeNode::new(sw, depth, m2));
        self.children.push(QuadtreeNode::new(se, depth, m3));
        proof {
            assert(carries_corner_code(self.children@[0]));
            assert(carries_corner_code(self.children@[1]));
            assert(carries_corner_code(self.children@[2]));
            assert(carries_corner_code(self.children@[3]));
        }

        // Redistribute existing nodes
        let mut moved: Vec<NodeData<B>> = Vec::new();
        std::mem::swap(&mut moved, &mut self.nodes);
        let ghost orig = moved@;
        let ghost parent = *old(self);
        proof {
            assert(cells_multiset(self.children@) =~= views(orig.take(0)).to_multiset()) by {
                assert(views(orig.take(0)) =~= Seq::<NodeView<B>>::empty());
            }
            assert forall|k: int| 0 <= k < 4 implies is_subsequence(
                views(#[trigger] self.children@[k].nodes@),
                views(orig.take(0)),
            ) by {
                assert(views(self.children@[k].nodes@) =~= Seq::<NodeView<B>>::empty());
                lemma_subsequence_empty(views(orig.take(0)));
            }
        }
        let mut j: usize = 0;
        while moved.len() > 0
            invariant
                j <= orig.len(),
                moved.len() + j == orig.len(),
                moved@ == orig.skip(j as int),
                orig.len() <= MAX_NODES_PER_CELL,
                parent == *old(self),
                orig == parent.nodes@,
                forall|k: int|
                    0 <= k < 4 ==> is_subsequence(
                        views(#[trigger] self.children@[k].nodes@),
                        views(orig.take(j as int)),
                    ),
                parent.wf(),
                self.nodes@ == Seq::<NodeData<B>>::empty(),
                self.children.len() == 4,
                self.depth == parent.depth,
                self.depth < MAX_DEPTH,
                self.bounds == parent.bounds,
                self.morton_code == parent.morton_code,
                answers_quadrants(self.bounds, quads),
                forall|k: int|
                    0 <= k < 4 ==> {
                        &&& (#[trigger] self.children@[k]).wf()
                        &&& self.children@[k].depth == self.depth + 1
                        &&& self.children@[k].bounds == quadrant_at(quads, k)
                        &&& carries_corner_code(self.children@[k])
                        &&& self.children@[k].children.len() == 0
                        &&& self.children@[k].nodes.len() <= j
                    },
                cells_multiset(self.children@).subset_of(views(orig.take(j as int)).to_multiset()),
                forall|k: int, v: NodeView<B>|
                    0 <= k < 4 && #[trigger] self.children@[k].items().contains(v) ==> may_route(
                        self.bounds,
                        v.bounds,
                        k,
                    ),
                routes_into_meeting_quadrants::<B>() ==> cells_multiset(self.children@) == views(
                    orig.take(j as int),
                ).to_multiset(),
            decreases moved.len(),
        {
            let n = moved.remove(0);
            let idx = self.get_child_index(&n.bounds);
            let ghost cells = self.children@;
            proof {
                assert(self.children@[idx as int].depth == self.depth + 1);
                assert(self.children@[idx as int].nodes.len() < MAX_NODES_PER_CELL);
                if routes_into_meeting_quadrants::<B>() {
                    assert(n == orig[j as int]);
                    assert(parent.nodes@[j as int] == n);
                    assert(may_meet(self.bounds, n.bounds));
                    let sides = choose|sides: (bool, bool)|
                        #[trigger] answers_center_sides(self.bounds, n.bounds, sides) && idx
                            == spec_child_index(sides.0, sides.1);
                    assert(answers_center_sides(self.bounds, n.bounds, sides));
                    assert(answers_quadrants(self.bounds, quads));
                    assert(surely_meets(quadrant_at(quads, idx as int), n.bounds));
                    assert(surely_meets(self.children@[idx as int].bounds, n.bounds));
                }
            }
            proof {
                let sides0 = choose|sides: (bool, bool)|
                    #[trigger] answers_center_sides(self.bounds, n.bounds, sides) && idx
                        == spec_child_index(sides.0, sides.1);
                assert(answers_center_sides(self.bounds, n.bounds, sides0));
                assert(may_route(self.bounds, n.bounds, idx as int));
            }
            let r = self.children[idx].insert(n);
            proof {
                lemma_routed_after_insert(self.bounds, cells, idx as int, self.children@[idx as int], n@);
                assert(orig.take(j as int + 1) =~= orig.take(j as int).push(n));
                lemma_views_push(orig.take(j as int), n);
                assert forall|k: int| 0 <= k < 4 implies is_subsequence(
                    views(#[trigger] self.children@[k].nodes@),
                    views(orig.take(j as int + 1)),
                ) by {
                    let prev = views(orig.take(j as int));
                    if k == idx as int && r is Ok {
                        let c0 = cells[k];
                        let c1 = self.children@[k];
                        lemma_items_leaf(c0);
                        lemma_items_leaf(c1);
                        lemma_subsequence_push(views(c0.nodes@), prev, n@);
                    } else {
                        assert(self.children@[k] == cells[k]);
                        lemma_subsequence_extend(views(cells[k].nodes@), prev, n@);
                    }
                }
                assert(n == orig[j as int]);
                assert(orig.take(j as int + 1) =~= orig.take(j as int).push(n));
                lemma_views_push(orig.take(j as int), n);
                assert(views(orig.take(j as int + 1)).to_multiset() == views(orig.take(j as int)).push(n@).to_multiset());
                vstd::seq_lib::to_multiset_build(views(orig.take(j as int)), n@);
                assert(self.children@ == cells.update(idx as int, self.children@[idx as int]));
                lemma_cells_multiset_update(cells, idx as int, self.children@[idx as int], views(orig.take(j as int)).to_multiset(), n@);
                if routes_into_meeting_quadrants::<B>() {
                    assert(r is Ok);
                    vstd::seq_lib::to_multiset_build(cells[idx as int].items(), n@);
                    lemma_cells_multiset_update_exact(cells, idx as int, self.children@[idx as int], n@);
                }
                assert(moved@ =~= orig.skip(j as int + 1));
            }
            j = j + 1;
        }

        // Insert the new node
        let idx = self.get_child_index(&node_to_insert.bounds);
        let ghost cells = self.children@;
        let ghost x = node_to_insert@;
        proof {
            assert(self.children@[idx as int].depth == self.depth + 1);
            let sides0 = choose|sides: (bool, bool)|
                #[trigger] answers_center_sides(self.bounds, node_to_insert.bounds, sides) && idx
                    == spec_child_index(sides.0, sides.1);
            assert(answers_center_sides(self.bounds, node_to_insert.bounds, sides0));
            assert(may_route(self.bounds, node_to_insert.bounds, idx as int));
            if routes_into_meeting_quadrants::<B>() {
                let sides = choose|sides: (bool, bool)|
                    #[trigger] answers_center_sides(self.bounds, node_to_insert.bounds, sides) && idx
                        == spec_child_index(sides.0, sides.1);
                assert(answers_center_sides(self.bounds, node_to_insert.bounds, sides));
                assert(answers_quadrants(self.bounds, quads));
                assert(surely_meets(self.children@[idx as int].bounds, node_to_insert.bounds));
            }
        }
        let r = self.children[idx].insert(node_to_insert);
        proof {
            lemma_routed_after_insert(self.bounds, cells, idx as int, self.children@[idx as int], x);
            assert(orig.take(j as int) =~= orig);
            assert forall|k: int|
                0 <= k < self.children.len() && (#[trigger] self.children@[k]).children.len() == 0 implies is_subsequence(
                    views(self.children@[k].nodes@),
                    views(orig).push(x),
                ) by {
                if k == idx as int && r is Ok && cells[k].nodes.len() < MAX_NODES_PER_CELL {
                    let c0 = cells[k];
                    let c1 = self.children@[k];
                    lemma_items_leaf(c0);
                    lemma_items_leaf(c1);
                    lemma_subsequence_push(views(c0.nodes@), views(orig), x);
                } else {
                    assert(self.children@[k] == cells[k]);
                    lemma_subsequence_extend(views(cells[k].nodes@), views(orig), x);
                }
            }
            assert(orig.take(j as int) =~= orig);
            assert(self.children@ == cells.update(idx as int, self.children@[idx as int]));
            lemma_cells_multiset_update(cells, idx as int, self.children@[idx as int], views(orig).to_multiset(), x);
            lemma_items_multiset(*self);
            assert(views(self.nodes@) =~= Seq::<NodeView<B>>::empty());
            assert(parent.items() == views(orig));
            assert(self.children@[0].wf());
            assert(self.children@[1].wf());
            assert(self.children@[2].wf());
            assert(self.children@[3].wf());
            assert(carries_corner_code(self.children@[0]));
            assert(carries_corner_code(self.children@[1]));
            assert(carries_corner_code(self.children@[2]));
            assert(carries_corner_code(self.children@[3]));
            assert(are_quadrants_of(parent.bounds, self.children@));
            if r is Ok {
                assert(self.children@[idx as int].items().contains(x));
                assert(self.children@[idx as int].items().to_multiset().count(x) > 0);
                assert(cells_multiset(self.children@).count(x) > 0);
                assert(self.items().to_multiset().count(x) > 0);
            }
            if r is Err {
                lemma_cells_multiset_update_within(cells, idx as int, self.children@[idx as int], views(orig).to_multiset());
            }
            if routes_into_meeting_quadrants::<B>() {
                if r is Ok {
                    lemma_cells_multiset_update_exact(cells, idx as int, self.children@[idx as int], x);
                } else {
                    lemma_cells_multiset_update_same(cells, idx as int, self.children@[idx as int]);
                }
            }
        }
        r?;
        Ok(())
    }

    /// Insert a node into this tree: refused with `InvalidBounds` when its
    /// bounds miss the cell; a leaf keeps it while it has room and splits
    /// otherwise; an inner cell hands it to the child that holds its centre.
    /// Where the region routes nodes into quadrants that meet them, no stored
    /// node is lost or duplicated, and the insertion succeeds whenever the leaf
    /// it is routed to has room.
    pub fn insert(&mut self, node: NodeData<B>) -> (r: Result<(), QuadtreeError>)
        requires
            old(self).wf(),
        ensures
            final(self).wf(),
            final(self).depth == old(self).depth,
            final(self).bounds == old(self).bounds,
            final(self).morton_code == old(self).morton_code,
            old(self).children.len() == 4 ==> final(self).children.len() == 4,
            final(self).items().to_multiset().subset_of(old(self).items().to_multiset().insert(node@)),
            r is Ok ==> final(self).items().contains(node@),
            r is Err ==> final(self).items().to_multiset().subset_of(old(self).items().to_multiset()),
            r matches Err(e) ==> is_insert_error(e),
            !may_meet(old(self).bounds, node.bounds) ==> r == Err::<(), QuadtreeError>(
                QuadtreeError::InvalidBounds,
            ) && *final(self) == *old(self),
            is_depth_error(r) ==> final(self).full_at_bottom_on_a_path(node.bounds),
            old(self).children.len() == 0 && old(self).nodes.len() >= MAX_NODES_PER_CELL ==> {
                &&& old(self).depth < MAX_DEPTH ==> (final(self).children.len() == 4 || (r == Err::<
                    (),
                    QuadtreeError,
                >(QuadtreeError::InvalidBounds) && *final(self) == *old(self)))
                &&& old(self).depth >= MAX_DEPTH ==> r is Err && *final(self) == *old(self)
            },
            old(self).children.len() == 0 && old(self).nodes.len() < MAX_NODES_PER_CELL ==> {
                &&& surely_meets(old(self).bounds, node.bounds) ==> r is Ok
                &&& r is Ok ==> final(self).items() == old(self).items().push(node@)
                &&& r is Err ==> r == Err::<(), QuadtreeError>(QuadtreeError::InvalidBounds) && *final(self) == *old(self)
                &&& final(self).children.len() == 0
                &&& final(self).nodes.len() <= old(self).nodes.len() + 1
            },
            routes_into_meeting_quadrants::<B>() ==> {
                &&& r is Ok ==> final(self).items().to_multiset() == old(self).items().to_multiset().insert(node@)
                &&& r is Err ==> final(self).items().to_multiset() == old(self).items().to_multiset()
                &&& r == Err::<(), QuadtreeError>(QuadtreeError::InvalidBounds) ==> answers_intersects(
                    old(self).bounds,
                    node.bounds,
                    false,
                ) && *final(self) == *old(self)
                &&& surely_meets(old(self).bounds, node.bounds) && r is Err ==> (r matches Err(
                    QuadtreeError::InvalidOperation(m),
                ) && m@ == depth_exceeded_message())
                &&& surely_meets(old(self).bounds, node.bounds) && old(self).room_on_every_path(node.bounds) ==> r is Ok
            },
            old(self).room_on_every_path(node.bounds) && r is Ok ==> {
                &&& exists|p: int|
                    0 <= p <= old(self).items().len() && final(self).items() == inserted_at(old(self).items(), p, node@)
                &&& final(self).ends_leaf_with(node@)
            },
        decreases MAX_DEPTH - old(self).depth, 1nat,
    {
        broadcast use vstd::multiset::group_multiset_axioms;
        broadcast use vstd::seq_lib::group_to_multiset_ensures;

        let intersects = self.bounds.intersects(&node.bounds);
        proof {
            assert(answers_intersects(self.bounds, node.bounds, intersects));
        }
        let is_leaf = self.children.len() == 0;
        let step = insert_step(intersects, is_leaf, self.nodes.len())?;
        match step {
            InsertStep::Store => {
                let ghost x = node@;
                let ghost prev = self.nodes@;
                self.nodes.push(node);
                proof {
                    lemma_views_push(prev, node);
                    assert(self.items() == views(prev).push(x));
                    assert(self.items()[self.items().len() - 1] == x);
                    assert(old(self).items() == views(prev));
                    vstd::seq_lib::to_multiset_build(views(prev), x);
                    let p = views(prev).len() as int;
                    assert(inserted_at(old(self).items(), p, x) =~= self.items());
                    assert(self.nodes@.last() == node);
                }
                Ok(())
            },
            InsertStep::Split => self.subdivide(node),
            InsertStep::Descend => {
                let idx = self.get_child_index(&node.bounds);
                if idx < self.children.len() {
                    let ghost cells = self.children@;
                    let ghost x = node@;
                    proof {
                        assert(idx == 0 || idx == 1 || idx == 2 || idx == 3);
                        assert(self.children@[idx as int].depth == self.depth + 1);
                        assert(self.children@[idx as int].wf());
                        let sides0 = choose|sides: (bool, bool)|
                            #[trigger] answers_center_sides(self.bounds, node.bounds, sides) && idx
                                == spec_child_index(sides.0, sides.1);
                        assert(answers_center_sides(self.bounds, node.bounds, sides0));
                        assert(may_route(self.bounds, node.bounds, idx as int));
                        if old(self).room_on_every_path(node.bounds) {
                            assert(cells[idx as int].room_on_every_path(node.bounds));
                        }
                        if routes_into_meeting_quadrants::<B>() {
                            let sides = choose|sides: (bool, bool)|
                                #[trigger] answers_center_sides(self.bounds, node.bounds, sides) && idx
                                    == spec_child_index(sides.0, sides.1);
                            let quads = choose|quads: (B, B, B, B)|
                                #[trigger] answers_quadrants(self.bounds, quads) && cells[0].bounds == quads.0
                                    && cells[1].bounds == quads.1 && cells[2].bounds == quads.2
                                    && cells[3].bounds == quads.3;
                            assert(answers_center_sides(self.bounds, node.bounds, sides));
                            assert(answers_quadrants(self.bounds, quads));
                            assert(surely_meets(quadrant_at(quads, idx as int), node.bounds));
                            assert(surely_meets(cells[idx as int].bounds, node.bounds));
                            assert(may_route(self.bounds, node.bounds, idx as int));
                            if old(self).room_on_every_path(node.bounds) {
                                assert(cells[idx as int].room_on_every_path(node.bounds));
                            }
                        }
                    }
                    let r = self.children[idx].insert(node);
                    proof {
                        assert(self.children@ == cells.update(idx as int, self.children@[idx as int]));
                        lemma_items_multiset(*old(self));
                        lemma_items_multiset(*self);
                        assert(views(old(self).nodes@) =~= Seq::<NodeView<B>>::empty());
                        assert(views(self.nodes@) =~= Seq::<NodeView<B>>::empty());
                        lemma_cells_multiset_update(cells, idx as int, self.children@[idx as int], cells_multiset(cells), x);
                        assert(self.children@[0].wf());
                        assert(self.children@[1].wf());
                        assert(self.children@[2].wf());
                        assert(self.children@[3].wf());
                        assert(are_quadrants_of(self.bounds, self.children@));
                        lemma_routed_after_insert(self.bounds, cells, idx as int, self.children@[idx as int], x);
                        if old(self).room_on_every_path(node.bounds) && r is Ok {
                            let i = choose|i: int|
                                0 <= i <= cells[idx as int].items().len() && self.children@[idx as int].items()
                                    == inserted_at(cells[idx as int].items(), i, x);
                            lemma_insert_into_child(*old(self), *self, idx as int, i, x);
                            assert(self.children@[idx as int].ends_leaf_with(x));
                        }
                        if r is Ok {
                            assert(self.children@[idx as int].items().to_multiset().count(x) > 0);
                            assert(cells_multiset(self.children@).count(x) > 0);
                            assert(self.items().to_multiset().count(x) > 0);
                        }
                        if r is Err {
                            lemma_cells_multiset_update_within(cells, idx as int, self.children@[idx as int], cells_multiset(cells));
                        }
                        if routes_into_meeting_quadrants::<B>() {
                            if r is Ok {
                                lemma_cells_multiset_update_exact(cells, idx as int, self.children@[idx as int], x);
                            } else {
                                lemma_cells_multiset_update_same(cells, idx as int, self.children@[idx as int]);
                            }
                        }
                    }
                    r
                } else {
                    Err(QuadtreeError::child_missing())
                }
            },
        }
    }
}


/// What a tree holds, as the laws over sequences of calls see it: its stored
/// nodes in pre-order and its id cache.
pub struct TreeState<B> {
    pub items: Seq<NodeView<B>>,
    pub cache: Map<u32, NodeView<B>>,
}

/// A call that changes a tree.
pub enum TreeCall<B> {
    Insert(NodeView<B>),
    Remove(u32),
    Update(u32, B),
    Clear,
}

/// The node cached under `id`, moved to `bounds`.
pub open spec fn moved_node<B>(cache: Map<u32, NodeView<B>>, id: u32, bounds: B) -> NodeView<B> {
    NodeView { bounds, ..cache[id] }
}

/// What a call that succeeded (`ok`) or failed does to a tree's state.
pub open spec fn call_effect<B: Region>(before: TreeState<B>, call: TreeCall<B>, ok: bool, after: TreeState<B>) -> bool {
    match call {
        TreeCall::Insert(n) => {
            &&& ok ==> after.cache == before.cache.insert(n.id, n) && after.items.contains(n)
                && after.items.to_multiset().subset_of(before.items.to_multiset().insert(n))
            &&& !ok ==> after.cache == before.cache && after.items.to_multiset().subset_of(
                before.items.to_multiset(),
            )
            &&& routes_into_meeting_quadrants::<B>() ==> after.items.to_multiset() == if ok {
                before.items.to_multiset().insert(n)
            } else {
                before.items.to_multiset()
            }
        },
        TreeCall::Remove(id) => ok && after.cache == before.cache.remove(id) && after.items == without_id(
            before.items,
            id,
        ),
        TreeCall::Update(id, b) => if !before.cache.contains_key(id) {
            ok && after == before
        } else {
            let m = moved_node(before.cache, id, b);
            &&& after.items.to_multiset().subset_of(without_id(before.items, id).to_multiset().insert(m))
            &&& ok ==> after.cache == before.cache.insert(id, m) && after.items.contains(m)
            &&& !ok ==> after.cache == before.cache.remove(id)
            &&& routes_into_meeting_quadrants::<B>() ==> after.items.to_multiset() == if ok {
                without_id(before.items, id).to_multiset().insert(m)
            } else {
                without_id(before.items, id).to_multiset()
            }
        },
        TreeCall::Clear => ok && after.items == Seq::<NodeView<B>>::empty() && after.cache == Map::<
            u32,
            NodeView<B>,
        >::empty(),
    }
}

/// The node cached under `id`, if any.
pub open spec fn cache_lookup<B>(cache: Map<u32, NodeView<B>>, id: u32) -> Option<NodeView<B>> {
    if cache.contains_key(id) {
        Some(cache[id])
    } else {
        None
    }
}

/// The spatial index: a quadtree of cells, and a cache of every node inserted
/// by id for lookups that need no search.
pub struct Quadtree<B: Region> {
    root: QuadtreeNode<B>,
    node_cache: HashMap<u32, NodeData<B>>,
}

impl<B: Region> Quadtree<B> {
    /// The root cell of the tree.
    pub closed spec fn root_cell(self) -> QuadtreeNode<B> {
        self.root
    }

    /// The id cache: the last node inserted under each id that is still present.
    pub closed spec fn cache(self) -> Map<u32, NodeView<B>> {
        self.node_cache@.map_values(|n: NodeData<B>| n@)
    }

    /// The stored nodes, in pre-order, and the id cache.
    pub open spec fn state(self) -> TreeState<B> {
        TreeState { items: self.root_cell().items(), cache: self.cache() }
    }

    /// Well-formedness, kept by every operation: the root is a well-formed
    /// cell at depth 0, every cached node is cached under its own id, and,
    /// where the region routes nodes into quadrants that meet them, every
    /// cached node is stored in the tree.
    #[verifier::type_invariant]
    spec fn wf(self) -> bool {
        &&& self.root.wf()
        &&& self.root.depth == 0
        &&& forall|k: u32| #[trigger] self.node_cache@.contains_key(k) ==> self.node_cache@[k].id == k
        &&& routes_into_meeting_quadrants::<B>() ==> forall|k: u32|
            #[trigger] self.node_cache@.contains_key(k) ==> self.root.items().contains(self.node_cache@[k]@)
    }

    proof fn lemma_cache_keys(self)
        ensures
            self.cache().dom() == self.node_cache@.dom(),
    {
        assert(self.cache().dom() =~= self.node_cache@.dom());
    }
}

impl<B: Region> Quadtree<B> {
    /// An empty index over `bounds`.
    pub fn new(bounds: B) -> (t: Self)
        ensures
            t.cache() == Map::<u32, NodeView<B>>::empty(),
            t.root_cell().bounds == bounds,
            t.root_cell().depth == 0,
            t.root_cell().morton_code == 0,
            t.root_cell().children.len() == 0,
            t.root_cell().items() == Seq::<NodeView<B>>::empty(),
    {
        broadcast use vstd::std_specs::hash::group_hash_axioms;
        proof {
            lemma_morton_origin();
        }
        let t = Quadtree { root: QuadtreeNode::new(bounds, 0, 0), node_cache: HashMap::new() };
        proof {
            assert(t.cache() =~= Map::<u32, NodeView<B>>::empty());
            assert(views(t.root.nodes@) =~= Seq::<NodeView<B>>::empty());
        }
        t
    }

    /// Inserts a node into the tree and, when the tree takes it, caches it
    /// under its id (replacing an earlier node with that id).
    pub fn insert(&mut self, node: NodeData<B>) -> (r: Result<(), QuadtreeError>)
        ensures
            call_effect(old(self).state(), TreeCall::Insert(node@), r is Ok, final(self).state()),
            final(self).root_cell().items().to_multiset().subset_of(
                old(self).root_cell().items().to_multiset().insert(node@),
            ),
            r is Ok ==> final(self).root_cell().items().contains(node@),
            r is Err ==> final(self).root_cell().items().to_multiset().subset_of(
                old(self).root_cell().items().to_multiset(),
            ),
            r is Ok ==> final(self).cache() == old(self).cache().insert(node.id, node@),
            r is Err ==> final(self).cache() == old(self).cache(),
            r matches Err(e) ==> is_insert_error(e),
            final(self).root_cell().bounds == old(self).root_cell().bounds,
            is_depth_error(r) ==> final(self).root_cell().full_at_bottom_on_a_path(node.bounds),
            old(self).root_cell().room_on_every_path(node.bounds) && r is Ok ==> {
                &&& exists|p: int|
                    0 <= p <= old(self).root_cell().items().len() && final(self).root_cell().items()
                        == inserted_at(old(self).root_cell().items(), p, node@)
                &&& final(self).root_cell().ends_leaf_with(node@)
            },
            old(self).root_cell().children.len() == 0 && old(self).root_cell().nodes.len()
                >= MAX_NODES_PER_CELL ==> (final(self).root_cell().children.len() == 4 || (r == Err::<
                (),
                QuadtreeError,
            >(QuadtreeError::InvalidBounds) && final(self).root_cell().items() == old(self).root_cell().items())),
            !may_meet(old(self).root_cell().bounds, node.bounds) ==> r == Err::<(), QuadtreeError>(
                QuadtreeError::InvalidBounds,
            ) && final(self).root_cell().items() == old(self).root_cell().items(),
            old(self).root_cell().children.len() == 0 && old(self).root_cell().nodes.len()
                < MAX_NODES_PER_CELL ==> {
                &&& surely_meets(old(self).root_cell().bounds, node.bounds) ==> r is Ok
                &&& r is Ok ==> final(self).root_cell().items() == old(self).root_cell().items().push(node@)
                &&& r is Err ==> r == Err::<(), QuadtreeError>(QuadtreeError::InvalidBounds)
                    && final(self).root_cell().items() == old(self).root_cell().items()
            },
            routes_into_meeting_quadrants::<B>() ==> {
                &&& r is Ok ==> final(self).root_cell().items().to_multiset()
                    == old(self).root_cell().items().to_multiset().insert(node@)
                &&& r is Err ==> final(self).root_cell().items().to_multiset()
                    == old(self).root_cell().items().to_multiset()
                &&& r == Err::<(), QuadtreeError>(QuadtreeError::InvalidBounds) ==> answers_intersects(
                    old(self).root_cell().bounds,
                    node.bounds,
                    false,
                ) && final(self).root_cell().items() == old(self).root_cell().items()
                &&& surely_meets(old(self).root_cell().bounds, node.bounds) && r is Err ==> (r matches Err(
                    QuadtreeError::InvalidOperation(m),
                ) && m@ == depth_exceeded_message())
                &&& surely_meets(old(self).root_cell().bounds, node.bounds)
                    && old(self).root_cell().room_on_every_path(node.bounds) ==> r is Ok
            },
    {
        broadcast use vstd::std_specs::hash::group_hash_axioms;
        proof {
            use_type_invariant(&*self);
            lemma_morton_origin();
        }
        broadcast use vstd::seq_lib::group_to_multiset_ensures;
        let id = node.id;
        let copy = node.clone();
        let mut cache = HashMap::new();
        std::mem::swap(&mut cache, &mut self.node_cache);
        let mut root = QuadtreeNode::new(self.root.bounds, 0, 0);
        std::mem::swap(&mut root, &mut self.root);
        let r = root.insert(copy);
        self.root = root;
        proof {
            if routes_into_meeting_quadrants::<B>() {
                assert forall|k: u32| #[trigger] cache@.contains_key(k) implies self.root.items().contains(
                    cache@[k]@,
                ) by {
                    let v = cache@[k]@;
                    assert(old(self).node_cache@.contains_key(k));
                    assert(old(self).root.items().contains(v));
                    assert(old(self).root.items().to_multiset().count(v) > 0);
                    assert(self.root.items().to_multiset().count(v) > 0);
                }
            }
        }
        if r.is_err() {
            self.node_cache = cache;
            return r;
        }
        cache.insert(id, node);
        self.node_cache = cache;
        proof {
            assert(self.cache() =~= old(self).cache().insert(id, node@));
        }
        Ok(())
    }

    /// The nodes of the tree whose bounds meet `bounds`, in pre-order.
    pub fn query(&self, bounds: &B) -> (r: Vec<NodeData<B>>)
        ensures
            kept_by_answers(self.root_cell().items(), *bounds, views(r@)),
            forall|i: int| 0 <= i < r.len() ==> self.root_cell().items().contains(#[trigger] r@[i]@),
            forall|i: int|
                0 <= i < self.root_cell().items().len() && surely_meets(
                    #[trigger] self.root_cell().items()[i].bounds,
                    *bounds,
                ) ==> views(r@).contains(self.root_cell().items()[i]),
    {
        let mut results: Vec<NodeData<B>> = Vec::new();
        proof {
            use_type_invariant(self);
        }
        self.root.query(bounds, &mut results);
        proof {
            assert(views(results@).skip(0) =~= views(results@));
            lemma_kept_facts(self.root.items(), *bounds, views(results@));
            assert forall|i: int| 0 <= i < results.len() implies self.root.items().contains(
                #[trigger] results@[i]@,
            ) by {
                assert(views(results@)[i] == results@[i]@);
            }
        }
        results
    }

    /// The node cached under `id`; where the region routes nodes into
    /// quadrants that meet them, it is a node stored in the tree.
    pub fn find(&self, id: u32) -> (r: Option<NodeData<B>>)
        ensures
            opt_view(r) == cache_lookup(self.cache(), id),
            routes_into_meeting_quadrants::<B>() ==> (r matches Some(n) ==> self.root_cell().items().contains(n@)),
    {
        broadcast use vstd::std_specs::hash::group_hash_axioms;
        proof {
            use_type_invariant(self);
        }
        match self.node_cache.get(&id) {
            Some(n) => Some(n.clone()),
            None => None,
        }
    }

    /// Removes every node with the given id from the tree and the cache.
    pub fn remove(&mut self, id: u32) -> (r: Result<(), QuadtreeError>)
        ensures
            r is Ok,
            final(self).root_cell().items() == without_id(old(self).root_cell().items(), id),
            cell_without_id(old(self).root_cell(), final(self).root_cell(), id),
            call_effect(old(self).state(), TreeCall::Remove(id), r is Ok, final(self).state()),
            final(self).cache() == old(self).cache().remove(id),
            final(self).root_cell().bounds == old(self).root_cell().bounds,
            final(self).root_cell().children.len() == old(self).root_cell().children.len(),
            final(self).root_cell().nodes.len() <= old(self).root_cell().nodes.len(),
            forall|item: B|
                #[trigger] old(self).root_cell().room_on_every_path(item)
                    ==> final(self).root_cell().room_on_every_path(item),
    {
        broadcast use vstd::std_specs::hash::group_hash_axioms;
        proof {
            use_type_invariant(&*self);
            lemma_morton_origin();
        }
        let mut cache = HashMap::new();
        std::mem::swap(&mut cache, &mut self.node_cache);
        let mut root = QuadtreeNode::new(self.root.bounds, 0, 0);
        std::mem::swap(&mut root, &mut self.root);
        let r = root.remove(id);
        self.root = root;
        cache.remove(&id);
        proof {
            if routes_into_meeting_quadrants::<B>() {
                let p = |v: NodeView<B>| v.id != id;
                assert forall|k: u32| #[trigger] cache@.contains_key(k) implies self.root.items().contains(
                    cache@[k]@,
                ) by {
                    let items = old(self).root.items();
                    assert(old(self).node_cache@.contains_key(k));
                    assert(items.contains(cache@[k]@));
                    let i = choose|i: int| 0 <= i < items.len() && items[i] == cache@[k]@;
                    assert(p(items[i]));
                    items.lemma_filter_contains(p, i);
                }
            }
        }
        self.node_cache = cache;
        proof {
            assert(self.cache() =~= old(self).cache().remove(id));
        }
        r?;
        Ok(())
    }

    /// Clears all nodes: the tree goes back to a single empty cell over the
    /// same bounds, and the cache is emptied.
    pub fn clear(&mut self)
        ensures
            call_effect(old(self).state(), TreeCall::Clear, true, final(self).state()),
            final(self).cache() == Map::<u32, NodeView<B>>::empty(),
            final(self).root_cell().items() == Seq::<NodeView<B>>::empty(),
            final(self).root_cell().children.len() == 0,
            final(self).root_cell().bounds == old(self).root_cell().bounds,
            final(self).root_cell().morton_code == old(self).root_cell().morton_code,
    {
        broadcast use vstd::std_specs::hash::group_hash_axioms;
        proof {
            use_type_invariant(&*self);
        }
        let bounds = self.root.bounds;
        let morton_code = self.root.morton_code;
        self.node_cache = HashMap::new();
        self.root = QuadtreeNode::new(bounds, 0, morton_code);
        proof {
            assert(self.cache() =~= Map::<u32, NodeView<B>>::empty());
            assert(views(self.root.nodes@) =~= Seq::<NodeView<B>>::empty());
        }
    }

    /// Every cached node, one per id, in no particular order; where the region
    /// routes nodes into quadrants that meet them, each is stored in the tree.
    pub fn get_all(&self) -> (r: Vec<NodeData<B>>)
        ensures
            r.len() == self.cache().dom().len(),
            routes_into_meeting_quadrants::<B>() ==> forall|i: int|
                0 <= i < r.len() ==> self.root_cell().items().contains(#[trigger] r@[i]@),
            forall|i: int| 0 <= i < r.len() ==> cache_lookup(self.cache(), #[trigger] r@[i].id) == Some(r@[i]@),
            forall|k: u32| #[trigger] self.cache().contains_key(k) ==> exists|i: int| 0 <= i < r.len() && r@[i]@ == self.cache()[k],
            forall|i: int, j: int| 0 <= i < j < r.len() ==> #[trigger] r@[i].id != #[trigger] r@[j].id,
    {
        broadcast use vstd::std_specs::hash::group_hash_axioms;
        proof {
            use_type_invariant(self);
        }
        let mut out: Vec<NodeData<B>> = Vec::new();
        let ghost pairs = vstd::std_specs::hash::spec_hash_map_iter(&self.node_cache).remaining();
        let ghost m = self.node_cache@;
        for (_id, node) in it: self.node_cache.iter()
            invariant
                it.seq() == pairs,
                pairs.no_duplicates(),
                m == self.node_cache@,
                out.len() == it.index(),
                forall|j: int| 0 <= j < out.len() ==> (#[trigger] out@[j])@ == (*it.seq()[j].1)@,
        {
            out.push(node.clone());
        }
        proof {
            assert(out.len() == pairs.len());
            assert(pairs.len() == m.dom().len());
            self.lemma_cache_keys();
            assert forall|i: int| 0 <= i < out.len() implies cache_lookup(self.cache(), #[trigger] out@[i].id)
                == Some(out@[i]@) by {
                let k = *pairs[i].0;
                assert(m.contains_key(k) && m[k] == *pairs[i].1);
                assert(m[k].id == k);
            }
            assert forall|i: int| routes_into_meeting_quadrants::<B>() && 0 <= i < out.len() implies
                self.root.items().contains(#[trigger] out@[i]@) by {
                let k = *pairs[i].0;
                assert(m.contains_key(k) && m[k] == *pairs[i].1);
            }
            assert forall|k: u32| #[trigger] self.cache().contains_key(k) implies exists|i: int|
                0 <= i < out.len() && out@[i]@ == self.cache()[k] by {
                assert(m.contains_key(k));
                assert(pairs.contains((&k, &m[k])));
                let i = choose|i: int| 0 <= i < pairs.len() && pairs[i] == (&k, &m[k]);
                assert(out@[i]@ == m[k]@);
            }
            assert forall|i: int, j: int| 0 <= i < j < out.len() implies #[trigger] out@[i].id != #[trigger] out@[j].id by {
                let ki = *pairs[i].0;
                let kj = *pairs[j].0;
                assert(m.contains_key(ki) && m[ki] == *pairs[i].1);
                assert(m.contains_key(kj) && m[kj] == *pairs[j].1);
                assert(out@[i].id == ki);
                assert(out@[j].id == kj);
                if ki == kj {
                    assert(pairs[i] == pairs[j]);
                }
            }
        }
        out
    }

    /// The node that contains a point: of the nodes whose bounds meet the
    /// point's region, the first narrowest one (the topmost when several
    /// overlap).
    pub fn hit_test(&self, point: &B) -> (r: Option<NodeData<B>>)
        ensures
            exists|hits: Seq<NodeView<B>>|
                #[trigger] kept_by_answers(self.root_cell().items(), *point, hits)
                    && narrowest_by_answers(None, hits, opt_view(r)),
            r matches Some(n) ==> self.root_cell().items().contains(n@),
            r is None ==> forall|i: int|
                0 <= i < self.root_cell().items().len() ==> !surely_meets(
                    #[trigger] self.root_cell().items()[i].bounds,
                    *point,
                ),
    {
        proof {
            use_type_invariant(self);
        }
        let mut results = self.query(point);
        let ghost all = views(results@);
        let ghost items = self.root_cell().items();
        proof {
            lemma_kept_facts(items, *point, all);
            assert(all.skip(0) =~= all);
            assert(all.len() == results.len());
        }
        let mut best: Option<NodeData<B>> = None;
        let mut j: usize = 0;
        while results.len() > 0
            invariant
                j <= all.len(),
                all.len() <= usize::MAX,
                results.len() + j == all.len(),
                views(results@) == all.skip(j as int),
                forall|i: int| 0 <= i < all.len() ==> items.contains(#[trigger] all[i]),
                best matches Some(b) ==> items.contains(b@),
                j == 0 ==> best is None,
                j > 0 ==> best is Some,
                forall|rf: Option<NodeView<B>>|
                    #[trigger] narrowest_by_answers(opt_view(best), all.skip(j as int), rf)
                        ==> narrowest_by_answers(None, all, rf),
            decreases results.len(),
        {
            let ghost before = results@;
            let ghost old_best = opt_view(best);
            let n = results.remove(0);
            proof {
                assert(n@ == views(before)[0]);
                assert(n@ == all[j as int]);
                assert(results@ =~= before.subrange(1, before.len() as int));
                assert(views(results@) =~= views(before).subrange(1, before.len() as int));
                assert(views(results@) =~= all.skip(j as int + 1));
                assert(all.skip(j as int).drop_first() =~= all.skip(j as int + 1));
                assert(all.skip(j as int)[0] == n@);
            }
            best = match best {
                None => Some(n),
                Some(b) => {
                    let wider = b.bounds.wider_than(&n.bounds);
                    proof {
                        assert(answers_wider(b@.bounds, n@.bounds, wider));
                    }
                    if wider {
                        Some(n)
                    } else {
                        Some(b)
                    }
                },
            };
            proof {
                assert forall|rf: Option<NodeView<B>>|
                    #[trigger] narrowest_by_answers(opt_view(best), all.skip(j as int + 1), rf)
                        implies narrowest_by_answers(None, all, rf) by {
                    assert(narrowest_by_answers(old_best, all.skip(j as int), rf));
                }
            }
            j = j + 1;
        }
        proof {
            assert(all.skip(j as int) =~= Seq::<NodeView<B>>::empty());
            assert(narrowest_by_answers(opt_view(best), all.skip(j as int), opt_view(best)));
            assert(narrowest_by_answers(None, all, opt_view(best)));
            if best is None {
                assert(all.len() == 0);
            }
        }
        best
    }

    /// Moves the node cached under `id` to `new_bounds`: removes it, then
    /// inserts it again with the new bounds. Nothing happens when no node is
    /// cached under `id`; if the new insertion fails, the node stays removed.
    pub fn update(&mut self, id: u32, new_bounds: B) -> (r: Result<(), QuadtreeError>)
        ensures
            call_effect(old(self).state(), TreeCall::Update(id, new_bounds), r is Ok, final(self).state()),
            !old(self).cache().contains_key(id) ==> {
                &&& r is Ok
                &&& *final(self) == *old(self)
            },
            old(self).cache().contains_key(id) ==> {
                let moved = NodeView { bounds: new_bounds, ..old(self).cache()[id] };
                &&& old(self).root_cell().room_on_every_path(new_bounds) && r is Ok ==> {
                    &&& exists|p: int|
                        0 <= p <= without_id(old(self).root_cell().items(), id).len()
                            && final(self).root_cell().items() == inserted_at(
                            without_id(old(self).root_cell().items(), id),
                            p,
                            moved,
                        )
                    &&& final(self).root_cell().ends_leaf_with(moved)
                }
                &&& old(self).root_cell().children.len() == 0 && without_id(old(self).root_cell().items(), id).len()
                    < MAX_NODES_PER_CELL && r is Ok ==> final(self).root_cell().items() == without_id(
                    old(self).root_cell().items(),
                    id,
                ).push(moved)
                &&& final(self).root_cell().items().to_multiset().subset_of(
                    without_id(old(self).root_cell().items(), id).to_multiset().insert(moved),
                )
                &&& r is Ok ==> final(self).cache() == old(self).cache().insert(id, moved)
                    && final(self).root_cell().items().contains(moved)
                &&& r is Err ==> final(self).cache() == old(self).cache().remove(id)
                &&& old(self).root_cell().children.len() == 0 && old(self).root_cell().nodes.len()
                    < MAX_NODES_PER_CELL && surely_meets(old(self).root_cell().bounds, new_bounds) ==> r is Ok
                &&& routes_into_meeting_quadrants::<B>() ==> {
                    &&& r is Ok ==> final(self).root_cell().items().to_multiset() == without_id(
                        old(self).root_cell().items(),
                        id,
                    ).to_multiset().insert(moved)
                    &&& r is Err ==> final(self).root_cell().items().to_multiset() == without_id(
                        old(self).root_cell().items(),
                        id,
                    ).to_multiset()
                    &&& r == Err::<(), QuadtreeError>(QuadtreeError::InvalidBounds) ==> answers_intersects(
                        old(self).root_cell().bounds,
                        new_bounds,
                        false,
                    )
                    &&& surely_meets(old(self).root_cell().bounds, new_bounds) && r is Err ==> (r matches Err(
                        QuadtreeError::InvalidOperation(m),
                    ) && m@ == depth_exceeded_message())
                    &&& surely_meets(old(self).root_cell().bounds, new_bounds)
                        && old(self).root_cell().room_on_every_path(new_bounds) ==> r is Ok
                }
            },
            r matches Err(e) ==> is_insert_error(e),
            is_depth_error(r) ==> final(self).root_cell().full_at_bottom_on_a_path(new_bounds),
            final(self).root_cell().bounds == old(self).root_cell().bounds,
    {
        broadcast use vstd::std_specs::hash::group_hash_axioms;
        proof {
            use_type_invariant(&*self);
        }
        let cached = match self.node_cache.get(&id) {
            Some(n) => Some(n.clone()),
            None => None,
        };
        if let Some(mut node) = cached {
            proof {
                self.lemma_cache_keys();
                assert(self.node_cache@.contains_key(id));
                assert(node.id == id);
            }
            self.remove(id)?;
            node.bounds = new_bounds;
            let ghost moved = node@;
            assert(moved == NodeView { bounds: new_bounds, ..old(self).cache()[id] });
            let r = self.insert(node);
            proof {
                assert(old(self).cache().remove(id).insert(id, moved) =~= old(self).cache().insert(id, moved));
            }
            r?;
        } else {
            proof {
                self.lemma_cache_keys();
            }
        }
        Ok(())
    }
}


/// Find after insert: once an insertion has cached a node, looking up its id
/// gives that node back.
pub proof fn law_find_after_insert<B>(cache: Map<u32, NodeView<B>>, node: NodeView<B>)
    ensures
        cache_lookup(cache.insert(node.id, node), node.id) == Some(node),
{
}

/// An insertion leaves the lookups of every other id as they were.
pub proof fn law_insert_keeps_other_ids<B>(cache: Map<u32, NodeView<B>>, node: NodeView<B>, id: u32)
    requires
        id != node.id,
    ensures
        cache_lookup(cache.insert(node.id, node), id) == cache_lookup(cache, id),
{
}

/// Find after remove: once an id is removed, neither the cache nor the tree
/// holds a node with that id.
pub proof fn law_find_after_remove<B>(cache: Map<u32, NodeView<B>>, items: Seq<NodeView<B>>, id: u32)
    ensures
        cache_lookup(cache.remove(id), id) is None,
        first_with_id(without_id(items, id), id) is None,
{
    lemma_first_without_id(items, id, id);
}

/// Removing an id keeps what the tree finds for every other id.
pub proof fn law_remove_keeps_other_ids<B>(
    cache: Map<u32, NodeView<B>>,
    items: Seq<NodeView<B>>,
    id: u32,
    other: u32,
)
    requires
        other != id,
    ensures
        cache_lookup(cache.remove(id), other) == cache_lookup(cache, other),
        first_with_id(without_id(items, id), other) == first_with_id(items, other),
{
    lemma_first_without_id(items, id, other);
}

/// Removing an id twice is removing it once.
pub proof fn law_remove_idempotent<B>(items: Seq<NodeView<B>>, id: u32)
    ensures
        without_id(without_id(items, id), id) == without_id(items, id),
{
    let p = |v: NodeView<B>| v.id != id;
    let once = items.filter(p);
    assert forall|i: int| 0 <= i < once.len() implies p(#[trigger] once[i]) by {
        items.lemma_filter_pred(p, i);
    }
    lemma_filter_all(once, p);
}

/// Find after update: once a cached node has been moved, looking up its id
/// gives the same node (id, label, data) at the new bounds.
pub proof fn law_find_after_update<B>(cache: Map<u32, NodeView<B>>, id: u32, new_bounds: B)
    requires
        cache.contains_key(id),
    ensures
        ({
            let moved = NodeView { bounds: new_bounds, ..cache[id] };
            &&& cache_lookup(cache.insert(id, moved), id) == Some(moved)
            &&& moved.label == cache[id].label
            &&& moved.data == cache[id].data
        }),
{
}

/// A query over the bounds of a stored node finds that node, whenever the
/// region cannot say that those bounds miss themselves.
pub proof fn law_query_finds_stored_node<B: Region>(
    items: Seq<NodeView<B>>,
    node: NodeView<B>,
    found: Seq<NodeView<B>>,
)
    requires
        items.contains(node),
        kept_by_answers(items, node.bounds, found),
        surely_meets(node.bounds, node.bounds),
    ensures
        found.contains(node),
{
    lemma_kept_facts(items, node.bounds, found);
    let i = choose|i: int| 0 <= i < items.len() && items[i] == node;
    assert(surely_meets(items[i].bounds, node.bounds));
}

/// After clear, no id is found.
pub proof fn law_find_after_clear<B>(id: u32)
    ensures
        cache_lookup(Map::<u32, NodeView<B>>::empty(), id) is None,
{
}

proof fn lemma_filter_all<A>(s: Seq<A>, p: spec_fn(A) -> bool)
    requires
        forall|i: int| 0 <= i < s.len() ==> p(#[trigger] s[i]),
    ensures
        s.filter(p) == s,
    decreases s.len(),
{
    reveal(Seq::filter);
    if s.len() > 0 {
        lemma_filter_all(s.drop_last(), p);
        assert(s.drop_last().push(s.last()) =~= s);
    } else {
        assert(s.filter(p) =~= s);
    }
}

proof fn lemma_first_without_id<B>(s: Seq<NodeView<B>>, id: u32, look: u32)
    ensures
        look == id ==> first_with_id(without_id(s, id), look) is None,
        look != id ==> first_with_id(without_id(s, id), look) == first_with_id(s, look),
    decreases s.len(),
{
    let p = |v: NodeView<B>| v.id != id;
    assert(without_id(s, id) == s.filter(p));
    if s.len() > 0 {
        let x = s[0];
        let rest = s.drop_first();
        lemma_first_without_id(rest, id, look);
        assert(without_id(rest, id) == rest.filter(p));
        assert(s =~= seq![x] + rest);
        Seq::filter_distributes_over_add(seq![x], rest, p);
        let head = seq![x].filter(p);
        assert(Seq::<NodeView<B>>::empty().push(x) =~= seq![x]);
        Seq::<NodeView<B>>::empty().lemma_filter_push(x, p);
        assert(Seq::<NodeView<B>>::empty().filter(p) =~= Seq::<NodeView<B>>::empty()) by {
            reveal(Seq::filter);
        }
        lemma_first_with_id_append(head, rest.filter(p), look);
        assert(seq![x].drop_first() =~= Seq::<NodeView<B>>::empty());
        assert(first_with_id(Seq::<NodeView<B>>::empty(), look) is None);
        if p(x) {
            assert(head =~= seq![x]);
        } else {
            assert(head =~= Seq::<NodeView<B>>::empty());
        }
        assert(first_with_id(s, look) == if x.id == look { Some(x) } else { first_with_id(rest, look) });
    } else {
        assert(s.filter(p) =~= Seq::<NodeView<B>>::empty()) by {
            reveal(Seq::filter);
        }
    }
}

} // verus!
