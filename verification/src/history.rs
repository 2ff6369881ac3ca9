use vstd::prelude::*;

use crate::quadtree::{
    answers_intersects, cache_lookup, call_effect, inserted_at, is_subsequence, picks, kept_by_answers, lemma_kept_concat,
    lemma_kept_facts, lemma_kept_push,
    moved_node, narrowest_by_answers, routes_into_meeting_quadrants, surely_meets, without_id, NodeView,
    Region, TreeCall, TreeState,
};

verus! {

/// Call `i` took `states[i]` to `states[i + 1]`, succeeding as `oks[i]` says.
pub open spec fn step_holds<B: Region>(
    states: Seq<TreeState<B>>,
    calls: Seq<TreeCall<B>>,
    oks: Seq<bool>,
    i: int,
) -> bool {
    call_effect(states[i], calls[i], oks[i], states[i + 1])
}

/// `states` are the states a tree went through under `calls`, the first one
/// before any of them.
pub open spec fn is_history<B: Region>(states: Seq<TreeState<B>>, calls: Seq<TreeCall<B>>, oks: Seq<bool>) -> bool {
    &&& states.len() == calls.len() + 1
    &&& oks.len() == calls.len()
    &&& forall|i: int| 0 <= i < calls.len() ==> #[trigger] step_holds(states, calls, oks, i)
}

/// The call can change what the cache holds under `id`.
pub open spec fn touches_id<B>(call: TreeCall<B>, ok: bool, id: u32) -> bool {
    match call {
        TreeCall::Insert(n) => ok && n.id == id,
        TreeCall::Remove(k) => k == id,
        TreeCall::Update(k, _) => k == id,
        TreeCall::Clear => true,
    }
}

proof fn lemma_lookup_prefix<B: Region>(
    states: Seq<TreeState<B>>,
    calls: Seq<TreeCall<B>>,
    oks: Seq<bool>,
    id: u32,
    k: int,
)
    requires
        is_history(states, calls, oks),
        forall|i: int| 0 <= i < calls.len() ==> !touches_id(#[trigger] calls[i], oks[i], id),
        0 <= k <= calls.len(),
    ensures
        cache_lookup(states[k].cache, id) == cache_lookup(states[0].cache, id),
    decreases k,
{
    if k > 0 {
        let i = k - 1;
        lemma_lookup_prefix(states, calls, oks, id, i);
        assert(step_holds(states, calls, oks, i));
        assert(!touches_id(calls[i], oks[i], id));
        let a = states[i];
        let b = states[k];
        match calls[i] {
            TreeCall::Insert(n) => {
                if oks[i] {
                    assert(b.cache == a.cache.insert(n.id, n));
                }
            },
            TreeCall::Remove(r) => {
                assert(b.cache == a.cache.remove(r));
            },
            TreeCall::Update(u, bounds) => {
                if a.cache.contains_key(u) {
                    if oks[i] {
                        assert(b.cache == a.cache.insert(u, moved_node(a.cache, u, bounds)));
                    } else {
                        assert(b.cache == a.cache.remove(u));
                    }
                }
            },
            TreeCall::Clear => {},
        }
    }
}

/// Find across later calls: what the tree finds under an id stays as it was
/// through any calls that neither insert a node with that id successfully, nor
/// remove or move that id, nor clear the tree.
pub proof fn law_lookup_kept_by_other_calls<B: Region>(
    states: Seq<TreeState<B>>,
    calls: Seq<TreeCall<B>>,
    oks: Seq<bool>,
    id: u32,
)
    requires
        is_history(states, calls, oks),
        forall|i: int| 0 <= i < calls.len() ==> !touches_id(#[trigger] calls[i], oks[i], id),
    ensures
        cache_lookup(states.last().cache, id) == cache_lookup(states[0].cache, id),
{
    lemma_lookup_prefix(states, calls, oks, id, calls.len() as int);
}

/// The call can take a node with id `id` out of the tree.
pub open spec fn can_drop_id<B>(call: TreeCall<B>, id: u32) -> bool {
    match call {
        TreeCall::Insert(_) => false,
        TreeCall::Remove(k) => k == id,
        TreeCall::Update(k, _) => k == id,
        TreeCall::Clear => true,
    }
}

proof fn lemma_without_id_keeps<B>(s: Seq<NodeView<B>>, id: u32, n: NodeView<B>)
    requires
        s.contains(n),
        n.id != id,
    ensures
        without_id(s, id).contains(n),
{
    let p = |v: NodeView<B>| v.id != id;
    let i = choose|i: int| 0 <= i < s.len() && s[i] == n;
    s.lemma_filter_contains(p, i);
}

proof fn lemma_stored_prefix<B: Region>(
    states: Seq<TreeState<B>>,
    calls: Seq<TreeCall<B>>,
    oks: Seq<bool>,
    n: NodeView<B>,
    k: int,
)
    requires
        routes_into_meeting_quadrants::<B>(),
        is_history(states, calls, oks),
        states[0].items.contains(n),
        forall|i: int| 0 <= i < calls.len() ==> !can_drop_id(#[trigger] calls[i], n.id),
        0 <= k <= calls.len(),
    ensures
        states[k].items.contains(n),
    decreases k,
{
    broadcast use vstd::multiset::group_multiset_axioms;
    broadcast use vstd::seq_lib::group_to_multiset_ensures;

    if k > 0 {
        let i = k - 1;
        lemma_stored_prefix(states, calls, oks, n, i);
        assert(step_holds(states, calls, oks, i));
        assert(!can_drop_id(calls[i], n.id));
        let a = states[i];
        let b = states[k];
        assert(a.items.to_multiset().count(n) > 0);
        match calls[i] {
            TreeCall::Insert(x) => {
                assert(b.items.to_multiset().count(n) > 0);
            },
            TreeCall::Remove(r) => {
                lemma_without_id_keeps(a.items, r, n);
            },
            TreeCall::Update(u, bounds) => {
                if a.cache.contains_key(u) {
                    lemma_without_id_keeps(a.items, u, n);
                    assert(without_id(a.items, u).to_multiset().count(n) > 0);
                    assert(b.items.to_multiset().count(n) > 0);
                }
            },
            TreeCall::Clear => {},
        }
    }
}

/// Stored nodes stay: where the region routes nodes into quadrants that meet
/// them, a stored node is still stored after any calls that neither remove
/// nor move its id nor clear the tree.
pub proof fn law_stored_node_stays<B: Region>(
    states: Seq<TreeState<B>>,
    calls: Seq<TreeCall<B>>,
    oks: Seq<bool>,
    n: NodeView<B>,
)
    requires
        routes_into_meeting_quadrants::<B>(),
        is_history(states, calls, oks),
        states[0].items.contains(n),
        forall|i: int| 0 <= i < calls.len() ==> !can_drop_id(#[trigger] calls[i], n.id),
    ensures
        states.last().items.contains(n),
{
    lemma_stored_prefix(states, calls, oks, n, calls.len() as int);
}

/// Query after insert, across later calls: where the region routes nodes into
/// quadrants that meet them, a query whose region surely meets a stored node
/// finds it after any calls that neither remove nor move its id nor clear the
/// tree.
pub proof fn law_query_finds_node_after_later_calls<B: Region>(
    states: Seq<TreeState<B>>,
    calls: Seq<TreeCall<B>>,
    oks: Seq<bool>,
    n: NodeView<B>,
    q: B,
    found: Seq<NodeView<B>>,
)
    requires
        routes_into_meeting_quadrants::<B>(),
        is_history(states, calls, oks),
        states[0].items.contains(n),
        forall|i: int| 0 <= i < calls.len() ==> !can_drop_id(#[trigger] calls[i], n.id),
        surely_meets(n.bounds, q),
        kept_by_answers(states.last().items, q, found),
    ensures
        found.contains(n),
{
    lemma_stored_prefix(states, calls, oks, n, calls.len() as int);
    let items = states.last().items;
    lemma_kept_facts(items, q, found);
    let i = choose|i: int| 0 <= i < items.len() && items[i] == n;
    assert(surely_meets(items[i].bounds, q));
}

/// Call `i` can have put `v` into the tree: it inserted `v` successfully, or
/// it moved the node cached under some id, giving `v`.
pub open spec fn enters_at<B: Region>(
    states: Seq<TreeState<B>>,
    calls: Seq<TreeCall<B>>,
    oks: Seq<bool>,
    v: NodeView<B>,
    i: int,
) -> bool {
    ||| (calls[i] == TreeCall::Insert(v) && oks[i])
    ||| (calls[i] matches TreeCall::Update(k, b) && states[i].cache.contains_key(k) && v == moved_node(
        states[i].cache,
        k,
        b,
    ))
}

proof fn lemma_origin_prefix<B: Region>(
    states: Seq<TreeState<B>>,
    calls: Seq<TreeCall<B>>,
    oks: Seq<bool>,
    v: NodeView<B>,
    k: int,
)
    requires
        is_history(states, calls, oks),
        0 <= k <= calls.len(),
        states[k].items.contains(v),
    ensures
        states[0].items.contains(v) || exists|i: int| 0 <= i < k && #[trigger] enters_at(states, calls, oks, v, i),
    decreases k,
{
    broadcast use vstd::multiset::group_multiset_axioms;
    broadcast use vstd::seq_lib::group_to_multiset_ensures;

    if k > 0 {
        let i = k - 1;
        assert(step_holds(states, calls, oks, i));
        let a = states[i];
        let b = states[k];
        assert(b.items.to_multiset().count(v) > 0);
        let came_before = match calls[i] {
            TreeCall::Insert(x) => {
                if v != x || !oks[i] {
                    assert(a.items.to_multiset().count(v) > 0);
                    true
                } else {
                    assert(enters_at(states, calls, oks, v, i));
                    false
                }
            },
            TreeCall::Remove(r) => {
                let p = |w: NodeView<B>| w.id != r;
                a.items.lemma_filter_contains_rev(p, v);
                true
            },
            TreeCall::Update(u, bounds) => {
                if !a.cache.contains_key(u) {
                    true
                } else if v == moved_node(a.cache, u, bounds) {
                    assert(enters_at(states, calls, oks, v, i));
                    false
                } else {
                    assert(without_id(a.items, u).to_multiset().count(v) > 0);
                    let p = |w: NodeView<B>| w.id != u;
                    a.items.lemma_filter_contains_rev(p, v);
                    true
                }
            },
            TreeCall::Clear => {
                assert(false);
                true
            },
        };
        if came_before {
            assert(a.items.contains(v));
            lemma_origin_prefix(states, calls, oks, v, i);
        }
    }
}

/// Every stored node comes from a call: after any calls, each node the tree
/// stores was stored at the start, or was inserted by a call that succeeded,
/// or is a node moved by an update.
pub proof fn law_stored_nodes_come_from_calls<B: Region>(
    states: Seq<TreeState<B>>,
    calls: Seq<TreeCall<B>>,
    oks: Seq<bool>,
    v: NodeView<B>,
)
    requires
        is_history(states, calls, oks),
        states.last().items.contains(v),
    ensures
        states[0].items.contains(v) || exists|i: int|
            0 <= i < calls.len() && #[trigger] enters_at(states, calls, oks, v, i),
{
    lemma_origin_prefix(states, calls, oks, v, calls.len() as int);
}

/// The region answers each overlap question one way only.
pub open spec fn overlap_answers_are_fixed<B: Region>() -> bool {
    forall|a: B, b: B, r1: bool, r2: bool|
        #[trigger] answers_intersects(a, b, r1) && #[trigger] answers_intersects(a, b, r2) ==> r1 == r2
}

/// A query has one result: where the region answers each overlap question
/// one way only, two queries of the same nodes with the same region give the
/// same nodes in the same order.
pub proof fn law_query_result_is_unique<B: Region>(
    s: Seq<NodeView<B>>,
    q: B,
    o1: Seq<NodeView<B>>,
    o2: Seq<NodeView<B>>,
)
    requires
        overlap_answers_are_fixed::<B>(),
        kept_by_answers(s, q, o1),
        kept_by_answers(s, q, o2),
    ensures
        o1 == o2,
    decreases s.len(),
{
    if s.len() == 0 {
        assert(o1 =~= o2);
    } else {
        let x = s.last();
        let s1 = s.drop_last();
        if answers_intersects(x.bounds, q, true) {
            if answers_intersects(x.bounds, q, false) {
                assert(false);
            }
            law_query_result_is_unique(s1, q, o1.drop_last(), o2.drop_last());
            assert(o1 =~= o1.drop_last().push(x));
            assert(o2 =~= o2.drop_last().push(x));
        } else {
            law_query_result_is_unique(s1, q, o1, o2);
        }
    }
}

proof fn lemma_kept_without_id<B: Region>(s: Seq<NodeView<B>>, q: B, o: Seq<NodeView<B>>, id: u32)
    requires
        kept_by_answers(s, q, o),
    ensures
        kept_by_answers(without_id(s, id), q, without_id(o, id)),
    decreases s.len(),
{
    let p = |v: NodeView<B>| v.id != id;
    if s.len() == 0 {
        assert(without_id(s, id) =~= Seq::<NodeView<B>>::empty()) by {
            reveal(Seq::filter);
        }
        assert(without_id(o, id) =~= Seq::<NodeView<B>>::empty()) by {
            reveal(Seq::filter);
        }
    } else {
        let x = s.last();
        let s1 = s.drop_last();
        assert(s =~= s1.push(x));
        s1.lemma_filter_push(x, p);
        if answers_intersects(x.bounds, q, true) && o.len() > 0 && o.last() == x && kept_by_answers(
            s1,
            q,
            o.drop_last(),
        ) {
            let o1 = o.drop_last();
            assert(o =~= o1.push(x));
            o1.lemma_filter_push(x, p);
            lemma_kept_without_id(s1, q, o1, id);
            lemma_kept_push(without_id(s1, id), q, without_id(o1, id), x, true);
        } else {
            lemma_kept_without_id(s1, q, o, id);
            lemma_kept_push(without_id(s1, id), q, without_id(o, id), x, false);
        }
    }
}

/// Query after remove: removing an id leaves a query's answers to the other
/// nodes as they were, so the query gives its earlier result without the
/// nodes of that id; where the region answers each overlap question one way
/// only, that is the only result it can give.
pub proof fn law_query_after_remove<B: Region>(
    s: Seq<NodeView<B>>,
    q: B,
    before: Seq<NodeView<B>>,
    id: u32,
    after: Seq<NodeView<B>>,
)
    requires
        kept_by_answers(s, q, before),
    ensures
        kept_by_answers(without_id(s, id), q, without_id(before, id)),
        overlap_answers_are_fixed::<B>() && kept_by_answers(without_id(s, id), q, after) ==> after
            == without_id(before, id),
{
    lemma_kept_without_id(s, q, before, id);
    if overlap_answers_are_fixed::<B>() && kept_by_answers(without_id(s, id), q, after) {
        law_query_result_is_unique(without_id(s, id), q, after, without_id(before, id));
    }
}

proof fn lemma_narrowest_facts<B: Region>(best: Option<NodeView<B>>, rest: Seq<NodeView<B>>, r: Option<NodeView<B>>)
    requires
        narrowest_by_answers(best, rest, r),
    ensures
        (r is None) == (best is None && rest.len() == 0),
        r matches Some(n) ==> (best == Some(n) || rest.contains(n)),
    decreases rest.len(),
{
    if rest.len() > 0 {
        let x = rest[0];
        let tail = rest.drop_first();
        match best {
            None => {
                lemma_narrowest_facts(Some(x), tail, r);
            },
            Some(b) => {
                if narrowest_by_answers(Some(x), tail, r) {
                    lemma_narrowest_facts(Some(x), tail, r);
                } else {
                    lemma_narrowest_facts(Some(b), tail, r);
                }
            },
        }
        if r is Some {
            let n = r->0;
            if tail.contains(n) {
                let k = choose|k: int| 0 <= k < tail.len() && tail[k] == n;
                assert(rest[k + 1] == n);
            }
            if n == x {
                assert(rest[0] == n);
            }
        }
    }
}

/// Hit test agrees with a query: where the region answers each overlap
/// question one way only, the node a hit test gives is the first narrowest
/// of what a query over the same point gives, none exactly when that query
/// finds nothing.
pub proof fn law_hit_test_agrees_with_query<B: Region>(
    items: Seq<NodeView<B>>,
    point: B,
    hits: Seq<NodeView<B>>,
    r: Option<NodeView<B>>,
    queried: Seq<NodeView<B>>,
)
    requires
        overlap_answers_are_fixed::<B>(),
        kept_by_answers(items, point, hits),
        narrowest_by_answers(None, hits, r),
        kept_by_answers(items, point, queried),
    ensures
        narrowest_by_answers(None, queried, r),
        (r is None) == (queried.len() == 0),
        r matches Some(n) ==> queried.contains(n),
{
    law_query_result_is_unique(items, point, hits, queried);
    lemma_narrowest_facts(None, queried, r);
}

/// Update moves a node: after a successful update of a cached id, the cache
/// gives the node at its new bounds (id, label and data kept), the tree stores
/// it, and every stored node with that id is it.
pub proof fn law_update_moves_node<B: Region>(before: TreeState<B>, id: u32, bounds: B, after: TreeState<B>)
    requires
        before.cache.contains_key(id),
        call_effect(before, TreeCall::Update(id, bounds), true, after),
    ensures
        ({
            let m = moved_node(before.cache, id, bounds);
            &&& cache_lookup(after.cache, id) == Some(m)
            &&& m.id == before.cache[id].id && m.label == before.cache[id].label && m.data == before.cache[id].data
            &&& m.bounds == bounds
            &&& after.items.contains(m)
            &&& forall|i: int| 0 <= i < after.items.len() && (#[trigger] after.items[i]).id == id ==> after.items[i] == m
        }),
{
    broadcast use vstd::multiset::group_multiset_axioms;
    broadcast use vstd::seq_lib::group_to_multiset_ensures;

    let m = moved_node(before.cache, id, bounds);
    let rest = without_id(before.items, id);
    let p = |w: NodeView<B>| w.id != id;
    assert forall|i: int| 0 <= i < after.items.len() && (#[trigger] after.items[i]).id == id implies after.items[i] == m by {
        let v = after.items[i];
        assert(after.items.to_multiset().count(v) > 0);
        if v != m {
            assert(rest.to_multiset().count(v) > 0);
            assert(rest.contains(v));
            let k = choose|k: int| 0 <= k < rest.len() && rest[k] == v;
            before.items.lemma_filter_pred(p, k);
        }
    }
}

proof fn lemma_kept_split<B: Region>(a: Seq<NodeView<B>>, b: Seq<NodeView<B>>, q: B, o: Seq<NodeView<B>>)
    requires
        kept_by_answers(a + b, q, o),
    ensures
        exists|k: int|
            0 <= k <= o.len() && kept_by_answers(a, q, #[trigger] o.take(k)) && kept_by_answers(b, q, o.skip(k)),
    decreases b.len(),
{
    if b.len() == 0 {
        assert(a + b =~= a);
        assert(o.take(o.len() as int) =~= o);
        assert(o.skip(o.len() as int) =~= Seq::<NodeView<B>>::empty());
        assert(kept_by_answers(a, q, o.take(o.len() as int)));
    } else {
        let x = b.last();
        let b1 = b.drop_last();
        assert((a + b).drop_last() =~= a + b1);
        assert((a + b).last() == x);
        if answers_intersects(x.bounds, q, true) && o.len() > 0 && o.last() == x && kept_by_answers(
            a + b1,
            q,
            o.drop_last(),
        ) {
            let o1 = o.drop_last();
            lemma_kept_split(a, b1, q, o1);
            let k = choose|k: int|
                0 <= k <= o1.len() && kept_by_answers(a, q, #[trigger] o1.take(k)) && kept_by_answers(b1, q, o1.skip(k));
            assert(o.take(k) =~= o1.take(k));
            assert(o.skip(k) =~= o1.skip(k).push(x));
            lemma_kept_push(b1, q, o1.skip(k), x, true);
            assert(b1.push(x) =~= b);
        } else {
            lemma_kept_split(a, b1, q, o);
            let k = choose|k: int|
                0 <= k <= o.len() && kept_by_answers(a, q, #[trigger] o.take(k)) && kept_by_answers(b1, q, o.skip(k));
            lemma_kept_push(b1, q, o.skip(k), x, false);
            assert(b1.push(x) =~= b);
            assert(kept_by_answers(a, q, o.take(k)));
        }
    }
}

/// Query after an insertion that did not split: where the region answers
/// each overlap question one way only, a query over the nodes with `x` put in
/// at some position gives the earlier result with `x` put in at the matching
/// position when the region says `x` meets the query, and the earlier result
/// otherwise.
pub proof fn law_query_after_insertion<B: Region>(
    s: Seq<NodeView<B>>,
    p: int,
    x: NodeView<B>,
    q: B,
    before: Seq<NodeView<B>>,
    after: Seq<NodeView<B>>,
)
    requires
        overlap_answers_are_fixed::<B>(),
        0 <= p <= s.len(),
        kept_by_answers(s, q, before),
        kept_by_answers(inserted_at(s, p, x), q, after),
    ensures
        answers_intersects(x.bounds, q, true) ==> exists|k: int|
            0 <= k <= before.len() && after == inserted_at(before, k, x),
        answers_intersects(x.bounds, q, false) ==> after == before,
{
    let s1 = s.take(p);
    let s2 = s.skip(p);
    assert(s =~= s1 + s2);
    lemma_kept_split(s1, s2, q, before);
    let k = choose|k: int|
        0 <= k <= before.len() && kept_by_answers(s1, q, #[trigger] before.take(k)) && kept_by_answers(
            s2,
            q,
            before.skip(k),
        );
    let o1 = before.take(k);
    let o2 = before.skip(k);
    let e = Seq::<NodeView<B>>::empty();
    assert(seq![x].drop_last() =~= e);
    assert(kept_by_answers(e, q, e));
    if answers_intersects(x.bounds, q, true) {
        assert(seq![x].drop_last() =~= e);
        assert(kept_by_answers(seq![x], q, seq![x])) by {
            lemma_kept_push(e, q, e, x, true);
            assert(e.push(x) =~= seq![x]);
        }
        lemma_kept_concat(s1, o1, seq![x], seq![x], q);
        lemma_kept_concat(s1 + seq![x], o1 + seq![x], s2, o2, q);
        assert(inserted_at(s, p, x) =~= s1 + seq![x] + s2);
        law_query_result_is_unique(inserted_at(s, p, x), q, after, o1 + seq![x] + o2);
        assert(inserted_at(before, k, x) =~= o1 + seq![x] + o2);
    }
    if answers_intersects(x.bounds, q, false) {
        assert(kept_by_answers(seq![x], q, e)) by {
            lemma_kept_push(e, q, e, x, false);
            assert(e.push(x) =~= seq![x]);
        }
        lemma_kept_concat(s1, o1, seq![x], e, q);
        lemma_kept_concat(s1 + seq![x], o1 + e, s2, o2, q);
        assert(inserted_at(s, p, x) =~= s1 + seq![x] + s2);
        law_query_result_is_unique(inserted_at(s, p, x), q, after, o1 + e + o2);
        assert(before =~= o1 + e + o2);
    }
}

/// Query after an update that did not split: where the region answers each
/// overlap question one way only, a query over the nodes without the moved
/// id and with the moved node put in at some position gives the earlier
/// result without that id, with the moved node put in at the matching
/// position when the region says it meets the query.
pub proof fn law_query_after_move<B: Region>(
    s: Seq<NodeView<B>>,
    id: u32,
    p: int,
    m: NodeView<B>,
    q: B,
    before: Seq<NodeView<B>>,
    after: Seq<NodeView<B>>,
)
    requires
        overlap_answers_are_fixed::<B>(),
        0 <= p <= without_id(s, id).len(),
        kept_by_answers(s, q, before),
        kept_by_answers(inserted_at(without_id(s, id), p, m), q, after),
    ensures
        answers_intersects(m.bounds, q, true) ==> exists|k: int|
            0 <= k <= without_id(before, id).len() && after == inserted_at(without_id(before, id), k, m),
        answers_intersects(m.bounds, q, false) ==> after == without_id(before, id),
{
    lemma_kept_without_id(s, q, before, id);
    law_query_after_insertion(without_id(s, id), p, m, q, without_id(before, id), after);
}

/// A split hands the new node down last: where a child's nodes are the old
/// nodes followed by the new one with some left out, in order, and the new
/// node was not among the old ones, a child that holds the new node holds it
/// after all its other nodes.
pub proof fn law_split_puts_new_node_last<A>(child: Seq<A>, old: Seq<A>, x: A)
    requires
        is_subsequence(child, old.push(x)),
        !old.contains(x),
        child.contains(x),
    ensures
        child.last() == x,
{
    let f = choose|f: spec_fn(int) -> int| #[trigger] picks(child, old.push(x), f);
    let i = choose|i: int| 0 <= i < child.len() && child[i] == x;
    assert(0 <= f(i) < old.len() + 1 && child[i] == old.push(x)[f(i)]);
    if f(i) < old.len() {
        assert(old[f(i)] == x);
    }
    if i < child.len() - 1 {
        let j = child.len() - 1;
        assert(f(i) < f(j));
        assert(f(j) < old.len() + 1);
    }
}

} // verus!
