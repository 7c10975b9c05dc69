//! The adjacency lists of a list of edges and the dependency graph that the
//! edges span.

use crate::edge::Edge;
use crate::model::{lemma_with_dependency_valid, GraphView};
use crate::paths::{
    cyclic, has_self_loop, is_loop, is_route, joins, joins_at, joins_with, lemma_route_at,
    lemma_route_push, route_end, some_joining, vertex,
};
use crate::vertex::Vertex;
use vstd::prelude::*;

verus! {

/// The adjacency list of `v`: for each edge that leaves `v`, in the order of
/// the edges, the vertex it leads to and its weight.
pub open spec fn neighbors(edges: Seq<Edge>, v: Vertex) -> Seq<(Vertex, u8)>
    decreases edges.len(),
{
    if edges.len() == 0 {
        Seq::empty()
    } else {
        let rest = neighbors(edges.drop_last(), v);
        let e = edges.last();
        if e.start == v {
            rest.push((e.end, e.dist))
        } else {
            rest
        }
    }
}

/// The graph `g` after recording that each vertex of the adjacency list `ns`,
/// in turn, depends on `v`.
pub open spec fn with_neighbors(g: GraphView<Vertex>, v: Vertex, ns: Seq<(Vertex, u8)>) -> GraphView<
    Vertex,
>
    decreases ns.len(),
{
    if ns.len() == 0 {
        g
    } else {
        with_neighbors(g, v, ns.drop_last()).with_dependency(v, ns.last().0)
    }
}

/// The dependency graph of the adjacency lists of the first `n` vertices,
/// taken by rising index.
pub open spec fn graph_upto(edges: Seq<Edge>, n: int) -> GraphView<Vertex>
    decreases n,
{
    if n <= 0 {
        GraphView::empty()
    } else {
        with_neighbors(graph_upto(edges, n - 1), vertex(n - 1), neighbors(edges, vertex(n - 1)))
    }
}

/// The dependency graph that the edges span: each edge makes its end depend
/// on its start. The weights play no part in it.
pub open spec fn graph_of(edges: Seq<Edge>) -> GraphView<Vertex> {
    graph_upto(edges, 256)
}

/// Each entry of an adjacency list stands for an edge, and each edge has its
/// entry in the adjacency list of the vertex it leaves.
pub proof fn lemma_neighbors(edges: Seq<Edge>, v: Vertex)
    ensures
        forall|j: int|
            0 <= j < neighbors(edges, v).len() ==> joins_with(
                edges,
                v,
                (#[trigger] neighbors(edges, v)[j]).0,
                neighbors(edges, v)[j].1,
            ),
        forall|i: int|
            0 <= i < edges.len() && (#[trigger] edges[i]).start == v ==> neighbors(
                edges,
                v,
            ).contains((edges[i].end, edges[i].dist)),
    decreases edges.len(),
{
    if edges.len() > 0 {
        let front = edges.drop_last();
        let n = front.len() as int;
        lemma_neighbors(front, v);
        let ns = neighbors(edges, v);
        let fs = neighbors(front, v);
        assert forall|j: int| 0 <= j < ns.len() implies joins_with(
            edges,
            v,
            (#[trigger] ns[j]).0,
            ns[j].1,
        ) by {
            if j < fs.len() {
                assert(ns[j] == fs[j]);
                let i = choose|i: int| joins_at(front, i, v, fs[j].0) && front[i].dist == fs[j].1;
                assert(joins_at(edges, i, v, ns[j].0) && edges[i].dist == ns[j].1);
            } else {
                assert(joins_at(edges, n, v, ns[j].0) && edges[n].dist == ns[j].1);
            }
        }
        assert forall|i: int| 0 <= i < edges.len() && (#[trigger] edges[i]).start == v implies ns.contains(
            (edges[i].end, edges[i].dist),
        ) by {
            if i < n {
                assert(front[i].start == v);
                let j = choose|j: int|
                    0 <= j < fs.len() && fs[j] == (front[i].end, front[i].dist);
                assert(ns[j] == (edges[i].end, edges[i].dist));
            } else {
                assert(ns[fs.len() as int] == (edges[i].end, edges[i].dist));
            }
        }
    }
}

/// The graph built from adjacency lists is valid, and it holds the pairs that
/// its edges held before and those that the lists add.
pub proof fn lemma_with_neighbors(g: GraphView<Vertex>, v: Vertex, ns: Seq<(Vertex, u8)>)
    requires
        g.valid(),
    ensures
        with_neighbors(g, v, ns).valid(),
        forall|a: Vertex, b: Vertex| #[trigger]
            with_neighbors(g, v, ns).edges.contains((a, b)) <==> g.edges.contains((a, b)) || (a == v
                && a != b && exists|j: int| 0 <= j < ns.len() && (#[trigger] ns[j]).0 == b),
    decreases ns.len(),
{
    if ns.len() > 0 {
        let front = ns.drop_last();
        let h = with_neighbors(g, v, front);
        lemma_with_neighbors(g, v, front);
        lemma_with_dependency_valid(h, v, ns.last().0);
        let r = with_neighbors(g, v, ns);
        assert forall|a: Vertex, b: Vertex| #[trigger]
            r.edges.contains((a, b)) <==> g.edges.contains((a, b)) || (a == v && a != b
                && exists|j: int| 0 <= j < ns.len() && (#[trigger] ns[j]).0 == b) by {
            if h.edges.contains((a, b)) && !g.edges.contains((a, b)) {
                let j = choose|j: int| 0 <= j < front.len() && (#[trigger] front[j]).0 == b;
                assert(ns[j].0 == b);
            }
            if a == v && a != b && exists|j: int| 0 <= j < ns.len() && (#[trigger] ns[j]).0 == b {
                let j = choose|j: int| 0 <= j < ns.len() && (#[trigger] ns[j]).0 == b;
                if j < front.len() {
                    assert(front[j].0 == b);
                }
            }
        }
    }
}

/// The graph of the first `n` adjacency lists is valid; its edges are the
/// pairs of different vertices that an edge joins and of which the first has
/// an index below `n`.
pub proof fn lemma_graph_upto(edges: Seq<Edge>, n: int)
    requires
        0 <= n <= 256,
    ensures
        graph_upto(edges, n).valid(),
        forall|a: Vertex, b: Vertex| #[trigger]
            graph_upto(edges, n).edges.contains((a, b)) <==> a.idx < n && a != b && joins(
                edges,
                a,
                b,
            ),
    decreases n,
{
    if n > 0 {
        let v = vertex(n - 1);
        let g = graph_upto(edges, n - 1);
        let ns = neighbors(edges, v);
        lemma_graph_upto(edges, n - 1);
        lemma_with_neighbors(g, v, ns);
        lemma_neighbors(edges, v);
        let r = graph_upto(edges, n);
        assert forall|a: Vertex, b: Vertex| #[trigger]
            r.edges.contains((a, b)) <==> a.idx < n && a != b && joins(edges, a, b) by {
            if r.edges.contains((a, b)) && !g.edges.contains((a, b)) {
                let j = choose|j: int| 0 <= j < ns.len() && (#[trigger] ns[j]).0 == b;
                assert(joins_with(edges, v, ns[j].0, ns[j].1));
                let i = choose|i: int| joins_at(edges, i, v, ns[j].0) && edges[i].dist == ns[j].1;
                assert(joins_at(edges, i, a, b));
            }
            if a.idx < n && a != b && joins(edges, a, b) {
                if a.idx == n - 1 {
                    let i = choose|i: int| joins_at(edges, i, a, b);
                    assert(edges[i].start == v);
                    assert(ns.contains((edges[i].end, edges[i].dist)));
                    let j = choose|j: int| 0 <= j < ns.len() && ns[j] == (edges[i].end, edges[i].dist);
                    assert(ns[j].0 == b);
                }
            }
        }
    }
}

/// The vertices that a route from `from` passes, the first and the last included.
pub open spec fn stops(edges: Seq<Edge>, from: Vertex, p: Seq<int>) -> Seq<Vertex> {
    Seq::new(
        p.len() + 1,
        |k: int|
            if k == 0 {
                from
            } else {
                edges[p[k - 1]].end
            },
    )
}

/// Edges that join the vertices of a walk, each to the next, make a route
/// along the walk.
proof fn lemma_walk_route(edges: Seq<Edge>, w: Seq<Vertex>, p: Seq<int>, k: int)
    requires
        p.len() + 1 == w.len(),
        forall|i: int, j: int|
            0 <= i && j == i + 1 && j < w.len() ==> joins_at(edges, #[trigger] p[i], w[i], #[trigger] w[j]),
        0 <= k <= p.len(),
    ensures
        is_route(edges, w[0], p.take(k)),
        route_end(edges, w[0], p.take(k)) == w[k],
    decreases k,
{
    if k > 0 {
        lemma_walk_route(edges, w, p, k - 1);
        assert(p.take(k).drop_last() =~= p.take(k - 1));
        assert(p.take(k).last() == p[k - 1]);
        assert(joins_at(edges, p[k - 1], w[k - 1], w[k]));
    }
}

/// A walk along pairs that the edges join, which comes back to where it
/// began, shows a cycle of the edges.
proof fn lemma_cycle_of_graph(edges: Seq<Edge>, w: Seq<Vertex>)
    requires
        w.len() >= 2,
        w.first() == w.last(),
        forall|i: int, j: int|
            0 <= i && j == i + 1 && j < w.len() ==> joins(edges, #[trigger] w[i], #[trigger] w[j]),
    ensures
        cyclic(edges),
{
    let p = Seq::new((w.len() - 1) as nat, |k: int| some_joining(edges, w[k], w[k + 1]));
    assert forall|i: int, j: int| 0 <= i && j == i + 1 && j < w.len() implies joins_at(
        edges,
        #[trigger] p[i],
        w[i],
        #[trigger] w[j],
    ) by {
        assert(joins(edges, w[i], w[j]));
    }
    lemma_walk_route(edges, w, p, p.len() as int);
    assert(p.take(p.len() as int) =~= p);
    assert(joins_at(edges, p[0], w[0], w[1]));
    assert(is_loop(edges, p));
}

/// The vertices that a cycle of the edges passes make a walk along pairs
/// that the edges join, which comes back to where it began.
proof fn lemma_cycle_stops(edges: Seq<Edge>, p: Seq<int>)
    requires
        is_loop(edges, p),
    ensures
        stops(edges, edges[p[0]].start, p).len() >= 2,
        stops(edges, edges[p[0]].start, p).first() == stops(edges, edges[p[0]].start, p).last(),
        forall|i: int, j: int|
            0 <= i && j == i + 1 && j < stops(edges, edges[p[0]].start, p).len() ==> joins(
                edges,
                #[trigger] stops(edges, edges[p[0]].start, p)[i],
                #[trigger] stops(edges, edges[p[0]].start, p)[j],
            ),
{
    let from = edges[p[0]].start;
    let w = stops(edges, from, p);
    assert forall|i: int, j: int| 0 <= i && j == i + 1 && j < w.len() implies joins(
        edges,
        #[trigger] w[i],
        #[trigger] w[j],
    ) by {
        lemma_route_at(edges, from, p, i);
        if i > 0 {
            assert(p.take(i).last() == p[i - 1]);
        }
        assert(joins_at(edges, p[i], w[i], w[j]));
    }
}

/// The edges hold a cycle exactly when one of them is a self-loop or the
/// graph that they span has a cycle.
pub proof fn lemma_cyclic(edges: Seq<Edge>)
    ensures
        cyclic(edges) <==> has_self_loop(edges) || graph_of(edges).has_cycle(),
{
    let g = graph_of(edges);
    lemma_graph_upto(edges, 256);
    if has_self_loop(edges) {
        let i = choose|i: int| 0 <= i < edges.len() && (#[trigger] edges[i]).start == edges[i].end;
        let p = Seq::<int>::empty().push(i);
        lemma_route_push(edges, edges[i].start, Seq::empty(), i);
        assert(is_loop(edges, p));
    }
    if g.has_cycle() {
        let w = choose|w: Seq<Vertex>| g.is_cycle(w);
        assert forall|i: int, j: int| 0 <= i && j == i + 1 && j < w.len() implies joins(
            edges,
            #[trigger] w[i],
            #[trigger] w[j],
        ) by {
            assert(g.edges.contains((w[i], w[j])));
        }
        lemma_cycle_of_graph(edges, w);
    }
    if cyclic(edges) && !has_self_loop(edges) {
        let p = choose|p: Seq<int>| is_loop(edges, p);
        let w = stops(edges, edges[p[0]].start, p);
        lemma_cycle_stops(edges, p);
        assert forall|i: int, j: int| 0 <= i && j == i + 1 && j < w.len() implies g.edges.contains(
            (#[trigger] w[i], #[trigger] w[j]),
        ) by {
            let a = w[i];
            let b = w[j];
            assert(joins(edges, a, b));
            let e = choose|e: int| joins_at(edges, e, a, b);
            assert(edges[e].start != edges[e].end);
            assert(a.idx < 256);
        }
        assert(g.is_cycle(w));
    }
}

/// Where `v` stands in `order`.
pub open spec fn pos(order: Seq<Vertex>, v: Vertex) -> int {
    order.index_of(v)
}

/// In a sequence without duplicates an element stands where it is found.
pub proof fn lemma_pos(order: Seq<Vertex>, i: int)
    requires
        order.no_duplicates(),
        0 <= i < order.len(),
    ensures
        order.contains(order[i]),
        pos(order, order[i]) == i,
{
    let j = order.index_of(order[i]);
    assert(0 <= j < order.len() && order[j] == order[i]);
}

/// A vertex that the sequence holds stands at its position.
pub proof fn lemma_at_pos(order: Seq<Vertex>, v: Vertex)
    requires
        order.contains(v),
    ensures
        0 <= pos(order, v) < order.len(),
        order[pos(order, v)] == v,
{
}

/// `order` lists no vertex twice, and every edge leads from a vertex of
/// `order` to one that stands further back in it.
#[verifier::opaque]
pub open spec fn topological(edges: Seq<Edge>, order: Seq<Vertex>) -> bool {
    &&& order.no_duplicates()
    &&& forall|i: int|
        0 <= i < edges.len() ==> {
            &&& order.contains((#[trigger] edges[i]).start)
            &&& order.contains(edges[i].end)
            &&& pos(order, edges[i].start) < pos(order, edges[i].end)
        }
}

/// The order into which the graph of edges without a self-loop was sorted
/// is a topological order of the edges.
pub proof fn lemma_order(edges: Seq<Edge>, order: Seq<Vertex>)
    requires
        !has_self_loop(edges),
        graph_of(edges).sorted() == Some(order),
        order.no_duplicates(),
        forall|x: Vertex| #[trigger] order.contains(x) <==> graph_of(edges).nodes.contains(x),
        forall|i: int, j: int|
            #![trigger order[i], order[j]]
            0 <= i < order.len() && 0 <= j < order.len() && graph_of(edges).edges.contains(
                (order[i], order[j]),
            ) ==> i < j,
    ensures
        topological(edges, order),
{
    reveal(topological);
    let g = graph_of(edges);
    lemma_graph_upto(edges, 256);
    assert forall|i: int| 0 <= i < edges.len() implies {
        &&& order.contains((#[trigger] edges[i]).start)
        &&& order.contains(edges[i].end)
        &&& pos(order, edges[i].start) < pos(order, edges[i].end)
    } by {
        let a = edges[i].start;
        let b = edges[i].end;
        assert(joins_at(edges, i, a, b));
        assert(a.idx < 256);
        assert(g.edges.contains((a, b)));
        assert(g.nodes.contains(a) && g.nodes.contains(b));
        lemma_at_pos(order, a);
        lemma_at_pos(order, b);
        let x = pos(order, a);
        let y = pos(order, b);
        assert(g.edges.contains((order[x], order[y])));
    }
}

} // verus!
