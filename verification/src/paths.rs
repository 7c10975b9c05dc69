//! Routes through a list of edges and what they weigh.

use crate::edge::Edge;
use crate::vertex::Vertex;
use vstd::prelude::*;

verus! {

/// The vertex with index `k`.
pub open spec fn vertex(k: int) -> Vertex {
    Vertex { idx: k as u8 }
}

/// The edge with index `i` leads from `a` to `b`.
pub open spec fn joins_at(edges: Seq<Edge>, i: int, a: Vertex, b: Vertex) -> bool {
    0 <= i < edges.len() && edges[i].start == a && edges[i].end == b
}

/// Some edge leads from `a` to `b`.
pub open spec fn joins(edges: Seq<Edge>, a: Vertex, b: Vertex) -> bool {
    exists|i: int| joins_at(edges, i, a, b)
}

/// Some edge leads from `a` to `b` with weight `w`.
pub open spec fn joins_with(edges: Seq<Edge>, a: Vertex, b: Vertex, w: u8) -> bool {
    exists|i: int| joins_at(edges, i, a, b) && edges[i].dist == w
}

/// The index of some edge that leads from `a` to `b`, where there is one.
pub open spec fn some_joining(edges: Seq<Edge>, a: Vertex, b: Vertex) -> int {
    choose|i: int| joins_at(edges, i, a, b)
}

/// Some edge leads from a vertex to that vertex itself.
pub open spec fn has_self_loop(edges: Seq<Edge>) -> bool {
    exists|i: int| 0 <= i < edges.len() && (#[trigger] edges[i]).start == edges[i].end
}

/// Where the route `p` from `start` ends.
pub open spec fn route_end(edges: Seq<Edge>, start: Vertex, p: Seq<int>) -> Vertex {
    if p.len() == 0 {
        start
    } else {
        edges[p.last()].end
    }
}

/// `p` lists the indices of edges that lead from `start` onwards, each edge
/// beginning where the one before it ends: a route is empty and stays at
/// `start`, or it is a route and one edge more from where that route ends.
pub open spec fn is_route(edges: Seq<Edge>, start: Vertex, p: Seq<int>) -> bool
    decreases p.len(),
{
    p.len() == 0 || {
        &&& is_route(edges, start, p.drop_last())
        &&& 0 <= p.last() < edges.len()
        &&& edges[p.last()].start == route_end(edges, start, p.drop_last())
    }
}

/// The sum of the weights of the edges of `p`.
pub open spec fn weight(edges: Seq<Edge>, p: Seq<int>) -> int
    decreases p.len(),
{
    if p.len() == 0 {
        0
    } else {
        weight(edges, p.drop_last()) + edges[p.last()].dist
    }
}

/// `p` is a route of at least one edge that ends where it began.
pub open spec fn is_loop(edges: Seq<Edge>, p: Seq<int>) -> bool {
    &&& p.len() > 0
    &&& is_route(edges, edges[p[0]].start, p)
    &&& route_end(edges, edges[p[0]].start, p) == edges[p[0]].start
}

/// The edges hold a cycle.
pub open spec fn cyclic(edges: Seq<Edge>) -> bool {
    exists|p: Seq<int>| is_loop(edges, p)
}

/// Some route from `start` weighs more than a distance can hold.
pub open spec fn too_long(edges: Seq<Edge>, start: Vertex) -> bool {
    exists|p: Seq<int>| is_route(edges, start, p) && weight(edges, p) > u8::MAX
}

/// `d` is the greatest weight of a route from `start`.
pub open spec fn is_longest(edges: Seq<Edge>, start: Vertex, d: int) -> bool {
    &&& exists|p: Seq<int>| is_route(edges, start, p) && weight(edges, p) == d
    &&& forall|p: Seq<int>| is_route(edges, start, p) ==> weight(edges, p) <= d
}

/// Some route from `start` ends at `v`.
pub open spec fn reaches(edges: Seq<Edge>, start: Vertex, v: Vertex) -> bool {
    exists|p: Seq<int>| is_route(edges, start, p) && route_end(edges, start, p) == v
}

/// `d` is the greatest weight of a route from `start` to `v`.
pub open spec fn is_distance(edges: Seq<Edge>, start: Vertex, v: Vertex, d: int) -> bool {
    &&& exists|p: Seq<int>|
        is_route(edges, start, p) && route_end(edges, start, p) == v && weight(edges, p) == d
    &&& forall|p: Seq<int>|
        is_route(edges, start, p) && route_end(edges, start, p) == v ==> weight(edges, p) <= d
}

/// A route and one edge more from where it ends make a route, which ends
/// where the edge ends and weighs what the two weigh.
pub proof fn lemma_route_push(edges: Seq<Edge>, start: Vertex, p: Seq<int>, i: int)
    requires
        is_route(edges, start, p),
        0 <= i < edges.len(),
        edges[i].start == route_end(edges, start, p),
    ensures
        is_route(edges, start, p.push(i)),
        route_end(edges, start, p.push(i)) == edges[i].end,
        weight(edges, p.push(i)) == weight(edges, p) + edges[i].dist,
{
    assert(p.push(i).drop_last() =~= p);
}

/// A route without its last edge is a route to where that edge begins.
pub proof fn lemma_route_pop(edges: Seq<Edge>, start: Vertex, p: Seq<int>)
    requires
        is_route(edges, start, p),
        p.len() > 0,
    ensures
        is_route(edges, start, p.drop_last()),
        0 <= p.last() < edges.len(),
        route_end(edges, start, p.drop_last()) == edges[p.last()].start,
        weight(edges, p) == weight(edges, p.drop_last()) + edges[p.last()].dist,
{
}

/// The first edges of a route make a route.
pub proof fn lemma_route_prefix(edges: Seq<Edge>, start: Vertex, p: Seq<int>, k: int)
    requires
        is_route(edges, start, p),
        0 <= k <= p.len(),
    ensures
        is_route(edges, start, p.take(k)),
    decreases p.len() - k,
{
    if k < p.len() {
        lemma_route_prefix(edges, start, p, k + 1);
        assert(p.take(k + 1).drop_last() =~= p.take(k));
    } else {
        assert(p.take(k) =~= p);
    }
}

/// Each edge of a route begins where the edges before it have led.
pub proof fn lemma_route_at(edges: Seq<Edge>, start: Vertex, p: Seq<int>, k: int)
    requires
        is_route(edges, start, p),
        0 <= k < p.len(),
    ensures
        0 <= p[k] < edges.len(),
        edges[p[k]].start == route_end(edges, start, p.take(k)),
{
    lemma_route_prefix(edges, start, p, k + 1);
    assert(p.take(k + 1).drop_last() =~= p.take(k));
    assert(p.take(k + 1).last() == p[k]);
}

/// One route after another is a route, and weighs what the two weigh.
pub proof fn lemma_route_concat(edges: Seq<Edge>, start: Vertex, p: Seq<int>, q: Seq<int>)
    requires
        is_route(edges, start, p),
        is_route(edges, route_end(edges, start, p), q),
    ensures
        is_route(edges, start, p + q),
        route_end(edges, start, p + q) == route_end(edges, route_end(edges, start, p), q),
        weight(edges, p + q) == weight(edges, p) + weight(edges, q),
    decreases q.len(),
{
    if q.len() == 0 {
        assert(p + q =~= p);
    } else {
        lemma_route_concat(edges, start, p, q.drop_last());
        assert((p + q).drop_last() =~= p + q.drop_last());
        assert((p + q).last() == q.last());
    }
}

} // verus!
