//! The critical chain: which of the longest routes is reported.
//!
//! Several routes may weigh the most, and several edges may join the same two
//! vertices. The predicates of this module say which vertices and which edges
//! make up the critical path, so that there is one answer for each list of
//! edges.

use crate::edge::Edge;
use crate::paths::{is_distance, is_longest, joins_at};
use crate::projection::graph_of;
use crate::vertex::Vertex;
use vstd::prelude::*;

verus! {

/// The distance `du` of `u` and the edge with index `i`, which leads from `u`
/// to `v`, make up the distance of `v`.
pub open spec fn tight_by(edges: Seq<Edge>, start: Vertex, u: Vertex, v: Vertex, du: int, i: int) -> bool {
    &&& is_distance(edges, start, u, du)
    &&& joins_at(edges, i, u, v)
    &&& is_distance(edges, start, v, du + edges[i].dist)
}

/// A longest route to `v` comes over `u` and one edge from there.
#[verifier::opaque]
pub open spec fn tight(edges: Seq<Edge>, start: Vertex, u: Vertex, v: Vertex) -> bool {
    exists|du: int, i: int| tight_by(edges, start, u, v, du, i)
}

/// `u` is the vertex before `v` on the critical chain: the first vertex of
/// `order` over which a longest route to `v` comes.
#[verifier::opaque]
pub open spec fn is_critical_pred(
    edges: Seq<Edge>,
    start: Vertex,
    order: Seq<Vertex>,
    u: Vertex,
    v: Vertex,
) -> bool {
    &&& order.contains(u)
    &&& tight(edges, start, u, v)
    &&& forall|a: int| 0 <= a < order.index_of(u) ==> !tight(edges, start, #[trigger] order[a], v)
}

/// `v` is where the critical chain ends when the longest route weighs `d`:
/// the start itself where nothing weighs anything, else the first vertex of
/// `order` at distance `d`.
#[verifier::opaque]
pub open spec fn is_critical_end(
    edges: Seq<Edge>,
    start: Vertex,
    order: Seq<Vertex>,
    d: int,
    v: Vertex,
) -> bool {
    if d == 0 {
        v == start
    } else {
        &&& order.contains(v)
        &&& is_distance(edges, start, v, d)
        &&& forall|a: int|
            0 <= a < order.index_of(v) ==> !is_distance(edges, start, #[trigger] order[a], d)
    }
}

/// `c` lists the vertices of the critical chain, from the start to its end.
pub open spec fn is_critical_chain(
    edges: Seq<Edge>,
    start: Vertex,
    order: Seq<Vertex>,
    d: int,
    c: Seq<Vertex>,
) -> bool {
    &&& c.len() > 0
    &&& c[0] == start
    &&& is_critical_end(edges, start, order, d, c.last())
    &&& forall|j: int, k: int|
        0 <= j && k == j + 1 && k < c.len() ==> is_critical_pred(
            edges,
            start,
            order,
            #[trigger] c[j],
            #[trigger] c[k],
        )
}

/// The edge with index `i` is the first that leads from `a` to `b`.
pub open spec fn is_first_joining(edges: Seq<Edge>, i: int, a: Vertex, b: Vertex) -> bool {
    &&& joins_at(edges, i, a, b)
    &&& forall|j: int| 0 <= j < i ==> !joins_at(edges, j, a, b)
}

/// `e` is the first of the edges that leads from `a` to `b`.
pub open spec fn is_first_edge(edges: Seq<Edge>, a: Vertex, b: Vertex, e: Edge) -> bool {
    exists|i: int| is_first_joining(edges, i, a, b) && edges[i] == e
}

/// `path` holds, for each step of the chain `c`, the first edge that makes it.
pub open spec fn is_along(edges: Seq<Edge>, c: Seq<Vertex>, path: Seq<Edge>) -> bool {
    &&& path.len() == if c.len() == 0 {
        0
    } else {
        c.len() - 1
    }
    &&& forall|k: int|
        0 <= k < path.len() ==> is_first_edge(edges, c[k], c[k + 1], #[trigger] path[k])
}

/// `path` is the critical path of the edges from `start` and `d` is what it
/// weighs: `d` is the greatest weight of a route from `start`, and `path`
/// holds the edges along the critical chain, taken with respect to the
/// topological order of the graph that the edges span.
pub open spec fn is_answer(edges: Seq<Edge>, start: Vertex, path: Seq<Edge>, d: int) -> bool {
    &&& is_longest(edges, start, d)
    &&& exists|c: Seq<Vertex>|
        is_critical_chain(edges, start, graph_of(edges).sorted().unwrap(), d, c) && is_along(
            edges,
            c,
            path,
        )
}

} // verus!
