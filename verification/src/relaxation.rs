//! The forward pass that finds, for each vertex, the longest route to it.
//!
//! The vertices are visited in a topological order. When a vertex is visited
//! all routes to it are known, so its distance is final and is handed on along
//! the edges that leave it.

use crate::chain::{is_critical_chain, is_critical_end, is_critical_pred, tight, tight_by};
use crate::edge::Edge;
use crate::paths::{
    is_distance, is_longest, is_route, joins, joins_at, joins_with, lemma_route_pop,
    lemma_route_push, reaches, route_end, vertex, weight,
};
use crate::projection::{
    lemma_at_pos, lemma_neighbors, lemma_pos, neighbors, pos, topological,
};
use crate::vertex::Vertex;
use vstd::prelude::*;

verus! {

/// The tables of a scan, one entry per vertex index: the best distance found
/// so far, the vertex from which it was reached, and a route that shows it.
pub struct Scan {
    pub dist: Seq<Option<u8>>,
    pub pred: Seq<Option<Vertex>>,
    pub routes: Seq<Seq<int>>,
}

/// Each table has an entry for every vertex index.
pub open spec fn shaped(s: Scan) -> bool {
    s.dist.len() == 256 && s.pred.len() == 256 && s.routes.len() == 256
}

/// Each distance in the table is the weight of the route noted beside it.
#[verifier::opaque]
pub open spec fn witnessed(edges: Seq<Edge>, start: Vertex, s: Scan) -> bool {
    forall|k: int|
        0 <= k < 256 ==> ((#[trigger] s.dist[k]) matches Some(d) ==> {
            &&& is_route(edges, start, s.routes[k])
            &&& route_end(edges, start, s.routes[k]) == vertex(k)
            &&& weight(edges, s.routes[k]) == d
        })
}

/// The start is at distance zero, and whatever else was reached stands
/// behind the start in `order`.
#[verifier::opaque]
pub open spec fn rooted(start: Vertex, order: Seq<Vertex>, s: Scan) -> bool {
    &&& s.dist[start.idx as int] == Some(0u8)
    &&& s.pred[start.idx as int] is None
    &&& forall|k: int|
        0 <= k < 256 && k != start.idx ==> ((#[trigger] s.dist[k]) is Some ==> {
            &&& order.contains(start)
            &&& order.contains(vertex(k))
            &&& pos(order, start) < pos(order, vertex(k))
        })
}

/// The distance of `u` was handed on along the adjacency entry `e`.
pub open spec fn entry_relaxed(dist: Seq<Option<u8>>, u: Vertex, e: (Vertex, u8)) -> bool {
    dist[u.idx as int] matches Some(du) ==> (dist[e.0.idx as int] matches Some(dv) && du + e.1
        <= dv)
}

/// The entry `e` of the vertex at position `a` was visited before the scan
/// came to entry `j` of the vertex at position `t`.
pub open spec fn visited(t: int, j: int, a: int, e: int) -> bool {
    a < t || (a == t && e < j)
}

/// Every adjacency entry visited so far is relaxed.
#[verifier::opaque]
pub open spec fn relaxed(edges: Seq<Edge>, order: Seq<Vertex>, s: Scan, t: int, j: int) -> bool {
    forall|a: int, e: int|
        0 <= a < order.len() && 0 <= e < neighbors(edges, order[a]).len() && visited(t, j, a, e)
            ==> entry_relaxed(s.dist, order[a], #[trigger] neighbors(edges, order[a])[e])
}

/// No vertex that stands before position `upto` hands a distance of `dv` or
/// more on to `v`.
#[verifier::opaque]
pub open spec fn beaten(
    edges: Seq<Edge>,
    order: Seq<Vertex>,
    dist: Seq<Option<u8>>,
    upto: int,
    v: Vertex,
    dv: int,
) -> bool {
    forall|a: int, e: int|
        0 <= a < upto && a < order.len() && 0 <= e < neighbors(edges, order[a]).len() && (
        #[trigger] neighbors(edges, order[a])[e]).0 == v ==> (dist[order[a].idx as int] matches Some(
            da,
        ) ==> da + neighbors(edges, order[a])[e].1 < dv)
}

/// Each predecessor in the table is the first vertex of `order` that hands
/// the noted distance on; only the start and what was not reached have none.
#[verifier::opaque]
pub open spec fn traced(edges: Seq<Edge>, start: Vertex, order: Seq<Vertex>, s: Scan, t: int) -> bool {
    forall|k: int|
        0 <= k < 256 ==> match #[trigger] s.pred[k] {
            Some(u) => {
                &&& s.dist[k] is Some
                &&& s.dist[u.idx as int] is Some
                &&& order.contains(u)
                &&& pos(order, u) <= t
                &&& s.dist[u.idx as int].unwrap() <= s.dist[k].unwrap()
                &&& joins_with(
                    edges,
                    u,
                    vertex(k),
                    (s.dist[k].unwrap() - s.dist[u.idx as int].unwrap()) as u8,
                )
                &&& beaten(edges, order, s.dist, pos(order, u), vertex(k), s.dist[k].unwrap() as int)
            },
            None => k != start.idx ==> s.dist[k] is None,
        }
}

/// What holds of the tables when the scan has visited the vertices before
/// position `t` and the first `j` adjacency entries of the vertex at `t`.
pub open spec fn settled(
    edges: Seq<Edge>,
    start: Vertex,
    order: Seq<Vertex>,
    s: Scan,
    t: int,
    j: int,
) -> bool {
    &&& shaped(s)
    &&& witnessed(edges, start, s)
    &&& rooted(start, order, s)
    &&& relaxed(edges, order, s, t, j)
    &&& traced(edges, start, order, s, t)
}

/// The tables before the scan: only the start is reached.
pub open spec fn initial(start: Vertex) -> Scan {
    Scan {
        dist: Seq::new(256, |k: int| if k == start.idx { Some(0u8) } else { None }),
        pred: Seq::new(256, |k: int| None),
        routes: Seq::new(256, |k: int| Seq::empty()),
    }
}

/// The tables after the distance `d` was handed on from `node` to `nb` along
/// the edge with index `i`.
pub open spec fn updated(s: Scan, node: Vertex, nb: Vertex, d: u8, i: int) -> Scan {
    Scan {
        dist: s.dist.update(nb.idx as int, Some(d)),
        pred: s.pred.update(nb.idx as int, Some(node)),
        routes: s.routes.update(nb.idx as int, s.routes[node.idx as int].push(i)),
    }
}

/// Before the scan the tables are in order.
pub proof fn lemma_initial(edges: Seq<Edge>, start: Vertex, order: Seq<Vertex>)
    ensures
        settled(edges, start, order, initial(start), 0, 0),
{
    reveal(witnessed);
    reveal(rooted);
    reveal(relaxed);
    reveal(traced);
    assert(weight(edges, Seq::<int>::empty()) == 0);
}

/// A vertex that was not reached hands nothing on: the scan may pass it.
pub proof fn lemma_pass(edges: Seq<Edge>, start: Vertex, order: Seq<Vertex>, s: Scan, t: int)
    requires
        0 <= t < order.len(),
        settled(edges, start, order, s, t, 0),
        s.dist[order[t].idx as int] is None,
    ensures
        settled(edges, start, order, s, t + 1, 0),
{
    assert(relaxed(edges, order, s, t + 1, 0)) by {
        reveal(relaxed);
    }
    assert(traced(edges, start, order, s, t + 1)) by {
        reveal(traced);
    }
}

/// With all the entries of a vertex visited the scan goes on to the next vertex.
pub proof fn lemma_advance(edges: Seq<Edge>, start: Vertex, order: Seq<Vertex>, s: Scan, t: int)
    requires
        0 <= t < order.len(),
        settled(edges, start, order, s, t, neighbors(edges, order[t]).len() as int),
    ensures
        settled(edges, start, order, s, t + 1, 0),
{
    assert(relaxed(edges, order, s, t + 1, 0)) by {
        reveal(relaxed);
    }
    assert(traced(edges, start, order, s, t + 1)) by {
        reveal(traced);
    }
}

/// The vertex that an adjacency entry of the vertex at position `t` names
/// stands behind position `t`, and an edge stands for the entry.
pub proof fn lemma_entry(edges: Seq<Edge>, order: Seq<Vertex>, t: int, j: int) -> (i: int)
    requires
        topological(edges, order),
        0 <= t < order.len(),
        0 <= j < neighbors(edges, order[t]).len(),
    ensures
        joins_at(edges, i, order[t], neighbors(edges, order[t])[j].0),
        edges[i].dist == neighbors(edges, order[t])[j].1,
        order.contains(neighbors(edges, order[t])[j].0),
        t < pos(order, neighbors(edges, order[t])[j].0),
        order.contains(order[t]),
        pos(order, order[t]) == t,
        forall|a: int| 0 <= a <= t ==> #[trigger] order[a] != neighbors(edges, order[t])[j].0,
{
    reveal(topological);
    let node = order[t];
    let ent = neighbors(edges, node)[j];
    lemma_neighbors(edges, node);
    assert(joins_with(edges, node, ent.0, ent.1));
    let i = choose|i: int| joins_at(edges, i, node, ent.0) && edges[i].dist == ent.1;
    assert(order.contains(edges[i].start));
    lemma_pos(order, t);
    assert forall|a: int| 0 <= a <= t implies #[trigger] order[a] != ent.0 by {
        lemma_pos(order, a);
    }
    i
}

/// The entry already has a distance at least as good: nothing changes.
pub proof fn lemma_keep(
    edges: Seq<Edge>,
    start: Vertex,
    order: Seq<Vertex>,
    s: Scan,
    t: int,
    j: int,
)
    requires
        0 <= t < order.len(),
        0 <= j < neighbors(edges, order[t]).len(),
        settled(edges, start, order, s, t, j),
        entry_relaxed(s.dist, order[t], neighbors(edges, order[t])[j]),
    ensures
        settled(edges, start, order, s, t, j + 1),
{
    reveal(relaxed);
}

/// A route to `node` and one more edge weigh more than a distance can hold.
pub proof fn lemma_overflow(
    edges: Seq<Edge>,
    start: Vertex,
    order: Seq<Vertex>,
    s: Scan,
    t: int,
    j: int,
) -> (p: Seq<int>)
    requires
        topological(edges, order),
        0 <= t < order.len(),
        0 <= j < neighbors(edges, order[t]).len(),
        settled(edges, start, order, s, t, j),
        s.dist[order[t].idx as int] is Some,
        s.dist[order[t].idx as int].unwrap() + neighbors(edges, order[t])[j].1 > u8::MAX,
    ensures
        is_route(edges, start, p),
        weight(edges, p) > u8::MAX,
{
    let node = order[t];
    let i = lemma_entry(edges, order, t, j);
    let q = s.routes[node.idx as int];
    assert(vertex(node.idx as int) == node);
    assert(is_route(edges, start, q) && route_end(edges, start, q) == node && weight(edges, q)
        == s.dist[node.idx as int].unwrap()) by {
        reveal(witnessed);
    }
    lemma_route_push(edges, start, q, i);
    q.push(i)
}

/// What is known of the entry that the scan is at, when it hands a distance on.
pub open spec fn handing_on(
    edges: Seq<Edge>,
    start: Vertex,
    order: Seq<Vertex>,
    s: Scan,
    t: int,
    j: int,
    i: int,
) -> bool {
    let node = order[t];
    let ent = neighbors(edges, node)[j];
    &&& 0 <= t < order.len()
    &&& 0 <= j < neighbors(edges, node).len()
    &&& shaped(s)
    &&& s.dist[node.idx as int] is Some
    &&& s.dist[node.idx as int].unwrap() + ent.1 <= u8::MAX
    &&& (s.dist[ent.0.idx as int] matches Some(dn) ==> dn < s.dist[node.idx as int].unwrap()
        + ent.1)
    &&& joins_at(edges, i, node, ent.0)
    &&& edges[i].dist == ent.1
    &&& order.contains(ent.0)
    &&& t < pos(order, ent.0)
    &&& pos(order, node) == t
    &&& order.contains(node)
    &&& forall|a: int| 0 <= a <= t ==> #[trigger] order[a] != ent.0
}

/// The tables after the scan has handed a distance on at entry `j` of the
/// vertex at position `t`.
pub open spec fn handed_on(edges: Seq<Edge>, order: Seq<Vertex>, s: Scan, t: int, j: int, i: int) -> Scan {
    let node = order[t];
    let ent = neighbors(edges, node)[j];
    updated(s, node, ent.0, (s.dist[node.idx as int].unwrap() + ent.1) as u8, i)
}

/// The route to the vertex that takes the distance up is the route to the
/// vertex that hands it on and the edge between them.
proof fn lemma_update_witnessed(
    edges: Seq<Edge>,
    start: Vertex,
    order: Seq<Vertex>,
    s: Scan,
    t: int,
    j: int,
    i: int,
)
    requires
        handing_on(edges, start, order, s, t, j, i),
        witnessed(edges, start, s),
    ensures
        witnessed(edges, start, handed_on(edges, order, s, t, j, i)),
{
    reveal(witnessed);
    let node = order[t];
    let nb = neighbors(edges, node)[j].0;
    let q = s.routes[node.idx as int];
    assert(vertex(node.idx as int) == node);
    assert(vertex(nb.idx as int) == nb);
    assert(s.dist[node.idx as int] is Some);
    lemma_route_push(edges, start, q, i);
}

/// The vertex that takes a distance up is not the start, and stands behind
/// it in the order.
proof fn lemma_update_rooted(
    edges: Seq<Edge>,
    start: Vertex,
    order: Seq<Vertex>,
    s: Scan,
    t: int,
    j: int,
    i: int,
)
    requires
        handing_on(edges, start, order, s, t, j, i),
        rooted(start, order, s),
    ensures
        rooted(start, order, handed_on(edges, order, s, t, j, i)),
        neighbors(edges, order[t])[j].0 != start,
{
    reveal(rooted);
    let node = order[t];
    let nb = neighbors(edges, node)[j].0;
    assert(vertex(node.idx as int) == node);
    assert(vertex(nb.idx as int) == nb);
    assert(order[t] != nb);
    if node != start {
        assert(s.dist[node.idx as int] is Some);
        assert(node.idx != start.idx);
        assert(pos(order, start) < pos(order, node));
    }
}

/// The entries visited before stay relaxed, and the entry that hands the
/// distance on is relaxed now.
proof fn lemma_update_relaxed(
    edges: Seq<Edge>,
    start: Vertex,
    order: Seq<Vertex>,
    s: Scan,
    t: int,
    j: int,
    i: int,
)
    requires
        handing_on(edges, start, order, s, t, j, i),
        relaxed(edges, order, s, t, j),
    ensures
        relaxed(edges, order, handed_on(edges, order, s, t, j, i), t, j + 1),
{
    reveal(relaxed);
    let node = order[t];
    let nb = neighbors(edges, node)[j].0;
    let s2 = handed_on(edges, order, s, t, j, i);
    assert forall|a: int, e: int|
        0 <= a < order.len() && 0 <= e < neighbors(edges, order[a]).len() && visited(
            t,
            j + 1,
            a,
            e,
        ) implies entry_relaxed(s2.dist, order[a], #[trigger] neighbors(edges, order[a])[e]) by {
        assert(order[a] != nb);
        assert(order[a].idx != nb.idx);
        if visited(t, j, a, e) {
            assert(entry_relaxed(s.dist, order[a], neighbors(edges, order[a])[e]));
        }
    }
}

/// No vertex visited before hands on as much as the distance taken up.
proof fn lemma_update_beaten(
    edges: Seq<Edge>,
    start: Vertex,
    order: Seq<Vertex>,
    s: Scan,
    t: int,
    j: int,
    i: int,
)
    requires
        handing_on(edges, start, order, s, t, j, i),
        relaxed(edges, order, s, t, j),
    ensures
        beaten(
            edges,
            order,
            handed_on(edges, order, s, t, j, i).dist,
            t,
            neighbors(edges, order[t])[j].0,
            s.dist[order[t].idx as int].unwrap() + neighbors(edges, order[t])[j].1,
        ),
{
    reveal(relaxed);
    reveal(beaten);
    let node = order[t];
    let nb = neighbors(edges, node)[j].0;
    let s2 = handed_on(edges, order, s, t, j, i);
    let new = s.dist[node.idx as int].unwrap() + neighbors(edges, node)[j].1;
    assert forall|a: int, e: int|
        0 <= a < t && a < order.len() && 0 <= e < neighbors(edges, order[a]).len() && (
        #[trigger] neighbors(edges, order[a])[e]).0 == nb implies (
    s2.dist[order[a].idx as int] matches Some(da) ==> da + neighbors(edges, order[a])[e].1 < new) by {
        assert(order[a] != nb);
        assert(order[a].idx != nb.idx);
        assert(visited(t, j, a, e));
        assert(entry_relaxed(s.dist, order[a], neighbors(edges, order[a])[e]));
    }
}

/// A change of the distance of a vertex behind position `upto` leaves what
/// the vertices before `upto` hand on as it was.
proof fn lemma_beaten_stays(
    edges: Seq<Edge>,
    order: Seq<Vertex>,
    dist: Seq<Option<u8>>,
    upto: int,
    v: Vertex,
    dv: int,
    nb: Vertex,
    d: Option<u8>,
)
    requires
        beaten(edges, order, dist, upto, v, dv),
        forall|a: int| 0 <= a < upto && a < order.len() ==> #[trigger] order[a] != nb,
        dist.len() == 256,
    ensures
        beaten(edges, order, dist.update(nb.idx as int, d), upto, v, dv),
{
    reveal(beaten);
    let dist2 = dist.update(nb.idx as int, d);
    assert forall|a: int, e: int|
        0 <= a < upto && a < order.len() && 0 <= e < neighbors(edges, order[a]).len() && (
        #[trigger] neighbors(edges, order[a])[e]).0 == v implies (
    dist2[order[a].idx as int] matches Some(da) ==> da + neighbors(edges, order[a])[e].1 < dv) by {
        assert(order[a] != nb);
        assert(order[a].idx != nb.idx);
    }
}

/// The vertex that hands the distance on becomes the predecessor; the other
/// predecessors stay what they were.
proof fn lemma_update_traced(
    edges: Seq<Edge>,
    start: Vertex,
    order: Seq<Vertex>,
    s: Scan,
    t: int,
    j: int,
    i: int,
)
    requires
        handing_on(edges, start, order, s, t, j, i),
        relaxed(edges, order, s, t, j),
        traced(edges, start, order, s, t),
        neighbors(edges, order[t])[j].0 != start,
    ensures
        traced(edges, start, order, handed_on(edges, order, s, t, j, i), t),
{
    let node = order[t];
    let ent = neighbors(edges, node)[j];
    let nb = ent.0;
    let s2 = handed_on(edges, order, s, t, j, i);
    let new = s.dist[node.idx as int].unwrap() + ent.1;
    assert(vertex(node.idx as int) == node);
    assert(vertex(nb.idx as int) == nb);
    assert(order[t] != nb);
    lemma_update_beaten(edges, start, order, s, t, j, i);
    assert forall|k: int| 0 <= k < 256 implies match #[trigger] s2.pred[k] {
        Some(u) => {
            &&& s2.dist[k] is Some
            &&& s2.dist[u.idx as int] is Some
            &&& order.contains(u)
            &&& pos(order, u) <= t
            &&& s2.dist[u.idx as int].unwrap() <= s2.dist[k].unwrap()
            &&& joins_with(
                edges,
                u,
                vertex(k),
                (s2.dist[k].unwrap() - s2.dist[u.idx as int].unwrap()) as u8,
            )
            &&& beaten(edges, order, s2.dist, pos(order, u), vertex(k), s2.dist[k].unwrap() as int)
        },
        None => k != start.idx ==> s2.dist[k] is None,
    } by {
        reveal(traced);
        if k == nb.idx {
            assert(s2.pred[k] == Some(node));
            assert(joins_with(edges, node, vertex(k), ent.1));
        } else {
            match s.pred[k] {
                Some(u) => {
                    lemma_at_pos(order, u);
                    assert(order[pos(order, u)] != nb);
                    assert(u.idx != nb.idx);
                    lemma_beaten_stays(
                        edges,
                        order,
                        s.dist,
                        pos(order, u),
                        vertex(k),
                        s.dist[k].unwrap() as int,
                        nb,
                        Some(new as u8),
                    );
                },
                None => {},
            }
        }
    }
    assert(traced(edges, start, order, s2, t)) by {
        reveal(traced);
    }
}

/// The entry brings a better distance: the tables take it up.
pub proof fn lemma_update(
    edges: Seq<Edge>,
    start: Vertex,
    order: Seq<Vertex>,
    s: Scan,
    t: int,
    j: int,
    i: int,
)
    requires
        topological(edges, order),
        0 <= t < order.len(),
        0 <= j < neighbors(edges, order[t]).len(),
        settled(edges, start, order, s, t, j),
        s.dist[order[t].idx as int] is Some,
        s.dist[order[t].idx as int].unwrap() + neighbors(edges, order[t])[j].1 <= u8::MAX,
        s.dist[neighbors(edges, order[t])[j].0.idx as int] matches Some(dn) ==> dn
            < s.dist[order[t].idx as int].unwrap() + neighbors(edges, order[t])[j].1,
        joins_at(edges, i, order[t], neighbors(edges, order[t])[j].0),
        edges[i].dist == neighbors(edges, order[t])[j].1,
    ensures
        settled(edges, start, order, handed_on(edges, order, s, t, j, i), t, j + 1),
        neighbors(edges, order[t])[j].0 != order[t],
{
    lemma_entry(edges, order, t, j);
    assert(handing_on(edges, start, order, s, t, j, i));
    lemma_update_witnessed(edges, start, order, s, t, j, i);
    lemma_update_rooted(edges, start, order, s, t, j, i);
    lemma_update_relaxed(edges, start, order, s, t, j, i);
    lemma_update_traced(edges, start, order, s, t, j, i);
}

/// With every vertex visited, no route outweighs the distance noted for the
/// vertex at which it ends.
pub proof fn lemma_bound(edges: Seq<Edge>, start: Vertex, order: Seq<Vertex>, s: Scan, p: Seq<int>)
    requires
        topological(edges, order),
        settled(edges, start, order, s, order.len() as int, 0),
        is_route(edges, start, p),
    ensures
        s.dist[route_end(edges, start, p).idx as int] is Some,
        weight(edges, p) <= s.dist[route_end(edges, start, p).idx as int].unwrap(),
    decreases p.len(),
{
    reveal(topological);
    if p.len() > 0 {
        let q = p.drop_last();
        let i = p.last();
        lemma_route_pop(edges, start, p);
        lemma_bound(edges, start, order, s, q);
        let u = edges[i].start;
        assert(order.contains(u));
        lemma_at_pos(order, u);
        let a = pos(order, u);
        lemma_neighbors(edges, u);
        assert(neighbors(edges, u).contains((edges[i].end, edges[i].dist)));
        let e = choose|e: int|
            0 <= e < neighbors(edges, u).len() && neighbors(edges, u)[e] == (
                edges[i].end,
                edges[i].dist,
            );
        assert(visited(order.len() as int, 0, a, e));
        assert(entry_relaxed(s.dist, order[a], neighbors(edges, order[a])[e])) by {
            reveal(relaxed);
        }
    } else {
        reveal(rooted);
    }
}

/// With every vertex visited, the table holds the distance of each vertex
/// that can be reached, and nothing for the others.
pub proof fn lemma_distances(edges: Seq<Edge>, start: Vertex, order: Seq<Vertex>, s: Scan, k: int)
    requires
        topological(edges, order),
        settled(edges, start, order, s, order.len() as int, 0),
        0 <= k < 256,
    ensures
        s.dist[k] matches Some(d) ==> is_distance(edges, start, vertex(k), d as int),
        s.dist[k] is None ==> !reaches(edges, start, vertex(k)),
        forall|d: int| #[trigger]
            is_distance(edges, start, vertex(k), d) ==> s.dist[k] == Some(d as u8) && 0 <= d
                <= u8::MAX,
{
    let v = vertex(k);
    assert(v.idx == k);
    assert forall|p: Seq<int>|
        is_route(edges, start, p) && route_end(edges, start, p) == v implies s.dist[k] is Some
        && weight(edges, p) <= s.dist[k].unwrap() by {
        lemma_bound(edges, start, order, s, p);
    }
    if s.dist[k] is Some {
        let q = s.routes[k];
        assert(is_route(edges, start, q) && route_end(edges, start, q) == v && weight(edges, q)
            == s.dist[k].unwrap()) by {
            reveal(witnessed);
        }
    }
    assert forall|d: int| #[trigger] is_distance(edges, start, v, d) implies s.dist[k] == Some(
        d as u8,
    ) && 0 <= d <= u8::MAX by {
        let p = choose|p: Seq<int>|
            is_route(edges, start, p) && route_end(edges, start, p) == v && weight(edges, p) == d;
        lemma_bound(edges, start, order, s, p);
        let q = s.routes[k];
        assert(weight(edges, q) <= d);
    }
}

/// With every vertex visited, only the start and the vertices that cannot be
/// reached are without a predecessor, and the predecessor noted for any
/// other vertex is the one before it on the critical chain.
pub proof fn lemma_trace(edges: Seq<Edge>, start: Vertex, order: Seq<Vertex>, s: Scan, k: int)
    requires
        topological(edges, order),
        settled(edges, start, order, s, order.len() as int, 0),
        0 <= k < 256,
    ensures
        s.pred[k] is None ==> k == start.idx || s.dist[k] is None,
        s.pred[k] matches Some(u) ==> {
            &&& s.dist[k] is Some
            &&& s.dist[u.idx as int] is Some
            &&& joins_with(
                edges,
                u,
                vertex(k),
                (s.dist[k].unwrap() - s.dist[u.idx as int].unwrap()) as u8,
            )
            &&& order.contains(u)
            &&& order.contains(vertex(k))
            &&& pos(order, u) < pos(order, vertex(k))
            &&& is_critical_pred(edges, start, order, u, vertex(k))
        },
{
    reveal(topological);
    reveal(is_critical_pred);
    reveal(tight);
    reveal(traced);
    let v = vertex(k);
    if let Some(u) = s.pred[k] {
        let du = s.dist[u.idx as int].unwrap() as int;
        let dv = s.dist[k].unwrap() as int;
        let w = (dv - du) as u8;
        assert(vertex(u.idx as int) == u);
        assert(joins_with(edges, u, v, w));
        let i = choose|i: int| joins_at(edges, i, u, v) && edges[i].dist == w;
        assert(order.contains(edges[i].start));
        lemma_distances(edges, start, order, s, u.idx as int);
        lemma_distances(edges, start, order, s, k);
        assert(tight_by(edges, start, u, v, du, i));
        assert forall|a: int| 0 <= a < order.index_of(u) implies !tight(
            edges,
            start,
            #[trigger] order[a],
            v,
        ) by {
            lemma_at_pos(order, u);
            let x = order[a];
            if tight(edges, start, x, v) {
                let (dx, ix) = choose|dx: int, ix: int| tight_by(edges, start, x, v, dx, ix);
                assert(vertex(x.idx as int) == x);
                lemma_distances(edges, start, order, s, x.idx as int);
                assert(s.dist[x.idx as int] == Some(dx as u8));
                assert(dx + edges[ix].dist == dv);
                lemma_neighbors(edges, x);
                assert(neighbors(edges, x).contains((edges[ix].end, edges[ix].dist)));
                let e = choose|e: int|
                    0 <= e < neighbors(edges, x).len() && neighbors(edges, x)[e] == (
                        edges[ix].end,
                        edges[ix].dist,
                    );
                assert(neighbors(edges, order[a])[e].0 == v);
                assert(false) by {
                    reveal(beaten);
                }
            }
        }
    }
}

/// With every vertex visited, the greatest distance in the table is the
/// greatest weight of a route from the start.
pub proof fn lemma_longest(
    edges: Seq<Edge>,
    start: Vertex,
    order: Seq<Vertex>,
    s: Scan,
    d: u8,
    k: int,
)
    requires
        topological(edges, order),
        settled(edges, start, order, s, order.len() as int, 0),
        0 <= k < 256,
        s.dist[k] == Some(d),
        forall|m: int| 0 <= m < 256 ==> ((#[trigger] s.dist[m]) matches Some(x) ==> x <= d),
    ensures
        is_longest(edges, start, d as int),
{
    let q = s.routes[k];
    assert(is_route(edges, start, q) && weight(edges, q) == d) by {
        reveal(witnessed);
    }
    assert forall|p: Seq<int>| is_route(edges, start, p) implies weight(edges, p) <= d by {
        lemma_bound(edges, start, order, s, p);
        let m = route_end(edges, start, p).idx as int;
        assert(s.dist[m] is Some);
    }
}

/// The first vertex of the order that stands at the greatest distance is
/// where the critical chain ends.
pub proof fn lemma_end_found(
    edges: Seq<Edge>,
    start: Vertex,
    order: Seq<Vertex>,
    s: Scan,
    d: u8,
    t: int,
)
    requires
        topological(edges, order),
        settled(edges, start, order, s, order.len() as int, 0),
        0 <= t < order.len(),
        s.dist[order[t].idx as int] == Some(d),
        forall|a: int| 0 <= a < t ==> s.dist[(#[trigger] order[a]).idx as int] != Some(d),
    ensures
        is_critical_end(edges, start, order, d as int, order[t]),
{
    reveal(topological);
    reveal(is_critical_end);
    let v = order[t];
    lemma_pos(order, t);
    assert(vertex(v.idx as int) == v);
    if d == 0 {
        if v != start {
            assert(v.idx != start.idx);
            assert(order.contains(start) && pos(order, start) < pos(order, v)
                && s.dist[start.idx as int] == Some(0u8)) by {
                reveal(rooted);
            }
            lemma_at_pos(order, start);
            assert(false);
        }
    } else {
        lemma_distances(edges, start, order, s, v.idx as int);
        assert forall|a: int| 0 <= a < order.index_of(v) implies !is_distance(
            edges,
            start,
            #[trigger] order[a],
            d as int,
        ) by {
            let x = order[a];
            assert(vertex(x.idx as int) == x);
            lemma_distances(edges, start, order, s, x.idx as int);
        }
    }
}

/// Where no vertex of the order stands at the greatest distance, nothing but
/// the start was reached.
pub proof fn lemma_end_missing(
    edges: Seq<Edge>,
    start: Vertex,
    order: Seq<Vertex>,
    s: Scan,
    d: u8,
    k: int,
)
    requires
        settled(edges, start, order, s, order.len() as int, 0),
        0 <= k < 256,
        s.dist[k] == Some(d),
        forall|a: int| 0 <= a < order.len() ==> s.dist[(#[trigger] order[a]).idx as int] != Some(d),
    ensures
        d == 0,
        s.dist[start.idx as int] == Some(0u8),
{
    reveal(rooted);
    if k != start.idx {
        assert(s.dist[k] is Some);
        assert(order.contains(vertex(k)));
        lemma_at_pos(order, vertex(k));
        let a = pos(order, vertex(k));
        assert(order[a].idx == k);
    }
}

/// `back` follows the predecessors of the table from a vertex that was reached.
pub open spec fn is_trail(s: Scan, back: Seq<Vertex>) -> bool {
    &&& back.len() >= 1
    &&& s.dist[back.last().idx as int] is Some
    &&& forall|m: int, n: int|
        0 <= m && n == m + 1 && n < back.len() ==> s.pred[(#[trigger] back[m]).idx as int] == Some(
            #[trigger] back[n],
        )
}

/// One step back along the predecessors leads to a vertex that was reached
/// and that stands further to the front of the order.
pub proof fn lemma_step_back(
    edges: Seq<Edge>,
    start: Vertex,
    order: Seq<Vertex>,
    s: Scan,
    back: Seq<Vertex>,
)
    requires
        topological(edges, order),
        settled(edges, start, order, s, order.len() as int, 0),
        is_trail(s, back),
        s.pred[back.last().idx as int] is Some,
    ensures
        is_trail(s, back.push(s.pred[back.last().idx as int].unwrap())),
        order.contains(back.last()),
        order.contains(s.pred[back.last().idx as int].unwrap()),
        0 <= pos(order, s.pred[back.last().idx as int].unwrap()) < pos(order, back.last()),
{
    let cur = back.last();
    let u = s.pred[cur.idx as int].unwrap();
    assert(vertex(cur.idx as int) == cur);
    lemma_trace(edges, start, order, s, cur.idx as int);
    lemma_at_pos(order, u);
    let more = back.push(u);
    assert forall|m: int, n: int| 0 <= m && n == m + 1 && n < more.len() implies s.pred[(
    #[trigger] more[m]).idx as int] == Some(#[trigger] more[n]) by {
        if n < back.len() {
            assert(more[m] == back[m]);
            assert(more[n] == back[n]);
        }
    }
}

/// The predecessor noted for a vertex is the vertex before it on the
/// critical chain, and an edge leads from the one to the other.
pub proof fn lemma_link(edges: Seq<Edge>, start: Vertex, order: Seq<Vertex>, s: Scan, v: Vertex)
    requires
        topological(edges, order),
        settled(edges, start, order, s, order.len() as int, 0),
        s.pred[v.idx as int] is Some,
    ensures
        is_critical_pred(edges, start, order, s.pred[v.idx as int].unwrap(), v),
        joins(edges, s.pred[v.idx as int].unwrap(), v),
{
    let u = s.pred[v.idx as int].unwrap();
    assert(vertex(v.idx as int) == v);
    lemma_trace(edges, start, order, s, v.idx as int);
    let w = (s.dist[v.idx as int].unwrap() - s.dist[u.idx as int].unwrap()) as u8;
    assert(joins_with(edges, u, v, w));
    let i = choose|i: int| joins_at(edges, i, u, v) && edges[i].dist == w;
    assert(joins_at(edges, i, u, v));
}

/// A trail that cannot be followed further has come to the start.
pub proof fn lemma_trail_end(
    edges: Seq<Edge>,
    start: Vertex,
    order: Seq<Vertex>,
    s: Scan,
    back: Seq<Vertex>,
)
    requires
        topological(edges, order),
        settled(edges, start, order, s, order.len() as int, 0),
        is_trail(s, back),
        s.pred[back.last().idx as int] is None,
    ensures
        back.last() == start,
{
    let cur = back.last();
    assert(vertex(cur.idx as int) == cur);
    lemma_trace(edges, start, order, s, cur.idx as int);
}

/// A trail from the end of the critical chain that has come to the start
/// is, read from there, the critical chain.
pub proof fn lemma_chain(
    edges: Seq<Edge>,
    start: Vertex,
    order: Seq<Vertex>,
    s: Scan,
    d: int,
    back: Seq<Vertex>,
    chain: Seq<Vertex>,
)
    requires
        topological(edges, order),
        settled(edges, start, order, s, order.len() as int, 0),
        is_trail(s, back),
        is_critical_end(edges, start, order, d, back[0]),
        back.last() == start,
        chain.len() == back.len(),
        forall|m: int| 0 <= m < chain.len() ==> #[trigger] chain[m] == back[back.len() - 1 - m],
    ensures
        is_critical_chain(edges, start, order, d, chain),
        forall|j: int, k: int|
            0 <= j && k == j + 1 && k < chain.len() ==> joins(
                edges,
                #[trigger] chain[j],
                #[trigger] chain[k],
            ),
{
    let n = back.len() as int;
    assert(chain[0] == back[n - 1]);
    assert(chain[n - 1] == back[0]);
    assert forall|j: int, k: int| 0 <= j && k == j + 1 && k < chain.len() implies is_critical_pred(
        edges,
        start,
        order,
        #[trigger] chain[j],
        #[trigger] chain[k],
    ) && joins(edges, chain[j], chain[k]) by {
        let m = n - 1 - k;
        let v = back[m];
        assert(chain[k] == back[m]);
        assert(chain[j] == back[m + 1]);
        assert(s.pred[v.idx as int] == Some(back[m + 1]));
        lemma_link(edges, start, order, s, v);
    }
}

} // verus!
