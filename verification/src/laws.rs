//! Laws that the graph and the critical path obey.

use crate::chain::{
    is_along, is_answer, is_critical_chain, is_critical_end, is_critical_pred, is_first_edge,
    is_first_joining, tight, tight_by,
};
use crate::edge::Edge;
use crate::layering::{
    lemma_layers_fail_iff_cycle, lemma_sorted_covers, lemma_sorted_respects_edges,
};
use crate::model::{lemma_preds, GraphView};
use crate::paths::{
    cyclic, is_distance, is_route, joins_at, lemma_route_concat, lemma_route_push, route_end,
    weight,
};
use crate::projection::{
    graph_of, lemma_at_pos, lemma_cyclic, lemma_graph_upto, lemma_order, pos, topological,
};
use crate::vertex::Vertex;
use vstd::prelude::*;

verus! {

/// The graph after the dependency of `succ` on `prec` was recorded `n` times.
pub open spec fn repeated<T>(g: GraphView<T>, prec: T, succ: T, n: nat) -> GraphView<T>
    decreases n,
{
    if n == 0 {
        g
    } else {
        repeated(g, prec, succ, (n - 1) as nat).with_dependency(prec, succ)
    }
}

/// A dependency of a vertex on itself leaves the graph as it is.
pub proof fn lemma_self_dependency<T>(g: GraphView<T>, v: T)
    ensures
        g.with_dependency(v, v) == g,
{
}

/// Recording a dependency a second time changes nothing.
pub proof fn lemma_dependency_twice<T>(g: GraphView<T>, prec: T, succ: T)
    ensures
        g.with_dependency(prec, succ).with_dependency(prec, succ) == g.with_dependency(prec, succ),
{
    let h = g.with_dependency(prec, succ);
    if prec != succ {
        let g1 = g.with_node(prec);
        let g2 = g1.with_node(succ);
        assert(g1.nodes.contains(prec)) by {
            if !g.nodes.contains(prec) {
                assert(g1.nodes[g.nodes.len() as int] == prec);
            }
        }
        assert(g2.nodes.contains(prec)) by {
            let i = choose|i: int| 0 <= i < g1.nodes.len() && g1.nodes[i] == prec;
            assert(g2.nodes[i] == prec);
        }
        assert(g2.nodes.contains(succ)) by {
            if !g1.nodes.contains(succ) {
                assert(g2.nodes[g1.nodes.len() as int] == succ);
            }
        }
        assert(h.nodes == g2.nodes);
        assert(h.with_node(prec) == h);
        assert(h.with_node(prec).with_node(succ) == h);
        assert(h.edges.insert((prec, succ)) =~= h.edges);
    }
}

/// Recording the same dependency several times gives the graph that
/// recording it once gives: the same vertices in the same order, the same
/// edges, and so the same numbers of predecessors and the same topological
/// order.
pub proof fn lemma_dependency_idempotent<T>(g: GraphView<T>, prec: T, succ: T, n: nat)
    requires
        n >= 1,
    ensures
        repeated(g, prec, succ, n) == g.with_dependency(prec, succ),
        repeated(g, prec, succ, n).sorted() == g.with_dependency(prec, succ).sorted(),
        forall|v: T| repeated(g, prec, succ, n).num_prec(v) == g.with_dependency(prec, succ).num_prec(v),
    decreases n,
{
    if n == 1 {
        assert(repeated(g, prec, succ, 0) == g);
    } else {
        lemma_dependency_idempotent(g, prec, succ, (n - 1) as nat);
        lemma_dependency_twice(g, prec, succ);
    }
}

/// A dependency that the graph did not hold gives its successor one
/// predecessor more, and leaves the numbers of predecessors of the other
/// vertices as they were.
pub proof fn lemma_dependency_counts<T>(g: GraphView<T>, prec: T, succ: T)
    requires
        g.valid(),
        prec != succ,
        !g.edges.contains((prec, succ)),
    ensures
        g.with_dependency(prec, succ).num_prec(succ) == g.num_prec(succ) + 1,
        forall|v: T| v != succ ==> g.with_dependency(prec, succ).num_prec(v) == g.num_prec(v),
{
    let h = g.with_dependency(prec, succ);
    lemma_preds(g, succ);
    assert(h.preds(succ) =~= g.preds(succ).insert(prec));
    assert forall|v: T| v != succ implies h.num_prec(v) == g.num_prec(v) by {
        assert(h.preds(v) =~= g.preds(v));
    }
}

/// A cycle among the dependencies is what makes the topological order fail,
/// and nothing else does.
pub proof fn lemma_sorted_fails_iff_cycle<T>(g: GraphView<T>)
    requires
        g.valid(),
    ensures
        g.sorted() is None <==> g.has_cycle(),
{
    lemma_layers_fail_iff_cycle(g);
}

/// In the topological order of a graph every vertex of the graph stands
/// once, and behind all the vertices that it depends on.
pub proof fn lemma_sorted_is_topological<T>(g: GraphView<T>, order: Seq<T>)
    requires
        g.valid(),
        g.sorted() == Some(order),
    ensures
        order.no_duplicates(),
        forall|x: T| #[trigger] order.contains(x) <==> g.nodes.contains(x),
        forall|i: int, j: int|
            #![trigger order[i], order[j]]
            0 <= i < order.len() && 0 <= j < order.len() && g.edges.contains((order[i], order[j]))
                ==> i < j,
{
    lemma_sorted_covers(g);
    lemma_sorted_respects_edges(g);
}

/// The distance of the start from itself is zero.
pub proof fn lemma_start_distance(edges: Seq<Edge>, start: Vertex, x: int)
    requires
        is_distance(edges, start, start, x),
    ensures
        x == 0,
{
    let empty = Seq::<int>::empty();
    assert(is_route(edges, start, empty) && route_end(edges, start, empty) == start);
    assert(weight(edges, empty) == 0);
    let p = choose|p: Seq<int>|
        is_route(edges, start, p) && route_end(edges, start, p) == start && weight(edges, p) == x;
    lemma_route_concat(edges, start, p, p);
}

/// What the edges of a path weigh together.
pub open spec fn total(path: Seq<Edge>) -> int
    decreases path.len(),
{
    if path.len() == 0 {
        0
    } else {
        total(path.drop_last()) + path.last().dist
    }
}

/// No edge between the two vertices that `e` joins, in the direction of
/// `e`, weighs more than `e`.
pub open spec fn is_heaviest(edges: Seq<Edge>, e: Edge) -> bool {
    forall|j: int| #[trigger] joins_at(edges, j, e.start, e.end) ==> edges[j].dist <= e.dist
}

/// The first `k` edges of `path` are each the heaviest between their vertices.
pub open spec fn heaviest_upto(edges: Seq<Edge>, path: Seq<Edge>, k: int) -> bool {
    forall|m: int| 0 <= m < k ==> is_heaviest(edges, #[trigger] path[m])
}

/// One step of the critical chain: the first edge that makes it weighs no
/// more than the step adds to the distance, and as much exactly when it is
/// the heaviest edge between its vertices.
proof fn lemma_step_weight(
    edges: Seq<Edge>,
    start: Vertex,
    order: Seq<Vertex>,
    u: Vertex,
    v: Vertex,
    e: Edge,
    du: int,
) -> (dv: int)
    requires
        is_critical_pred(edges, start, order, u, v),
        is_first_edge(edges, u, v, e),
        is_distance(edges, start, u, du),
    ensures
        is_distance(edges, start, v, dv),
        du + e.dist <= dv,
        du + e.dist == dv <==> is_heaviest(edges, e),
{
    reveal(is_critical_pred);
    reveal(tight);
    let (dt, i) = choose|dt: int, i: int| tight_by(edges, start, u, v, dt, i);
    assert(tight_by(edges, start, u, v, dt, i));
    let dv = du + edges[i].dist;
    let f = choose|f: int| is_first_joining(edges, f, u, v) && edges[f] == e;
    let q = choose|q: Seq<int>|
        is_route(edges, start, q) && route_end(edges, start, q) == u && weight(edges, q) == du;
    lemma_route_push(edges, start, q, f);
    if is_heaviest(edges, e) {
        assert(joins_at(edges, i, e.start, e.end));
    }
    if du + e.dist == dv {
        assert forall|j: int| #[trigger] joins_at(edges, j, e.start, e.end) implies edges[j].dist
            <= e.dist by {
            lemma_route_push(edges, start, q, j);
        }
    }
    dv
}

/// Along the critical chain the weights of the path stay within the
/// distances, and reach them exactly as long as each edge is the heaviest
/// between its vertices.
proof fn lemma_chain_weight(
    edges: Seq<Edge>,
    start: Vertex,
    order: Seq<Vertex>,
    d: int,
    c: Seq<Vertex>,
    path: Seq<Edge>,
    k: int,
) -> (dk: int)
    requires
        is_critical_chain(edges, start, order, d, c),
        is_along(edges, c, path),
        1 <= k < c.len(),
    ensures
        is_distance(edges, start, c[k], dk),
        total(path.take(k)) <= dk,
        total(path.take(k)) == dk <==> heaviest_upto(edges, path, k),
    decreases k,
{
    let u = c[k - 1];
    let v = c[k];
    let e = path[k - 1];
    assert(is_critical_pred(edges, start, order, u, v));
    assert(is_first_edge(edges, c[k - 1], c[k - 1 + 1], path[k - 1]));
    assert(path.take(k).drop_last() =~= path.take(k - 1));
    assert(path.take(k).last() == e);
    if k == 1 {
        assert(tight(edges, start, u, v)) by {
            reveal(is_critical_pred);
        }
        reveal(tight);
        let (dt, i) = choose|dt: int, i: int| tight_by(edges, start, u, v, dt, i);
        assert(tight_by(edges, start, u, v, dt, i));
        lemma_start_distance(edges, start, dt);
        assert(total(path.take(0)) == 0);
        let dk = lemma_step_weight(edges, start, order, u, v, e, 0);
        dk
    } else {
        let du = lemma_chain_weight(edges, start, order, d, c, path, k - 1);
        let dk = lemma_step_weight(edges, start, order, u, v, e, du);
        assert(heaviest_upto(edges, path, k) <==> heaviest_upto(edges, path, k - 1) && is_heaviest(
            edges,
            e,
        ));
        dk
    }
}

/// The weights of the edges of the critical path never add up to more than
/// the distance reported, and they add up to it exactly when each edge of the
/// path is the heaviest edge between its two vertices. (Where several edges
/// join the same two vertices the path names the first of them, while the
/// distance counts the heaviest.)
pub proof fn lemma_path_weighs_distance(edges: Seq<Edge>, start: Vertex, path: Seq<Edge>, d: int)
    requires
        is_answer(edges, start, path, d),
    ensures
        total(path) <= d,
        total(path) == d <==> heaviest_upto(edges, path, path.len() as int),
{
    let order = graph_of(edges).sorted().unwrap();
    let c = choose|c: Seq<Vertex>|
        is_critical_chain(edges, start, order, d, c) && is_along(edges, c, path);
    let n = path.len() as int;
    assert(path.take(n) =~= path);
    reveal(is_critical_end);
    if n == 0 {
        if d != 0 {
            lemma_start_distance(edges, start, d);
        }
    } else {
        let dn = lemma_chain_weight(edges, start, order, d, c, path, n);
        if d == 0 {
            lemma_start_distance(edges, start, dn);
        }
    }
}

/// The vertices of edges without a cycle have a topological order: the one
/// into which the graph that the edges span is sorted.
pub proof fn lemma_topological_order(edges: Seq<Edge>)
    requires
        !cyclic(edges),
    ensures
        graph_of(edges).sorted() is Some,
        topological(edges, graph_of(edges).sorted().unwrap()),
{
    let g = graph_of(edges);
    lemma_cyclic(edges);
    lemma_graph_upto(edges, 256);
    lemma_layers_fail_iff_cycle(g);
    lemma_sorted_covers(g);
    lemma_sorted_respects_edges(g);
    lemma_order(edges, g.sorted().unwrap());
}

/// A vertex has one critical predecessor at most.
proof fn lemma_pred_unique(
    edges: Seq<Edge>,
    start: Vertex,
    order: Seq<Vertex>,
    u1: Vertex,
    u2: Vertex,
    v: Vertex,
)
    requires
        is_critical_pred(edges, start, order, u1, v),
        is_critical_pred(edges, start, order, u2, v),
    ensures
        u1 == u2,
{
    reveal(is_critical_pred);
    lemma_at_pos(order, u1);
    lemma_at_pos(order, u2);
}

/// The critical chain has one end.
proof fn lemma_end_unique(
    edges: Seq<Edge>,
    start: Vertex,
    order: Seq<Vertex>,
    d: int,
    v1: Vertex,
    v2: Vertex,
)
    requires
        is_critical_end(edges, start, order, d, v1),
        is_critical_end(edges, start, order, d, v2),
    ensures
        v1 == v2,
{
    reveal(is_critical_end);
    if d != 0 {
        lemma_at_pos(order, v1);
        lemma_at_pos(order, v2);
    }
}

/// The critical predecessor of a vertex stands before it in the order.
proof fn lemma_pred_before(
    edges: Seq<Edge>,
    start: Vertex,
    order: Seq<Vertex>,
    u: Vertex,
    v: Vertex,
)
    requires
        topological(edges, order),
        is_critical_pred(edges, start, order, u, v),
    ensures
        pos(order, u) < pos(order, v),
{
    reveal(is_critical_pred);
    reveal(topological);
    reveal(tight);
    let (du, i) = choose|du: int, i: int| tight_by(edges, start, u, v, du, i);
    assert(tight_by(edges, start, u, v, du, i));
    assert(order.contains(edges[i].start));
}

/// Along a critical chain the vertices stand further and further back in
/// the order.
proof fn lemma_chain_rises(
    edges: Seq<Edge>,
    start: Vertex,
    order: Seq<Vertex>,
    d: int,
    c: Seq<Vertex>,
    a: int,
    b: int,
)
    requires
        topological(edges, order),
        is_critical_chain(edges, start, order, d, c),
        0 <= a < b < c.len(),
    ensures
        pos(order, c[a]) < pos(order, c[b]),
    decreases b - a,
{
    assert(is_critical_pred(edges, start, order, c[b - 1], c[b]));
    lemma_pred_before(edges, start, order, c[b - 1], c[b]);
    if a < b - 1 {
        lemma_chain_rises(edges, start, order, d, c, a, b - 1);
    }
}

/// Two critical chains agree from their ends backwards.
proof fn lemma_chains_agree(
    edges: Seq<Edge>,
    start: Vertex,
    order: Seq<Vertex>,
    d: int,
    c1: Seq<Vertex>,
    c2: Seq<Vertex>,
    m: int,
)
    requires
        is_critical_chain(edges, start, order, d, c1),
        is_critical_chain(edges, start, order, d, c2),
        0 <= m < c1.len(),
        m < c2.len(),
    ensures
        c1[c1.len() - 1 - m] == c2[c2.len() - 1 - m],
    decreases m,
{
    if m == 0 {
        lemma_end_unique(edges, start, order, d, c1.last(), c2.last());
    } else {
        lemma_chains_agree(edges, start, order, d, c1, c2, m - 1);
        let a = c1.len() - 1 - m;
        let b = c2.len() - 1 - m;
        assert(is_critical_pred(edges, start, order, c1[a], c1[a + 1]));
        assert(is_critical_pred(edges, start, order, c2[b], c2[b + 1]));
        lemma_pred_unique(edges, start, order, c1[a], c2[b], c1[a + 1]);
    }
}

/// Edges without a cycle have one critical chain.
proof fn lemma_chain_unique(
    edges: Seq<Edge>,
    start: Vertex,
    order: Seq<Vertex>,
    d: int,
    c1: Seq<Vertex>,
    c2: Seq<Vertex>,
)
    requires
        topological(edges, order),
        is_critical_chain(edges, start, order, d, c1),
        is_critical_chain(edges, start, order, d, c2),
    ensures
        c1 == c2,
{
    let n1 = c1.len() as int;
    let n2 = c2.len() as int;
    if n1 < n2 {
        lemma_chains_agree(edges, start, order, d, c1, c2, n1 - 1);
        lemma_chain_rises(edges, start, order, d, c2, 0, n2 - n1);
        assert(false);
    }
    if n2 < n1 {
        lemma_chains_agree(edges, start, order, d, c1, c2, n2 - 1);
        lemma_chain_rises(edges, start, order, d, c1, 0, n1 - n2);
        assert(false);
    }
    assert forall|k: int| 0 <= k < n1 implies c1[k] == c2[k] by {
        lemma_chains_agree(edges, start, order, d, c1, c2, n1 - 1 - k);
    }
    assert(c1 =~= c2);
}

/// Edges without a cycle have one critical path and one distance: what
/// `is_answer` states of a path and a distance, it states of no other.
pub proof fn lemma_answer_unique(
    edges: Seq<Edge>,
    start: Vertex,
    path1: Seq<Edge>,
    d1: int,
    path2: Seq<Edge>,
    d2: int,
)
    requires
        !cyclic(edges),
        is_answer(edges, start, path1, d1),
        is_answer(edges, start, path2, d2),
    ensures
        d1 == d2,
        path1 == path2,
{
    let order = graph_of(edges).sorted().unwrap();
    lemma_topological_order(edges);
    assert(d1 == d2) by {
        let p1 = choose|p: Seq<int>| is_route(edges, start, p) && weight(edges, p) == d1;
        let p2 = choose|p: Seq<int>| is_route(edges, start, p) && weight(edges, p) == d2;
        assert(weight(edges, p1) <= d2);
        assert(weight(edges, p2) <= d1);
    }
    let c1 = choose|c: Seq<Vertex>|
        is_critical_chain(edges, start, order, d1, c) && is_along(edges, c, path1);
    let c2 = choose|c: Seq<Vertex>|
        is_critical_chain(edges, start, order, d2, c) && is_along(edges, c, path2);
    lemma_chain_unique(edges, start, order, d1, c1, c2);
    assert forall|k: int| 0 <= k < path1.len() implies path1[k] == path2[k] by {
        assert(is_first_edge(edges, c1[k], c1[k + 1], path1[k]));
        assert(is_first_edge(edges, c2[k], c2[k + 1], path2[k]));
        let f1 = choose|f: int| is_first_joining(edges, f, c1[k], c1[k + 1]) && edges[f] == path1[k];
        let f2 = choose|f: int| is_first_joining(edges, f, c1[k], c1[k + 1]) && edges[f] == path2[k];
        assert(f1 == f2);
    }
    assert(path1 =~= path2);
}

} // verus!
