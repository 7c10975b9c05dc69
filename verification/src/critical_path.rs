//! The critical path of a list of weighted edges: the longest chain of
//! edges that leads on from a start vertex, and what it weighs.
//!
//! The edges are projected into adjacency lists, the graph that they span is
//! sorted topologically, and the vertices are visited in that order. Each
//! vertex that the start reaches hands its distance on along the edges that
//! leave it; a vertex takes a distance up only if it is greater than the one
//! it has. The critical path is then read backwards from the vertex that is
//! farthest from the start.
//!
//! Where there is a choice the outcome is fixed as follows.
//!
//! - The topological order is that of the layers of the graph. Within a
//!   layer the vertices stand as the graph first met them, and the graph
//!   meets them by walking the adjacency lists by rising vertex index.
//! - Of several vertices that are farthest from the start, the path ends at
//!   the one that comes first in the topological order.
//! - Of several vertices that bring the same distance to a vertex, the one
//!   that comes first in the topological order is its predecessor.
//! - Of several edges that join the same two vertices, the first in the list
//!   gives its name to the path, while the heaviest counts for the distance.
//!
//! Edges that the start does not reach play no part, except that a cycle
//! among them is still a cycle.

use crate::chain::{
    is_along, is_answer, is_critical_chain, is_critical_end, is_first_edge, is_first_joining,
};
use crate::edge::Edge;
use crate::graph::DependencyGraph;
use crate::paths::{
    cyclic, has_self_loop, is_longest, is_route, joins, joins_at, too_long, vertex, weight,
};
use crate::projection::{
    graph_of, graph_upto, lemma_cyclic, lemma_order, neighbors, pos, topological, with_neighbors,
};
use crate::relaxation::{
    Scan, handed_on, initial, is_trail, lemma_advance, lemma_chain, lemma_end_found,
    lemma_end_missing, lemma_entry, lemma_initial, lemma_keep, lemma_longest, lemma_overflow,
    lemma_pass, lemma_step_back, lemma_trail_end, lemma_update, rooted, settled,
};
use crate::text::{decimal, joined, push_decimal};
use crate::vertex::{lemma_vertex_equality, Vertex};
use vstd::laws_eq::obeys_concrete_eq;
use vstd::prelude::*;

verus! {

/// Why no critical path was found.
#[derive(Debug, Clone, Copy, PartialEq, Eq, Structural)]
pub enum PathError {
    /// The edges hold a cycle.
    Cyclic,
    /// Some chain of edges from the start weighs more than 255.
    TooLong,
}

/// `hm` holds, for each vertex index, the adjacency list of that vertex.
pub open spec fn is_adjacency(hm: Seq<Vec<(Vertex, u8)>>, edges: Seq<Edge>) -> bool {
    &&& hm.len() == 256
    &&& forall|k: int| 0 <= k < 256 ==> (#[trigger] hm[k])@ == neighbors(edges, vertex(k))
}

/// Projects the edges into adjacency lists, one for each vertex index: the
/// vertices that the edges from that vertex lead to, with the weights, in the
/// order of the edges.
fn edges_to_hm(edges: &Vec<Edge>) -> (hm: Vec<Vec<(Vertex, u8)>>)
    ensures
        is_adjacency(hm@, edges@),
{
    let mut hm: Vec<Vec<(Vertex, u8)>> = Vec::new();
    let mut k: usize = 0;
    while k < 256
        invariant
            k <= 256,
            hm@.len() == k,
            forall|m: int| 0 <= m < k ==> (#[trigger] hm@[m])@ == Seq::<(Vertex, u8)>::empty(),
        decreases 256 - k,
    {
        hm.push(Vec::new());
        k += 1;
    }
    let mut i: usize = 0;
    while i < edges.len()
        invariant
            i <= edges@.len(),
            is_adjacency(hm@, edges@.take(i as int)),
        decreases edges@.len() - i,
    {
        let at = edges[i].start.idx as usize;
        let entry = (edges[i].end, edges[i].dist);
        let ghost before = hm@;
        hm[at].push(entry);
        proof {
            let front = edges@.take(i as int);
            let more = edges@.take(i + 1);
            assert(more.drop_last() =~= front);
            assert(more.last() == edges@[i as int]);
            assert forall|m: int| 0 <= m < 256 implies (#[trigger] hm@[m])@ == neighbors(
                more,
                vertex(m),
            ) by {
                assert(before[m]@ == neighbors(front, vertex(m)));
                assert(vertex(m) == edges@[i as int].start <==> m == at);
            }
        }
        i += 1;
    }
    proof {
        assert(edges@.take(i as int) =~= edges@);
    }
    hm
}

/// Builds the dependency graph of the adjacency lists: each vertex of a
/// list depends on the vertex that the list belongs to.
fn hm_to_graph(hm: &Vec<Vec<(Vertex, u8)>>, Ghost(edges): Ghost<Seq<Edge>>) -> (graph:
    DependencyGraph<Vertex>)
    requires
        is_adjacency(hm@, edges),
    ensures
        graph.wf(),
        graph@ == graph_of(edges),
{
    let mut graph = DependencyGraph::new();
    proof {
        lemma_vertex_equality();
    }
    let mut k: usize = 0;
    while k < 256
        invariant
            k <= 256,
            is_adjacency(hm@, edges),
            graph.wf(),
            graph@ == graph_upto(edges, k as int),
            obeys_concrete_eq::<Vertex>(),
        decreases 256 - k,
    {
        let start = Vertex::new(k as u8);
        let list = &hm[k];
        let ghost base = graph@;
        let mut j: usize = 0;
        while j < list.len()
            invariant
                j <= list@.len(),
                graph.wf(),
                graph@ == with_neighbors(base, start, list@.take(j as int)),
                obeys_concrete_eq::<Vertex>(),
            decreases list@.len() - j,
        {
            let end = list[j].0;
            proof {
                assert(list@.take(j + 1).drop_last() =~= list@.take(j as int));
            }
            graph.depend_on(start, end);
            j += 1;
        }
        proof {
            assert(list@.take(j as int) =~= list@);
            assert(start == vertex(k as int));
        }
        k += 1;
    }
    graph
}

/// Whether some edge leads from a vertex to that vertex itself.
fn any_self_loop(edges: &Vec<Edge>) -> (r: bool)
    ensures
        r == has_self_loop(edges@),
{
    let mut i: usize = 0;
    while i < edges.len()
        invariant
            i <= edges@.len(),
            forall|k: int| 0 <= k < i ==> (#[trigger] edges@[k]).start != edges@[k].end,
        decreases edges@.len() - i,
    {
        if edges[i].start.idx == edges[i].end.idx {
            return true;
        }
        i += 1;
    }
    false
}

/// The tables of the forward pass.
struct Tables {
    dist: Vec<Option<u8>>,
    pred: Vec<Option<Vertex>>,
    routes: Ghost<Seq<Seq<int>>>,
}

impl View for Tables {
    type V = Scan;

    closed spec fn view(&self) -> Scan {
        Scan { dist: self.dist@, pred: self.pred@, routes: self.routes@ }
    }
}

/// Visits the vertices in the given order and hands the distance of each
/// vertex that was reached on along its adjacency list. A distance is taken
/// up only where it is greater than the one known, so of two vertices that
/// hand on the same distance the one visited first is kept as predecessor.
/// Returns `None` if a distance outgrows `u8`.
fn relax(
    hm: &Vec<Vec<(Vertex, u8)>>,
    order: &Vec<Vertex>,
    start: Vertex,
    Ghost(edges): Ghost<Seq<Edge>>,
) -> (r: Option<Tables>)
    requires
        is_adjacency(hm@, edges),
        topological(edges, order@),
    ensures
        match r {
            Some(tables) => settled(edges, start, order@, tables@, order@.len() as int, 0),
            None => too_long(edges, start),
        },
{
    let mut dist: Vec<Option<u8>> = Vec::new();
    let mut pred: Vec<Option<Vertex>> = Vec::new();
    let mut k: usize = 0;
    while k < 256
        invariant
            k <= 256,
            dist@.len() == k,
            pred@.len() == k,
            forall|m: int| 0 <= m < k ==> #[trigger] dist@[m] == initial(start).dist[m],
            forall|m: int| 0 <= m < k ==> #[trigger] pred@[m] == initial(start).pred[m],
        decreases 256 - k,
    {
        dist.push(if k == start.idx as usize { Some(0u8) } else { None });
        pred.push(None);
        k += 1;
    }
    let mut tables = Tables { dist, pred, routes: Ghost(initial(start).routes) };
    proof {
        assert(tables@.dist =~= initial(start).dist);
        assert(tables@.pred =~= initial(start).pred);
        lemma_initial(edges, start, order@);
    }
    let mut t: usize = 0;
    while t < order.len()
        invariant
            t <= order@.len(),
            is_adjacency(hm@, edges),
            topological(edges, order@),
            settled(edges, start, order@, tables@, t as int, 0),
        decreases order@.len() - t,
    {
        let node = order[t];
        proof {
            assert(vertex(node.idx as int) == node);
        }
        match tables.dist[node.idx as usize] {
            None => {
                proof {
                    lemma_pass(edges, start, order@, tables@, t as int);
                }
            },
            Some(d) => {
                let list = &hm[node.idx as usize];
                let mut j: usize = 0;
                while j < list.len()
                    invariant
                        t < order@.len(),
                        node == order@[t as int],
                        j <= list@.len(),
                        list@ == neighbors(edges, node),
                        topological(edges, order@),
                        settled(edges, start, order@, tables@, t as int, j as int),
                        tables@.dist[node.idx as int] == Some(d),
                    decreases list@.len() - j,
                {
                    let (nb, w) = list[j];
                    let ghost s = tables@;
                    match d.checked_add(w) {
                        None => {
                            proof {
                                lemma_overflow(edges, start, order@, s, t as int, j as int);
                            }
                            return None;
                        },
                        Some(new) => {
                            let better = match tables.dist[nb.idx as usize] {
                                None => true,
                                Some(dn) => new > dn,
                            };
                            if better {
                                let ghost mut next = s;
                                proof {
                                    let i = lemma_entry(edges, order@, t as int, j as int);
                                    lemma_update(edges, start, order@, s, t as int, j as int, i);
                                    next = handed_on(edges, order@, s, t as int, j as int, i);
                                    tables.routes@ = next.routes;
                                }
                                tables.dist[nb.idx as usize] = Some(new);
                                tables.pred[nb.idx as usize] = Some(node);
                                proof {
                                    assert(tables@.dist =~= next.dist);
                                    assert(tables@.pred =~= next.pred);
                                }
                            } else {
                                proof {
                                    lemma_keep(edges, start, order@, s, t as int, j as int);
                                }
                            }
                        },
                    }
                    j += 1;
                }
                proof {
                    lemma_advance(edges, start, order@, tables@, t as int);
                }
            },
        }
        t += 1;
    }
    Some(tables)
}

/// The greatest distance in the table.
fn farthest(
    tables: &Tables,
    Ghost(edges): Ghost<Seq<Edge>>,
    Ghost(start): Ghost<Vertex>,
    Ghost(order): Ghost<Seq<Vertex>>,
) -> (d: u8)
    requires
        topological(edges, order),
        settled(edges, start, order, tables@, order.len() as int, 0),
    ensures
        is_longest(edges, start, d as int),
        exists|k: int| 0 <= k < 256 && #[trigger] tables@.dist[k] == Some(d),
{
    let mut best: u8 = 0;
    let ghost mut at: int = start.idx as int;
    proof {
        lemma_end_start(edges, start, order, tables@);
    }
    let mut k: usize = 0;
    while k < 256
        invariant
            k <= 256,
            tables@.dist.len() == 256,
            0 <= at < 256,
            tables@.dist[at] == Some(best),
            forall|m: int| 0 <= m < k ==> ((#[trigger] tables@.dist[m]) matches Some(x) ==> x <= best),
        decreases 256 - k,
    {
        if let Some(x) = tables.dist[k] {
            if x > best {
                best = x;
                proof {
                    at = k as int;
                }
            }
        }
        k += 1;
    }
    proof {
        lemma_longest(edges, start, order, tables@, best, at);
    }
    best
}

/// The start is at distance zero.
proof fn lemma_end_start(edges: Seq<Edge>, start: Vertex, order: Seq<Vertex>, s: Scan)
    requires
        settled(edges, start, order, s, order.len() as int, 0),
    ensures
        s.dist[start.idx as int] == Some(0u8),
        s.dist.len() == 256,
        s.pred.len() == 256,
{
    reveal(rooted);
}

/// Where the critical chain ends: the first vertex of the order at distance
/// `d`, or the start where the order holds none.
fn end_vertex(
    tables: &Tables,
    order: &Vec<Vertex>,
    start: Vertex,
    d: u8,
    Ghost(edges): Ghost<Seq<Edge>>,
) -> (v: Vertex)
    requires
        topological(edges, order@),
        settled(edges, start, order@, tables@, order@.len() as int, 0),
        exists|k: int| 0 <= k < 256 && #[trigger] tables@.dist[k] == Some(d),
    ensures
        is_critical_end(edges, start, order@, d as int, v),
        tables@.dist[v.idx as int] == Some(d),
{
    proof {
        lemma_end_start(edges, start, order@, tables@);
    }
    let mut t: usize = 0;
    while t < order.len()
        invariant
            t <= order@.len(),
            tables@.dist.len() == 256,
            topological(edges, order@),
            settled(edges, start, order@, tables@, order@.len() as int, 0),
            forall|a: int| 0 <= a < t ==> tables@.dist[(#[trigger] order@[a]).idx as int] != Some(d),
        decreases order@.len() - t,
    {
        let v = order[t];
        let found = match tables.dist[v.idx as usize] {
            Some(x) => x == d,
            None => false,
        };
        if found {
            proof {
                lemma_end_found(edges, start, order@, tables@, d, t as int);
            }
            return v;
        }
        t += 1;
    }
    proof {
        let k = choose|k: int| 0 <= k < 256 && #[trigger] tables@.dist[k] == Some(d);
        lemma_end_missing(edges, start, order@, tables@, d, k);
        reveal(is_critical_end);
    }
    start
}

/// Follows the predecessors back from `end` and returns the vertices passed,
/// from the start to `end`.
fn trace_back(
    tables: &Tables,
    end: Vertex,
    Ghost(edges): Ghost<Seq<Edge>>,
    Ghost(start): Ghost<Vertex>,
    Ghost(order): Ghost<Seq<Vertex>>,
    Ghost(d): Ghost<int>,
) -> (chain: Vec<Vertex>)
    requires
        topological(edges, order),
        settled(edges, start, order, tables@, order.len() as int, 0),
        is_critical_end(edges, start, order, d, end),
        tables@.dist[end.idx as int] is Some,
    ensures
        is_critical_chain(edges, start, order, d, chain@),
        forall|j: int, k: int|
            0 <= j && k == j + 1 && k < chain@.len() ==> joins(
                edges,
                #[trigger] chain@[j],
                #[trigger] chain@[k],
            ),
{
    proof {
        lemma_end_start(edges, start, order, tables@);
    }
    let mut back: Vec<Vertex> = Vec::new();
    back.push(end);
    let mut cur = end;
    let mut next = tables.pred[cur.idx as usize];
    let ghost mut rank: int = 0;
    proof {
        if next is Some {
            lemma_step_back(edges, start, order, tables@, back@);
            rank = pos(order, cur) + 1;
        }
    }
    while next.is_some()
        invariant
            tables@.dist.len() == 256,
            tables@.pred.len() == 256,
            topological(edges, order),
            settled(edges, start, order, tables@, order.len() as int, 0),
            is_trail(tables@, back@),
            back@[0] == end,
            back@.last() == cur,
            next == tables@.pred[cur.idx as int],
            next is Some ==> rank == pos(order, cur) + 1 && rank > 0,
            next is None ==> rank == 0,
        decreases rank,
    {
        let u = next.unwrap();
        proof {
            lemma_step_back(edges, start, order, tables@, back@);
        }
        back.push(u);
        cur = u;
        next = tables.pred[cur.idx as usize];
        proof {
            if next is Some {
                lemma_step_back(edges, start, order, tables@, back@);
                rank = pos(order, cur) + 1;
            } else {
                rank = 0;
            }
        }
    }
    let mut chain: Vec<Vertex> = Vec::new();
    let mut k: usize = back.len();
    while k > 0
        invariant
            k <= back@.len(),
            chain@.len() == back@.len() - k,
            forall|m: int| 0 <= m < chain@.len() ==> #[trigger] chain@[m] == back@[back@.len() - 1 - m],
        decreases k,
    {
        k -= 1;
        chain.push(back[k]);
    }
    proof {
        lemma_trail_end(edges, start, order, tables@, back@);
        lemma_chain(edges, start, order, tables@, d, back@, chain@);
    }
    chain
}

/// The index of the first edge that leads from `a` to `b`.
fn first_joining(edges: &Vec<Edge>, a: Vertex, b: Vertex) -> (i: usize)
    requires
        joins(edges@, a, b),
    ensures
        is_first_joining(edges@, i as int, a, b),
{
    let mut i: usize = 0;
    while i < edges.len()
        invariant
            i <= edges@.len(),
            forall|j: int| 0 <= j < i ==> !joins_at(edges@, j, a, b),
        decreases edges@.len() - i,
    {
        if edges[i].start.idx == a.idx && edges[i].end.idx == b.idx {
            return i;
        }
        i += 1;
    }
    proof {
        let j = choose|j: int| joins_at(edges@, j, a, b);
        assert(false);
    }
    0
}

/// Maps each pair of neighbouring vertices of the chain to the first edge
/// that leads from the one to the other.
fn vertices_to_edges(vertices: &Vec<Vertex>, edges: &Vec<Edge>) -> (ret: Vec<Edge>)
    requires
        forall|j: int, k: int|
            0 <= j && k == j + 1 && k < vertices@.len() ==> joins(
                edges@,
                #[trigger] vertices@[j],
                #[trigger] vertices@[k],
            ),
    ensures
        is_along(edges@, vertices@, ret@),
{
    let mut ret: Vec<Edge> = Vec::new();
    let steps = if vertices.len() == 0 {
        0
    } else {
        vertices.len() - 1
    };
    let mut k: usize = 0;
    while k < steps
        invariant
            k <= steps,
            steps == if vertices@.len() == 0 {
                0
            } else {
                vertices@.len() - 1
            },
            ret@.len() == k,
            forall|j: int, m: int|
                0 <= j && m == j + 1 && m < vertices@.len() ==> joins(
                    edges@,
                    #[trigger] vertices@[j],
                    #[trigger] vertices@[m],
                ),
            forall|m: int|
                0 <= m < k ==> is_first_edge(edges@, vertices@[m], vertices@[m + 1], #[trigger] ret@[m]),
        decreases vertices@.len() - k,
    {
        let i = first_joining(edges, vertices[k], vertices[k + 1]);
        ret.push(edges[i].clone());
        k += 1;
    }
    ret
}

/// The critical path of the edges from `start`, as edges, and what it weighs.
///
/// The weight is the greatest that a chain of edges from `start` reaches.
/// Among the chains of that weight the one returned ends at the first
/// vertex, in the topological order of the vertices, that stands at that
/// distance, and comes to each of its vertices from the first vertex of the
/// order from which a longest chain reaches it. Where several edges join the
/// same two vertices the first of them is returned.
pub fn critical_chain(edges: &Vec<Edge>, start: Vertex) -> (r: Result<(Vec<Edge>, u8), PathError>)
    ensures
        cyclic(edges@) <==> r == Err::<(Vec<Edge>, u8), PathError>(PathError::Cyclic),
        !cyclic(edges@) && too_long(edges@, start) <==> r == Err::<(Vec<Edge>, u8), PathError>(
            PathError::TooLong,
        ),
        r matches Ok((path, d)) ==> is_answer(edges@, start, path@, d as int),
{
    proof {
        lemma_cyclic(edges@);
        lemma_vertex_equality();
    }
    if any_self_loop(edges) {
        return Err(PathError::Cyclic);
    }
    let hm = edges_to_hm(edges);
    let mut graph = hm_to_graph(&hm, Ghost(edges@));
    let order = match graph.sorted() {
        Some(order) => order,
        None => {
            return Err(PathError::Cyclic);
        },
    };
    proof {
        lemma_order(edges@, order@);
    }
    let tables = match relax(&hm, &order, start, Ghost(edges@)) {
        Some(tables) => tables,
        None => {
            return Err(PathError::TooLong);
        },
    };
    let d = farthest(&tables, Ghost(edges@), Ghost(start), Ghost(order@));
    let end = end_vertex(&tables, &order, start, d, Ghost(edges@));
    let chain = trace_back(&tables, end, Ghost(edges@), Ghost(start), Ghost(order@), Ghost(d as int));
    let path = vertices_to_edges(&chain, edges);
    proof {
        assert(!too_long(edges@, start)) by {
            if too_long(edges@, start) {
                let p = choose|p: Seq<int>| is_route(edges@, start, p) && weight(edges@, p) > u8::MAX;
                assert(weight(edges@, p) <= d);
            }
        }
        assert(is_critical_chain(edges@, start, graph_of(edges@).sorted().unwrap(), d as int, chain@));
    }
    Ok((path, d))
}

/// The names of the edges.
pub open spec fn names_of(path: Seq<Edge>) -> Seq<Seq<char>> {
    Seq::new(path.len(), |k: int| path[k].name@)
}

/// The line that reports a critical path: the names of its edges with
/// hyphens between them, a comma and a space, and what it weighs.
pub open spec fn rendered(path: Seq<Edge>, d: int) -> Seq<char> {
    joined(names_of(path), seq!['-']) + seq![',', ' '] + decimal(d as nat)
}

/// Writes the line that reports the critical path `path` of weight `d`.
pub fn render(path: &Vec<Edge>, d: u8) -> (s: String)
    ensures
        s@ == rendered(path@, d as int),
{
    let mut s = String::new();
    let mut k: usize = 0;
    let ghost names = names_of(path@);
    proof {
        reveal_strlit("-");
        reveal_strlit(", ");
        assert("-"@ =~= seq!['-']);
        assert(", "@ =~= seq![',', ' ']);
        assert(names.take(0) =~= Seq::empty());
    }
    while k < path.len()
        invariant
            k <= path@.len(),
            names == names_of(path@),
            "-"@ == seq!['-'],
            s@ == joined(names.take(k as int), seq!['-']),
        decreases path@.len() - k,
    {
        let ghost before = s@;
        if k > 0 {
            s.append("-");
        }
        s.append(path[k].name.as_str());
        proof {
            let more = names.take(k + 1);
            assert(more.drop_last() =~= names.take(k as int));
            assert(more.last() == path@[k as int].name@);
            if k == 0 {
                assert(before =~= Seq::empty());
                assert(s@ =~= more[0]);
            }
        }
        k += 1;
    }
    proof {
        assert(names.take(k as int) =~= names);
    }
    s.append(", ");
    push_decimal(&mut s, d);
    s
}

/// Finds the critical path of the edges from `start` and reports it in one
/// line: the names of its edges with hyphens between them, a comma and a
/// space, and its weight.
///
/// Fails with [`PathError::Cyclic`] exactly when the edges hold a cycle, and
/// else with [`PathError::TooLong`] exactly when some chain of edges from
/// `start` weighs more than 255.
pub fn critical_path(edges: Vec<Edge>, start: Vertex) -> (r: Result<String, PathError>)
    ensures
        cyclic(edges@) <==> r == Err::<String, PathError>(PathError::Cyclic),
        !cyclic(edges@) && too_long(edges@, start) <==> r == Err::<String, PathError>(
            PathError::TooLong,
        ),
        r matches Ok(s) ==> exists|path: Seq<Edge>, d: int| #[trigger]
            is_answer(edges@, start, path, d) && s@ == rendered(path, d),
{
    match critical_chain(&edges, start) {
        Ok((path, d)) => {
            let s = render(&path, d);
            proof {
                assert(is_answer(edges@, start, path@, d as int) && s@ == rendered(path@, d as int));
            }
            Ok(s)
        },
        Err(e) => Err(e),
    }
}

} // verus!
