//! What the topological layering of a valid graph guarantees.

use crate::model::{
    lemma_filter_members, lemma_preds, lemma_ready_members, lemma_ready_shrinks, lemma_without_nodes,
    lemma_without_valid, GraphView,
};
use vstd::prelude::*;

verus! {

/// One step of the layering: the first layer is taken from a graph that has
/// ready vertices, and the layers of the rest follow.
pub proof fn lemma_layers_step<T>(g: GraphView<T>)
    requires
        g.nodes.len() > 0,
        g.ready().len() > 0,
    ensures
        g.layers() == match g.without(g.ready()).layers() {
            Some(rest) => Some(seq![g.ready()] + rest),
            None => None,
        },
        g.drained() == g.without(g.ready()).drained(),
{
}

/// Joined into one order, the layers hold each vertex of the graph exactly once.
pub proof fn lemma_sorted_covers<T>(g: GraphView<T>)
    requires
        g.valid(),
        g.layers() is Some,
    ensures
        g.sorted().unwrap().no_duplicates(),
        forall|x: T| #[trigger] g.sorted().unwrap().contains(x) <==> g.nodes.contains(x),
    decreases g.nodes.len(),
{
    let order = g.sorted().unwrap();
    if g.nodes.len() == 0 {
        assert(order =~= Seq::empty());
    } else {
        let r = g.ready();
        let rest = g.without(r);
        lemma_ready_shrinks(g);
        lemma_without_valid(g, r);
        lemma_sorted_covers(rest);
        lemma_ready_members(g);
        lemma_without_nodes(g, r);
        let tail = rest.sorted().unwrap();
        let ls = seq![r] + rest.layers().unwrap();
        assert(ls.first() == r);
        assert(ls.drop_first() =~= rest.layers().unwrap());
        assert(order == r + tail);
        assert forall|i: int, j: int| 0 <= i < r.len() && 0 <= j < tail.len() implies r[i]
            != tail[j] by {
            assert(r.contains(r[i]));
            assert(tail.contains(tail[j]));
        }
        vstd::seq_lib::lemma_no_dup_in_concat(r, tail);
        assert forall|x: T| #[trigger] order.contains(x) <==> g.nodes.contains(x) by {
            if order.contains(x) {
                let i = choose|i: int| 0 <= i < order.len() && order[i] == x;
                if i < r.len() {
                    assert(r[i] == x);
                    assert(r.contains(x));
                } else {
                    assert(tail[i - r.len()] == x);
                    assert(tail.contains(x));
                }
            }
            if g.nodes.contains(x) {
                if r.contains(x) {
                    let i = choose|i: int| 0 <= i < r.len() && r[i] == x;
                    assert(order[i] == x);
                } else {
                    assert(rest.nodes.contains(x));
                    assert(tail.contains(x));
                    let j = choose|j: int| 0 <= j < tail.len() && tail[j] == x;
                    assert(order[r.len() + j] == x);
                }
            }
        }
    }
}

/// In the order made of the layers, every dependency points forward: the
/// vertex depended on stands strictly before the vertex that depends on it.
pub proof fn lemma_sorted_respects_edges<T>(g: GraphView<T>)
    requires
        g.valid(),
        g.layers() is Some,
    ensures
        forall|i: int, j: int|
            #![trigger g.sorted().unwrap()[i], g.sorted().unwrap()[j]]
            0 <= i < g.sorted().unwrap().len() && 0 <= j < g.sorted().unwrap().len()
                && g.edges.contains((g.sorted().unwrap()[i], g.sorted().unwrap()[j])) ==> i < j,
    decreases g.nodes.len(),
{
    let order = g.sorted().unwrap();
    if g.nodes.len() == 0 {
        assert(order =~= Seq::empty());
    } else {
        let r = g.ready();
        let rest = g.without(r);
        lemma_ready_shrinks(g);
        lemma_without_valid(g, r);
        lemma_sorted_respects_edges(rest);
        lemma_sorted_covers(rest);
        lemma_ready_members(g);
        lemma_without_nodes(g, r);
        let tail = rest.sorted().unwrap();
        let ls = seq![r] + rest.layers().unwrap();
        assert(ls.first() == r);
        assert(ls.drop_first() =~= rest.layers().unwrap());
        assert(order == r + tail);
        assert forall|i: int, j: int|
            0 <= i < order.len() && 0 <= j < order.len() && g.edges.contains(
                (order[i], order[j]),
            ) implies i < j by {
            lemma_preds(g, order[j]);
            if j < r.len() {
                assert(r.contains(r[j]));
            } else if i >= r.len() {
                let a = i - r.len();
                let b = j - r.len();
                assert(tail.contains(tail[a]));
                assert(tail.contains(tail[b]));
                assert(rest.edges.contains((tail[a], tail[b])));
            }
        }
    }
}

/// Some predecessor of `v`, where it has one.
pub open spec fn some_pred<T>(g: GraphView<T>, v: T) -> T {
    choose|u: T| g.edges.contains((u, v))
}

/// A walk that follows a chosen predecessor at each step, `n` steps back from `v`.
pub open spec fn walk_back<T>(g: GraphView<T>, v: T, n: nat) -> Seq<T>
    decreases n,
{
    if n == 0 {
        seq![v]
    } else {
        walk_back(g, some_pred(g, v), (n - 1) as nat).push(v)
    }
}

proof fn lemma_walk_back<T>(g: GraphView<T>, v: T, n: nat)
    requires
        g.valid(),
        g.nodes.contains(v),
        forall|x: T| g.nodes.contains(x) ==> g.edges.contains((#[trigger] some_pred(g, x), x)),
    ensures
        walk_back(g, v, n).len() == n + 1,
        walk_back(g, v, n).last() == v,
        forall|i: int| 0 <= i <= n ==> g.nodes.contains(#[trigger] walk_back(g, v, n)[i]),
        forall|i: int, j: int|
            0 <= i && j == i + 1 && j <= n ==> g.edges.contains(
                (#[trigger] walk_back(g, v, n)[i], #[trigger] walk_back(g, v, n)[j]),
            ),
    decreases n,
{
    if n > 0 {
        let u = some_pred(g, v);
        assert(g.edges.contains((u, v)));
        lemma_walk_back(g, u, (n - 1) as nat);
        let front = walk_back(g, u, (n - 1) as nat);
        let w = walk_back(g, v, n);
        assert(w == front.push(v));
        assert forall|i: int, j: int| 0 <= i && j == i + 1 && j <= n implies g.edges.contains(
            (#[trigger] w[i], #[trigger] w[j]),
        ) by {
            if j < n {
                assert(w[i] == front[i]);
                assert(w[j] == front[j]);
            } else {
                assert(w[i] == front.last());
            }
        }
    }
}

/// More elements than there are different values to take: two of them are equal.
proof fn lemma_pigeonhole<T>(w: Seq<T>, pool: Seq<T>)
    requires
        w.len() > pool.len(),
        forall|i: int| 0 <= i < w.len() ==> pool.contains(#[trigger] w[i]),
    ensures
        exists|a: int, b: int| 0 <= a < b < w.len() && w[a] == w[b],
{
    if w.no_duplicates() {
        w.unique_seq_to_set();
        pool.lemma_cardinality_of_set();
        vstd::seq_lib::seq_to_set_is_finite(pool);
        assert(w.to_set().subset_of(pool.to_set())) by {
            assert forall|x: T| w.to_set().contains(x) implies pool.to_set().contains(x) by {
                let i = choose|i: int| 0 <= i < w.len() && w[i] == x;
                assert(pool.contains(w[i]));
            }
        }
        vstd::set_lib::lemma_len_subset(w.to_set(), pool.to_set());
        assert(false);
    }
    let (i, j) = choose|i: int, j: int|
        0 <= i < w.len() && 0 <= j < w.len() && i != j && w[i] == w[j];
    if i < j {
        assert(0 <= i < j < w.len() && w[i] == w[j]);
    } else {
        assert(0 <= j < i < w.len() && w[j] == w[i]);
    }
}

/// A stretch of a walk that ends on the vertex on which it begins is a cycle.
proof fn lemma_cycle_in_walk<T>(g: GraphView<T>, w: Seq<T>, a: int, b: int)
    requires
        0 <= a < b < w.len(),
        w[a] == w[b],
        forall|i: int, j: int|
            0 <= i && j == i + 1 && j < w.len() ==> g.edges.contains(
                (#[trigger] w[i], #[trigger] w[j]),
            ),
    ensures
        g.is_cycle(w.subrange(a, b + 1)),
{
    let c = w.subrange(a, b + 1);
    assert(c.first() == w[a]);
    assert(c.last() == w[b]);
    assert forall|i: int, j: int| 0 <= i && j == i + 1 && j < c.len() implies g.edges.contains(
        (#[trigger] c[i], #[trigger] c[j]),
    ) by {
        assert(c[i] == w[a + i]);
        assert(c[j] == w[a + j]);
    }
}

/// Where no vertex is ready, every vertex has a predecessor.
proof fn lemma_stuck_preds<T>(g: GraphView<T>)
    requires
        g.valid(),
        g.ready().len() == 0,
    ensures
        forall|x: T| g.nodes.contains(x) ==> g.edges.contains((#[trigger] some_pred(g, x), x)),
{
    assert forall|x: T| g.nodes.contains(x) implies g.edges.contains(
        (#[trigger] some_pred(g, x), x),
    ) by {
        lemma_preds(g, x);
        lemma_filter_members(g.nodes, |v: T| g.is_ready(v));
        assert(!g.ready().contains(x));
    }
}

/// Where no vertex is ready, a walk along the edges can be as long as one likes.
proof fn lemma_stuck_walk<T>(g: GraphView<T>) -> (w: Seq<T>)
    requires
        g.valid(),
        g.nodes.len() > 0,
        g.ready().len() == 0,
    ensures
        w.len() > g.nodes.len(),
        forall|i: int| 0 <= i < w.len() ==> g.nodes.contains(#[trigger] w[i]),
        forall|i: int, j: int|
            0 <= i && j == i + 1 && j < w.len() ==> g.edges.contains(
                (#[trigger] w[i], #[trigger] w[j]),
            ),
{
    lemma_stuck_preds(g);
    let v = g.nodes[0];
    assert(g.nodes.contains(v));
    let n = g.nodes.len();
    lemma_walk_back(g, v, n);
    walk_back(g, v, n)
}

/// A walk along the edges that passes more vertices than there are different
/// ones holds a cycle.
proof fn lemma_long_walk<T>(g: GraphView<T>, w: Seq<T>)
    requires
        w.len() > g.nodes.len(),
        forall|i: int| 0 <= i < w.len() ==> g.nodes.contains(#[trigger] w[i]),
        forall|i: int, j: int|
            0 <= i && j == i + 1 && j < w.len() ==> g.edges.contains(
                (#[trigger] w[i], #[trigger] w[j]),
            ),
    ensures
        g.has_cycle(),
{
    lemma_pigeonhole(w, g.nodes);
    let (a, b) = choose|a: int, b: int| 0 <= a < b < w.len() && w[a] == w[b];
    lemma_cycle_in_walk(g, w, a, b);
}

/// A graph that has vertices but no ready one has a cycle.
pub proof fn lemma_stuck_has_cycle<T>(g: GraphView<T>)
    requires
        g.valid(),
        g.nodes.len() > 0,
        g.ready().len() == 0,
    ensures
        g.has_cycle(),
{
    let w = lemma_stuck_walk(g);
    lemma_long_walk(g, w);
}

/// The vertices of a cycle are never ready, so the cycle outlives the taking
/// of a layer.
proof fn lemma_cycle_survives<T>(g: GraphView<T>, w: Seq<T>)
    requires
        g.valid(),
        g.is_cycle(w),
    ensures
        g.nodes.len() > 0,
        g.without(g.ready()).is_cycle(w),
{
    lemma_ready_members(g);
    assert(g.edges.contains((w[0], w[1])));
    assert(g.nodes.contains(w[0]));
    assert forall|k: int| 0 <= k < w.len() implies !g.ready().contains(#[trigger] w[k]) by {
        lemma_preds(g, w[k]);
        if k > 0 {
            assert(g.edges.contains((w[k - 1], w[k])));
        } else {
            assert(g.edges.contains((w[w.len() - 2], w[w.len() - 1])));
        }
    }
    let rest = g.without(g.ready());
    assert forall|i: int, j: int| 0 <= i && j == i + 1 && j < w.len() implies rest.edges.contains(
        (#[trigger] w[i], #[trigger] w[j]),
    ) by {
        assert(!g.ready().contains(w[i]));
        assert(!g.ready().contains(w[j]));
    }
}

/// The layering of a valid graph fails exactly when the graph has a cycle.
pub proof fn lemma_layers_fail_iff_cycle<T>(g: GraphView<T>)
    requires
        g.valid(),
    ensures
        g.layers() is None <==> g.has_cycle(),
    decreases g.nodes.len(),
{
    if g.has_cycle() {
        let w = choose|w: Seq<T>| g.is_cycle(w);
        lemma_cycle_survives(g, w);
        if g.ready().len() > 0 {
            let rest = g.without(g.ready());
            lemma_ready_shrinks(g);
            lemma_without_valid(g, g.ready());
            lemma_layers_fail_iff_cycle(rest);
        }
    } else if g.nodes.len() > 0 {
        if g.ready().len() == 0 {
            lemma_stuck_has_cycle(g);
        } else {
            let rest = g.without(g.ready());
            lemma_ready_shrinks(g);
            lemma_without_valid(g, g.ready());
            lemma_layers_fail_iff_cycle(rest);
            if rest.has_cycle() {
                let w = choose|w: Seq<T>| rest.is_cycle(w);
                assert(g.is_cycle(w));
            }
        }
    }
}

/// A graph that could be layered is drained to the last vertex; one that
/// could not keeps vertices of which none is ready.
pub proof fn lemma_drained<T>(g: GraphView<T>)
    requires
        g.valid(),
    ensures
        g.drained().valid(),
        g.layers() is Some ==> g.drained() == GraphView::<T>::empty(),
        g.layers() is None ==> g.drained().nodes.len() > 0 && g.drained().ready().len() == 0,
    decreases g.nodes.len(),
{
    if g.nodes.len() == 0 {
        assert(g.nodes =~= Seq::empty());
        assert forall|e: (T, T)| !g.edges.contains(e) by {
            if g.edges.contains(e) {
                assert(g.edges.contains((e.0, e.1)));
                assert(g.nodes.contains(e.0));
            }
        }
        assert(g.edges =~= Set::empty());
    } else if g.ready().len() > 0 {
        lemma_ready_shrinks(g);
        lemma_without_valid(g, g.ready());
        lemma_drained(g.without(g.ready()));
    }
}

} // verus!
