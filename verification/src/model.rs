//! The mathematical model of a dependency graph and of its topological layering.

use vstd::prelude::*;

verus! {

/// A finite directed graph. `nodes` lists the vertices in the order in which the
/// graph first met them; `edges` holds a pair `(prec, succ)` for each recorded
/// dependency of `succ` on `prec`.
#[verifier::reject_recursive_types(T)]
pub struct GraphView<T> {
    pub nodes: Seq<T>,
    pub edges: Set<(T, T)>,
}

impl<T> GraphView<T> {
    /// The graph without vertices.
    pub open spec fn empty() -> Self {
        GraphView { nodes: Seq::empty(), edges: Set::empty() }
    }

    /// No vertex is listed twice, every edge joins two listed vertices, and no
    /// vertex depends on itself.
    pub open spec fn valid(self) -> bool {
        &&& self.nodes.no_duplicates()
        &&& forall|a: T, b: T| #[trigger]
            self.edges.contains((a, b)) ==> self.nodes.contains(a) && self.nodes.contains(b) && a
                != b
    }

    /// The direct predecessors of `v`.
    pub open spec fn preds(self, v: T) -> Set<T> {
        preds_in(self.edges, v)
    }

    /// The number of direct predecessors of `v`.
    pub open spec fn num_prec(self, v: T) -> nat {
        self.preds(v).len()
    }

    /// The graph with `v` listed last, unless it is listed already.
    pub open spec fn with_node(self, v: T) -> Self {
        if self.nodes.contains(v) {
            self
        } else {
            GraphView { nodes: self.nodes.push(v), edges: self.edges }
        }
    }

    /// The graph after recording that `succ` depends on `prec`. A dependency of a
    /// vertex on itself is not recorded.
    pub open spec fn with_dependency(self, prec: T, succ: T) -> Self {
        if prec == succ {
            self
        } else {
            GraphView {
                nodes: self.with_node(prec).with_node(succ).nodes,
                edges: self.edges.insert((prec, succ)),
            }
        }
    }

    /// A vertex is ready when it has no predecessor left.
    pub open spec fn is_ready(self, v: T) -> bool {
        self.num_prec(v) == 0
    }

    /// The ready vertices among `s`, in the order of `s`.
    pub open spec fn ready_among(self, s: Seq<T>) -> Seq<T> {
        s.filter(|v: T| self.is_ready(v))
    }

    /// The ready vertices of the graph, in the order of `nodes`.
    pub open spec fn ready(self) -> Seq<T> {
        self.ready_among(self.nodes)
    }

    /// The vertices of `s` that are not in `gone`, in the order of `s`.
    pub open spec fn remaining(s: Seq<T>, gone: Seq<T>) -> Seq<T> {
        s.filter(|v: T| !gone.contains(v))
    }

    /// The graph without the vertices in `gone` and without the edges that
    /// touch them.
    pub open spec fn without(self, gone: Seq<T>) -> Self {
        GraphView {
            nodes: Self::remaining(self.nodes, gone),
            edges: Set::new(
                |e: (T, T)| self.edges.contains(e) && !gone.contains(e.0) && !gone.contains(e.1),
            ),
        }
    }

    /// The topological layers of the graph: the first layer holds the ready
    /// vertices, the following ones are the layers of the graph without them.
    /// `None` when some vertices are left of which none is ready.
    pub open spec fn layers(self) -> Option<Seq<Seq<T>>>
        decreases self.nodes.len(),
        via Self::layers_terminates
    {
        if self.nodes.len() == 0 {
            Some(Seq::empty())
        } else if self.ready().len() == 0 {
            None
        } else {
            match self.without(self.ready()).layers() {
                Some(rest) => Some(seq![self.ready()] + rest),
                None => None,
            }
        }
    }

    #[via_fn]
    proof fn layers_terminates(self) {
        if self.nodes.len() != 0 && self.ready().len() != 0 {
            lemma_ready_shrinks(self);
        }
    }

    /// What is left of the graph when no further layer can be taken from it.
    pub open spec fn drained(self) -> Self
        decreases self.nodes.len(),
        via Self::drained_terminates
    {
        if self.nodes.len() == 0 || self.ready().len() == 0 {
            self
        } else {
            self.without(self.ready()).drained()
        }
    }

    #[via_fn]
    proof fn drained_terminates(self) {
        if self.nodes.len() != 0 && self.ready().len() != 0 {
            lemma_ready_shrinks(self);
        }
    }

    /// The layers joined into one order, or `None` where there are no layers.
    pub open spec fn sorted(self) -> Option<Seq<T>> {
        match self.layers() {
            Some(ls) => Some(ls.flatten()),
            None => None,
        }
    }

    /// `w` walks along edges and comes back to where it began.
    pub open spec fn is_cycle(self, w: Seq<T>) -> bool {
        &&& w.len() >= 2
        &&& w.first() == w.last()
        &&& forall|i: int, j: int|
            0 <= i && j == i + 1 && j < w.len() ==> self.edges.contains(
                (#[trigger] w[i], #[trigger] w[j]),
            )
    }

    /// Some walk along the edges of the graph is a cycle.
    pub open spec fn has_cycle(self) -> bool {
        exists|w: Seq<T>| self.is_cycle(w)
    }
}

/// The vertices from which an edge of `edges` leads to `v`.
pub open spec fn preds_in<T>(edges: Set<(T, T)>, v: T) -> Set<T> {
    Set::new(|u: T| edges.contains((u, v)))
}

/// A filter that rejects one element of a sequence yields a shorter sequence.
pub proof fn lemma_filter_rejects<T>(s: Seq<T>, p: spec_fn(T) -> bool, i: int)
    requires
        0 <= i < s.len(),
        !p(s[i]),
    ensures
        s.filter(p).len() < s.len(),
{
    let a = s.take(i);
    let b = seq![s[i]];
    let c = s.skip(i + 1);
    assert(s =~= a + b + c);
    Seq::filter_distributes_over_add(a + b, c, p);
    Seq::filter_distributes_over_add(a, b, p);
    a.lemma_filter_len(p);
    c.lemma_filter_len(p);
    assert(b.filter(p).len() == 0) by {
        reveal_with_fuel(Seq::filter, 2);
    }
}

/// What passes a filter is what was there and meets the predicate.
pub proof fn lemma_filter_members<T>(s: Seq<T>, p: spec_fn(T) -> bool)
    ensures
        forall|x: T| #[trigger] s.filter(p).contains(x) <==> s.contains(x) && p(x),
{
    assert forall|x: T| #[trigger] s.filter(p).contains(x) <==> s.contains(x) && p(x) by {
        if s.filter(p).contains(x) {
            s.lemma_filter_contains_rev(p, x);
            let j = choose|j: int| 0 <= j < s.filter(p).len() && s.filter(p)[j] == x;
            s.lemma_filter_pred(p, j);
        }
        if s.contains(x) && p(x) {
            let i = choose|i: int| 0 <= i < s.len() && s[i] == x;
            s.lemma_filter_contains(p, i);
        }
    }
}

/// Taking the ready vertices away from a graph that has some leaves fewer vertices.
pub proof fn lemma_ready_shrinks<T>(g: GraphView<T>)
    requires
        g.ready().len() != 0,
    ensures
        g.without(g.ready()).nodes.len() < g.nodes.len(),
{
    let r = g.ready();
    let x = r[0];
    assert(r.contains(x));
    lemma_filter_members(g.nodes, |v: T| g.is_ready(v));
    let i = choose|i: int| 0 <= i < g.nodes.len() && g.nodes[i] == x;
    lemma_filter_rejects(g.nodes, |v: T| !r.contains(v), i);
}

/// A filter keeps a sequence free of duplicates.
pub proof fn lemma_filter_no_duplicates<T>(s: Seq<T>, p: spec_fn(T) -> bool)
    requires
        s.no_duplicates(),
    ensures
        s.filter(p).no_duplicates(),
    decreases s.len(),
{
    reveal(Seq::filter);
    if s.len() > 0 {
        let front = s.drop_last();
        lemma_filter_no_duplicates(front, p);
        lemma_filter_members(front, p);
        if front.filter(p).contains(s.last()) {
            let i = choose|i: int| 0 <= i < front.len() && front[i] == s.last();
            assert(s[i] == s[s.len() - 1]);
        }
    }
}

/// A filter that every element passes changes nothing.
pub proof fn lemma_filter_all<T>(s: Seq<T>, p: spec_fn(T) -> bool)
    requires
        forall|i: int| 0 <= i < s.len() ==> p(#[trigger] s[i]),
    ensures
        s.filter(p) == s,
    decreases s.len(),
{
    reveal(Seq::filter);
    if s.len() > 0 {
        let front = s.drop_last();
        assert forall|i: int| 0 <= i < front.len() implies p(#[trigger] front[i]) by {
            assert(front[i] == s[i]);
        }
        lemma_filter_all(front, p);
        assert(front.push(s.last()) =~= s);
    }
}

/// Two filters in a row are one filter by both predicates.
pub proof fn lemma_filter_twice<T>(
    s: Seq<T>,
    p: spec_fn(T) -> bool,
    q: spec_fn(T) -> bool,
    both: spec_fn(T) -> bool,
)
    requires
        forall|v: T| #[trigger] both(v) == (p(v) && q(v)),
    ensures
        s.filter(p).filter(q) == s.filter(both),
    decreases s.len(),
{
    reveal(Seq::filter);
    if s.len() > 0 {
        let front = s.drop_last();
        lemma_filter_twice(front, p, q, both);
        if p(s.last()) {
            front.filter(p).lemma_filter_push(s.last(), q);
        }
    }
}

/// In a sequence without duplicates, rejecting one element is removing it.
pub proof fn lemma_filter_is_remove<T>(s: Seq<T>, p: spec_fn(T) -> bool, j: int)
    requires
        s.no_duplicates(),
        0 <= j < s.len(),
        forall|v: T| #[trigger] p(v) == (v != s[j]),
    ensures
        s.filter(p) == s.remove(j),
    decreases s.len(),
{
    reveal(Seq::filter);
    let front = s.drop_last();
    if j == s.len() - 1 {
        assert forall|i: int| 0 <= i < front.len() implies p(#[trigger] front[i]) by {
            assert(front[i] == s[i]);
        }
        lemma_filter_all(front, p);
        assert(front =~= s.remove(j));
    } else {
        assert(front[j] == s[j]);
        lemma_filter_is_remove(front, p, j);
        assert(p(s.last()));
        assert(front.remove(j).push(s.last()) =~= s.remove(j));
    }
}

/// In a valid graph a vertex has finitely many predecessors, no more than there
/// are vertices, and it is ready exactly when no edge leads to it.
pub proof fn lemma_preds<T>(g: GraphView<T>, v: T)
    requires
        g.valid(),
    ensures
        g.preds(v).finite(),
        g.num_prec(v) <= g.nodes.len(),
        g.is_ready(v) <==> (forall|u: T| !g.edges.contains((u, v))),
{
    let all = g.nodes.to_set();
    vstd::seq_lib::seq_to_set_is_finite(g.nodes);
    assert(g.preds(v).subset_of(all));
    vstd::set_lib::lemma_len_subset(g.preds(v), all);
    g.nodes.lemma_cardinality_of_set();
    if g.is_ready(v) {
        g.preds(v).lemma_len0_is_empty();
        assert forall|u: T| !g.edges.contains((u, v)) by {
            assert(!g.preds(v).contains(u));
        }
    }
    if forall|u: T| !g.edges.contains((u, v)) {
        assert(g.preds(v) =~= Set::empty());
    }
}

/// Recording a dependency keeps a graph valid.
pub proof fn lemma_with_dependency_valid<T>(g: GraphView<T>, prec: T, succ: T)
    requires
        g.valid(),
    ensures
        g.with_dependency(prec, succ).valid(),
{
    let h = g.with_dependency(prec, succ);
    if prec != succ {
        let g1 = g.with_node(prec);
        let g2 = g1.with_node(succ);
        assert(g1.nodes.contains(prec)) by {
            if !g.nodes.contains(prec) {
                assert(g1.nodes[g.nodes.len() as int] == prec);
            }
        }
        assert(forall|x: T| g.nodes.contains(x) ==> g1.nodes.contains(x)) by {
            assert forall|x: T| g.nodes.contains(x) implies g1.nodes.contains(x) by {
                let i = choose|i: int| 0 <= i < g.nodes.len() && g.nodes[i] == x;
                assert(g1.nodes[i] == x);
            }
        }
        assert(g2.nodes.contains(succ)) by {
            if !g1.nodes.contains(succ) {
                assert(g2.nodes[g1.nodes.len() as int] == succ);
            }
        }
        assert(forall|x: T| g1.nodes.contains(x) ==> g2.nodes.contains(x)) by {
            assert forall|x: T| g1.nodes.contains(x) implies g2.nodes.contains(x) by {
                let i = choose|i: int| 0 <= i < g1.nodes.len() && g1.nodes[i] == x;
                assert(g2.nodes[i] == x);
            }
        }
        assert(h.nodes == g2.nodes);
    }
}

/// Taking vertices away keeps a graph valid.
pub proof fn lemma_without_valid<T>(g: GraphView<T>, gone: Seq<T>)
    requires
        g.valid(),
    ensures
        g.without(gone).valid(),
{
    lemma_filter_no_duplicates(g.nodes, |v: T| !gone.contains(v));
    lemma_filter_members(g.nodes, |v: T| !gone.contains(v));
}

/// The vertices of a graph without `gone` are those of the graph that are not in `gone`.
pub proof fn lemma_without_nodes<T>(g: GraphView<T>, gone: Seq<T>)
    ensures
        forall|x: T| #[trigger]
            g.without(gone).nodes.contains(x) <==> g.nodes.contains(x) && !gone.contains(x),
{
    lemma_filter_members(g.nodes, |v: T| !gone.contains(v));
}

/// The ready vertices are the vertices of the graph that have no predecessor,
/// each listed once.
pub proof fn lemma_ready_members<T>(g: GraphView<T>)
    requires
        g.valid(),
    ensures
        g.ready().no_duplicates(),
        forall|x: T| #[trigger] g.ready().contains(x) <==> g.nodes.contains(x) && g.is_ready(x),
{
    lemma_filter_no_duplicates(g.nodes, |v: T| g.is_ready(v));
    lemma_filter_members(g.nodes, |v: T| g.is_ready(v));
}

/// Taking no vertex away leaves the graph as it is.
pub proof fn lemma_without_nothing<T>(g: GraphView<T>)
    ensures
        g.without(Seq::empty()) == g,
{
    let gone = Seq::<T>::empty();
    lemma_filter_all(g.nodes, |v: T| !gone.contains(v));
    assert(g.without(gone).edges =~= g.edges);
}

/// Taking one vertex more away from what is left is taking it away together
/// with the others.
pub proof fn lemma_without_step<T>(g: GraphView<T>, gone: Seq<T>, x: T)
    ensures
        g.without(gone).without(seq![x]) == g.without(gone.push(x)),
{
    let more = gone.push(x);
    let one = seq![x];
    assert forall|v: T| #[trigger] more.contains(v) == (gone.contains(v) || v == x) by {
        if gone.contains(v) {
            let i = choose|i: int| 0 <= i < gone.len() && gone[i] == v;
            assert(more[i] == v);
        }
        if v == x {
            assert(more[gone.len() as int] == v);
        }
    }
    assert forall|v: T| #[trigger] one.contains(v) == (v == x) by {
        if v == x {
            assert(one[0] == v);
        }
    }
    lemma_filter_twice(
        g.nodes,
        |v: T| !gone.contains(v),
        |v: T| !one.contains(v),
        |v: T| !more.contains(v),
    );
    assert(g.without(gone).without(one).edges =~= g.without(more).edges);
}

/// A vertex without predecessors in a graph has none in what is left of the
/// graph when vertices are taken away.
pub proof fn lemma_ready_stays<T>(g: GraphView<T>, gone: Seq<T>, v: T)
    requires
        g.valid(),
        g.is_ready(v),
    ensures
        g.without(gone).is_ready(v),
{
    lemma_preds(g, v);
    lemma_without_valid(g, gone);
    lemma_preds(g.without(gone), v);
}

} // verus!
