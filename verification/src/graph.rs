//! Graph of dependencies used for topological sorting.

use crate::dependency::Dependency;
use crate::layering::{
    lemma_layers_fail_iff_cycle, lemma_layers_step, lemma_sorted_covers,
    lemma_sorted_respects_edges,
};
use crate::model::{
    lemma_filter_all, lemma_filter_is_remove, lemma_preds, lemma_ready_members,
    lemma_ready_shrinks, lemma_ready_stays, lemma_without_nothing, lemma_without_step, GraphView,
};
use crate::records::{
    counts_ok, edges_of, keys_of, lemma_count_new, lemma_count_old, lemma_count_room,
    lemma_link_new, lemma_link_old, lemma_removed, lemma_same_links, lemma_uncount,
    lemma_uncounted, lemma_unlink, links_ok, same_links, uncounted,
};
use vstd::laws_eq::obeys_concrete_eq;
use vstd::prelude::*;

verus! {

/// A graph of dependencies between vertices of type `T`.
///
/// Dependencies are recorded one by one with [`DependencyGraph::depend_on`];
/// [`DependencyGraph::layers`] and [`DependencyGraph::sorted`] then take the
/// graph apart in topological order.
pub struct DependencyGraph<T: Copy + Eq> {
    top: Vec<(T, Dependency<T>)>,
}

impl<T: Copy + Eq> View for DependencyGraph<T> {
    type V = GraphView<T>;

    closed spec fn view(&self) -> GraphView<T> {
        GraphView { nodes: keys_of(self.top@), edges: edges_of(self.top@) }
    }
}

impl<T: Copy + Eq> Default for DependencyGraph<T> {
    fn default() -> (g: Self)
        ensures
            g.wf(),
            g@ == GraphView::<T>::empty(),
    {
        let g = Self { top: Vec::new() };
        assert(g@.nodes =~= Seq::empty());
        assert(g@.edges =~= Set::empty());
        g
    }
}

impl<T: Copy + Eq> DependencyGraph<T> {
    /// The records agree with each other: the counters count the predecessors
    /// that the successor lists show.
    pub closed spec fn wf(&self) -> bool {
        &&& links_ok(self.top@, Set::empty())
        &&& counts_ok(self.top@, edges_of(self.top@))
    }

    /// A well-formed graph has a valid view.
    pub proof fn lemma_view_valid(&self)
        requires
            self.wf(),
        ensures
            self@.valid(),
    {
        let top = self.top@;
        assert forall|a: T, b: T| #[trigger] self@.edges.contains((a, b)) implies self@.nodes.contains(
            a,
        ) && self@.nodes.contains(b) && a != b by {
            let i = choose|i: int|
                0 <= i < top.len() && #[trigger] top[i].0 == a && top[i].1.succ@.contains(b);
            assert(keys_of(top)[i] == a);
            let j = choose|j: int| 0 <= j < top[i].1.succ@.len() && top[i].1.succ@[j] == b;
            assert(top[i].1.succ@[j] != top[i].0);
        }
    }

    /// The empty graph.
    pub fn new() -> (g: Self)
        ensures
            g.wf(),
            g@ == GraphView::<T>::empty(),
    {
        Self::default()
    }

    /// Where the record of `key` stands, if it has one.
    fn position(&self, key: T) -> (r: Option<usize>)
        requires
            obeys_concrete_eq::<T>(),
        ensures
            match r {
                Some(i) => i < self.top@.len() && self.top@[i as int].0 == key,
                None => !keys_of(self.top@).contains(key),
            },
    {
        let mut i: usize = 0;
        while i < self.top.len()
            invariant
                obeys_concrete_eq::<T>(),
                i <= self.top@.len(),
                forall|k: int| 0 <= k < i ==> self.top@[k].0 != key,
            decreases self.top@.len() - i,
        {
            proof {
                reveal(obeys_concrete_eq);
            }
            if self.top[i].0 == key {
                return Some(i);
            }
            i += 1;
        }
        None
    }

    /// Adds a dependency to the graph such that `succ` depends on `prec`.
    ///
    /// A dependency of a vertex on itself is ignored, and so is one that the
    /// graph holds already.
    pub fn depend_on(&mut self, prec: T, succ: T)
        requires
            obeys_concrete_eq::<T>(),
            old(self).wf(),
        ensures
            final(self).wf(),
            final(self)@ == old(self)@.with_dependency(prec, succ),
            prec == succ || old(self)@.edges.contains((prec, succ)) ==> *final(self) == *old(self),
    {
        proof {
            reveal(obeys_concrete_eq);
            self.lemma_view_valid();
        }
        if prec == succ {
            return ;
        }
        let ghost top0 = self.top@;
        let ghost view0 = self@;
        match self.position(prec) {
            None => {
                let mut dep = Dependency::default();
                dep.succ.push(succ);
                self.top.push((prec, dep));
                proof {
                    assert(self.top@.take(top0.len() as int) =~= top0);
                    lemma_link_new(top0, self.top@, prec, succ);
                    assert(keys_of(self.top@) == view0.with_node(prec).nodes);
                }
            },
            Some(i) => {
                if holds(&self.top[i].1.succ, succ) {
                    proof {
                        assert(view0.edges.contains((prec, succ)));
                        assert(view0.edges.insert((prec, succ)) =~= view0.edges);
                        assert(view0.nodes.contains(prec) && view0.nodes.contains(succ));
                    }
                    return ;
                }
                self.top[i].1.succ.push(succ);
                proof {
                    lemma_link_old(top0, self.top@, i as int, succ);
                    assert(keys_of(top0)[i as int] == prec);
                    assert(keys_of(self.top@) == view0.with_node(prec).nodes);
                }
            },
        }
        let ghost top1 = self.top@;
        assert(keys_of(top1) == view0.with_node(prec).nodes);
        match self.position(succ) {
            None => {
                self.top.push((succ, Dependency::new(1)));
                proof {
                    assert(self.top@.take(top1.len() as int) =~= top1);
                    lemma_count_new(top0, top1, self.top@, prec, succ);
                    assert(keys_of(self.top@) == view0.with_node(prec).with_node(succ).nodes);
                }
            },
            Some(j) => {
                proof {
                    lemma_count_room(top0, top1, j as int, prec, succ);
                    assert(self.top@.len() == self.top.len());
                }
                self.top[j].1.num_prec += 1;
                proof {
                    lemma_count_old(top0, top1, self.top@, j as int, prec, succ);
                    assert(keys_of(top1)[j as int] == succ);
                    assert(keys_of(self.top@) == view0.with_node(prec).with_node(succ).nodes);
                }
            },
        }
    }

    /// The vertices that have no predecessor left, in the order of their records.
    fn ready_keys(&self) -> (keys: Vec<T>)
        requires
            self.wf(),
        ensures
            keys@ == self@.ready(),
    {
        let mut keys: Vec<T> = Vec::new();
        let mut i: usize = 0;
        let ghost nodes = keys_of(self.top@);
        proof {
            reveal(Seq::filter);
            assert(nodes.take(0) =~= Seq::empty());
        }
        while i < self.top.len()
            invariant
                self.wf(),
                nodes == keys_of(self.top@),
                i <= self.top@.len(),
                keys@ == self@.ready_among(nodes.take(i as int)),
            decreases self.top@.len() - i,
        {
            proof {
                assert(nodes.take(i + 1) =~= nodes.take(i as int).push(nodes[i as int]));
                nodes.take(i as int).lemma_filter_push(nodes[i as int], |v: T| self@.is_ready(v));
            }
            if self.top[i].1.num_prec == 0 {
                keys.push(self.top[i].0);
            }
            i += 1;
        }
        proof {
            assert(nodes.take(i as int) =~= nodes);
        }
        keys
    }

    /// Takes the record of `prec` out of the graph and lowers the counter of
    /// each vertex that depended on it.
    fn remove(&mut self, prec: &T)
        requires
            obeys_concrete_eq::<T>(),
            old(self).wf(),
            old(self)@.is_ready(*prec),
        ensures
            final(self).wf(),
            final(self)@ == old(self)@.without(seq![*prec]),
    {
        let ghost top0 = self.top@;
        let ghost view0 = self@;
        let ghost x = *prec;
        proof {
            self.lemma_view_valid();
        }
        if let Some(i) = self.position(*prec) {
            let gone = self.top.remove(i);
            let ghost top1 = self.top@;
            let ghost succs = gone.1.succ@;
            proof {
                lemma_preds(view0, x);
                lemma_unlink(top0, i as int);
                assert(succs.take(0) =~= Seq::empty());
            }
            let mut k: usize = 0;
            while k < gone.1.succ.len()
                invariant
                    obeys_concrete_eq::<T>(),
                    0 <= i < top0.len(),
                    x == top0[i as int].0,
                    succs == top0[i as int].1.succ@,
                    succs == gone.1.succ@,
                    links_ok(top0, Set::empty()),
                    top1 == top0.remove(i as int),
                    same_links(top1, self.top@),
                    links_ok(top1, Set::empty()),
                    k <= succs.len(),
                    counts_ok(self.top@, uncounted(edges_of(top0), x, succs.take(k as int))),
                decreases succs.len() - k,
            {
                let s = gone.1.succ[k];
                let ghost before = self.top@;
                proof {
                    lemma_uncount(top0, before, i as int, k as int);
                    lemma_same_links(top1, before);
                }
                if let Some(j) = self.position(s) {
                    self.top[j].1.num_prec -= 1;
                    proof {
                        assert forall|m: int| 0 <= m < before.len() && m != j implies (
                        #[trigger] before[m]).0 != s by {
                            assert(keys_of(before)[m] != keys_of(before)[j as int]);
                        }
                    }
                }
                proof {
                    lemma_uncounted(top0, before, self.top@, i as int, k as int);
                }
                k += 1;
            }
            proof {
                lemma_same_links(top1, self.top@);
                assert(succs.take(k as int) =~= succs);
                lemma_removed(top0, self.top@, i as int);
                assert(self@.edges =~= view0.without(seq![x]).edges) by {
                    assert forall|e: (T, T)| self@.edges.contains(e) <==> view0.without(
                        seq![x],
                    ).edges.contains(e) by {
                        assert(seq![x].contains(e.0) <==> e.0 == x) by {
                            assert(seq![x][0] == x);
                        }
                        assert(seq![x].contains(e.1) <==> e.1 == x) by {
                            assert(seq![x][0] == x);
                        }
                        if view0.edges.contains(e) {
                            assert(view0.edges.contains((e.0, e.1)));
                        }
                    }
                }
                assert(self@.nodes == view0.without(seq![x]).nodes) by {
                    let one = seq![x];
                    let p = |v: T| !one.contains(v);
                    assert forall|v: T| #[trigger] p(v) == (v != keys_of(top0)[i as int]) by {
                        if v == x {
                            assert(one[0] == x);
                        }
                    }
                    lemma_filter_is_remove(keys_of(top0), p, i as int);
                }
            }
        } else {
            proof {
                assert forall|k: int| 0 <= k < view0.nodes.len() implies !seq![x].contains(
                    #[trigger] view0.nodes[k],
                ) by {
                    assert(view0.nodes.contains(view0.nodes[k]));
                }
                lemma_filter_all(view0.nodes, |v: T| !seq![x].contains(v));
                assert(view0.without(seq![x]).edges =~= view0.edges) by {
                    assert forall|e: (T, T)| view0.edges.contains(e) implies view0.without(
                        seq![x],
                    ).edges.contains(e) by {
                        assert(view0.edges.contains((e.0, e.1)));
                    }
                }
            }
        }
    }

    /// Sorts the dependencies into topological layers, taking the graph apart.
    ///
    /// Each layer holds the vertices that have no predecessor once the layers
    /// before it are gone, in the order in which the graph first met them.
    /// Returns `None` if there are cyclic dependencies; the graph then keeps
    /// the vertices that could not be placed.
    pub fn layers(&mut self) -> (r: Option<Vec<Vec<T>>>)
        requires
            obeys_concrete_eq::<T>(),
            old(self).wf(),
        ensures
            final(self).wf(),
            final(self)@ == old(self)@.drained(),
            match r {
                Some(ls) => old(self)@.layers() == Some(layers_view(ls@)),
                None => old(self)@.layers() is None,
            },
            r is None <==> old(self)@.has_cycle(),
    {
        let ghost view0 = self@;
        proof {
            self.lemma_view_valid();
            lemma_layers_fail_iff_cycle(view0);
        }
        let mut top_layers: Vec<Vec<T>> = Vec::new();
        proof {
            assert(layers_view(top_layers@) =~= Seq::empty());
            match view0.layers() {
                Some(rest) => assert(Seq::<Seq<T>>::empty() + rest =~= rest),
                None => {},
            }
        }
        while self.top.len() > 0
            invariant
                obeys_concrete_eq::<T>(),
                self.wf(),
                view0 == old(self)@,
                view0.layers() is None <==> view0.has_cycle(),
                view0.drained() == self@.drained(),
                view0.layers() == after(layers_view(top_layers@), self@.layers()),
            decreases self.top@.len(),
        {
            let keys = self.ready_keys();
            let ghost g = self@;
            proof {
                self.lemma_view_valid();
            }
            if keys.len() == 0 {
                proof {
                    assert(g.nodes.len() > 0);
                    assert(g.layers() is None);
                    assert(g.drained() == g);
                }
                return None;
            }
            proof {
                lemma_layers_step(g);
                lemma_ready_shrinks(g);
                lemma_without_nothing(g);
                lemma_ready_members(g);
                assert(keys@.take(0) =~= Seq::empty());
            }
            let mut k: usize = 0;
            while k < keys.len()
                invariant
                    obeys_concrete_eq::<T>(),
                    self.wf(),
                    g.valid(),
                    keys@ == g.ready(),
                    forall|x: T| #[trigger] g.ready().contains(x) <==> g.nodes.contains(x) && g.is_ready(x),
                    k <= keys@.len(),
                    self@ == g.without(keys@.take(k as int)),
                decreases keys@.len() - k,
            {
                proof {
                    assert(g.ready().contains(keys@[k as int]));
                    lemma_ready_stays(g, keys@.take(k as int), keys@[k as int]);
                    lemma_without_step(g, keys@.take(k as int), keys@[k as int]);
                    assert(keys@.take(k + 1) =~= keys@.take(k as int).push(keys@[k as int]));
                }
                self.remove(&keys[k]);
                k += 1;
            }
            proof {
                assert(keys@.take(k as int) =~= keys@);
                let done = layers_view(top_layers@);
                assert(layers_view(top_layers@.push(keys)) =~= done.push(keys@));
                match self@.layers() {
                    Some(rest) => assert(done + (seq![keys@] + rest) =~= done.push(keys@) + rest),
                    None => {},
                }
            }
            top_layers.push(keys);
        }
        proof {
            assert(self@.nodes.len() == 0);
            assert(layers_view(top_layers@) + Seq::<Seq<T>>::empty() =~= layers_view(top_layers@));
        }
        Some(top_layers)
    }

    /// Sorts the dependencies into one order, taking the graph apart.
    ///
    /// The order is the layers of [`DependencyGraph::layers`] one after the
    /// other. It holds every vertex once, and every vertex stands behind all the
    /// vertices that it depends on. Returns `None` if there are cyclic
    /// dependencies.
    pub fn sorted(&mut self) -> (r: Option<Vec<T>>)
        requires
            obeys_concrete_eq::<T>(),
            old(self).wf(),
        ensures
            final(self).wf(),
            final(self)@ == old(self)@.drained(),
            match r {
                Some(order) => old(self)@.sorted() == Some(order@),
                None => old(self)@.sorted() is None,
            },
            r is None <==> old(self)@.has_cycle(),
            r matches Some(order) ==> {
                &&& order@.no_duplicates()
                &&& forall|x: T| #[trigger] order@.contains(x) <==> old(self)@.nodes.contains(x)
                &&& forall|i: int, j: int|
                    #![trigger order@[i], order@[j]]
                    0 <= i < order@.len() && 0 <= j < order@.len() && old(self)@.edges.contains(
                        (order@[i], order@[j]),
                    ) ==> i < j
            },
    {
        let ghost view0 = self@;
        proof {
            self.lemma_view_valid();
        }
        if let Some(top_layers) = self.layers() {
            let ghost ls = layers_view(top_layers@);
            let mut order: Vec<T> = Vec::new();
            let mut i: usize = 0;
            while i < top_layers.len()
                invariant
                    ls == layers_view(top_layers@),
                    i <= top_layers@.len(),
                    order@ == ls.take(i as int).flatten(),
                decreases top_layers@.len() - i,
            {
                let layer = &top_layers[i];
                let ghost before = order@;
                let mut j: usize = 0;
                while j < layer.len()
                    invariant
                        j <= layer@.len(),
                        order@ == before + layer@.take(j as int),
                    decreases layer@.len() - j,
                {
                    proof {
                        assert(layer@.take(j + 1) =~= layer@.take(j as int).push(layer@[j as int]));
                    }
                    order.push(layer[j]);
                    j += 1;
                }
                proof {
                    assert(layer@.take(j as int) =~= layer@);
                    assert(ls.take(i + 1) =~= ls.take(i as int).push(layer@));
                    ls.take(i as int).lemma_flatten_push(layer@);
                }
                i += 1;
            }
            proof {
                assert(ls.take(i as int) =~= ls);
                lemma_sorted_covers(view0);
                lemma_sorted_respects_edges(view0);
            }
            return Some(order);
        }
        None
    }
}

/// The layers as sequences.
pub open spec fn layers_view<T>(layers: Seq<Vec<T>>) -> Seq<Seq<T>> {
    Seq::new(layers.len(), |i: int| layers[i]@)
}

/// The layers `done`, followed by those still to come, where there are any.
spec fn after<T>(done: Seq<Seq<T>>, rest: Option<Seq<Seq<T>>>) -> Option<Seq<Seq<T>>> {
    match rest {
        Some(more) => Some(done + more),
        None => None,
    }
}

/// Whether `list` holds `x`.
fn holds<T: Copy + Eq>(list: &Vec<T>, x: T) -> (r: bool)
    requires
        obeys_concrete_eq::<T>(),
    ensures
        r == list@.contains(x),
{
    let mut i: usize = 0;
    while i < list.len()
        invariant
            obeys_concrete_eq::<T>(),
            i <= list@.len(),
            forall|k: int| 0 <= k < i ==> list@[k] != x,
        decreases list@.len() - i,
    {
        proof {
            reveal(obeys_concrete_eq);
        }
        if list[i] == x {
            return true;
        }
        i += 1;
    }
    false
}

} // verus!
