//! The records of a dependency graph as a sequence, and what the steps of
//! recording a dependency and of removing a vertex do to them.

use crate::dependency::Dependency;
use crate::model::preds_in;
use vstd::prelude::*;

verus! {

/// The vertices of the records, in their order.
pub(crate) open spec fn keys_of<T>(top: Seq<(T, Dependency<T>)>) -> Seq<T> {
    Seq::new(top.len(), |i: int| top[i].0)
}

/// The dependencies that the successor lists of the records hold.
pub(crate) open spec fn edges_of<T>(top: Seq<(T, Dependency<T>)>) -> Set<(T, T)> {
    Set::new(
        |e: (T, T)|
            exists|i: int| 0 <= i < top.len() && #[trigger] top[i].0 == e.0 && top[i].1.succ@.contains(e.1),
    )
}

/// The records are sound but for their counters: no vertex has two records, no
/// successor list names a vertex twice or names its own vertex, and every
/// vertex named has a record or is `pending`.
pub(crate) open spec fn links_ok<T>(top: Seq<(T, Dependency<T>)>, pending: Set<T>) -> bool {
    &&& keys_of(top).no_duplicates()
    &&& forall|i: int| 0 <= i < top.len() ==> (#[trigger] top[i]).1.succ@.no_duplicates()
    &&& forall|i: int, j: int|
        0 <= i < top.len() && 0 <= j < top[i].1.succ@.len() ==> {
            let s = #[trigger] top[i].1.succ@[j];
            s != top[i].0 && (keys_of(top).contains(s) || pending.contains(s))
        }
}

/// Each counter is the number of predecessors that its vertex has in `counted`.
pub(crate) open spec fn counts_ok<T>(top: Seq<(T, Dependency<T>)>, counted: Set<(T, T)>) -> bool {
    forall|i: int|
        0 <= i < top.len() ==> (#[trigger] top[i]).1.num_prec == preds_in(counted, top[i].0).len()
}

/// An edge of the records leaves a vertex that has a record.
pub(crate) proof fn lemma_edge_source<T>(top: Seq<(T, Dependency<T>)>, a: T, b: T)
    requires
        edges_of(top).contains((a, b)),
    ensures
        keys_of(top).contains(a),
{
    let i = choose|i: int| 0 <= i < top.len() && #[trigger] top[i].0 == a && top[i].1.succ@.contains(b);
    assert(keys_of(top)[i] == a);
}

/// With all the vertices named on record, an edge of the records leads to a
/// vertex that has a record.
pub(crate) proof fn lemma_edge_target<T>(top: Seq<(T, Dependency<T>)>, a: T, b: T)
    requires
        links_ok(top, Set::empty()),
        edges_of(top).contains((a, b)),
    ensures
        keys_of(top).contains(b),
        a != b,
{
    let i = choose|i: int| 0 <= i < top.len() && #[trigger] top[i].0 == a && top[i].1.succ@.contains(b);
    let j = choose|j: int| 0 <= j < top[i].1.succ@.len() && top[i].1.succ@[j] == b;
    assert(top[i].1.succ@[j] != top[i].0);
}

/// The predecessors that a vertex has in the edges of the records are
/// finitely many.
pub(crate) proof fn lemma_preds_in_records<T>(top: Seq<(T, Dependency<T>)>, edges: Set<(T, T)>, v: T)
    requires
        edges.subset_of(edges_of(top)),
    ensures
        preds_in(edges, v).finite(),
        preds_in(edges, v).len() <= top.len(),
{
    let keys = keys_of(top);
    vstd::seq_lib::seq_to_set_is_finite(keys);
    assert(preds_in(edges, v).subset_of(keys.to_set())) by {
        assert forall|u: T| preds_in(edges, v).contains(u) implies keys.to_set().contains(u) by {
            assert(edges_of(top).contains((u, v)));
            lemma_edge_source(top, u, v);
        }
    }
    vstd::set_lib::lemma_len_subset(preds_in(edges, v), keys.to_set());
    keys.lemma_cardinality_of_set();
}

/// A first successor was recorded for a vertex that had no record.
pub(crate) proof fn lemma_link_new<T>(
    top0: Seq<(T, Dependency<T>)>,
    top1: Seq<(T, Dependency<T>)>,
    prec: T,
    succ: T,
)
    requires
        links_ok(top0, Set::empty()),
        counts_ok(top0, edges_of(top0)),
        !keys_of(top0).contains(prec),
        prec != succ,
        top1.len() == top0.len() + 1,
        top1.take(top0.len() as int) == top0,
        top1.last().0 == prec,
        top1.last().1.num_prec == 0,
        top1.last().1.succ@ == seq![succ],
    ensures
        links_ok(top1, set![succ]),
        counts_ok(top1, edges_of(top0)),
        edges_of(top1) == edges_of(top0).insert((prec, succ)),
        !edges_of(top0).contains((prec, succ)),
        keys_of(top1) == keys_of(top0).push(prec),
{
    let n = top0.len() as int;
    assert forall|i: int| 0 <= i < n implies top1[i] == top0[i] by {
        assert(top1.take(n)[i] == top1[i]);
    }
    assert(keys_of(top1) =~= keys_of(top0).push(prec));
    if edges_of(top0).contains((prec, succ)) {
        lemma_edge_source(top0, prec, succ);
    }
    assert(edges_of(top1) =~= edges_of(top0).insert((prec, succ))) by {
        assert forall|e: (T, T)| edges_of(top1).contains(e) <==> edges_of(top0).insert(
            (prec, succ),
        ).contains(e) by {
            if edges_of(top1).contains(e) {
                let i = choose|i: int|
                    0 <= i < top1.len() && #[trigger] top1[i].0 == e.0 && top1[i].1.succ@.contains(
                        e.1,
                    );
                if i < n {
                    assert(top0[i].0 == e.0 && top0[i].1.succ@.contains(e.1));
                } else {
                    assert(seq![succ].contains(e.1));
                    assert(seq![succ][0] == succ);
                }
            }
            if edges_of(top0).contains(e) {
                let i = choose|i: int|
                    0 <= i < top0.len() && #[trigger] top0[i].0 == e.0 && top0[i].1.succ@.contains(
                        e.1,
                    );
                assert(top1[i].0 == e.0 && top1[i].1.succ@.contains(e.1));
            }
            if e == (prec, succ) {
                assert(seq![succ][0] == succ);
                assert(top1[n].0 == e.0 && top1[n].1.succ@.contains(e.1));
            }
        }
    }
    assert(links_ok(top1, set![succ])) by {
        assert forall|i: int, j: int|
            0 <= i < top1.len() && 0 <= j < top1[i].1.succ@.len() implies {
            let s = #[trigger] top1[i].1.succ@[j];
            s != top1[i].0 && (keys_of(top1).contains(s) || set![succ].contains(s))
        } by {
            if i < n {
                let s = top0[i].1.succ@[j];
                assert(keys_of(top0).contains(s));
                let k = choose|k: int| 0 <= k < n && keys_of(top0)[k] == s;
                assert(keys_of(top1)[k] == s);
            }
        }
    }
    assert(counts_ok(top1, edges_of(top0))) by {
        assert(preds_in(edges_of(top0), prec) =~= Set::<T>::empty()) by {
            assert forall|u: T| !preds_in(edges_of(top0), prec).contains(u) by {
                if edges_of(top0).contains((u, prec)) {
                    lemma_edge_target(top0, u, prec);
                }
            }
        }
    }
}

/// A further successor was recorded for a vertex that had a record.
pub(crate) proof fn lemma_link_old<T>(
    top0: Seq<(T, Dependency<T>)>,
    top1: Seq<(T, Dependency<T>)>,
    i: int,
    succ: T,
)
    requires
        links_ok(top0, Set::empty()),
        counts_ok(top0, edges_of(top0)),
        0 <= i < top0.len(),
        top0[i].0 != succ,
        !top0[i].1.succ@.contains(succ),
        top1.len() == top0.len(),
        forall|k: int| 0 <= k < top0.len() && k != i ==> top1[k] == top0[k],
        top1[i].0 == top0[i].0,
        top1[i].1.num_prec == top0[i].1.num_prec,
        top1[i].1.succ@ == top0[i].1.succ@.push(succ),
    ensures
        links_ok(top1, set![succ]),
        counts_ok(top1, edges_of(top0)),
        edges_of(top1) == edges_of(top0).insert((top0[i].0, succ)),
        !edges_of(top0).contains((top0[i].0, succ)),
        keys_of(top1) == keys_of(top0),
{
    let prec = top0[i].0;
    assert(keys_of(top1) =~= keys_of(top0));
    if edges_of(top0).contains((prec, succ)) {
        let k = choose|k: int|
            0 <= k < top0.len() && #[trigger] top0[k].0 == prec && top0[k].1.succ@.contains(succ);
        assert(keys_of(top0)[k] == keys_of(top0)[i]);
    }
    assert(edges_of(top1) =~= edges_of(top0).insert((prec, succ))) by {
        assert forall|e: (T, T)| edges_of(top1).contains(e) <==> edges_of(top0).insert(
            (prec, succ),
        ).contains(e) by {
            if edges_of(top1).contains(e) {
                let k = choose|k: int|
                    0 <= k < top1.len() && #[trigger] top1[k].0 == e.0 && top1[k].1.succ@.contains(
                        e.1,
                    );
                if k != i {
                    assert(top0[k].0 == e.0 && top0[k].1.succ@.contains(e.1));
                } else {
                    let j = choose|j: int|
                        0 <= j < top1[i].1.succ@.len() && top1[i].1.succ@[j] == e.1;
                    if j < top0[i].1.succ@.len() {
                        assert(top0[i].1.succ@[j] == e.1);
                        assert(top0[i].0 == e.0 && top0[i].1.succ@.contains(e.1));
                    }
                }
            }
            if edges_of(top0).contains(e) {
                let k = choose|k: int|
                    0 <= k < top0.len() && #[trigger] top0[k].0 == e.0 && top0[k].1.succ@.contains(
                        e.1,
                    );
                if k == i {
                    let j = choose|j: int|
                        0 <= j < top0[i].1.succ@.len() && top0[i].1.succ@[j] == e.1;
                    assert(top1[i].1.succ@[j] == e.1);
                }
                assert(top1[k].0 == e.0 && top1[k].1.succ@.contains(e.1));
            }
            if e == (prec, succ) {
                assert(top1[i].1.succ@[top0[i].1.succ@.len() as int] == succ);
                assert(top1[i].0 == e.0 && top1[i].1.succ@.contains(e.1));
            }
        }
    }
    assert(links_ok(top1, set![succ])) by {
        assert forall|k: int| 0 <= k < top1.len() implies (#[trigger] top1[k]).1.succ@.no_duplicates() by {
            if k != i {
                assert(top0[k].1.succ@.no_duplicates());
            } else {
                assert(top0[i].1.succ@.no_duplicates());
            }
        }
        assert forall|k: int, j: int|
            0 <= k < top1.len() && 0 <= j < top1[k].1.succ@.len() implies {
            let s = #[trigger] top1[k].1.succ@[j];
            s != top1[k].0 && (keys_of(top1).contains(s) || set![succ].contains(s))
        } by {
            if k != i {
                let s = top0[k].1.succ@[j];
                assert(s != top0[k].0 && keys_of(top0).contains(s));
            } else if j < top0[i].1.succ@.len() {
                let s = top0[i].1.succ@[j];
                assert(s != top0[i].0 && keys_of(top0).contains(s));
            }
        }
    }
    assert(counts_ok(top1, edges_of(top0))) by {
        assert forall|k: int| 0 <= k < top1.len() implies (#[trigger] top1[k]).1.num_prec
            == preds_in(edges_of(top0), top1[k].0).len() by {
            assert(top0[k].1.num_prec == preds_in(edges_of(top0), top0[k].0).len());
        }
    }
}

/// The state between the two halves of recording a new dependency of `succ`
/// on `prec`: the successor lists hold it, the counters do not count it yet,
/// and `succ` may still be without a record.
pub(crate) open spec fn linked<T>(
    top0: Seq<(T, Dependency<T>)>,
    top1: Seq<(T, Dependency<T>)>,
    prec: T,
    succ: T,
) -> bool {
    &&& prec != succ
    &&& links_ok(top0, Set::empty())
    &&& links_ok(top1, set![succ])
    &&& counts_ok(top1, edges_of(top0))
    &&& edges_of(top1) == edges_of(top0).insert((prec, succ))
    &&& !edges_of(top0).contains((prec, succ))
    &&& (keys_of(top1) == keys_of(top0) || keys_of(top1) == keys_of(top0).push(prec))
}

/// One more edge into `succ` is one more predecessor of `succ`, and changes
/// nothing for any other vertex.
pub(crate) proof fn lemma_one_more<T>(top: Seq<(T, Dependency<T>)>, edges: Set<(T, T)>, prec: T, succ: T)
    requires
        edges.subset_of(edges_of(top)),
        !edges.contains((prec, succ)),
    ensures
        preds_in(edges.insert((prec, succ)), succ).len() == preds_in(edges, succ).len() + 1,
        forall|v: T| v != succ ==> preds_in(edges.insert((prec, succ)), v) == preds_in(edges, v),
{
    lemma_preds_in_records(top, edges, succ);
    assert(preds_in(edges.insert((prec, succ)), succ) =~= preds_in(edges, succ).insert(prec));
    assert forall|v: T| v != succ implies preds_in(edges.insert((prec, succ)), v) == preds_in(
        edges,
        v,
    ) by {
        assert(preds_in(edges.insert((prec, succ)), v) =~= preds_in(edges, v));
    }
}

/// One edge into `succ` less is one predecessor of `succ` less, and changes
/// nothing for any other vertex.
pub(crate) proof fn lemma_one_less<T>(top: Seq<(T, Dependency<T>)>, edges: Set<(T, T)>, prec: T, succ: T)
    requires
        edges.subset_of(edges_of(top)),
        edges.contains((prec, succ)),
    ensures
        preds_in(edges.remove((prec, succ)), succ).len() + 1 == preds_in(edges, succ).len(),
        forall|v: T| v != succ ==> preds_in(edges.remove((prec, succ)), v) == preds_in(edges, v),
{
    lemma_preds_in_records(top, edges, succ);
    assert(preds_in(edges.remove((prec, succ)), succ) =~= preds_in(edges, succ).remove(prec));
    assert forall|v: T| v != succ implies preds_in(edges.remove((prec, succ)), v) == preds_in(
        edges,
        v,
    ) by {
        assert(preds_in(edges.remove((prec, succ)), v) =~= preds_in(edges, v));
    }
}

/// The dependency was recorded for a `succ` without a record: it gets one
/// that counts one predecessor.
pub(crate) proof fn lemma_count_new<T>(
    top0: Seq<(T, Dependency<T>)>,
    top1: Seq<(T, Dependency<T>)>,
    top2: Seq<(T, Dependency<T>)>,
    prec: T,
    succ: T,
)
    requires
        linked(top0, top1, prec, succ),
        !keys_of(top1).contains(succ),
        top2.len() == top1.len() + 1,
        top2.take(top1.len() as int) == top1,
        top2.last().0 == succ,
        top2.last().1.num_prec == 1,
        top2.last().1.succ@ == Seq::<T>::empty(),
    ensures
        links_ok(top2, Set::empty()),
        counts_ok(top2, edges_of(top2)),
        edges_of(top2) == edges_of(top0).insert((prec, succ)),
        keys_of(top2) == keys_of(top1).push(succ),
{
    let n = top1.len() as int;
    let e0 = edges_of(top0);
    assert forall|i: int| 0 <= i < n implies top2[i] == top1[i] by {
        assert(top2.take(n)[i] == top2[i]);
    }
    assert(keys_of(top2) =~= keys_of(top1).push(succ));
    assert(edges_of(top2) =~= edges_of(top1)) by {
        assert forall|e: (T, T)| edges_of(top2).contains(e) <==> edges_of(top1).contains(e) by {
            if edges_of(top2).contains(e) {
                let i = choose|i: int|
                    0 <= i < top2.len() && #[trigger] top2[i].0 == e.0 && top2[i].1.succ@.contains(
                        e.1,
                    );
                assert(i < n);
                assert(top1[i].0 == e.0 && top1[i].1.succ@.contains(e.1));
            }
            if edges_of(top1).contains(e) {
                let i = choose|i: int|
                    0 <= i < top1.len() && #[trigger] top1[i].0 == e.0 && top1[i].1.succ@.contains(
                        e.1,
                    );
                assert(top2[i].0 == e.0 && top2[i].1.succ@.contains(e.1));
            }
        }
    }
    assert(links_ok(top2, Set::empty())) by {
        assert forall|i: int, j: int|
            0 <= i < top2.len() && 0 <= j < top2[i].1.succ@.len() implies {
            let s = #[trigger] top2[i].1.succ@[j];
            s != top2[i].0 && (keys_of(top2).contains(s) || Set::<T>::empty().contains(s))
        } by {
            let s = top1[i].1.succ@[j];
            assert(s != top1[i].0 && (keys_of(top1).contains(s) || set![succ].contains(s)));
            if keys_of(top1).contains(s) {
                let k = choose|k: int| 0 <= k < n && keys_of(top1)[k] == s;
                assert(keys_of(top2)[k] == s);
            } else {
                assert(keys_of(top2)[n] == s);
            }
        }
    }
    assert(e0.subset_of(edges_of(top1)));
    lemma_one_more(top1, e0, prec, succ);
    assert(preds_in(e0, succ) =~= Set::<T>::empty()) by {
        assert forall|u: T| !preds_in(e0, succ).contains(u) by {
            if e0.contains((u, succ)) {
                lemma_edge_target(top0, u, succ);
                let k = choose|k: int| 0 <= k < top0.len() && keys_of(top0)[k] == succ;
                assert(keys_of(top1)[k] == succ);
            }
        }
    }
    assert(counts_ok(top2, edges_of(top2))) by {
        assert forall|i: int| 0 <= i < top2.len() implies (#[trigger] top2[i]).1.num_prec
            == preds_in(edges_of(top2), top2[i].0).len() by {
            if i < n {
                assert(top1[i].1.num_prec == preds_in(e0, top1[i].0).len());
                assert(keys_of(top1)[i] == top1[i].0);
            }
        }
    }
}

/// The counter of `succ` has room for one predecessor more.
pub(crate) proof fn lemma_count_room<T>(
    top0: Seq<(T, Dependency<T>)>,
    top1: Seq<(T, Dependency<T>)>,
    j: int,
    prec: T,
    succ: T,
)
    requires
        linked(top0, top1, prec, succ),
        0 <= j < top1.len(),
        top1[j].0 == succ,
    ensures
        top1[j].1.num_prec < top1.len(),
{
    let e0 = edges_of(top0);
    assert(e0.subset_of(edges_of(top1)));
    lemma_one_more(top1, e0, prec, succ);
    lemma_preds_in_records(top1, edges_of(top1), succ);
}

/// The dependency was recorded for a `succ` with a record: its counter went
/// up by one.
pub(crate) proof fn lemma_count_old<T>(
    top0: Seq<(T, Dependency<T>)>,
    top1: Seq<(T, Dependency<T>)>,
    top2: Seq<(T, Dependency<T>)>,
    j: int,
    prec: T,
    succ: T,
)
    requires
        linked(top0, top1, prec, succ),
        0 <= j < top1.len(),
        top1[j].0 == succ,
        top2.len() == top1.len(),
        forall|k: int| 0 <= k < top1.len() && k != j ==> top2[k] == top1[k],
        top2[j].0 == succ,
        top2[j].1.succ == top1[j].1.succ,
        top2[j].1.num_prec == top1[j].1.num_prec + 1,
    ensures
        links_ok(top2, Set::empty()),
        counts_ok(top2, edges_of(top2)),
        edges_of(top2) == edges_of(top0).insert((prec, succ)),
        keys_of(top2) == keys_of(top1),
{
    let e0 = edges_of(top0);
    assert(keys_of(top2) =~= keys_of(top1));
    assert(keys_of(top1)[j] == succ);
    assert(edges_of(top2) =~= edges_of(top1)) by {
        assert forall|e: (T, T)| edges_of(top2).contains(e) <==> edges_of(top1).contains(e) by {
            if edges_of(top2).contains(e) {
                let i = choose|i: int|
                    0 <= i < top2.len() && #[trigger] top2[i].0 == e.0 && top2[i].1.succ@.contains(
                        e.1,
                    );
                assert(top1[i].0 == e.0 && top1[i].1.succ@.contains(e.1));
            }
            if edges_of(top1).contains(e) {
                let i = choose|i: int|
                    0 <= i < top1.len() && #[trigger] top1[i].0 == e.0 && top1[i].1.succ@.contains(
                        e.1,
                    );
                assert(top2[i].0 == e.0 && top2[i].1.succ@.contains(e.1));
            }
        }
    }
    assert(links_ok(top2, Set::empty())) by {
        assert forall|i: int| 0 <= i < top2.len() implies (#[trigger] top2[i]).1.succ@.no_duplicates() by {
            assert(top1[i].1.succ@.no_duplicates());
        }
        assert forall|i: int, k: int|
            0 <= i < top2.len() && 0 <= k < top2[i].1.succ@.len() implies {
            let s = #[trigger] top2[i].1.succ@[k];
            s != top2[i].0 && (keys_of(top2).contains(s) || Set::<T>::empty().contains(s))
        } by {
            let s = top1[i].1.succ@[k];
            assert(s != top1[i].0 && (keys_of(top1).contains(s) || set![succ].contains(s)));
        }
    }
    assert(e0.subset_of(edges_of(top1)));
    lemma_one_more(top1, e0, prec, succ);
    assert(counts_ok(top2, edges_of(top2))) by {
        assert forall|i: int| 0 <= i < top2.len() implies (#[trigger] top2[i]).1.num_prec
            == preds_in(edges_of(top2), top2[i].0).len() by {
            assert(top1[i].1.num_prec == preds_in(e0, top1[i].0).len());
            if i != j {
                assert(keys_of(top1)[i] != keys_of(top1)[j]);
            }
        }
    }
}

/// The two sequences of records differ in their counters at most.
pub(crate) open spec fn same_links<T>(a: Seq<(T, Dependency<T>)>, b: Seq<(T, Dependency<T>)>) -> bool {
    &&& a.len() == b.len()
    &&& forall|k: int| 0 <= k < a.len() ==> (#[trigger] a[k]).0 == b[k].0 && a[k].1.succ == b[k].1.succ
}

pub(crate) proof fn lemma_same_links<T>(a: Seq<(T, Dependency<T>)>, b: Seq<(T, Dependency<T>)>)
    requires
        same_links(a, b),
    ensures
        keys_of(a) == keys_of(b),
        edges_of(a) == edges_of(b),
        forall|pending: Set<T>| links_ok(a, pending) ==> #[trigger] links_ok(b, pending),
{
    assert(keys_of(a) =~= keys_of(b)) by {
        assert forall|k: int| 0 <= k < a.len() implies keys_of(a)[k] == keys_of(b)[k] by {
            assert(a[k].0 == b[k].0);
        }
    }
    assert(edges_of(a) =~= edges_of(b)) by {
        assert forall|e: (T, T)| edges_of(a).contains(e) <==> edges_of(b).contains(e) by {
            if edges_of(a).contains(e) {
                let i = choose|i: int|
                    0 <= i < a.len() && #[trigger] a[i].0 == e.0 && a[i].1.succ@.contains(e.1);
                assert(b[i].0 == e.0 && b[i].1.succ@.contains(e.1));
            }
            if edges_of(b).contains(e) {
                let i = choose|i: int|
                    0 <= i < b.len() && #[trigger] b[i].0 == e.0 && b[i].1.succ@.contains(e.1);
                assert(a[i].0 == b[i].0 && a[i].1.succ == b[i].1.succ);
                assert(a[i].0 == e.0 && a[i].1.succ@.contains(e.1));
            }
        }
    }
    assert forall|pending: Set<T>| links_ok(a, pending) implies #[trigger] links_ok(b, pending) by {
        assert forall|i: int| 0 <= i < b.len() implies (#[trigger] b[i]).1.succ@.no_duplicates() by {
            assert(a[i].1.succ@.no_duplicates());
        }
        assert forall|i: int, j: int|
            0 <= i < b.len() && 0 <= j < b[i].1.succ@.len() implies {
            let s = #[trigger] b[i].1.succ@[j];
            s != b[i].0 && (keys_of(b).contains(s) || pending.contains(s))
        } by {
            assert(a[i].0 == b[i].0 && a[i].1.succ == b[i].1.succ);
            let s = a[i].1.succ@[j];
            assert(s != a[i].0 && (keys_of(a).contains(s) || pending.contains(s)));
        }
    }
}

/// The edges of `edges` but those from `x` to a vertex in `done`.
pub(crate) open spec fn uncounted<T>(edges: Set<(T, T)>, x: T, done: Seq<T>) -> Set<(T, T)> {
    Set::new(|e: (T, T)| edges.contains(e) && !(e.0 == x && done.contains(e.1)))
}

/// The record of a vertex without predecessors was taken out: the other
/// records still name recorded vertices only, and their counters still count
/// the edges that were there.
pub(crate) proof fn lemma_unlink<T>(top0: Seq<(T, Dependency<T>)>, i: int)
    requires
        links_ok(top0, Set::empty()),
        counts_ok(top0, edges_of(top0)),
        0 <= i < top0.len(),
        forall|u: T| !edges_of(top0).contains((u, top0[i].0)),
    ensures
        links_ok(top0.remove(i), Set::empty()),
        counts_ok(top0.remove(i), uncounted(edges_of(top0), top0[i].0, Seq::empty())),
        same_links(top0.remove(i), top0.remove(i)),
{
    let top1 = top0.remove(i);
    let x = top0[i].0;
    assert(keys_of(top1) =~= keys_of(top0).remove(i));
    assert(uncounted(edges_of(top0), x, Seq::empty()) =~= edges_of(top0));
    assert forall|k: int| 0 <= k < top1.len() implies (#[trigger] top1[k]).1.succ@.no_duplicates() by {
        if k < i {
            assert(top0[k].1.succ@.no_duplicates());
        } else {
            assert(top0[k + 1].1.succ@.no_duplicates());
        }
    }
    assert forall|k: int, j: int|
        0 <= k < top1.len() && 0 <= j < top1[k].1.succ@.len() implies {
        let s = #[trigger] top1[k].1.succ@[j];
        s != top1[k].0 && (keys_of(top1).contains(s) || Set::<T>::empty().contains(s))
    } by {
        let k0 = if k < i { k } else { k + 1 };
        let s = top0[k0].1.succ@[j];
        assert(s != top0[k0].0 && keys_of(top0).contains(s));
        assert(top0[k0].1.succ@.contains(s));
        assert(edges_of(top0).contains((top0[k0].0, s)));
        let m = choose|m: int| 0 <= m < top0.len() && keys_of(top0)[m] == s;
        assert(m != i);
        if m < i {
            assert(keys_of(top1)[m] == s);
        } else {
            assert(keys_of(top1)[m - 1] == s);
        }
    }
    assert forall|k: int| 0 <= k < top1.len() implies (#[trigger] top1[k]).1.num_prec == preds_in(
        edges_of(top0),
        top1[k].0,
    ).len() by {
        let k0 = if k < i { k } else { k + 1 };
        assert(top0[k0].1.num_prec == preds_in(edges_of(top0), top0[k0].0).len());
    }
}

/// Before the counter of the `k`-th successor of the removed vertex is
/// lowered: that successor has a record, and its counter is not zero.
pub(crate) proof fn lemma_uncount<T>(
    top0: Seq<(T, Dependency<T>)>,
    cur: Seq<(T, Dependency<T>)>,
    i: int,
    k: int,
)
    requires
        links_ok(top0, Set::empty()),
        0 <= i < top0.len(),
        0 <= k < top0[i].1.succ@.len(),
        same_links(top0.remove(i), cur),
        counts_ok(cur, uncounted(edges_of(top0), top0[i].0, top0[i].1.succ@.take(k))),
    ensures
        keys_of(cur).contains(top0[i].1.succ@[k]),
        forall|j: int|
            0 <= j < cur.len() && cur[j].0 == top0[i].1.succ@[k] ==> (#[trigger] cur[j]).1.num_prec
                > 0,
{
    let x = top0[i].0;
    let succs = top0[i].1.succ@;
    let s = succs[k];
    let top1 = top0.remove(i);
    let counted = uncounted(edges_of(top0), x, succs.take(k));
    lemma_same_links(top1, cur);
    assert(keys_of(top1) =~= keys_of(top0).remove(i));
    assert(s != x && keys_of(top0).contains(s));
    let m = choose|m: int| 0 <= m < top0.len() && keys_of(top0)[m] == s;
    if m < i {
        assert(keys_of(top1)[m] == s);
    } else {
        assert(keys_of(top1)[m - 1] == s);
    }
    assert(succs.contains(s));
    assert(edges_of(top0).contains((x, s)));
    assert(!succs.take(k).contains(s)) by {
        if succs.take(k).contains(s) {
            let t = choose|t: int| 0 <= t < k && succs.take(k)[t] == s;
            assert(succs[t] == succs[k]);
        }
    }
    assert(counted.contains((x, s)));
    assert(counted.subset_of(edges_of(top0)));
    lemma_one_less(top0, counted, x, s);
}

/// After the counter of the `k`-th successor of the removed vertex was
/// lowered, the counters count one edge less.
pub(crate) proof fn lemma_uncounted<T>(
    top0: Seq<(T, Dependency<T>)>,
    before: Seq<(T, Dependency<T>)>,
    cur: Seq<(T, Dependency<T>)>,
    i: int,
    k: int,
)
    requires
        links_ok(top0, Set::empty()),
        0 <= i < top0.len(),
        0 <= k < top0[i].1.succ@.len(),
        same_links(top0.remove(i), before),
        counts_ok(before, uncounted(edges_of(top0), top0[i].0, top0[i].1.succ@.take(k))),
        same_links(before, cur),
        forall|j: int|
            0 <= j < cur.len() ==> (#[trigger] cur[j]).1.num_prec == if cur[j].0
                == top0[i].1.succ@[k] {
                before[j].1.num_prec - 1
            } else {
                before[j].1.num_prec as int
            },
    ensures
        same_links(top0.remove(i), cur),
        counts_ok(cur, uncounted(edges_of(top0), top0[i].0, top0[i].1.succ@.take(k + 1))),
{
    let x = top0[i].0;
    let succs = top0[i].1.succ@;
    let s = succs[k];
    let counted = uncounted(edges_of(top0), x, succs.take(k));
    let fewer = uncounted(edges_of(top0), x, succs.take(k + 1));
    assert(succs.contains(s));
    assert(edges_of(top0).contains((x, s)));
    assert(!succs.take(k).contains(s)) by {
        if succs.take(k).contains(s) {
            let t = choose|t: int| 0 <= t < k && succs.take(k)[t] == s;
            assert(succs[t] == succs[k]);
        }
    }
    assert(succs.take(k + 1) =~= succs.take(k).push(s));
    assert forall|v: T| #[trigger] succs.take(k + 1).contains(v) == (succs.take(k).contains(v) || v == s) by {
        if succs.take(k).contains(v) {
            let t = choose|t: int| 0 <= t < k && succs.take(k)[t] == v;
            assert(succs.take(k + 1)[t] == v);
        }
        if v == s {
            assert(succs.take(k + 1)[k] == v);
        }
    }
    assert(fewer =~= counted.remove((x, s)));
    assert(counted.subset_of(edges_of(top0)));
    lemma_one_less(top0, counted, x, s);
    assert forall|j: int| 0 <= j < cur.len() implies (#[trigger] cur[j]).1.num_prec == preds_in(
        fewer,
        cur[j].0,
    ).len() by {
        assert(before[j].0 == cur[j].0);
        assert(before[j].1.num_prec == preds_in(counted, before[j].0).len());
    }
    let top1 = top0.remove(i);
    assert forall|j: int| 0 <= j < top1.len() implies (#[trigger] top1[j]).0 == cur[j].0
        && top1[j].1.succ == cur[j].1.succ by {
        assert(top1[j].0 == before[j].0 && top1[j].1.succ == before[j].1.succ);
        assert(before[j].0 == cur[j].0 && before[j].1.succ == cur[j].1.succ);
    }
}

/// With the counters of all its successors lowered, the removed vertex is
/// gone from the records without a trace.
pub(crate) proof fn lemma_removed<T>(top0: Seq<(T, Dependency<T>)>, cur: Seq<(T, Dependency<T>)>, i: int)
    requires
        links_ok(top0, Set::empty()),
        0 <= i < top0.len(),
        same_links(top0.remove(i), cur),
        links_ok(top0.remove(i), Set::empty()),
        counts_ok(cur, uncounted(edges_of(top0), top0[i].0, top0[i].1.succ@)),
    ensures
        links_ok(cur, Set::empty()),
        counts_ok(cur, edges_of(cur)),
        keys_of(cur) == keys_of(top0).remove(i),
        edges_of(cur) == Set::new(|e: (T, T)| edges_of(top0).contains(e) && e.0 != top0[i].0),
{
    let x = top0[i].0;
    let top1 = top0.remove(i);
    lemma_same_links(top1, cur);
    assert(keys_of(top1) =~= keys_of(top0).remove(i));
    let kept = Set::new(|e: (T, T)| edges_of(top0).contains(e) && e.0 != x);
    assert(edges_of(top1) =~= kept) by {
        assert forall|e: (T, T)| edges_of(top1).contains(e) <==> kept.contains(e) by {
            if edges_of(top1).contains(e) {
                let k = choose|k: int|
                    0 <= k < top1.len() && #[trigger] top1[k].0 == e.0 && top1[k].1.succ@.contains(
                        e.1,
                    );
                let k0 = if k < i { k } else { k + 1 };
                assert(top0[k0].0 == e.0 && top0[k0].1.succ@.contains(e.1));
                assert(keys_of(top0)[k0] != keys_of(top0)[i]);
            }
            if kept.contains(e) {
                let k0 = choose|k0: int|
                    0 <= k0 < top0.len() && #[trigger] top0[k0].0 == e.0 && top0[k0].1.succ@.contains(
                        e.1,
                    );
                let k = if k0 < i { k0 } else { k0 - 1 };
                assert(top1[k].0 == e.0 && top1[k].1.succ@.contains(e.1));
            }
        }
    }
    assert(uncounted(edges_of(top0), x, top0[i].1.succ@) =~= kept) by {
        assert forall|e: (T, T)| uncounted(edges_of(top0), x, top0[i].1.succ@).contains(e)
            <==> kept.contains(e) by {
            if edges_of(top0).contains(e) && e.0 == x {
                let k0 = choose|k0: int|
                    0 <= k0 < top0.len() && #[trigger] top0[k0].0 == e.0 && top0[k0].1.succ@.contains(
                        e.1,
                    );
                assert(keys_of(top0)[k0] == keys_of(top0)[i]);
            }
        }
    }
}

} // verus!
