//! The record that a dependency graph keeps for each of its vertices.

use vstd::prelude::*;

verus! {

/// What a graph knows of one vertex: how many of its predecessors are still in
/// the graph, and which vertices depend on it directly.
pub struct Dependency<T> {
    pub num_prec: usize,
    pub succ: Vec<T>,
}

impl<T> Default for Dependency<T> {
    fn default() -> (d: Self)
        ensures
            d.num_prec == 0,
            d.succ@ == Seq::<T>::empty(),
    {
        Self { num_prec: 0, succ: Vec::new() }
    }
}

impl<T> Dependency<T> {
    /// The record of a vertex with `num_prec` predecessors and no successor yet.
    pub fn new(num_prec: usize) -> (d: Self)
        ensures
            d.num_prec == num_prec,
            d.succ@ == Seq::<T>::empty(),
    {
        Self { num_prec, succ: Vec::new() }
    }
}

} // verus!
