//! Vertex identifiers.

use crate::text::{chars_of, parse_u8, parsed_u8};
use std::str::FromStr;
use vstd::laws_eq::obeys_concrete_eq;
use vstd::prelude::*;
use vstd::std_specs::cmp::PartialEqSpecImpl;

verus! {

/// A vertex of a graph, identified by a small index.
#[derive(Debug, Eq, Hash, Clone, Copy)]
pub struct Vertex {
    pub idx: u8,
}

impl PartialEq for Vertex {
    fn eq(&self, other: &Self) -> (r: bool) {
        self.idx == other.idx
    }
}

impl PartialEqSpecImpl for Vertex {
    open spec fn obeys_eq_spec() -> bool {
        true
    }

    open spec fn eq_spec(&self, other: &Self) -> bool {
        self.idx == other.idx
    }
}

impl Vertex {
    /// The vertex with the given index.
    pub fn new(idx: u8) -> (v: Self)
        ensures
            v.idx == idx,
    {
        Self { idx }
    }
}

impl FromStr for Vertex {
    type Err = ();

    /// Reads the index of a vertex: a number from 0 to 255 in decimal digits.
    fn from_str(s: &str) -> (r: Result<Self, ()>)
        ensures
            match r {
                Ok(v) => parsed_u8(s@) == Some(v.idx),
                Err(_) => parsed_u8(s@) is None,
            },
    {
        let chars = chars_of(s);
        assert(chars@.subrange(0, chars@.len() as int) =~= s@);
        match parse_u8(&chars, 0, chars.len()) {
            Some(idx) => Ok(Self { idx }),
            None => Err(()),
        }
    }
}

/// Executable equality on vertices is equality of their indices, which is
/// equality of the vertices themselves.
pub proof fn lemma_vertex_equality()
    ensures
        obeys_concrete_eq::<Vertex>(),
{
    reveal(obeys_concrete_eq);
}

} // verus!
