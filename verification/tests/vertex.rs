use cpm::edge::Edge;
use cpm::vertex::Vertex;
use std::collections::HashSet;

#[test]
fn vertices_are_equal_when_their_indices_are() {
    assert_eq!(Vertex::new(3), Vertex::new(3));
    assert_ne!(Vertex::new(3), Vertex::new(4));
    assert_eq!(Vertex::new(0).idx, 0);
    assert_eq!(Vertex::new(255).idx, 255);
    for a in 0..=255u8 {
        for b in 0..=255u8 {
            assert_eq!(Vertex::new(a) == Vertex::new(b), a == b);
        }
    }
}

#[test]
fn vertices_are_copied_and_hashed_by_value() {
    let v = Vertex::new(9);
    let w = v;
    assert_eq!(v, w);
    let mut seen = HashSet::new();
    assert!(seen.insert(Vertex::new(1)));
    assert!(seen.insert(Vertex::new(2)));
    assert!(!seen.insert(Vertex::new(1)));
    assert_eq!(seen.len(), 2);
}

#[test]
fn clone_of_an_edge_holds_what_the_edge_holds() {
    let edge = Edge { name: "pour concrete".to_string(), start: Vertex::new(4), end: Vertex::new(5), dist: 12 };
    let copy = edge.clone();
    assert_eq!(copy.name, "pour concrete");
    assert_eq!(copy.start, Vertex::new(4));
    assert_eq!(copy.end, Vertex::new(5));
    assert_eq!(copy.dist, 12);
    assert_eq!(edge.name, copy.name);
}
