use cpm::critical_path::{critical_chain, critical_path, render, PathError};
use cpm::edge::{parse_edges, Edge};
use cpm::vertex::Vertex;

fn edge(name: &str, start: u8, end: u8, dist: u8) -> Edge {
    Edge { name: name.to_string(), start: Vertex::new(start), end: Vertex::new(end), dist }
}

const FIRST: &str = "A\t1\t2\t3\nB\t1\t3\t2\nC\t2\t4\t5\nD\t2\t5\t1\nE\t3\t4\t2\nF\t4\t6\t2\n\
G\t5\t6\t1\nH\t3\t7\t1\nI\t6\t8\t3\nJ\t8\t9\t2\nK\t9\t10\t1\n";

const SECOND: &str = "A\t1\t2\t5\nB\t1\t3\t4\nC\t2\t4\t3\nD\t2\t5\t10\nE\t3\t5\t6\nF\t5\t6\t8\n\
G\t6\t7\t7\nH\t4\t7\t2\nI\t7\t8\t6\nJ\t6\t8\t4\nK\t8\t9\t9\nL\t9\t10\t3\n";

const THIRD: &str = "A\t1\t2\t2\nB\t1\t3\t4\nC\t2\t4\t3\nD\t2\t5\t1\nE\t3\t5\t5\nF\t4\t6\t2\n\
G\t4\t7\t1\nH\t5\t6\t4\nI\t5\t7\t1\nJ\t6\t7\t3\n";

#[test]
fn it_works() {
    let edges = parse_edges(FIRST);
    let dist = critical_path(edges, Vertex::new(1)).unwrap();

    assert_eq!(dist, "A-C-F-I-J-K, 16");

    let edges = parse_edges(SECOND);
    let dist = critical_path(edges, Vertex::new(1)).unwrap();

    assert_eq!(dist, "A-D-F-G-I-K-L, 48");

    let edges = parse_edges(THIRD);
    let dist = critical_path(edges, Vertex::new(1)).unwrap();

    assert_eq!(dist, "B-E-H-J, 16");
}

#[test]
fn empty_edge_list_gives_empty_path() {
    assert_eq!(critical_path(vec![], Vertex::new(1)), Ok(", 0".to_string()));
}

#[test]
fn single_edge() {
    assert_eq!(critical_path(vec![edge("X", 1, 2, 5)], Vertex::new(1)), Ok("X, 5".to_string()));
}

#[test]
fn start_without_edges_gives_empty_path() {
    let edges = vec![edge("X", 2, 3, 5), edge("Y", 3, 4, 7)];
    assert_eq!(critical_path(edges, Vertex::new(1)), Ok(", 0".to_string()));
}

#[test]
fn edges_that_do_not_come_from_the_start_do_not_count() {
    let edges = vec![edge("X", 2, 3, 50), edge("A", 1, 3, 2), edge("B", 3, 4, 1)];
    assert_eq!(critical_path(edges, Vertex::new(1)), Ok("A-B, 3".to_string()));
}

#[test]
fn start_in_the_middle() {
    let edges = vec![edge("A", 1, 2, 9), edge("B", 2, 3, 4), edge("C", 3, 4, 1)];
    assert_eq!(critical_path(edges, Vertex::new(2)), Ok("B-C, 5".to_string()));
}

#[test]
fn chain_as_edges() {
    let edges = vec![edge("A", 1, 2, 3), edge("B", 2, 3, 4)];
    let (path, d) = critical_chain(&edges, Vertex::new(1)).unwrap();
    assert_eq!(d, 7);
    assert_eq!(path.len(), 2);
    assert_eq!(path[0].name, "A");
    assert_eq!(path[0].start, Vertex::new(1));
    assert_eq!(path[0].end, Vertex::new(2));
    assert_eq!(path[0].dist, 3);
    assert_eq!(path[1].name, "B");
    assert_eq!(path[1].dist, 4);
}

#[test]
fn cycle_is_refused() {
    let edges = vec![edge("A", 1, 2, 1), edge("B", 2, 3, 1), edge("C", 3, 1, 1)];
    assert_eq!(critical_path(edges, Vertex::new(1)), Err(PathError::Cyclic));
}

#[test]
fn cycle_away_from_the_start_is_refused() {
    let edges = vec![edge("A", 1, 2, 1), edge("B", 5, 6, 1), edge("C", 6, 5, 1)];
    assert_eq!(critical_path(edges, Vertex::new(1)), Err(PathError::Cyclic));
}

#[test]
fn cycle_of_weight_zero_is_refused() {
    let edges = vec![edge("A", 1, 2, 0), edge("B", 2, 1, 0)];
    assert_eq!(critical_path(edges, Vertex::new(1)), Err(PathError::Cyclic));
}

#[test]
fn self_loop_is_a_cycle() {
    let edges = vec![edge("A", 1, 2, 1), edge("B", 2, 2, 1)];
    assert_eq!(critical_path(edges, Vertex::new(1)), Err(PathError::Cyclic));
    let edges = vec![edge("B", 7, 7, 0)];
    assert_eq!(critical_path(edges, Vertex::new(1)), Err(PathError::Cyclic));
}

#[test]
fn cycle_wins_over_weight() {
    let edges = vec![edge("A", 1, 2, 200), edge("B", 2, 3, 200), edge("C", 3, 1, 200)];
    assert_eq!(critical_path(edges, Vertex::new(1)), Err(PathError::Cyclic));
}

#[test]
fn distance_of_255_fits() {
    let edges = vec![edge("A", 1, 2, 200), edge("B", 2, 3, 55)];
    assert_eq!(critical_path(edges, Vertex::new(1)), Ok("A-B, 255".to_string()));
}

#[test]
fn distance_of_256_is_too_long() {
    let edges = vec![edge("A", 1, 2, 200), edge("B", 2, 3, 56)];
    assert_eq!(critical_path(edges, Vertex::new(1)), Err(PathError::TooLong));
    assert_eq!(critical_chain(&edges_of(&[("A", 1, 2, 255), ("B", 2, 3, 1)]), Vertex::new(1)).err(), Some(PathError::TooLong));
}

fn edges_of(list: &[(&str, u8, u8, u8)]) -> Vec<Edge> {
    list.iter().map(|&(n, s, e, d)| edge(n, s, e, d)).collect()
}

#[test]
fn heavy_chain_away_from_the_start_is_no_failure() {
    let edges = vec![edge("A", 1, 2, 3), edge("X", 5, 6, 200), edge("Y", 6, 7, 200)];
    assert_eq!(critical_path(edges, Vertex::new(1)), Ok("A, 3".to_string()));
}

#[test]
fn edges_of_weight_zero() {
    let edges = vec![edge("A", 1, 2, 0), edge("B", 2, 3, 0)];
    assert_eq!(critical_path(edges, Vertex::new(1)), Ok(", 0".to_string()));
    let edges = vec![edge("A", 1, 2, 0), edge("B", 2, 3, 4)];
    assert_eq!(critical_path(edges, Vertex::new(1)), Ok("A-B, 4".to_string()));
}

#[test]
fn of_two_ends_at_the_same_distance_the_first_in_order_is_taken() {
    let edges = vec![edge("A", 1, 3, 5), edge("B", 1, 2, 5)];
    assert_eq!(critical_path(edges, Vertex::new(1)), Ok("A, 5".to_string()));
    let edges = vec![edge("B", 1, 2, 5), edge("A", 1, 3, 5)];
    assert_eq!(critical_path(edges, Vertex::new(1)), Ok("B, 5".to_string()));
}

#[test]
fn of_two_predecessors_at_the_same_distance_the_first_in_order_is_kept() {
    // 2 and 3 both bring a distance of 6 to 4; 2 comes first in the order.
    let edges = vec![
        edge("A", 1, 2, 2),
        edge("B", 1, 3, 3),
        edge("C", 3, 4, 3),
        edge("D", 2, 4, 4),
    ];
    assert_eq!(critical_path(edges, Vertex::new(1)), Ok("A-D, 6".to_string()));
    // Here 3 is met before 2.
    let edges = vec![
        edge("B", 1, 3, 3),
        edge("A", 1, 2, 2),
        edge("C", 3, 4, 3),
        edge("D", 2, 4, 4),
    ];
    assert_eq!(critical_path(edges, Vertex::new(1)), Ok("B-C, 6".to_string()));
}

#[test]
fn of_edges_between_the_same_vertices_the_first_is_named_and_the_heaviest_counts() {
    let edges = vec![edge("X", 1, 2, 1), edge("Y", 1, 2, 5)];
    assert_eq!(critical_path(edges, Vertex::new(1)), Ok("X, 5".to_string()));
    let edges = vec![edge("Y", 1, 2, 5), edge("X", 1, 2, 1)];
    assert_eq!(critical_path(edges, Vertex::new(1)), Ok("Y, 5".to_string()));
    // the weights of the path fall short of the distance where the edge named is not the heaviest
    let edges = vec![edge("A", 1, 2, 3), edge("X", 2, 3, 1), edge("Y", 2, 3, 5)];
    let (path, d) = critical_chain(&edges, Vertex::new(1)).unwrap();
    assert_eq!(d, 8);
    assert_eq!(path.iter().map(|e| e.name.as_str()).collect::<Vec<_>>(), vec!["A", "X"]);
    assert_eq!(path.iter().map(|e| e.dist as u32).sum::<u32>(), 4);
}

/// The greatest weight of a chain of edges from `at`, by trying them all.
fn longest_by_search(edges: &[Edge], at: Vertex) -> u32 {
    let mut best = 0;
    for e in edges {
        if e.start == at {
            let d = e.dist as u32 + longest_by_search(edges, e.end);
            if d > best {
                best = d;
            }
        }
    }
    best
}

#[test]
fn distance_is_the_longest_of_all_chains() {
    for text in [FIRST, SECOND, THIRD] {
        let edges = parse_edges(text);
        for start in 1..=10 {
            let start = Vertex::new(start);
            let (_, d) = critical_chain(&edges, start).unwrap();
            assert_eq!(d as u32, longest_by_search(&edges, start));
        }
    }
}

#[test]
fn weights_of_the_path_add_up_to_the_distance() {
    for text in [FIRST, SECOND, THIRD] {
        let edges = parse_edges(text);
        for start in 1..=10 {
            let (path, d) = critical_chain(&edges, Vertex::new(start)).unwrap();
            let sum: u32 = path.iter().map(|e| e.dist as u32).sum();
            assert_eq!(sum, d as u32);
            for pair in path.windows(2) {
                assert_eq!(pair[0].end, pair[1].start);
            }
            if let Some(first) = path.first() {
                assert_eq!(first.start, Vertex::new(start));
            }
        }
    }
}

#[test]
fn render_writes_names_and_distance() {
    assert_eq!(render(&vec![], 0), ", 0");
    assert_eq!(render(&vec![edge("only", 1, 2, 9)], 9), "only, 9");
    assert_eq!(render(&vec![edge("a", 1, 2, 9), edge("b", 2, 3, 1)], 10), "a-b, 10");
    assert_eq!(render(&vec![edge("a", 1, 2, 9), edge("", 2, 3, 1), edge("c", 3, 4, 1)], 99), "a--c, 99");
    assert_eq!(render(&vec![], 100), ", 100");
    assert_eq!(render(&vec![], 109), ", 109");
    assert_eq!(render(&vec![], 255), ", 255");
    assert_eq!(render(&vec![edge("Ä-ö", 1, 2, 7)], 7), "Ä-ö, 7");
}
