use cpm::graph::DependencyGraph;
use cpm::vertex::Vertex;

#[test]
fn empty_graph_has_no_layers() {
    let mut graph: DependencyGraph<u32> = DependencyGraph::new();
    assert_eq!(graph.layers(), Some(vec![]));
    let mut graph: DependencyGraph<u32> = DependencyGraph::default();
    assert_eq!(graph.sorted(), Some(vec![]));
}

#[test]
fn layers_of_a_diamond() {
    let mut graph = DependencyGraph::new();
    graph.depend_on(1, 2);
    graph.depend_on(1, 3);
    graph.depend_on(2, 4);
    graph.depend_on(3, 4);
    assert_eq!(graph.layers(), Some(vec![vec![1], vec![2, 3], vec![4]]));
    // the graph was taken apart
    assert_eq!(graph.layers(), Some(vec![]));
}

#[test]
fn layers_keep_the_order_of_first_mention() {
    let mut graph = DependencyGraph::new();
    graph.depend_on('c', 'x');
    graph.depend_on('a', 'x');
    graph.depend_on('b', 'y');
    graph.depend_on('x', 'y');
    assert_eq!(graph.layers(), Some(vec![vec!['c', 'a', 'b'], vec!['x'], vec!['y']]));
}

#[test]
fn sorted_joins_the_layers() {
    let mut graph = DependencyGraph::new();
    graph.depend_on(Vertex::new(1), Vertex::new(2));
    graph.depend_on(Vertex::new(1), Vertex::new(3));
    graph.depend_on(Vertex::new(2), Vertex::new(4));
    graph.depend_on(Vertex::new(3), Vertex::new(4));
    assert_eq!(
        graph.sorted(),
        Some(vec![Vertex::new(1), Vertex::new(2), Vertex::new(3), Vertex::new(4)])
    );
}

#[test]
fn a_vertex_waits_for_its_last_predecessor() {
    let mut graph = DependencyGraph::new();
    graph.depend_on(1, 4);
    graph.depend_on(1, 2);
    graph.depend_on(2, 3);
    graph.depend_on(3, 4);
    assert_eq!(graph.layers(), Some(vec![vec![1], vec![2], vec![3], vec![4]]));
}

#[test]
fn cycle_gives_no_layers() {
    let mut graph = DependencyGraph::new();
    graph.depend_on(1, 2);
    graph.depend_on(2, 3);
    graph.depend_on(3, 1);
    assert_eq!(graph.layers(), None);
    let mut graph = DependencyGraph::new();
    graph.depend_on(1, 2);
    graph.depend_on(2, 1);
    assert_eq!(graph.sorted(), None);
}

#[test]
fn cycle_behind_a_layer_gives_no_layers_and_stays_in_the_graph() {
    let mut graph = DependencyGraph::new();
    graph.depend_on(0, 1);
    graph.depend_on(1, 2);
    graph.depend_on(2, 1);
    graph.depend_on(2, 3);
    assert_eq!(graph.layers(), None);
    // 0 was placed and is gone; 1, 2 and 3 are still there and still stuck
    assert_eq!(graph.layers(), None);
    graph.depend_on(7, 8);
    assert_eq!(graph.sorted(), None);
}

#[test]
fn same_dependency_twice_is_the_dependency_once() {
    let mut once = DependencyGraph::new();
    once.depend_on(1, 2);
    once.depend_on(2, 3);
    once.depend_on(0, 3);
    let mut often = DependencyGraph::new();
    often.depend_on(1, 2);
    often.depend_on(1, 2);
    often.depend_on(2, 3);
    often.depend_on(1, 2);
    often.depend_on(0, 3);
    often.depend_on(0, 3);
    often.depend_on(2, 3);
    let layers = once.layers();
    assert_eq!(layers, Some(vec![vec![1, 0], vec![2], vec![3]]));
    assert_eq!(often.layers(), layers);
}

#[test]
fn counting_a_dependency_twice_would_block_the_successor() {
    let mut graph = DependencyGraph::new();
    for _ in 0..5 {
        graph.depend_on("make", "test");
    }
    assert_eq!(graph.sorted(), Some(vec!["make", "test"]));
}

#[test]
fn dependency_on_itself_changes_nothing() {
    let mut graph = DependencyGraph::new();
    graph.depend_on(5, 5);
    assert_eq!(graph.sorted(), Some(vec![]));
    let mut graph = DependencyGraph::new();
    graph.depend_on(1, 2);
    graph.depend_on(2, 2);
    graph.depend_on(1, 1);
    graph.depend_on(9, 9);
    assert_eq!(graph.layers(), Some(vec![vec![1], vec![2]]));
}

#[test]
fn every_dependency_points_forward_in_the_order() {
    let pairs = [(5, 2), (2, 9), (5, 9), (7, 2), (9, 1), (3, 1), (7, 3), (4, 7), (1, 8), (6, 8)];
    let mut graph = DependencyGraph::new();
    for (prec, succ) in pairs {
        graph.depend_on(prec, succ);
    }
    let order = graph.sorted().unwrap();
    assert_eq!(order.len(), 9);
    for (prec, succ) in pairs {
        let p = order.iter().position(|&v| v == prec).unwrap();
        let s = order.iter().position(|&v| v == succ).unwrap();
        assert!(p < s);
    }
    assert_eq!(order, vec![5, 4, 6, 7, 2, 3, 9, 1, 8]);
}
