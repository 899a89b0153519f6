use machete::csharp::build_graph;
use machete::graph::Graph;

#[test]
fn indices_follow_insertion_order() {
    let mut g: Graph<&str, u32> = Graph::new();
    assert_eq!(g.add_node("a"), 0);
    assert_eq!(g.add_node("b"), 1);
    assert_eq!(g.add_node("c"), 2);
    assert_eq!(g.add_edge(0, 1, 7), 0);
    assert_eq!(g.add_edge(1, 1, 8), 1);
    assert_eq!(g.add_edge(0, 1, 9), 2);
    assert_eq!(g.node_count(), 3);
    assert_eq!(g.edge_count(), 3);
    assert_eq!(*g.node_data(2), "c");
    assert_eq!((g.edge(1).source(), g.edge(1).target()), (1, 1));
    assert_eq!((g.edge(2).source(), g.edge(2).target()), (0, 1));
}

#[test]
fn new_graph_is_empty() {
    let g: Graph<String, ()> = Graph::new();
    assert_eq!(g.node_count(), 0);
    assert_eq!(g.edge_count(), 0);
}

#[test]
fn build_graph_links_mentioned_names() {
    let map = vec![
        ("A".to_string(), vec!["B".to_string(), "A".to_string()]),
        ("B".to_string(), vec!["z".to_string()]),
    ];
    let g = build_graph(&map);
    assert_eq!(g.node_count(), 2);
    assert_eq!(g.node_data(0), "A");
    assert_eq!(g.node_data(1), "B");
    let mut edges: Vec<(usize, usize)> = (0..g.edge_count()).map(|e| (g.edge(e).source(), g.edge(e).target())).collect();
    edges.sort();
    assert_eq!(edges, vec![(0, 0), (0, 1)]);
}
