use grand_pattern::graph::Graph;

#[test]
fn test_graph_construction() {
    let mut g = Graph::new();
    g.add_room(1);
    g.add_room(2);
    g.add_room(3);
    g.add_edge(1, 2, 0.8);
    g.add_edge(2, 3, 0.5);
    g.add_edge(1, 3, 0.3);
    assert_eq!(g.room_count(), 3);
    assert_eq!(g.edge_count(), 3);
    let n1 = g.neighbors(1);
    assert_eq!(n1.len(), 2);
}

#[test]
fn test_graph_duplicate_room() {
    let mut g: Graph<f64> = Graph::new();
    g.add_room(42);
    g.add_room(42);
    assert_eq!(g.room_count(), 1);
}

#[test]
fn neighbors_follow_insertion_order_with_weights() {
    let mut g = Graph::new();
    g.add_room(1);
    g.add_room(2);
    g.add_room(3);
    g.add_edge(1, 2, 0.8);
    g.add_edge(2, 3, 0.5);
    g.add_edge(1, 3, 0.3);
    assert_eq!(g.neighbors(1), vec![(2, 0.8), (3, 0.3)]);
    assert_eq!(g.neighbors(2), vec![(3, 0.5)]);
    assert_eq!(g.neighbors(3), vec![]);
}

#[test]
fn neighbors_of_unknown_room_is_empty() {
    let g: Graph<f64> = Graph::new();
    assert!(g.neighbors(7).is_empty());
}

#[test]
fn edge_from_unregistered_room_is_listed() {
    let mut g = Graph::new();
    g.add_edge(5, 6, 1.5);
    assert_eq!(g.room_count(), 0);
    assert_eq!(g.neighbors(5), vec![(6, 1.5)]);
}

#[test]
fn registering_a_room_after_its_edges_keeps_its_list() {
    let mut g = Graph::new();
    g.add_edge(5, 6, 1.5);
    g.add_room(5);
    assert_eq!(g.edge_count(), 1);
    assert_eq!(g.neighbors(5), vec![(6, 1.5)]);
}

#[test]
fn add_room_keeps_adjacency_already_recorded() {
    let mut g = Graph::new();
    g.add_edge(1, 2, 0.5);
    g.add_room(1);
    assert_eq!(g.rooms, vec![1]);
    assert_eq!(g.edge_count(), 1);
    assert_eq!(g.neighbors(1), vec![(2, 0.5)]);
}

#[test]
fn neighbors_list_every_edge_leaving_a_room() {
    let mut g = Graph::new();
    g.add_edge(1, 2, 0.1);
    g.add_room(1);
    g.add_room(2);
    g.add_edge(2, 1, 0.2);
    g.add_edge(1, 3, 0.3);
    g.add_room(1);
    g.add_edge(1, 2, 0.4);
    let expected: Vec<(u64, f64)> =
        g.edges.iter().filter(|e| e.from == 1).map(|e| (e.to, e.weight)).collect();
    assert_eq!(g.neighbors(1), expected);
    assert_eq!(g.neighbors(1), vec![(2, 0.1), (3, 0.3), (2, 0.4)]);
}

#[test]
fn connecting_both_ways_lets_each_room_see_the_other() {
    let mut g = Graph::new();
    g.add_room(1);
    g.add_room(2);
    g.add_edge(1, 2, 0.9);
    g.add_edge(2, 1, 0.9);
    assert_eq!(g.edge_count(), 2);
    assert_eq!(g.neighbors(1), vec![(2, 0.9)]);
    assert_eq!(g.neighbors(2), vec![(1, 0.9)]);
}

#[test]
fn default_graph_is_empty() {
    let g: Graph<f64> = Default::default();
    assert_eq!(g.room_count(), 0);
    assert_eq!(g.edge_count(), 0);
}
