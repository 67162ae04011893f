use grand_pattern::gossip::gossip_deliveries;
use grand_pattern::graph::Graph;

#[test]
fn murmurs_travel_along_edges_to_present_rooms() {
    let mut g = Graph::new();
    g.add_room(1);
    g.add_room(2);
    g.add_room(3);
    g.add_edge(1, 2, 1.0);
    g.add_edge(2, 1, 1.0);
    g.add_edge(2, 3, 0.5);
    g.add_edge(3, 9, 0.5);
    let plan = gossip_deliveries(&g, &vec![1, 2, 3]);
    assert_eq!(plan, vec![(1, 2), (2, 1), (2, 3)]);
}

#[test]
fn speaking_order_follows_the_room_list() {
    let mut g = Graph::new();
    g.add_room(1);
    g.add_room(2);
    g.add_edge(1, 2, 1.0);
    g.add_edge(2, 1, 1.0);
    assert_eq!(gossip_deliveries(&g, &vec![2, 1]), vec![(2, 1), (1, 2)]);
}

#[test]
fn isolated_rooms_hear_nothing() {
    let mut g: Graph<f64> = Graph::new();
    g.add_room(1);
    g.add_room(2);
    assert!(gossip_deliveries(&g, &vec![1, 2]).is_empty());
}

#[test]
fn parallel_edges_deliver_twice() {
    let mut g = Graph::new();
    g.add_room(1);
    g.add_room(2);
    g.add_edge(1, 2, 1.0);
    g.add_edge(1, 2, 2.0);
    assert_eq!(gossip_deliveries(&g, &vec![1, 2]), vec![(1, 2), (1, 2)]);
}

#[test]
fn a_room_hears_once_per_edge_into_it() {
    let mut g = Graph::new();
    g.add_room(1);
    g.add_room(2);
    g.add_room(3);
    g.add_edge(1, 3, 1.0);
    g.add_edge(2, 3, 1.0);
    g.add_edge(2, 3, 0.5);
    g.add_edge(3, 1, 0.5);
    let plan = gossip_deliveries(&g, &vec![1, 2, 3]);
    assert_eq!(plan.iter().filter(|p| p.1 == 3).count(), 3);
    assert_eq!(plan.iter().filter(|p| p.1 == 1).count(), 1);
    assert_eq!(plan.iter().filter(|p| p.1 == 2).count(), 0);
}
