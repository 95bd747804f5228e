use lau_cudaclaw_bridge::{GpuAvailability, Graph, GraphBridge};

fn no_gpu() -> GpuAvailability {
    GpuAvailability::from_env_flag(false)
}

#[test]
fn test_graph_new() {
    let g = Graph::new(5);
    assert_eq!(g.node_count, 5);
    assert!(g.adjacency.iter().all(|v| v.is_empty()));
}

#[test]
fn test_graph_add_edge() {
    let mut g = Graph::new(3);
    g.add_edge(0, 1);
    assert!(g.adjacency[0].contains(&1));
    assert!(g.adjacency[1].contains(&0));
}

#[test]
fn test_graph_add_directed_edge() {
    let mut g = Graph::new(3);
    g.add_directed_edge(0, 1);
    assert!(g.adjacency[0].contains(&1));
    assert!(!g.adjacency[1].contains(&0));
}

#[test]
fn test_graph_add_edge_out_of_bounds() {
    let mut g = Graph::new(2);
    g.add_edge(0, 5);
    assert!(g.adjacency[0].is_empty());
}

#[test]
fn test_graph_add_self_loop_lists_twice() {
    let mut g = Graph::new(2);
    g.add_edge(1, 1);
    assert_eq!(g.adjacency[1], vec![1, 1]);
    assert_eq!(g.edge_count(), 2);
}

#[test]
fn test_graph_bfs() {
    let mut g = Graph::new(4);
    g.add_edge(0, 1);
    g.add_edge(1, 2);
    g.add_edge(2, 3);
    let order = g.bfs(0);
    assert_eq!(order.len(), 4);
    assert_eq!(order[0], 0);
}

#[test]
fn test_graph_bfs_disconnected() {
    let mut g = Graph::new(4);
    g.add_edge(0, 1);
    // 2, 3 disconnected
    let order = g.bfs(0);
    assert_eq!(order.len(), 2);
}

#[test]
fn test_graph_bfs_invalid_start() {
    let g = Graph::new(3);
    let order = g.bfs(10);
    assert!(order.is_empty());
}

#[test]
fn test_graph_bfs_discovery_order() {
    // 0 lists 3 then 1; 1 lists 2; 3 lists 4: discovery order 0, 3, 1, 4, 2
    let mut g = Graph::new(5);
    g.add_directed_edge(0, 3);
    g.add_directed_edge(0, 1);
    g.add_directed_edge(1, 2);
    g.add_directed_edge(3, 4);
    g.add_directed_edge(4, 0);
    assert_eq!(g.bfs(0), vec![0, 3, 1, 4, 2]);
    assert_eq!(g.bfs(4), vec![4, 0, 3, 1, 2]);
}

#[test]
fn test_graph_bfs_layers_do_not_go_back() {
    // a square with a tail: distances from 0 never decrease along the order
    let mut g = Graph::new(5);
    g.add_edge(0, 1);
    g.add_edge(0, 2);
    g.add_edge(1, 3);
    g.add_edge(2, 3);
    g.add_edge(3, 4);
    let order = g.bfs(0);
    let dist = g.shortest_paths(0);
    assert_eq!(order, vec![0, 1, 2, 3, 4]);
    for w in order.windows(2) {
        assert!(dist[w[0]].unwrap() <= dist[w[1]].unwrap());
    }
}

#[test]
fn test_graph_shortest_paths() {
    let mut g = Graph::new(4);
    g.add_edge(0, 1);
    g.add_edge(1, 2);
    g.add_edge(2, 3);
    let dists = g.shortest_paths(0);
    assert_eq!(dists[0], Some(0));
    assert_eq!(dists[1], Some(1));
    assert_eq!(dists[2], Some(2));
    assert_eq!(dists[3], Some(3));
}

#[test]
fn test_graph_shortest_paths_takes_the_shortcut() {
    let mut g = Graph::new(5);
    g.add_edge(0, 1);
    g.add_edge(1, 2);
    g.add_edge(2, 3);
    g.add_edge(0, 3);
    let dists = g.shortest_paths(0);
    assert_eq!(dists, vec![Some(0), Some(1), Some(2), Some(1), None]);
}

#[test]
fn test_graph_shortest_paths_invalid_start() {
    let mut g = Graph::new(3);
    g.add_edge(0, 1);
    assert_eq!(g.shortest_paths(7), vec![None, None, None]);
}

#[test]
fn test_graph_bfs_matches_distances() {
    let mut g = Graph::new(6);
    g.add_edge(0, 1);
    g.add_directed_edge(1, 2);
    g.add_directed_edge(3, 0);
    g.add_edge(4, 5);
    let order = g.bfs(0);
    let dist = g.shortest_paths(0);
    for v in 0..6 {
        assert_eq!(order.contains(&v), dist[v].is_some());
    }
}

#[test]
fn test_graph_edge_count() {
    let mut g = Graph::new(3);
    g.add_edge(0, 1);
    g.add_edge(1, 2);
    assert_eq!(g.edge_count(), 4); // undirected: each edge counted twice
}

#[test]
fn test_graph_edge_count_directed() {
    let mut g = Graph::new(3);
    g.add_directed_edge(0, 1);
    g.add_directed_edge(2, 1);
    g.add_directed_edge(2, 9);
    assert_eq!(g.edge_count(), 2);
}

#[test]
fn test_graph_bridge_bfs() {
    let bridge = GraphBridge::new(&no_gpu());
    let mut g = Graph::new(3);
    g.add_edge(0, 1);
    g.add_edge(1, 2);
    let order = bridge.dispatch_bfs(&g, 0);
    assert_eq!(order.len(), 3);
}

#[test]
fn test_graph_bridge_shortest_paths() {
    let bridge = GraphBridge::new(&no_gpu());
    let mut g = Graph::new(3);
    g.add_edge(0, 1);
    assert_eq!(bridge.dispatch_shortest_paths(&g, 1), vec![Some(1), Some(0), None]);
}
