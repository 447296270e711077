use graphs::graphs::{Graph, GraphEdge};

fn fixture() -> Graph {
    let mut graph = Graph::new();
    let mut i = 0;
    while i < 7 {
        graph.add();
        i += 1;
    }
    graph.connect(100, 0, 1, false);
    graph.connect(100, 0, 2, false);
    graph.connect(100, 1, 3, false);
    graph.connect(100, 2, 4, false);
    graph.connect(1000, 2, 5, false);
    graph.connect(2000, 4, 6, false);
    graph.connect(100, 5, 6, false);
    graph.connect(100, 5, 7, false);
    graph.connect(100, 6, 7, false);
    graph
}

#[test]
fn len_counts_adds_plus_initial_vertex() {
    let mut graph = Graph::new();
    assert_eq!(graph.len(), 1);
    for expected in 2..6 {
        graph.add();
        assert_eq!(graph.len(), expected);
    }
    // connecting vertices never changes the count
    graph.connect(7, 0, 4, false);
    assert_eq!(graph.len(), 5);
}

#[test]
fn never_empty_after_new() {
    let mut graph = Graph::new();
    assert!(!graph.is_empty());
    graph.add();
    graph.add();
    assert!(!graph.is_empty());
}

#[test]
fn connect_stores_record_on_both_endpoints() {
    let mut graph = Graph::new();
    graph.add();
    graph.connect(42, 0, 1, false);
    let expected = GraphEdge {
        value: 42,
        edges: (0, 1),
    };
    let on_sender = graph.vertices[0].edges.as_ref().unwrap();
    let on_receiver = graph.vertices[1].edges.as_ref().unwrap();
    assert!(on_sender.contains(&expected));
    assert!(on_receiver.contains(&expected));
}

#[test]
fn connect_inverted_swaps_endpoints() {
    let mut graph = Graph::new();
    graph.add();
    graph.connect(42, 0, 1, true);
    let expected = GraphEdge {
        value: 42,
        edges: (1, 0),
    };
    let on_sender = graph.vertices[0].edges.as_ref().unwrap();
    let on_receiver = graph.vertices[1].edges.as_ref().unwrap();
    assert!(on_sender.contains(&expected));
    assert!(on_receiver.contains(&expected));
}

#[test]
fn connect_never_deduplicates() {
    let mut graph = Graph::new();
    graph.add();
    graph.connect(3, 0, 1, false);
    graph.connect(3, 0, 1, false);
    assert_eq!(graph.vertices[0].edges.as_ref().unwrap().len(), 2);
    assert_eq!(graph.vertices[1].edges.as_ref().unwrap().len(), 2);
}

#[test]
fn connect_self_loop_appends_twice() {
    let mut graph = Graph::new();
    graph.add();
    graph.connect(9, 1, 1, false);
    let list = graph.vertices[1].edges.as_ref().unwrap();
    assert_eq!(list.len(), 2);
    let expected = GraphEdge {
        value: 9,
        edges: (1, 1),
    };
    assert_eq!(list[0], expected);
    assert_eq!(list[1], expected);
}

#[test]
fn bfs_start_vertex_distance_is_zero() {
    let graph = fixture();
    for start in 0..8 {
        let distance = graph.breadth_first_search(start);
        assert_eq!(distance[start], 0);
    }
}

#[test]
fn bfs_on_single_vertex_graph() {
    let graph = Graph::new();
    assert_eq!(graph.breadth_first_search(0), vec![0]);
    assert_eq!(graph.dijkstra(0), vec![0]);
}

#[test]
fn read_only_queries_are_idempotent() {
    let graph = fixture();
    assert_eq!(graph.len(), graph.len());
    assert_eq!(graph.is_empty(), graph.is_empty());
    assert_eq!(graph.breadth_first_search(0), graph.breadth_first_search(0));
    assert_eq!(graph.breadth_first_search(2), graph.breadth_first_search(2));
    assert_eq!(graph.dijkstra(0), graph.dijkstra(0));
    assert_eq!(graph.dijkstra(2), graph.dijkstra(2));
}

#[test]
fn default_graph_matches_new() {
    let graph = Graph::default();
    assert_eq!(graph.len(), 1);
    assert_eq!(graph.vertices[0].index, 0);
    assert!(graph.vertices[0].edges.is_none());
}

#[test]
fn dijkstra_relaxed_edges_hold_at_completion() {
    // every record leaving a reached vertex towards another vertex ends with
    // a target distance at most the record's weight plus the source's
    let graph = fixture();
    let d = graph.dijkstra(0);
    for v in 0..graph.len() {
        if v == 0 || d[v] != 0 {
            if let Some(es) = graph.vertices[v].edges.as_ref() {
                for e in es {
                    if e.edges.0 == v && e.edges.1 != v {
                        assert!(d[e.edges.1] != 0);
                        assert!(d[e.edges.1] <= e.value + d[v]);
                    }
                }
            }
        }
    }
}
