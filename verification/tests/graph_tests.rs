use std::collections::HashMap;

use legato::{AudioGraph, Connection, ConnectionEntry, GraphError, NodeKey, PortRate};

fn conn(a: NodeKey, b: NodeKey) -> Connection {
    Connection {
        source: ConnectionEntry { node_key: a, port_index: 0, port_rate: PortRate::Audio },
        sink: ConnectionEntry { node_key: b, port_index: 0, port_rate: PortRate::Audio },
    }
}

fn assert_is_valid_topo(g: &mut AudioGraph<u32>, keys: &[NodeKey]) {
    let order = g.invalidate_topo_sort().expect("Could not get topo order");

    let pos: HashMap<NodeKey, usize> =
        HashMap::<NodeKey, usize>::from_iter(order.iter().enumerate().map(|(i, v)| (*v, i)));

    for src in keys {
        if let Some(outs) = g.outgoing_connections(*src) {
            for con in outs.iter() {
                let i = *pos.get(src).expect("missing src");
                let j = *pos.get(&con.sink.node_key).expect("missing sink");
                assert!(i < j, "edge violates topological order");
            }
        }
    }
}

#[test]
fn test_topo_sort_simple_chain() {
    let mut graph: AudioGraph<u32> = AudioGraph::with_capacity(3);

    let a = graph.add_node(0);
    let b = graph.add_node(1);
    let c = graph.add_node(2);

    graph.add_edge(conn(a, b)).unwrap();
    graph.add_edge(conn(b, c)).unwrap();

    assert_is_valid_topo(&mut graph, &[a, b, c]);
}

#[test]
fn test_remove_edges() {
    let mut graph = AudioGraph::<u32>::with_capacity(3);

    let a = graph.add_node(0);
    let b = graph.add_node(1);
    let c = graph.add_node(2);

    let e1 = graph.add_edge(conn(a, b)).expect("Could not add e1");
    let e2 = graph.add_edge(conn(b, c)).expect("Could not add e2");

    // Sanity
    assert!(graph.incoming_connections(b).expect("Node should exist!").contains(&e1));
    assert!(graph.incoming_connections(c).expect("Node should exist!").contains(&e2));

    graph.remove_edge(e1).unwrap();
    graph.remove_edge(e2).unwrap();

    assert!(!graph.incoming_connections(b).expect("Node should exist!").contains(&e1));
    assert!(!graph.incoming_connections(c).expect("Node should exist!").contains(&e2));
}

#[test]
fn test_larger_graph_parallel_inputs() {
    let mut graph = AudioGraph::<u32>::with_capacity(5);

    let a = graph.add_node(0);
    let b = graph.add_node(1);
    let c = graph.add_node(2);
    let d = graph.add_node(3);
    let e = graph.add_node(4);

    graph.add_edge(conn(a, b)).unwrap();
    graph.add_edge(conn(b, c)).unwrap();
    graph
        .add_edge(Connection {
            source: ConnectionEntry { node_key: d, port_index: 0, port_rate: PortRate::Audio },
            sink: ConnectionEntry { node_key: c, port_index: 1, port_rate: PortRate::Audio },
        })
        .unwrap();
    graph.add_edge(conn(c, e)).unwrap();

    assert_is_valid_topo(&mut graph, &[a, b, c, d, e]);
}

#[test]
fn test_cycle_detection_two_node_cycle() {
    let mut graph = AudioGraph::<u32>::with_capacity(2);
    let a = graph.add_node(0);
    let b = graph.add_node(1);

    graph.add_edge(conn(a, b)).unwrap();
    // Should return error from cycle
    let _ = graph.add_edge(conn(b, a));

    let res = graph.invalidate_topo_sort();
    assert_eq!(res, Err(GraphError::CycleDetected));
}

#[test]
fn test_cycle_detection_self_loop() {
    let mut graph = AudioGraph::<u32>::with_capacity(1);
    let a = graph.add_node(0);
    let res = graph.add_edge(conn(a, a));
    assert_eq!(res, Err(GraphError::CycleDetected));
}

#[test]
fn single_node_order() {
    let mut graph = AudioGraph::<u32>::with_capacity(1);
    let a = graph.add_node(0);

    assert_eq!(*graph.topo_order(), vec![a])
}

#[test]
fn test_remove_node_cleans_edges_and_topo() {
    let mut graph = AudioGraph::<u32>::with_capacity(3);
    let a = graph.add_node(0);
    let b = graph.add_node(1);
    let c = graph.add_node(2);

    graph.add_edge(conn(a, b)).unwrap();
    graph.add_edge(conn(b, c)).unwrap();

    let _ = graph.remove_node(b).expect("node existed");

    assert_is_valid_topo(&mut graph, &[a, c]);

    assert!(graph.incoming_connections(b).is_none());
    assert!(graph.outgoing_connections(b).is_none());
}

#[test]
fn test_add_edge_rejects_missing_endpoints() {
    let mut graph = AudioGraph::<u32>::with_capacity(2);
    let a = graph.add_node(0);

    // Add a bad key, should throw error when we add an edge
    let nonexistent_key = {
        let temp = graph.add_node(1);
        let _ = graph.remove_node(temp);
        temp
    };
    let res = graph.add_edge(conn(a, nonexistent_key));
    assert_eq!(res.unwrap_err(), GraphError::BadConnection);
}

#[test]
fn test_rate_mismatch_rejected() {
    let mut graph = AudioGraph::<u32>::with_capacity(2);
    let a = graph.add_node(0);
    let b = graph.add_node(1);
    let res = graph.add_edge(Connection {
        source: ConnectionEntry { node_key: a, port_index: 0, port_rate: PortRate::Audio },
        sink: ConnectionEntry { node_key: b, port_index: 0, port_rate: PortRate::Control },
    });
    assert_eq!(res, Err(GraphError::BadConnection));
}

#[test]
fn test_duplicate_sink_port_rejected() {
    let mut graph = AudioGraph::<u32>::with_capacity(3);
    let a = graph.add_node(0);
    let b = graph.add_node(1);
    let c = graph.add_node(2);
    graph.add_edge(conn(a, c)).unwrap();
    // Another wire into the same sink port is refused.
    let res = graph.add_edge(conn(b, c));
    assert_eq!(res, Err(GraphError::BadConnection));
    // A wire into a different sink port of the same node is fine.
    let res2 = graph.add_edge(Connection {
        source: ConnectionEntry { node_key: b, port_index: 0, port_rate: PortRate::Audio },
        sink: ConnectionEntry { node_key: c, port_index: 1, port_rate: PortRate::Audio },
    });
    assert!(res2.is_ok());
}

#[test]
fn test_handles_not_reused() {
    let mut graph = AudioGraph::<u32>::with_capacity(2);
    let a = graph.add_node(7);
    let removed = graph.remove_node(a);
    assert_eq!(removed, Some(7));
    let b = graph.add_node(8);
    assert_ne!(a, b);
    assert!(graph.get_node(a).is_none());
    assert_eq!(graph.get_node(b), Some(&8));
    assert_eq!(graph.len(), 1);
}

#[test]
fn topo_sort_is_deterministic() {
    let build = || {
        let mut g = AudioGraph::<u32>::with_capacity(4);
        let a = g.add_node(0);
        let b = g.add_node(1);
        let c = g.add_node(2);
        let d = g.add_node(3);
        g.add_edge(conn(a, b)).unwrap();
        g.add_edge(Connection {
            source: ConnectionEntry { node_key: d, port_index: 0, port_rate: PortRate::Audio },
            sink: ConnectionEntry { node_key: b, port_index: 1, port_rate: PortRate::Audio },
        })
        .unwrap();
        g.add_edge(conn(b, c)).unwrap();
        g
    };
    let mut g1 = build();
    let mut g2 = build();
    let o1 = g1.invalidate_topo_sort().unwrap();
    let o2 = g2.invalidate_topo_sort().unwrap();
    assert_eq!(o1, o2);
    // repeated sorts of an unchanged graph return the same order
    assert_eq!(o1, g1.invalidate_topo_sort().unwrap());
    // seeds come in insertion order, discovered nodes after them
    assert_eq!(o1, *g1.topo_order());
}
