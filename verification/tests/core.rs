use cascade::graph::{Graph, GraphDesc, NodeDesc, TopologyError};
use cascade::mat::Mat;
use cascade::node::{NADVec, Node, NodeStatusTracker};

#[test]
fn mat_test() {
    let node_count = 5;
    let mut tracker = NodeStatusTracker::new(node_count);
    let mut mat_i32 = Mat::<i32>::new(node_count, 0);

    for i in 0..node_count {
        assert!(mat_i32.get(Node::new(i as u32), Node::new(i as u32)).is_none());
    }

    for i in 0..node_count {
        for j in 0..node_count {
            if i != j {
                let idx = (i * node_count + j) as i32;
                mat_i32.write(Node::new(i as u32), Node::new(j as u32), idx);
                assert_eq!(
                    mat_i32.get(Node::new(i as u32), Node::new(j as u32)).unwrap(),
                    idx
                );
            }
        }
    }

    let deleted = &[Node::new(2), Node::new(4)];
    for &node in deleted.iter() {
        tracker.delete(node);
        mat_i32.delete(&tracker, node);
    }

    assert_eq!(
        tracker.iter_alive().into_vec(),
        vec![Node::new(0), Node::new(1), Node::new(3)]
    );

    for node in tracker.iter_alive().into_vec() {
        assert_eq!(mat_i32.get(node, deleted[0]).unwrap(), 0);
        assert_eq!(mat_i32.get(node, deleted[1]).unwrap(), 0);
    }
}

#[test]
fn alive_node_iter() {
    let mut tracker = NodeStatusTracker::new(10);
    tracker.delete(Node::new(0));
    tracker.delete(Node::new(1));
    tracker.delete(Node::new(2));
    tracker.delete(Node::new(5));
    tracker.delete(Node::new(8));

    let alive = vec![
        Node::new(3),
        Node::new(4),
        Node::new(6),
        Node::new(7),
        Node::new(9),
    ];
    for node in alive.iter() {
        assert!(tracker.is_alive(*node));
    }

    assert_eq!(tracker.iter_alive().count(), alive.len());
    assert_eq!(alive, tracker.iter_alive().into_vec());
}

#[test]
fn test_graph_desc() {
    let desc = GraphDesc::example();
    let graph = Graph::from_desc(&desc).unwrap();
    for NodeDesc { node_id: i, nodes } in desc.nodes().iter() {
        for j in nodes.iter() {
            assert!(graph.is_adjacent(Node::new(*i), Node::new(*j)));
            assert!(graph.is_adjacent(Node::new(*j), Node::new(*i)));
        }
    }
}

// The alive iterator yields strictly ascending indices and its count
// always equals the tracker's alive count.
#[test]
fn alive_iter_ascending_and_counted() {
    let mut tracker = NodeStatusTracker::new(7);
    assert_eq!(tracker.iter_alive().count(), 7);
    tracker.delete(Node::new(6));
    tracker.delete(Node::new(0));
    tracker.delete(Node::new(3));
    let listing = tracker.iter_alive().into_vec();
    assert_eq!(listing.len(), tracker.alive());
    for w in listing.windows(2) {
        assert!(w[0].idx() < w[1].idx());
    }
    let excluded = tracker.iter_alive().exclude(Node::new(4)).into_vec();
    assert_eq!(excluded, vec![Node::new(1), Node::new(2), Node::new(5)]);
}

// The pair matrix never returns a value for a self-pair.
#[test]
fn diagonal_is_inaccessible() {
    let mat = Mat::<bool>::new(4, false);
    for i in 0..4u32 {
        assert!(mat.get(Node::new(i), Node::new(i)).is_none());
    }
    let row = mat.row(Node::new(2));
    assert!(row.get(Node::new(2)).is_none());
    assert_eq!(row.get(Node::new(1)), Some(false));
    let mut it = row.iter();
    let mut yielded = 0;
    while it.next().is_some() {
        yielded += 1;
    }
    assert_eq!(yielded, 3);
}

#[test]
fn nad_vec_round_trip() {
    let tracker = NodeStatusTracker::new(4);
    let mut values = NADVec::new(&tracker, 0i64);
    values.set_at(Node::new(2), 7);
    assert_eq!(values.at(Node::new(2)), 7);
    assert_eq!(values.at(Node::new(1)), 0);
    let gathered = values.iter(&tracker);
    assert_eq!(gathered, vec![0, 0, 7, 0]);
    let without = values.iter_exclude(&tracker, Node::new(2));
    assert_eq!(without, vec![0, 0, 0]);
}

#[test]
fn rejects_self_loop() {
    let desc = GraphDesc {
        nodes: vec![
            NodeDesc { node_id: 0, nodes: vec![0] },
            NodeDesc { node_id: 1, nodes: vec![] },
        ],
    };
    assert_eq!(Graph::from_desc(&desc).unwrap_err(), TopologyError::SelfLoop);
}

#[test]
fn rejects_out_of_range_neighbour() {
    let desc = GraphDesc {
        nodes: vec![NodeDesc { node_id: 0, nodes: vec![5] }],
    };
    assert_eq!(Graph::from_desc(&desc).unwrap_err(), TopologyError::OutOfRange);
}

#[test]
fn rejects_oversized_universe() {
    let mut nodes = Vec::new();
    for id in 0..2049u32 {
        nodes.push(NodeDesc { node_id: id, nodes: vec![] });
    }
    let desc = GraphDesc { nodes };
    assert_eq!(Graph::from_desc(&desc).unwrap_err(), TopologyError::TooLarge);
}

#[test]
fn empty_topology_builds() {
    let desc = GraphDesc { nodes: vec![] };
    let mut graph = Graph::from_desc(&desc).unwrap();
    assert_eq!(graph.node_count(), 0);
    assert_eq!(graph.alive(), 0);
    assert!(graph.update_paths().is_some());
}

#[test]
fn delete_erases_row_and_column() {
    let desc = GraphDesc {
        nodes: vec![
            NodeDesc { node_id: 0, nodes: vec![1, 2] },
            NodeDesc { node_id: 1, nodes: vec![2] },
            NodeDesc { node_id: 2, nodes: vec![] },
        ],
    };
    let mut graph = Graph::from_desc(&desc).unwrap();
    assert!(graph.is_adjacent(Node::new(0), Node::new(1)));
    graph.delete(Node::new(1));
    // incoming column gone
    assert!(!graph.is_adjacent(Node::new(0), Node::new(1)));
    assert!(!graph.is_adjacent(Node::new(2), Node::new(1)));
    // outgoing row gone: no edge through the dead node is visible
    assert!(!graph.is_adjacent(Node::new(1), Node::new(0)));
    assert!(!graph.is_adjacent(Node::new(1), Node::new(2)));
    assert!(graph.is_adjacent(Node::new(0), Node::new(2)));
    assert_eq!(graph.alive(), 2);
}
