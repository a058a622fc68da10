use dataflow::sync_graph::{Edge, Error, Graph, InPortID, Node, NodeID, NodeType, OutPortID};

#[test]
fn nodes_get_ids_in_order() {
    let mut g = Graph::new();
    assert_eq!(g.add_node(1, 2), NodeID(0));
    assert_eq!(g.add_node(0, 0), NodeID(1));
    assert_eq!(g.num_nodes(), 2);
    let n = g.node(NodeID(0)).unwrap();
    assert_eq!(n.in_ports().len(), 1);
    assert_eq!(n.out_ports().len(), 2);
    assert_eq!(n.out_ports()[1].id(), OutPortID(1));
    assert!(matches!(g.node(NodeID(5)), Err(Error::InvalidNode)));
}

#[test]
fn node_type_follows_the_ports() {
    let mut g = Graph::new();
    let src = g.add_node(0, 1);
    let sink = g.add_node(1, 0);
    let internal = g.add_node(1, 1);
    let observer = g.add_node(0, 0);
    assert_eq!(g.node(src).unwrap().node_type(), NodeType::Source);
    assert_eq!(g.node(sink).unwrap().node_type(), NodeType::Sink);
    assert_eq!(g.node(internal).unwrap().node_type(), NodeType::Internal);
    assert_eq!(g.node(observer).unwrap().node_type(), NodeType::Observer);
    assert!(g.node(internal).unwrap().has_inputs());
    assert!(!g.node(src).unwrap().has_inputs());
    assert!(g.node(src).unwrap().has_outputs());
}

#[test]
fn connect_records_both_ends() {
    let mut g = Graph::new();
    let a = g.add_node(0, 1);
    let b = g.add_node(1, 0);
    g.connect(a, OutPortID(0), b, InPortID(0)).unwrap();
    let out = g.node(a).unwrap().out_port(OutPortID(0)).unwrap().edge().unwrap();
    assert_eq!(out.node, b);
    assert_eq!(out.port, InPortID(0));
    let inp = g.node(b).unwrap().in_port(InPortID(0)).unwrap().edge().unwrap();
    assert_eq!(inp.node, a);
    assert_eq!(inp.port, OutPortID(0));
}

#[test]
fn connect_refuses_bad_ids_and_taken_ports() {
    let mut g = Graph::new();
    let a = g.add_node(0, 1);
    let b = g.add_node(1, 0);
    assert_eq!(g.connect(a, OutPortID(0), NodeID(9), InPortID(0)), Err(Error::InvalidNode));
    assert_eq!(g.connect(a, OutPortID(0), b, InPortID(3)), Err(Error::InvalidPort));
    assert_eq!(g.connect(NodeID(9), OutPortID(0), b, InPortID(0)), Err(Error::InvalidNode));
    assert_eq!(g.connect(a, OutPortID(4), b, InPortID(0)), Err(Error::InvalidPort));
    g.connect(a, OutPortID(0), b, InPortID(0)).unwrap();
    assert_eq!(g.connect(a, OutPortID(0), b, InPortID(0)), Err(Error::Connected));
}

#[test]
fn disconnect_clears_both_ends() {
    let mut g = Graph::new();
    let a = g.add_node(0, 1);
    let b = g.add_node(1, 0);
    g.connect(a, OutPortID(0), b, InPortID(0)).unwrap();
    g.disconnect_in(b, InPortID(0)).unwrap();
    assert!(!g.node(a).unwrap().out_port(OutPortID(0)).unwrap().edge().is_some());
    assert!(!g.node(b).unwrap().in_port(InPortID(0)).unwrap().edge().is_some());
    assert_eq!(g.disconnect_in(b, InPortID(0)), Err(Error::NotConnected));
    g.connect(a, OutPortID(0), b, InPortID(0)).unwrap();
    g.disconnect_out(a, OutPortID(0)).unwrap();
    assert!(!g.node(b).unwrap().in_port(InPortID(0)).unwrap().edge().is_some());
    assert_eq!(g.disconnect_out(a, OutPortID(0)), Err(Error::NotConnected));
    assert_eq!(g.disconnect_out(a, OutPortID(7)), Err(Error::InvalidPort));
    assert_eq!(g.disconnect_in(NodeID(7), InPortID(0)), Err(Error::InvalidNode));
}

#[test]
fn connect_all_pairs_ports_by_position() {
    let mut g = Graph::new();
    let a = g.add_node(0, 3);
    let b = g.add_node(3, 0);
    let c = g.add_node(2, 0);
    assert_eq!(g.connect_all(a, c), Err(Error::SizeMismatch));
    g.connect_all(a, b).unwrap();
    for i in 0..3 {
        let e = g.node(a).unwrap().out_port(OutPortID(i)).unwrap().edge().unwrap();
        assert_eq!(e.node, b);
        assert_eq!(e.port, InPortID(i));
    }
}

#[test]
fn connect_n_stops_at_the_first_failure() {
    let mut g = Graph::new();
    let a = g.add_node(0, 3);
    let b = g.add_node(3, 0);
    g.connect(a, OutPortID(1), b, InPortID(1)).unwrap();
    assert_eq!(g.connect_n(a, OutPortID(0), b, InPortID(0), 3), Err(Error::Connected));
    assert!(g.node(a).unwrap().out_port(OutPortID(0)).unwrap().edge().is_some());
    assert!(!g.node(a).unwrap().out_port(OutPortID(2)).unwrap().edge().is_some());
    g.connect_n(a, OutPortID(2), b, InPortID(2), 1).unwrap();
    assert!(g.node(b).unwrap().in_port(InPortID(2)).unwrap().edge().is_some());
}

#[test]
fn remove_node_clears_edges_to_it() {
    let mut g = Graph::new();
    let a = g.add_node(0, 1);
    let b = g.add_node(1, 0);
    let c = g.add_node(0, 0);
    g.connect(a, OutPortID(0), b, InPortID(0)).unwrap();
    g.remove_node(b).unwrap();
    assert_eq!(g.num_nodes(), 2);
    assert!(!g.node(a).unwrap().out_port(OutPortID(0)).unwrap().edge().is_some());
    assert!(g.node(c).is_ok());
    assert_eq!(g.remove_node(b), Err(Error::InvalidNode));
}

#[test]
fn ports_grow_and_shrink() {
    let mut g = Graph::new();
    let a = g.add_node(0, 0);
    let b = g.add_node(0, 0);
    assert_eq!(g.push_out_port(a), Ok(OutPortID(0)));
    assert_eq!(g.push_in_port(b), Ok(InPortID(0)));
    assert_eq!(g.push_in_port(b), Ok(InPortID(1)));
    g.connect(a, OutPortID(0), b, InPortID(1)).unwrap();
    g.pop_in_port(b).unwrap();
    assert_eq!(g.node(b).unwrap().in_ports().len(), 1);
    assert!(!g.node(a).unwrap().out_port(OutPortID(0)).unwrap().edge().is_some());
    g.pop_out_port(a).unwrap();
    assert_eq!(g.node(a).unwrap().out_ports().len(), 0);
    assert_eq!(g.pop_out_port(a), Ok(()));
    assert_eq!(g.push_in_port(NodeID(9)), Err(Error::InvalidNode));
}

#[test]
fn flush_and_abort_flags() {
    let mut g = Graph::new();
    let a = g.add_node(2, 0);
    g.flush(a).unwrap();
    assert!(!g.node(a).unwrap().aborting());
    g.set_aborting(a, true).unwrap();
    assert!(g.node(a).unwrap().aborting());
    assert_eq!(g.set_aborting(NodeID(3), true), Err(Error::InvalidNode));
    assert!(!g.node(a).unwrap().attached());
}

#[test]
fn edges_and_port_names() {
    let e = Edge::new(NodeID(2), InPortID(3));
    assert_eq!(e.node, NodeID(2));
    assert_eq!(e.port, InPortID(3));
    let mut g = Graph::new();
    let a = g.add_node(1, 0);
    assert_eq!(g.node(a).unwrap().in_port(InPortID(0)).unwrap().name(), "");
}

fn in_port(id: usize, edge: Option<(usize, usize)>) -> dataflow::sync_graph::InPort {
    dataflow::sync_graph::InPort::new(InPortID(id), edge.map(|(n, p)| Edge::new(NodeID(n), OutPortID(p))))
}

fn out_port(id: usize, edge: Option<(usize, usize)>) -> dataflow::sync_graph::OutPort {
    dataflow::sync_graph::OutPort::new(OutPortID(id), edge.map(|(n, p)| Edge::new(NodeID(n), InPortID(p))))
}

#[test]
fn from_ports_wants_ports_numbered_by_position() {
    assert!(matches!(Node::from_ports(NodeID(0), vec![in_port(1, None)], vec![]), Err(Error::InvalidPort)));
    assert!(matches!(Node::from_ports(NodeID(0), vec![], vec![out_port(0, None), out_port(0, None)]), Err(Error::InvalidPort)));
    let n = Node::from_ports(NodeID(4), vec![in_port(0, None)], vec![out_port(0, None)]).unwrap();
    assert_eq!(n.id(), NodeID(4));
    assert_eq!(n.node_type(), NodeType::Internal);
}

#[test]
fn from_nodes_rebuilds_a_consistent_graph() {
    let a = Node::from_ports(NodeID(3), vec![], vec![out_port(0, Some((5, 0)))]).unwrap();
    let b = Node::from_ports(NodeID(5), vec![in_port(0, Some((3, 0)))], vec![]).unwrap();
    let mut g = Graph::from_nodes(6, vec![a, b]).unwrap();
    assert_eq!(g.id_counter(), 6);
    assert_eq!(g.num_nodes(), 2);
    g.disconnect_in(NodeID(5), InPortID(0)).unwrap();
    assert!(g.node(NodeID(3)).unwrap().out_port(OutPortID(0)).unwrap().edge().is_none());
    assert_eq!(g.add_node(0, 0), NodeID(6));
}

#[test]
fn from_nodes_refuses_inconsistent_graphs() {
    let twice = vec![
        Node::from_ports(NodeID(1), vec![], vec![]).unwrap(),
        Node::from_ports(NodeID(1), vec![], vec![]).unwrap(),
    ];
    assert!(matches!(Graph::from_nodes(5, twice), Err(Error::InvalidNode)));
    let high = vec![Node::from_ports(NodeID(7), vec![], vec![]).unwrap()];
    assert!(matches!(Graph::from_nodes(7, high), Err(Error::InvalidNode)));
    let one_sided = vec![
        Node::from_ports(NodeID(0), vec![], vec![out_port(0, Some((1, 0)))]).unwrap(),
        Node::from_ports(NodeID(1), vec![in_port(0, None)], vec![]).unwrap(),
    ];
    assert!(matches!(Graph::from_nodes(2, one_sided), Err(Error::InvalidPort)));
    let dangling = vec![Node::from_ports(NodeID(0), vec![in_port(0, Some((9, 0)))], vec![]).unwrap()];
    assert!(matches!(Graph::from_nodes(2, dangling), Err(Error::InvalidPort)));
}

#[test]
fn clear_ports_keeps_the_node_and_clears_its_peers() {
    let mut g = Graph::new();
    let a = g.add_node(2, 2);
    let b = g.add_node(2, 2);
    g.connect(a, OutPortID(1), b, InPortID(1)).unwrap();
    g.connect(b, OutPortID(1), a, InPortID(1)).unwrap();
    g.connect(b, OutPortID(0), b, InPortID(0)).unwrap();
    g.clear_ports(a).unwrap();
    assert!(g.node(a).unwrap().in_ports().is_empty());
    assert!(g.node(a).unwrap().out_ports().is_empty());
    assert!(g.node(b).unwrap().in_port(InPortID(1)).unwrap().edge().is_none());
    assert!(g.node(b).unwrap().out_port(OutPortID(1)).unwrap().edge().is_none());
    assert!(g.node(b).unwrap().in_port(InPortID(0)).unwrap().edge().is_some());
    assert_eq!(g.num_nodes(), 2);
    assert_eq!(g.clear_ports(NodeID(9)), Err(Error::InvalidNode));
}

#[test]
fn connect_n_past_the_last_port_id_is_invalid_port() {
    let mut g = Graph::new();
    let a = g.add_node(0, 1);
    let b = g.add_node(1, 0);
    assert_eq!(g.connect_n(a, OutPortID(usize::MAX), b, InPortID(0), 1), Err(Error::InvalidPort));
    assert_eq!(g.connect_n(a, OutPortID(0), b, InPortID(usize::MAX), 2), Err(Error::InvalidPort));
}
