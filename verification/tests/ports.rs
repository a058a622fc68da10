use dataflow::{Error, Graph, Interface, MetaModule, MetaPort, Module, NodeId, PortId, Signal};

struct Counter(u32);

impl Module for Counter {
    type Arg = u32;
}

fn make(_ifc: &Interface<Counter>, start: u32) -> Counter {
    Counter(start)
}

/// Two nodes with one `u32` port each, the ports connected.
fn connected_pair() -> (Graph<Counter>, NodeId, PortId, NodeId, PortId) {
    let mut g: Graph<Counter> = Graph::new();
    let meta: MetaModule<Counter> = MetaModule::new("counter");
    let a = g.add_node(&meta, make, 0);
    let b = g.add_node(&meta, make, 1);
    let port = MetaPort::new::<u32>("value");
    let ap = g.add_port(a, &port).unwrap();
    let bp = g.add_port(b, &port).unwrap();
    g.connect(a, ap, b, bp).unwrap();
    (g, a, ap, b, bp)
}

#[test]
fn meta_port_keeps_name_and_type() {
    let m = MetaPort::new::<u32>("in");
    assert_eq!(m.name(), "in");
    assert_eq!(m.type_id(), std::any::TypeId::of::<u32>());
    assert!(m.same_type(&MetaPort::new::<u32>("other")));
    assert!(!m.same_type(&MetaPort::new::<u8>("in")));
}

#[test]
fn meta_module_keeps_name() {
    let m: MetaModule<Counter> = MetaModule::new("osc");
    assert_eq!(m.name(), "osc");
    assert_eq!(m.clone().name(), "osc");
}

#[test]
fn ids_come_from_one_counter() {
    let mut g: Graph<Counter> = Graph::new();
    let meta: MetaModule<Counter> = MetaModule::new("counter");
    let a = g.add_node(&meta, make, 7);
    assert_eq!(a, NodeId(0));
    let p = g.add_port(a, &MetaPort::new::<u8>("x")).unwrap();
    assert_eq!(p, PortId(1));
    let b = g.add_node(&meta, make, 8);
    assert_eq!(b, NodeId(2));
    assert_eq!(g.next_id(), 3);
    assert_eq!(g.nodes().len(), 2);
    assert_eq!(g.node(a).unwrap().module().0, 7);
    assert_eq!(g.node(b).unwrap().meta().name(), "counter");
}

#[test]
fn add_port_to_missing_node_is_invalid_node() {
    let mut g: Graph<Counter> = Graph::new();
    assert_eq!(g.add_port(NodeId(5), &MetaPort::new::<u8>("x")), Err(Error::InvalidNode));
    assert_eq!(g.next_id(), 0);
}

#[test]
fn write_then_read_gives_the_data_back() {
    let (mut g, a, ap, b, bp) = connected_pair();
    g.write::<u32>(a, ap, &[1, 2, 0xdead_beef]).unwrap();
    assert_eq!(g.read::<u32>(b, bp).unwrap(), vec![1, 2, 0xdead_beef]);
    assert_eq!(g.read::<u32>(b, bp).unwrap(), Vec::<u32>::new());
}

#[test]
fn the_connection_carries_both_ways() {
    let (mut g, a, ap, b, bp) = connected_pair();
    g.write::<u32>(b, bp, &[9]).unwrap();
    assert_eq!(g.read::<u32>(a, ap).unwrap(), vec![9]);
}

#[test]
fn writes_keep_their_order() {
    let (mut g, a, ap, b, bp) = connected_pair();
    g.write::<u32>(a, ap, &[1]).unwrap();
    g.write::<u32>(a, ap, &[2, 3]).unwrap();
    assert_eq!(g.read::<u32>(b, bp).unwrap(), vec![1, 2, 3]);
}

#[test]
fn written_bytes_are_little_endian() {
    let (mut g, a, ap, b, bp) = connected_pair();
    g.write::<u32>(a, ap, &[0x0403_0201]).unwrap();
    let port = g.node(b).unwrap().find_port("value").unwrap();
    assert_eq!(port.available(), 4);
    let ty = std::any::TypeId::of::<u32>();
    assert_eq!(g.read_n_as::<u8>(b, bp, 4, &ty).unwrap(), vec![1, 2, 3, 4]);
}

#[test]
fn read_n_takes_the_first_bytes() {
    let (mut g, a, ap, b, bp) = connected_pair();
    g.write::<u32>(a, ap, &[10, 20, 30]).unwrap();
    assert_eq!(g.read_n::<u32>(b, bp, 2).unwrap(), vec![10, 20]);
    assert_eq!(g.read_n::<u32>(b, bp, 2), Err(Error::NotAvailable));
    assert_eq!(g.read::<u32>(b, bp).unwrap(), vec![30]);
}

#[test]
fn write_without_edge_is_not_connected() {
    let mut g: Graph<Counter> = Graph::new();
    let meta: MetaModule<Counter> = MetaModule::new("counter");
    let a = g.add_node(&meta, make, 0);
    let ap = g.add_port(a, &MetaPort::new::<u32>("out")).unwrap();
    assert_eq!(g.write::<u32>(a, ap, &[1]), Err(Error::NotConnected));
}

#[test]
fn write_to_a_removed_node_is_not_connected() {
    let (mut g, a, ap, b, _bp) = connected_pair();
    let removed = g.remove_node(b).unwrap();
    assert_eq!(removed.id(), b);
    assert_eq!(removed.module().0, 1);
    assert_eq!(g.write::<u32>(a, ap, &[1]), Err(Error::NotConnected));
}

#[test]
fn write_to_a_removed_port_is_not_connected() {
    let (mut g, a, ap, b, bp) = connected_pair();
    let port = g.remove_port(b, bp).unwrap();
    assert_eq!(port.id(), bp);
    assert_eq!(port.edge(), Some((a, ap)));
    assert_eq!(g.write::<u32>(a, ap, &[1]), Err(Error::NotConnected));
    assert!(matches!(g.remove_port(b, bp), Err(Error::InvalidPort)));
}

#[test]
fn operations_on_missing_ports_fail() {
    let (mut g, a, _ap, _b, _bp) = connected_pair();
    assert_eq!(g.write::<u32>(NodeId(99), PortId(0), &[1]), Err(Error::InvalidNode));
    assert_eq!(g.write::<u32>(a, PortId(99), &[1]), Err(Error::InvalidPort));
    assert_eq!(g.read::<u32>(a, PortId(99)), Err(Error::InvalidPort));
    assert_eq!(g.poll(NodeId(99), PortId(0)), Err(Error::InvalidNode));
    assert_eq!(g.wait(a, PortId(99)), Err(Error::InvalidPort));
    assert_eq!(g.connect(a, PortId(99), a, PortId(98)), Err(Error::InvalidPort));
    assert_eq!(g.disconnect(NodeId(99), PortId(0), a, PortId(0)), Err(Error::InvalidNode));
}

#[test]
fn connect_links_both_ports_and_signals_them() {
    let (mut g, a, ap, b, bp) = connected_pair();
    let na = g.node(a).unwrap();
    assert_eq!(na.ports()[0].edge(), Some((b, bp)));
    assert_eq!(g.node(b).unwrap().ports()[0].edge(), Some((a, ap)));
    assert_eq!(g.poll(a, ap).unwrap(), vec![Signal::Connect]);
    assert_eq!(g.poll(a, ap).unwrap(), Vec::<Signal>::new());
    assert_eq!(g.poll(b, bp).unwrap(), vec![Signal::Connect]);
}

#[test]
fn disconnect_unlinks_both_ports() {
    let (mut g, a, ap, b, bp) = connected_pair();
    g.disconnect(a, ap, b, bp).unwrap();
    assert_eq!(g.node(a).unwrap().ports()[0].edge(), None);
    assert_eq!(g.node(b).unwrap().ports()[0].edge(), None);
    assert_eq!(g.poll(b, bp).unwrap(), vec![Signal::Connect, Signal::Disconnect]);
    assert_eq!(g.write::<u32>(a, ap, &[1]), Err(Error::NotConnected));
}

#[test]
fn wait_takes_the_oldest_signal() {
    let (mut g, a, ap, b, bp) = connected_pair();
    assert_eq!(g.wait(b, bp), Ok(Some(Signal::Connect)));
    assert_eq!(g.wait(b, bp), Ok(None));
    g.write::<u32>(a, ap, &[5]).unwrap();
    assert_eq!(g.wait(b, bp), Ok(Some(Signal::Write)));
    assert_eq!(g.wait(b, bp), Ok(None));
}

#[test]
fn remove_node_of_missing_id_is_invalid_node() {
    let (mut g, _a, _ap, _b, _bp) = connected_pair();
    assert!(matches!(g.remove_node(NodeId(42)), Err(Error::InvalidNode)));
    assert_eq!(g.nodes().len(), 2);
}

#[test]
fn remove_node_hands_back_the_added_node() {
    let mut g: Graph<Counter> = Graph::new();
    let meta: MetaModule<Counter> = MetaModule::new("first");
    let a = g.add_node(&meta, make, 3);
    let b = g.add_node(&MetaModule::new("second"), make, 4);
    let n = g.remove_node(b).unwrap();
    assert_eq!(n.meta().name(), "second");
    assert_eq!(n.ports().len(), 0);
    assert_eq!(g.nodes().len(), 1);
    assert_eq!(g.nodes()[0].id(), a);
}

#[test]
fn find_port_by_name_finds_the_first() {
    let mut g: Graph<Counter> = Graph::new();
    let a = g.add_node(&MetaModule::new("n"), make, 0);
    let p1 = g.add_port(a, &MetaPort::new::<u8>("in")).unwrap();
    let _p2 = g.add_port(a, &MetaPort::new::<u8>("out")).unwrap();
    let _p3 = g.add_port(a, &MetaPort::new::<u8>("in")).unwrap();
    let node = g.node(a).unwrap();
    assert_eq!(node.find_port("in").unwrap().id(), p1);
    assert_eq!(node.find_port("out").unwrap().meta().name(), "out");
    assert!(node.find_port("none").is_none());
    assert_eq!(node.interface().find_port("in").unwrap().id(), p1);
}

#[test]
fn interface_of_a_removed_node_manages_its_ports() {
    let (mut g, a, ap, b, bp) = connected_pair();
    g.write::<u32>(a, ap, &[11, 12]).unwrap();
    let mut node = g.remove_node(b).unwrap();
    let ifc = node.interface_mut();
    assert_eq!(ifc.id(), b);
    assert_eq!(ifc.meta().name(), "counter");
    assert_eq!(ifc.add_port(bp, &MetaPort::new::<u8>("dup")), Err(Error::InvalidPort));
    assert_eq!(ifc.add_port(PortId(77), &MetaPort::new::<u8>("extra")), Ok(PortId(77)));
    assert_eq!(ifc.ports().len(), 2);
    assert_eq!(ifc.poll(bp).unwrap(), vec![Signal::Connect, Signal::Write]);
    assert_eq!(ifc.wait(bp), Ok(None));
    assert_eq!(ifc.read_n::<u32>(bp, 3), Err(Error::NotAvailable));
    assert_eq!(ifc.read::<u8>(bp), Err(Error::InvalidPort));
    assert_eq!(ifc.read_n::<u32>(bp, 1).unwrap(), vec![11]);
    assert_eq!(ifc.read::<u32>(bp).unwrap(), vec![12]);
    assert_eq!(ifc.read::<u32>(PortId(5)), Err(Error::InvalidPort));
    assert_eq!(ifc.remove_port(PortId(77)).unwrap().meta().name(), "extra");
    assert!(matches!(ifc.remove_port(PortId(77)), Err(Error::InvalidPort)));
    assert_eq!(node.ports().len(), 1);
}

#[test]
fn node_map_pairs_ids_with_nodes() {
    let (g, a, _ap, b, _bp) = connected_pair();
    let map = g.node_map();
    assert_eq!(map.len(), 2);
    assert_eq!(map[0].0, a);
    assert_eq!(map[0].1.id(), a);
    assert_eq!(map[1].0, b);
}

#[test]
fn data_of_another_type_is_refused() {
    let (mut g, a, ap, b, bp) = connected_pair();
    assert_eq!(g.write::<u8>(a, ap, &[1]), Err(Error::InvalidPort));
    assert_eq!(g.node(b).unwrap().ports()[0].available(), 0);
    g.write::<u32>(a, ap, &[7]).unwrap();
    assert_eq!(g.read::<u16>(b, bp), Err(Error::InvalidPort));
    assert_eq!(g.read_n::<u8>(b, bp, 1), Err(Error::InvalidPort));
    assert_eq!(g.read::<u32>(b, bp).unwrap(), vec![7]);
}

#[test]
fn the_constructor_sees_the_new_interface() {
    let mut g: Graph<Counter> = Graph::new();
    let meta: MetaModule<Counter> = MetaModule::new("counter");
    g.add_node(&meta, make, 1);
    let id = g.add_node(&meta, |ifc: &Interface<Counter>, a: u32| Counter(ifc.id().0 as u32 * 100 + a), 5);
    assert_eq!(g.node(id).unwrap().module().0, 105);
}

#[test]
fn read_n_counts_values() {
    let (mut g, a, ap, b, bp) = connected_pair();
    g.write::<u32>(a, ap, &[1, 2]).unwrap();
    assert_eq!(g.read_n::<u32>(b, bp, 3), Err(Error::NotAvailable));
    assert_eq!(g.read_n::<u32>(b, bp, 2).unwrap(), vec![1, 2]);
}
