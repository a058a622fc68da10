use dataflow::context::Context;
use dataflow::graph::{Graph, InEdge, InPortID, NodeID, NodeType, OutEdge, OutPortID};
use dataflow::supervisor::{Data, Supervisor};

fn pipeline() -> (Graph, NodeID, NodeID) {
    let mut g = Graph::new();
    let src = g.add_node(0, 1);
    let dst = g.add_node(1, 0);
    g.connect(src, OutPortID(0), dst, InPortID(0)).unwrap();
    (g, src, dst)
}

#[test]
fn node_ids_are_positions() {
    let mut g = Graph::new();
    assert_eq!(g.add_node(1, 1), NodeID(0));
    assert_eq!(g.add_node(0, 2), NodeID(1));
    assert_eq!(g.num_nodes(), 2);
    assert_eq!(g.node(NodeID(1)).id(), NodeID(1));
    assert_eq!(g.node(NodeID(1)).out_ports().len(), 2);
    assert_eq!(g.node(NodeID(0)).node_type(), NodeType::Internal);
    assert_eq!(g.node(NodeID(1)).node_type(), NodeType::Source);
}

#[test]
fn connect_refuses_a_taken_port() {
    let (mut g, src, dst) = pipeline();
    assert_eq!(g.connect(src, OutPortID(0), dst, InPortID(0)), Err(()));
}

#[test]
fn disconnect_returns_the_removed_edge() {
    let (mut g, src, dst) = pipeline();
    let e = g.disconnect(dst, InPortID(0)).unwrap();
    assert_eq!(e.node, src);
    assert_eq!(e.port, OutPortID(0));
    assert!(g.disconnect(dst, InPortID(0)).is_err());
    g.connect(src, OutPortID(0), dst, InPortID(0)).unwrap();
}

#[test]
fn edges_hold_what_they_were_made_with() {
    let i = InEdge::new(NodeID(3), InPortID(4));
    assert_eq!(i.node, NodeID(3));
    assert_eq!(i.port, InPortID(4));
    let o = OutEdge::new(NodeID(5), OutPortID(6));
    assert_eq!(o.node, NodeID(5));
    assert_eq!(o.port, OutPortID(6));
}

#[test]
fn typed_guard_writes_and_reads() {
    let (g, src, dst) = pipeline();
    let mut ctx = Context::new(g);
    let src_ctx = ctx.node_ctx(src).unwrap();
    assert!(ctx.node_ctx(src).is_err());
    assert!(ctx.node_ctx(NodeID(9)).is_err());
    {
        let mut guard = src_ctx.lock(&mut ctx);
        guard.write::<u16>(OutPortID(0), &[1, 2, 3]).unwrap();
        assert_eq!(guard.buffered::<u16>(OutPortID(0)), Ok(3));
    }
    let dst_ctx = ctx.node_ctx(dst).unwrap();
    let mut guard = dst_ctx.lock(&mut ctx);
    assert_eq!(guard.available::<u16>(InPortID(0)), Ok(6));
    assert_eq!(guard.peek::<u16>(InPortID(0)).unwrap(), vec![1, 2, 3]);
    assert_eq!(guard.peek_at::<u16>(InPortID(0), 1).unwrap(), vec![0x0200, 0x0300]);
    assert_eq!(guard.peek_at::<u16>(InPortID(0), 2).unwrap(), vec![2, 3]);
    assert_eq!(guard.peek_n::<u16>(InPortID(0), 2).unwrap(), vec![1, 2]);
    assert_eq!(guard.peek_n_at::<u16>(InPortID(0), 1, 2).unwrap(), vec![2]);
    assert_eq!(guard.available_at::<u16>(InPortID(0), 1), Ok(2));
    assert_eq!(guard.read_n::<u16>(InPortID(0), 1).unwrap(), vec![1]);
    assert_eq!(guard.read::<u16>(InPortID(0)).unwrap(), vec![2, 3]);
    assert_eq!(guard.read::<u16>(InPortID(0)).unwrap(), Vec::<u16>::new());
    assert!(guard.read::<u16>(InPortID(5)).is_err());
}

#[test]
fn detach_lets_a_node_attach_again() {
    let (g, src, _dst) = pipeline();
    let mut ctx = Context::new(g);
    let c = ctx.node_ctx(src).unwrap();
    c.detach(&mut ctx);
    assert!(ctx.node_ctx(src).is_ok());
}

#[test]
fn supervisor_guard_moves_bytes() {
    let (g, src, dst) = pipeline();
    let mut sup = Supervisor::new(g);
    let s = sup.node_ctx(src).unwrap();
    assert!(sup.node_ctx(src).is_err());
    {
        let mut guard = s.lock(&mut sup);
        guard.write(OutPortID(0), &[1, 2, 3, 4]);
        assert_eq!(guard.buffered(OutPortID(0)), 4);
    }
    let d = sup.node_ctx(dst).unwrap();
    let mut guard = d.lock(&mut sup);
    assert_eq!(guard.available(InPortID(0)), 4);
    assert_eq!(guard.read_n(InPortID(0), 9).len(), 0);
    assert_eq!(*guard.read_n(InPortID(0), 1), vec![1]);
    assert_eq!(*guard.read(InPortID(0)), vec![2, 3, 4]);
    drop(guard);
    s.detach(&mut sup);
    assert!(sup.node_ctx(src).is_ok());
}

#[test]
fn data_wraps_a_vector() {
    let d = Data::new(vec![5u8, 6]);
    assert_eq!(d.len(), 2);
    assert_eq!(d[1], 6);
}

#[test]
fn peek_of_an_empty_port_gives_nothing() {
    let (g, _src, dst) = pipeline();
    let mut ctx = Context::new(g);
    let d = ctx.node_ctx(dst).unwrap();
    let guard = d.lock(&mut ctx);
    assert_eq!(guard.peek::<u16>(InPortID(0)).unwrap(), Vec::<u16>::new());
    assert_eq!(guard.peek_at::<u32>(InPortID(0), 0).unwrap(), Vec::<u32>::new());
    assert_eq!(guard.available::<u16>(InPortID(0)), Ok(0));
}

#[test]
fn peek_at_takes_every_whole_value_after_the_skipped_bytes() {
    let (g, src, dst) = pipeline();
    let mut ctx = Context::new(g);
    let s = ctx.node_ctx(src).unwrap();
    s.lock(&mut ctx).write::<u16>(OutPortID(0), &[1, 2, 3, 4]).unwrap();
    let d = ctx.node_ctx(dst).unwrap();
    let guard = d.lock(&mut ctx);
    assert_eq!(guard.peek_at::<u16>(InPortID(0), 2).unwrap(), vec![2, 3, 4]);
    assert_eq!(guard.peek_at::<u16>(InPortID(0), 8).unwrap(), Vec::<u16>::new());
}

#[test]
fn available_counts_bytes() {
    let (g, src, dst) = pipeline();
    let mut ctx = Context::new(g);
    let s = ctx.node_ctx(src).unwrap();
    s.lock(&mut ctx).write::<u8>(OutPortID(0), &[1, 2]).unwrap();
    let d = ctx.node_ctx(dst).unwrap();
    let guard = d.lock(&mut ctx);
    assert_eq!(guard.available::<u16>(InPortID(0)), Ok(2));
    assert_eq!(guard.available_at::<u16>(InPortID(0), 0), Ok(1));
}
