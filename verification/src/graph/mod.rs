//! A graph of nodes with a fixed number of input and output ports each; nodes are never removed,
//! so a node's identifier is its position.
use vstd::prelude::*;

/// node
pub mod node;

use self::node::Port;
pub use self::node::{
    InEdge, InPort, InPortID, InPortView, Node, NodeID, NodeType, NodeView, OutEdge, OutPort,
    OutPortID,
};

verus! {

/// The edge of input port `p` of the node at position `n`; `None` when there is no such port.
pub open spec fn in_edge_at(nodes: Seq<NodeView>, n: int, p: int) -> Option<OutEdge> {
    if 0 <= n < nodes.len() && 0 <= p < nodes[n].ins.len() {
        nodes[n].ins[p].edge
    } else {
        None
    }
}

/// The edge of output port `p` of the node at position `n`; `None` when there is no such port.
pub open spec fn out_edge_at(nodes: Seq<NodeView>, n: int, p: int) -> Option<InEdge> {
    if 0 <= n < nodes.len() && 0 <= p < nodes[n].outs.len() {
        nodes[n].outs[p]
    } else {
        None
    }
}

/// Every node's identifier is its position, and every edge names an existing port of the other
/// kind whose edge names it back.
pub open spec fn graph_wf(nodes: Seq<NodeView>) -> bool {
    &&& forall|i: int| 0 <= i < nodes.len() ==> (#[trigger] nodes[i]).id == NodeID(i as usize)
    &&& forall|n: int, p: int| #[trigger]
        in_edge_at(nodes, n, p) matches Some(e) ==> (out_edge_at(nodes, e.node.0 as int, e.port.0 as int) matches Some(
            b,
        ) && b.node.0 == n && b.port.0 == p)
    &&& forall|n: int, p: int| #[trigger]
        out_edge_at(nodes, n, p) matches Some(e) ==> (in_edge_at(nodes, e.node.0 as int, e.port.0 as int) matches Some(
            b,
        ) && b.node.0 == n && b.port.0 == p)
}

/// `b` has the identifier, the port counts and the edges of `a`.
pub open spec fn same_edges(a: NodeView, b: NodeView) -> bool {
    &&& b.id == a.id
    &&& b.ins.len() == a.ins.len()
    &&& b.outs == a.outs
    &&& forall|p: int| 0 <= p < a.ins.len() ==> (#[trigger] b.ins[p]).edge == a.ins[p].edge
}

/// Replacing a node by one with the same identifier, port counts and edges keeps every edge and
/// keeps the graph well formed.
pub proof fn lemma_same_edges(nodes: Seq<NodeView>, k: int, b: NodeView)
    requires
        graph_wf(nodes),
        0 <= k < nodes.len(),
        same_edges(nodes[k], b),
    ensures
        graph_wf(nodes.update(k, b)),
        forall|n: int, p: int| #[trigger] in_edge_at(nodes.update(k, b), n, p) == in_edge_at(nodes, n, p),
        forall|n: int, p: int| #[trigger] out_edge_at(nodes.update(k, b), n, p) == out_edge_at(nodes, n, p),
{
    let h = nodes.update(k, b);
    assert forall|n: int, p: int| #[trigger] in_edge_at(h, n, p) == in_edge_at(nodes, n, p) by {}
    assert forall|n: int, p: int| #[trigger] out_edge_at(h, n, p) == out_edge_at(nodes, n, p) by {}
    assert forall|n: int, p: int| #[trigger]
        in_edge_at(h, n, p) is Some implies (out_edge_at(
            h,
            in_edge_at(h, n, p)->Some_0.node.0 as int,
            in_edge_at(h, n, p)->Some_0.port.0 as int,
        ) matches Some(b) && b.node.0 == n && b.port.0 == p) by {
        assert(in_edge_at(nodes, n, p) is Some);
    }
    assert forall|n: int, p: int| #[trigger]
        out_edge_at(h, n, p) is Some implies (in_edge_at(
            h,
            out_edge_at(h, n, p)->Some_0.node.0 as int,
            out_edge_at(h, n, p)->Some_0.port.0 as int,
        ) matches Some(b) && b.node.0 == n && b.port.0 == p) by {
        assert(out_edge_at(nodes, n, p) is Some);
    }
}

/// The nodes after connecting output port `sp` of node `s` to input port `dp` of node `d`.
pub open spec fn connected(nodes: Seq<NodeView>, s: int, sp: int, d: int, dp: int) -> Seq<NodeView> {
    let n1 = nodes.update(
        d,
        NodeView {
            ins: nodes[d].ins.update(
                dp,
                InPortView {
                    edge: Some(OutEdge { node: NodeID(s as usize), port: OutPortID(sp as usize) }),
                    ..nodes[d].ins[dp]
                },
            ),
            ..nodes[d]
        },
    );
    n1.update(
        s,
        NodeView {
            outs: n1[s].outs.update(
                sp,
                Some(InEdge { node: NodeID(d as usize), port: InPortID(dp as usize) }),
            ),
            ..n1[s]
        },
    )
}

/// The nodes after clearing input port `dp` of node `d` and the output port that it names.
pub open spec fn disconnected(nodes: Seq<NodeView>, d: int, dp: int) -> Seq<NodeView> {
    let e = nodes[d].ins[dp].edge->Some_0;
    let n1 = nodes.update(
        d,
        NodeView { ins: nodes[d].ins.update(dp, InPortView { edge: None, ..nodes[d].ins[dp] }), ..nodes[d] },
    );
    let s = e.node.0 as int;
    n1.update(s, NodeView { outs: n1[s].outs.update(e.port.0 as int, None), ..n1[s] })
}

/// The node at the other end of the edge of output port `port` of node `node`, and the input
/// port there.
pub open spec fn target(g: Seq<NodeView>, node: NodeID, port: OutPortID) -> (int, int) {
    let e = g[node.0 as int].outs[port.0 as int]->Some_0;
    (e.node.0 as int, e.port.0 as int)
}

/// Output port `port` of node `node` exists and is connected.
pub open spec fn connected_out(g: Seq<NodeView>, node: NodeID, port: OutPortID) -> bool {
    &&& node.0 < g.len()
    &&& port.0 < g[node.0 as int].outs.len()
    &&& g[node.0 as int].outs[port.0 as int] is Some
}

/// A connected output port names an existing input port.
pub proof fn lemma_target(g: Seq<NodeView>, node: NodeID, port: OutPortID)
    requires
        graph_wf(g),
        connected_out(g, node, port),
    ensures
        0 <= target(g, node, port).0 < g.len(),
        0 <= target(g, node, port).1 < g[target(g, node, port).0].ins.len(),
{
    assert(out_edge_at(g, node.0 as int, port.0 as int) is Some);
}

/// Disconnecting the input port of a connection that was just made restores the graph as it was
/// before the connection.
pub proof fn law_disconnect_undoes_connect(nodes: Seq<NodeView>, s: int, sp: int, d: int, dp: int)
    requires
        graph_wf(nodes),
        0 <= s < nodes.len(),
        0 <= sp < nodes[s].outs.len(),
        0 <= d < nodes.len(),
        0 <= dp < nodes[d].ins.len(),
        nodes[d].ins[dp].edge is None,
        nodes[s].outs[sp] is None,
        nodes.len() <= usize::MAX,
        nodes[s].outs.len() <= usize::MAX,
    ensures
        connected(nodes, s, sp, d, dp)[d].ins[dp].edge == Some(OutEdge { node: NodeID(s as usize), port: OutPortID(sp as usize) }),
        disconnected(connected(nodes, s, sp, d, dp), d, dp) == nodes,
{
    let c = connected(nodes, s, sp, d, dp);
    if s == d {
        assert(c[d].ins[dp].edge == Some(OutEdge { node: NodeID(s as usize), port: OutPortID(sp as usize) }));
    }
    let r = disconnected(c, d, dp);
    assert forall|i: int| 0 <= i < nodes.len() implies r[i] == nodes[i] by {
        if i == d || i == s {
            assert(r[i].ins =~= nodes[i].ins);
            assert(r[i].outs =~= nodes[i].outs);
        }
    }
    assert(r =~= nodes);
}

/**
 * A graph contains many `Node`s and connections between their `Port`s.
 */
pub struct Graph {
    nodes: Vec<Node>,
}

impl View for Graph {
    type V = Seq<NodeView>;

    closed spec fn view(&self) -> Seq<NodeView> {
        self.nodes@.map_values(|n: Node| n@)
    }
}

impl Graph {
    /**
     * Create a new empty graph.
     */
    pub fn new() -> (r: Graph)
        ensures
            r@ == Seq::<NodeView>::empty(),
            graph_wf(r@),
    {
        let g = Graph { nodes: Vec::new() };
        assert(g@ =~= Seq::<NodeView>::empty());
        g
    }

    /**
     * Get a node by ID.
     */
    pub fn node(&self, node_id: NodeID) -> (r: &Node)
        requires
            node_id.0 < self@.len(),
        ensures
            r@ == self@[node_id.0 as int],
    {
        &self.nodes[node_id.0]
    }

    /// Number of nodes.
    pub fn num_nodes(&self) -> (r: usize)
        ensures
            r == self@.len(),
    {
        self.nodes.len()
    }

    /**
     * Add a node with a fixed number of input and output ports.
     * The ID of the newly created node is returned.
     */
    pub fn add_node(&mut self, num_in: usize, num_out: usize) -> (r: NodeID)
        requires
            graph_wf(old(self)@),
        ensures
            r == NodeID(old(self)@.len() as usize),
            final(self)@ == old(self)@.push(
                NodeView {
                    id: r,
                    ins: Seq::new(num_in as nat, |i: int| node::empty_in_port()),
                    outs: Seq::new(num_out as nat, |i: int| None),
                    attached: false,
                },
            ),
            graph_wf(final(self)@),
    {
        let id = NodeID(self.nodes.len());
        self.nodes.push(Node::new(id, num_in, num_out));
        proof {
            let g = old(self)@;
            let h = self@;
            assert(h =~= g.push(h.last()));
            assert forall|n: int, p: int| #[trigger] in_edge_at(h, n, p) == in_edge_at(g, n, p) by {}
            assert forall|n: int, p: int| #[trigger] out_edge_at(h, n, p) == out_edge_at(g, n, p) by {}
            assert forall|n: int, p: int| #[trigger]
                in_edge_at(h, n, p) is Some implies (out_edge_at(
                    h,
                    in_edge_at(h, n, p)->Some_0.node.0 as int,
                    in_edge_at(h, n, p)->Some_0.port.0 as int,
                ) matches Some(b) && b.node.0 == n && b.port.0 == p) by {
                assert(in_edge_at(g, n, p) is Some);
            }
            assert forall|n: int, p: int| #[trigger]
                out_edge_at(h, n, p) is Some implies (in_edge_at(
                    h,
                    out_edge_at(h, n, p)->Some_0.node.0 as int,
                    out_edge_at(h, n, p)->Some_0.port.0 as int,
                ) matches Some(b) && b.node.0 == n && b.port.0 == p) by {
                assert(out_edge_at(g, n, p) is Some);
            }
        }
        id
    }

    /**
     * Connects output port `src_port` of node `src_id` to input port `dst_port` of node `dst_id`.
     *
     * Returns Err if `src_port` or `dst_port` is already connected.
     * You must call `disconnect` on the destination first.
     */
    pub fn connect(
        &mut self,
        src_id: NodeID,
        src_port: OutPortID,
        dst_id: NodeID,
        dst_port: InPortID,
    ) -> (r: Result<(), ()>)
        requires
            graph_wf(old(self)@),
            dst_id.0 < old(self)@.len(),
            dst_port.0 < old(self)@[dst_id.0 as int].ins.len(),
            src_id.0 < old(self)@.len(),
            src_port.0 < old(self)@[src_id.0 as int].outs.len(),
        ensures
            r is Err <==> (old(self)@[dst_id.0 as int].ins[dst_port.0 as int].edge is Some || old(
                self,
            )@[src_id.0 as int].outs[src_port.0 as int] is Some),
            r is Err ==> final(self)@ == old(self)@,
            r is Ok ==> final(self)@ == connected(
                old(self)@,
                src_id.0 as int,
                src_port.0 as int,
                dst_id.0 as int,
                dst_port.0 as int,
            ),
            graph_wf(final(self)@),
    {
        let d = dst_id.0;
        let s = src_id.0;
        let in_connected = self.nodes[d].in_port(dst_port).edge().is_some();
        let out_connected = self.nodes[s].out_port(src_port).edge().is_some();
        if in_connected || out_connected {
            Err(())
        } else {
            self.nodes[d].set_in_edge(dst_port.0, Some(OutEdge::new(src_id, src_port)));
            self.nodes[s].set_out_edge(src_port.0, Some(InEdge::new(dst_id, dst_port)));
            proof {
                let g = old(self)@;
                let h = self@;
                assert(h =~= connected(g, s as int, src_port.0 as int, d as int, dst_port.0 as int));
                lemma_connect_wf(g, s as int, src_port.0 as int, d as int, dst_port.0 as int);
            }
            Ok(())
        }
    }

    /**
     * Disconnect an input port from the output port it is connected to, returning the edge that
     * was removed.
     *
     * Returns Err if the port is not connected.
     */
    pub fn disconnect(&mut self, node_id: NodeID, port_id: InPortID) -> (r: Result<OutEdge, ()>)
        requires
            graph_wf(old(self)@),
            node_id.0 < old(self)@.len(),
            port_id.0 < old(self)@[node_id.0 as int].ins.len(),
        ensures
            r is Err <==> old(self)@[node_id.0 as int].ins[port_id.0 as int].edge is None,
            r is Err ==> final(self)@ == old(self)@,
            r matches Ok(e) ==> Some(e) == old(self)@[node_id.0 as int].ins[port_id.0 as int].edge
                && final(self)@ == disconnected(old(self)@, node_id.0 as int, port_id.0 as int),
            graph_wf(final(self)@),
    {
        let d = node_id.0;
        match self.nodes[d].in_port(port_id).edge() {
            Some(edge) => {
                proof {
                    assert(in_edge_at(old(self)@, d as int, port_id.0 as int) is Some);
                }
                self.nodes[d].set_in_edge(port_id.0, None);
                self.nodes[edge.node.0].set_out_edge(edge.port.0, None);
                proof {
                    let g = old(self)@;
                    assert(self@ =~= disconnected(g, d as int, port_id.0 as int));
                    lemma_disconnect_wf(g, d as int, port_id.0 as int);
                }
                Ok(edge)
            },
            None => Err(()),
        }
    }

    /// Marks node `id` attached to a thread; `Err` if it already was.
    pub(crate) fn attach_thread(&mut self, id: NodeID) -> (r: Result<(), ()>)
        requires
            graph_wf(old(self)@),
            id.0 < old(self)@.len(),
        ensures
            r is Ok <==> !old(self)@[id.0 as int].attached,
            final(self)@ == old(self)@.update(id.0 as int, NodeView { attached: true, ..old(self)@[id.0 as int] }),
            graph_wf(final(self)@),
    {
        let r = self.nodes[id.0].attach_thread();
        proof {
            assert(self@ =~= old(self)@.update(id.0 as int, NodeView { attached: true, ..old(self)@[id.0 as int] }));
            lemma_same_edges(old(self)@, id.0 as int, self@[id.0 as int]);
        }
        r
    }

    /// Marks node `id` detached; `Err` if it was not attached.
    pub(crate) fn detach_thread(&mut self, id: NodeID) -> (r: Result<(), ()>)
        requires
            graph_wf(old(self)@),
            id.0 < old(self)@.len(),
        ensures
            r is Ok <==> old(self)@[id.0 as int].attached,
            final(self)@ == old(self)@.update(id.0 as int, NodeView { attached: false, ..old(self)@[id.0 as int] }),
            graph_wf(final(self)@),
    {
        let r = self.nodes[id.0].detach_thread();
        proof {
            assert(self@ =~= old(self)@.update(id.0 as int, NodeView { attached: false, ..old(self)@[id.0 as int] }));
            lemma_same_edges(old(self)@, id.0 as int, self@[id.0 as int]);
        }
        r
    }

    /// Appends `bytes` to the data waiting on input port `p` of node `id`.
    pub(crate) fn append_data(&mut self, id: NodeID, p: InPortID, bytes: &[u8])
        requires
            graph_wf(old(self)@),
            id.0 < old(self)@.len(),
            p.0 < old(self)@[id.0 as int].ins.len(),
        ensures
            final(self)@ == with_data(old(self)@, id.0 as int, p.0 as int, old(self)@[id.0 as int].ins[p.0 as int].data + bytes@),
            graph_wf(final(self)@),
    {
        self.nodes[id.0].append_data(p.0, bytes);
        proof {
            assert(self@ =~= with_data(old(self)@, id.0 as int, p.0 as int, old(self)@[id.0 as int].ins[p.0 as int].data + bytes@));
            lemma_same_edges(old(self)@, id.0 as int, self@[id.0 as int]);
        }
    }

    /// Removes the first `n` bytes waiting on input port `p` of node `id` and returns them.
    pub(crate) fn take_data(&mut self, id: NodeID, p: InPortID, n: usize) -> (r: Vec<u8>)
        requires
            graph_wf(old(self)@),
            id.0 < old(self)@.len(),
            p.0 < old(self)@[id.0 as int].ins.len(),
            n <= old(self)@[id.0 as int].ins[p.0 as int].data.len(),
        ensures
            r@ == old(self)@[id.0 as int].ins[p.0 as int].data.take(n as int),
            final(self)@ == with_data(old(self)@, id.0 as int, p.0 as int, old(self)@[id.0 as int].ins[p.0 as int].data.skip(n as int)),
            graph_wf(final(self)@),
    {
        let r = self.nodes[id.0].take_data(p.0, n);
        proof {
            assert(self@ =~= with_data(old(self)@, id.0 as int, p.0 as int, old(self)@[id.0 as int].ins[p.0 as int].data.skip(n as int)));
            lemma_same_edges(old(self)@, id.0 as int, self@[id.0 as int]);
        }
        r
    }

    /// Copies `n` of the bytes waiting on input port `p` of node `id`, from position `index` on.
    pub(crate) fn copy_data(&self, id: NodeID, p: InPortID, index: usize, n: usize) -> (r: Vec<u8>)
        requires
            id.0 < self@.len(),
            p.0 < self@[id.0 as int].ins.len(),
            index + n <= self@[id.0 as int].ins[p.0 as int].data.len(),
        ensures
            r@ == self@[id.0 as int].ins[p.0 as int].data.subrange(index as int, index + n),
    {
        self.nodes[id.0].copy_data(p.0, index, n)
    }

    /// The bytes waiting on an input port fit in memory.
    pub proof fn lemma_data_len(&self, id: NodeID, p: InPortID)
        requires
            id.0 < self@.len(),
            p.0 < self@[id.0 as int].ins.len(),
        ensures
            self@[id.0 as int].ins[p.0 as int].data.len() <= usize::MAX,
    {
        assert(self@[id.0 as int] == self.nodes@[id.0 as int]@);
        self.nodes@[id.0 as int].lemma_data_len(p.0 as int);
    }

    /// Number of bytes waiting on input port `p` of node `id`.
    pub(crate) fn data_len(&self, id: NodeID, p: InPortID) -> (r: usize)
        requires
            id.0 < self@.len(),
            p.0 < self@[id.0 as int].ins.len(),
        ensures
            r == self@[id.0 as int].ins[p.0 as int].data.len(),
    {
        self.nodes[id.0].data_len(p.0)
    }
}

/// The nodes with the data waiting on input port `p` of node `n` replaced by `data`.
pub open spec fn with_data(nodes: Seq<NodeView>, n: int, p: int, data: Seq<u8>) -> Seq<NodeView> {
    nodes.update(
        n,
        NodeView { ins: nodes[n].ins.update(p, InPortView { data, ..nodes[n].ins[p] }), ..nodes[n] },
    )
}

/// Connecting two unconnected ports keeps the graph well formed.
pub proof fn lemma_connect_wf(nodes: Seq<NodeView>, s: int, sp: int, d: int, dp: int)
    requires
        graph_wf(nodes),
        0 <= d < nodes.len(),
        0 <= dp < nodes[d].ins.len(),
        0 <= s < nodes.len(),
        0 <= sp < nodes[s].outs.len(),
        nodes[d].ins[dp].edge is None,
        nodes[s].outs[sp] is None,
        d <= usize::MAX,
        s <= usize::MAX,
        dp <= usize::MAX,
        sp <= usize::MAX,
    ensures
        graph_wf(connected(nodes, s, sp, d, dp)),
        in_edge_at(connected(nodes, s, sp, d, dp), d, dp) == Some(
            OutEdge { node: NodeID(s as usize), port: OutPortID(sp as usize) },
        ),
        out_edge_at(connected(nodes, s, sp, d, dp), s, sp) == Some(
            InEdge { node: NodeID(d as usize), port: InPortID(dp as usize) },
        ),
{
    let h = connected(nodes, s, sp, d, dp);
    assert forall|n: int, p: int| #[trigger]
        in_edge_at(h, n, p) == if n == d && p == dp {
            Some(OutEdge { node: NodeID(s as usize), port: OutPortID(sp as usize) })
        } else {
            in_edge_at(nodes, n, p)
        } by {}
    assert forall|n: int, p: int| #[trigger]
        out_edge_at(h, n, p) == if n == s && p == sp {
            Some(InEdge { node: NodeID(d as usize), port: InPortID(dp as usize) })
        } else {
            out_edge_at(nodes, n, p)
        } by {}
    assert forall|i: int| 0 <= i < h.len() implies (#[trigger] h[i]).id == NodeID(i as usize) by {
        assert(nodes[i].id == NodeID(i as usize));
    }
    assert forall|n: int, p: int| #[trigger]
        in_edge_at(h, n, p) is Some implies (out_edge_at(
            h,
            in_edge_at(h, n, p)->Some_0.node.0 as int,
            in_edge_at(h, n, p)->Some_0.port.0 as int,
        ) matches Some(b) && b.node.0 == n && b.port.0 == p) by {
        if !(n == d && p == dp) {
            assert(in_edge_at(nodes, n, p) is Some);
            let e = in_edge_at(nodes, n, p)->Some_0;
            if e.node.0 == s && e.port.0 == sp {
                assert(out_edge_at(nodes, s, sp) is Some);
            }
        }
    }
    assert forall|n: int, p: int| #[trigger]
        out_edge_at(h, n, p) is Some implies (in_edge_at(
            h,
            out_edge_at(h, n, p)->Some_0.node.0 as int,
            out_edge_at(h, n, p)->Some_0.port.0 as int,
        ) matches Some(b) && b.node.0 == n && b.port.0 == p) by {
        if !(n == s && p == sp) {
            assert(out_edge_at(nodes, n, p) is Some);
            let e = out_edge_at(nodes, n, p)->Some_0;
            if e.node.0 == d && e.port.0 == dp {
                assert(in_edge_at(nodes, d, dp) is Some);
            }
        }
    }
}

/// Disconnecting a connected input port keeps the graph well formed, and neither end has an
/// edge afterwards.
pub proof fn lemma_disconnect_wf(nodes: Seq<NodeView>, d: int, dp: int)
    requires
        graph_wf(nodes),
        0 <= d < nodes.len(),
        0 <= dp < nodes[d].ins.len(),
        nodes[d].ins[dp].edge is Some,
    ensures
        graph_wf(disconnected(nodes, d, dp)),
        in_edge_at(disconnected(nodes, d, dp), d, dp) is None,
        ({
            let e = nodes[d].ins[dp].edge->Some_0;
            out_edge_at(disconnected(nodes, d, dp), e.node.0 as int, e.port.0 as int) is None
        }),
{
    let e = nodes[d].ins[dp].edge->Some_0;
    let s = e.node.0 as int;
    let sp = e.port.0 as int;
    assert(in_edge_at(nodes, d, dp) is Some);
    let h = disconnected(nodes, d, dp);
    assert forall|n: int, p: int| #[trigger]
        in_edge_at(h, n, p) == if n == d && p == dp {
            None
        } else {
            in_edge_at(nodes, n, p)
        } by {}
    assert forall|n: int, p: int| #[trigger]
        out_edge_at(h, n, p) == if n == s && p == sp {
            None
        } else {
            out_edge_at(nodes, n, p)
        } by {}
    assert forall|i: int| 0 <= i < h.len() implies (#[trigger] h[i]).id == NodeID(i as usize) by {
        assert(nodes[i].id == NodeID(i as usize));
    }
    assert forall|n: int, p: int| #[trigger]
        in_edge_at(h, n, p) is Some implies (out_edge_at(
            h,
            in_edge_at(h, n, p)->Some_0.node.0 as int,
            in_edge_at(h, n, p)->Some_0.port.0 as int,
        ) matches Some(b) && b.node.0 == n && b.port.0 == p) by {
        assert(in_edge_at(nodes, n, p) is Some);
    }
    assert forall|n: int, p: int| #[trigger]
        out_edge_at(h, n, p) is Some implies (in_edge_at(
            h,
            out_edge_at(h, n, p)->Some_0.node.0 as int,
            out_edge_at(h, n, p)->Some_0.port.0 as int,
        ) matches Some(b) && b.node.0 == n && b.port.0 == p) by {
        assert(out_edge_at(nodes, n, p) is Some);
    }
}

} // verus!
