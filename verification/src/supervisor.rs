//! Byte-level access of a node to the ports of a `graph::Graph`: a node writes to its output
//! ports, which appends to the input port at the other end of the edge, and reads what was
//! written to its input ports, first written first read.
use vstd::prelude::*;
use crate::graph::node::Port;
use crate::graph::{connected, connected_out, graph_wf, lemma_target, target, with_data, Graph, InEdge, InPortID, NodeID, NodeView, OutPortID};

verus! {

pub struct Data<T> {
    data: Vec<T>,
}

impl<T> View for Data<T> {
    type V = Seq<T>;

    closed spec fn view(&self) -> Seq<T> {
        self.data@
    }
}

impl<T> Data<T> {
    pub fn new(data: Vec<T>) -> (r: Data<T>)
        ensures
            r@ == data@,
    {
        Data { data }
    }
}

impl<T> core::ops::Deref for Data<T> {
    type Target = Vec<T>;

    fn deref(&self) -> (r: &Vec<T>)
        ensures
            r@ == self@,
    {
        &self.data
    }
}

/// After output port `sp` of node `s` is connected to input port `dp` of node `d`, a write to
/// the output port goes to that input port, where a read gives back the bytes written (when none
/// were waiting before).
pub proof fn law_read_gives_back_write(nodes: Seq<NodeView>, s: int, sp: int, d: int, dp: int, bytes: Seq<u8>)
    requires
        graph_wf(nodes),
        0 <= s < nodes.len(),
        0 <= sp < nodes[s].outs.len(),
        0 <= d < nodes.len(),
        0 <= dp < nodes[d].ins.len(),
        nodes[d].ins[dp].edge is None,
        nodes[s].outs[sp] is None,
        nodes[d].ins[dp].data.len() == 0,
        nodes.len() <= usize::MAX,
        nodes[s].outs.len() <= usize::MAX,
        nodes[d].ins.len() <= usize::MAX,
    ensures
        ({
            let c = connected(nodes, s, sp, d, dp);
            let (n, p) = target(c, NodeID(s as usize), OutPortID(sp as usize));
            &&& connected_out(c, NodeID(s as usize), OutPortID(sp as usize))
            &&& n == d && p == dp
            &&& with_data(c, n, p, c[n].ins[p].data + bytes)[d].ins[dp].data == bytes
        }),
{
    let c = connected(nodes, s, sp, d, dp);
    assert(c[s].outs[sp] == Some(InEdge { node: NodeID(d as usize), port: InPortID(dp as usize) }));
    assert(c[d].ins[dp].data == nodes[d].ins[dp].data);
    assert(c[d].ins[dp].data + bytes =~= bytes);
}

pub struct NodeGuard<'a> {
    node: NodeID,
    sched: &'a mut Scheduler,
}

impl<'a> NodeGuard<'a> {
    /// The node this guard acts for.
    pub closed spec fn node_id(&self) -> NodeID {
        self.node
    }

    /// The graph as the guard sees it.
    pub closed spec fn graph_view(&self) -> Seq<NodeView> {
        self.sched.graph@
    }

    /// The guard acts for a node of a well-formed graph.
    pub open spec fn valid(&self) -> bool {
        graph_wf(self.graph_view()) && self.node_id().0 < self.graph_view().len()
    }

    fn new(sched: &'a mut Scheduler, node_id: NodeID) -> (r: NodeGuard<'a>)
        ensures
            r.node_id() == node_id,
            r.graph_view() == old(sched).graph_view(),
    {
        NodeGuard { node: node_id, sched }
    }

    /// Appends `data` to the input port at the other end of output port `port`. Threads waiting
    /// on the graph are to be woken by the caller.
    pub fn write(&mut self, port: OutPortID, data: &[u8])
        requires
            old(self).valid(),
            connected_out(old(self).graph_view(), old(self).node_id(), port),
        ensures
            final(self).valid(),
            final(self).node_id() == old(self).node_id(),
            ({
                let g = old(self).graph_view();
                let (n, p) = target(g, old(self).node_id(), port);
                final(self).graph_view() == with_data(g, n, p, g[n].ins[p].data + data@)
            }),
    {
        proof {
            lemma_target(self.graph_view(), self.node, port);
        }
        let edge = self.sched.graph.node(self.node).out_port(port).edge().unwrap();
        self.sched.graph.append_data(edge.node, edge.port, data);
    }

    /// Takes all the data waiting on input port `port`.
    pub fn read(&mut self, port: InPortID) -> (r: Data<u8>)
        requires
            old(self).valid(),
            port.0 < old(self).graph_view()[old(self).node_id().0 as int].ins.len(),
        ensures
            final(self).valid(),
            final(self).node_id() == old(self).node_id(),
            ({
                let g = old(self).graph_view();
                let n = old(self).node_id().0 as int;
                &&& r@ == g[n].ins[port.0 as int].data
                &&& final(self).graph_view() == with_data(g, n, port.0 as int, Seq::empty())
            }),
    {
        let len = self.sched.graph.data_len(self.node, port);
        let out = self.sched.graph.take_data(self.node, port, len);
        proof {
            let g = old(self).graph_view();
            let n = self.node.0 as int;
            assert(g[n].ins[port.0 as int].data.skip(len as int) =~= Seq::<u8>::empty());
            assert(g[n].ins[port.0 as int].data.take(len as int) =~= g[n].ins[port.0 as int].data);
        }
        Data::new(out)
    }

    /// Takes the first `n` bytes waiting on input port `port`; takes nothing, and returns no
    /// bytes, when fewer are waiting.
    pub fn read_n(&mut self, port: InPortID, n: usize) -> (r: Data<u8>)
        requires
            old(self).valid(),
            port.0 < old(self).graph_view()[old(self).node_id().0 as int].ins.len(),
        ensures
            final(self).valid(),
            final(self).node_id() == old(self).node_id(),
            ({
                let g = old(self).graph_view();
                let k = old(self).node_id().0 as int;
                let data = g[k].ins[port.0 as int].data;
                if data.len() < n {
                    &&& r@ == Seq::<u8>::empty()
                    &&& final(self).graph_view() == g
                } else {
                    &&& r@ == data.take(n as int)
                    &&& final(self).graph_view() == with_data(g, k, port.0 as int, data.skip(n as int))
                }
            }),
    {
        let len = self.sched.graph.data_len(self.node, port);
        if len < n {
            return Data::new(Vec::new());
        }
        let out = self.sched.graph.take_data(self.node, port, n);
        Data::new(out)
    }

    /// Number of bytes waiting on input port `port`.
    pub fn available(&self, port: InPortID) -> (r: usize)
        requires
            self.valid(),
            port.0 < self.graph_view()[self.node_id().0 as int].ins.len(),
        ensures
            r == self.graph_view()[self.node_id().0 as int].ins[port.0 as int].data.len(),
    {
        self.sched.graph.data_len(self.node, port)
    }

    /// Number of bytes written to output port `port` and not yet read at the other end.
    pub fn buffered(&self, port: OutPortID) -> (r: usize)
        requires
            self.valid(),
            connected_out(self.graph_view(), self.node_id(), port),
        ensures
            ({
                let (n, p) = target(self.graph_view(), self.node_id(), port);
                r == self.graph_view()[n].ins[p].data.len()
            }),
    {
        proof {
            lemma_target(self.graph_view(), self.node, port);
        }
        let edge = self.sched.graph.node(self.node).out_port(port).edge().unwrap();
        self.sched.graph.data_len(edge.node, edge.port)
    }
}

/**
 * Holds the context needed for a node thread to read, write, and access the graph.
 */
pub struct NodeContext {
    id: NodeID,
}

impl NodeContext {
    /// The node this context belongs to.
    pub closed spec fn node_id(&self) -> NodeID {
        self.id
    }

    /// A guard through which the node of this context reads and writes in the graph of `sup`.
    pub fn lock<'a>(&self, sup: &'a mut Supervisor) -> (r: NodeGuard<'a>)
        ensures
            r.node_id() == self.node_id(),
            r.graph_view() == old(sup).graph_view(),
    {
        NodeGuard::new(&mut sup.sched, self.id)
    }

    /// Ends this context: its node is no longer attached to a thread.
    pub fn detach(self, sup: &mut Supervisor)
        requires
            graph_wf(old(sup).graph_view()),
            self.node_id().0 < old(sup).graph_view().len(),
            old(sup).graph_view()[self.node_id().0 as int].attached,
        ensures
            final(sup).graph_view() == old(sup).graph_view().update(
                self.node_id().0 as int,
                NodeView { attached: false, ..old(sup).graph_view()[self.node_id().0 as int] },
            ),
            graph_wf(final(sup).graph_view()),
    {
        let r = sup.sched.graph.detach_thread(self.id);
    }
}

/**
 * The supervisor runs the main loop. It owns the graph, and manages access to the graph while the
 * application is running. Node threads must be attached to the supervisor by requesting a context.
 */
pub struct Supervisor {
    sched: Scheduler,
}

impl Supervisor {
    /// The graph that the supervisor owns.
    pub closed spec fn graph_view(&self) -> Seq<NodeView> {
        self.sched.graph@
    }

    pub fn new(graph: Graph) -> (r: Supervisor)
        ensures
            r.graph_view() == graph@,
    {
        Supervisor { sched: Scheduler::new(graph) }
    }

    /// Number of nodes of the graph.
    pub fn num_nodes(&self) -> (r: usize)
        ensures
            r == self.graph_view().len(),
    {
        self.sched.graph.num_nodes()
    }

    /// Attaches a thread to node `node`; `Err` if one already is.
    pub fn node_ctx(&mut self, node: NodeID) -> (r: Result<NodeContext, ()>)
        requires
            graph_wf(old(self).graph_view()),
            node.0 < old(self).graph_view().len(),
        ensures
            r is Ok <==> !old(self).graph_view()[node.0 as int].attached,
            r matches Ok(c) ==> c.node_id() == node,
            final(self).graph_view() == old(self).graph_view().update(
                node.0 as int,
                NodeView { attached: true, ..old(self).graph_view()[node.0 as int] },
            ),
            graph_wf(final(self).graph_view()),
    {
        match self.sched.graph.attach_thread(node) {
            Ok(()) => Ok(NodeContext { id: node }),
            Err(()) => Err(()),
        }
    }
}

/// Owns the graph that the supervisor hands out access to.
pub struct Scheduler {
    graph: Graph,
}

impl Scheduler {
    /// The graph.
    pub closed spec fn graph_view(&self) -> Seq<NodeView> {
        self.graph@
    }

    fn new(graph: Graph) -> (r: Scheduler)
        ensures
            r.graph_view() == graph@,
    {
        Scheduler { graph }
    }
}

} // verus!
