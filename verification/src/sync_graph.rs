//! A graph whose nodes carry a growable list of input and output ports. Ports are connected one
//! to one; every connection is recorded on both of its ends.
use vstd::prelude::*;
use std::collections::VecDeque;

verus! {

#[derive(Debug, PartialEq, Eq)]
pub enum Error {
    InvalidNode,
    InvalidPort,
    Attached,
    NotAttached,
    Connected,
    NotConnected,
    SizeMismatch,
    Conversion,
    Aborted,
    Unavailable,
}

pub type Result<T> = core::result::Result<T, Error>;

/// A unique identifier of any `Node` in a specific `Graph`.
#[derive(Copy, Clone, Debug, PartialEq, Eq, Structural)]
pub struct NodeID(pub usize);

/// A unique identifier of any `InPort` in a specific `Node`.
#[derive(Copy, Clone, Debug, PartialEq, Eq, Structural)]
pub struct InPortID(pub usize);

/// A unique identifier of any `OutPort` in a specific `Node`.
#[derive(Copy, Clone, Debug, PartialEq, Eq, Structural)]
pub struct OutPortID(pub usize);

/**
 * The type of a node is derived from the structure of its ports.
 */
#[derive(PartialEq, Eq, Debug, Structural)]
pub enum NodeType {
    /// A `Source` Node has no input ports.
    Source,
    /// An `Internal` Node has both input and output ports.
    Internal,
    /// A `Sink` Node has no output ports.
    Sink,
    /// A `Observer` Node has no input or output ports.
    Observer,
}

/// The type of a node with `has_in` input ports present and `has_out` output ports present.
pub open spec fn node_type_of(has_in: bool, has_out: bool) -> NodeType {
    if has_in && has_out {
        NodeType::Internal
    } else if !has_in && !has_out {
        NodeType::Observer
    } else if has_out {
        NodeType::Source
    } else {
        NodeType::Sink
    }
}

/// A node's type is decided by which kinds of ports it has: `Source` exactly when it has output
/// ports and no input ports, `Sink` exactly when it has input ports and no output ports,
/// `Internal` exactly when it has both, and `Observer` exactly when it has neither.
pub proof fn law_node_type_of(has_in: bool, has_out: bool)
    ensures
        (node_type_of(has_in, has_out) == NodeType::Source) <==> (!has_in && has_out),
        (node_type_of(has_in, has_out) == NodeType::Sink) <==> (has_in && !has_out),
        (node_type_of(has_in, has_out) == NodeType::Internal) <==> (has_in && has_out),
        (node_type_of(has_in, has_out) == NodeType::Observer) <==> (!has_in && !has_out),
{
}

/**
 * An `Edge` is like a vector pointing to a specific port of a specific node, originating
 * from nowhere in particular.
 */
#[derive(Clone, Copy, Debug)]
pub struct Edge<ID: Copy + Clone> {
    /// Destination node
    pub node: NodeID,
    /// Destination port
    pub port: ID,
}

impl<ID: Copy + Clone> Edge<ID> {
    /// Construct a new `Edge`
    pub fn new(node: NodeID, port: ID) -> (r: Self)
        ensures
            r.node == node,
            r.port == port,
    {
        Edge { node, port }
    }
}

/// What a kind of port carries besides its identifier, edge and name.
pub trait PortDetails: Default {
    type ID: Copy + Clone;
    type Edge: Copy + Clone;
}

pub struct Port<Details: PortDetails> {
    id: Details::ID,
    edge: Option<Details::Edge>,
    name: String,
    details: Details,
}

impl<Details: PortDetails> Port<Details> {
    /// The identifier of this port.
    pub closed spec fn spec_id(&self) -> Details::ID {
        self.id
    }

    /// The edge of this port.
    pub closed spec fn spec_edge(&self) -> Option<Details::Edge> {
        self.edge
    }

    /// The name of this port.
    pub closed spec fn spec_name(&self) -> Seq<char> {
        self.name@
    }

    /// The details of this port.
    pub closed spec fn spec_details(&self) -> Details {
        self.details
    }

    /**
     * Construct a new port with a given ID and edge.
     */
    pub fn new(id: Details::ID, edge: Option<Details::Edge>) -> (r: Self)
        ensures
            r.spec_id() == id,
            r.spec_edge() == edge,
            r.spec_name() == Seq::<char>::empty(),
            call_ensures(Details::default, (), r.spec_details()),
    {
        Port { id, edge, name: String::new(), details: Details::default() }
    }

    /**
     * Get the edge currently associated with this port, if any.
     */
    pub fn edge(&self) -> (r: Option<Details::Edge>)
        ensures
            r == self.spec_edge(),
    {
        self.edge
    }

    /**
     * Set the edge currently associated with this port.
     */
    pub fn set_edge(&mut self, edge: Option<Details::Edge>)
        ensures
            final(self).spec_edge() == edge,
            final(self).spec_id() == old(self).spec_id(),
            final(self).spec_name() == old(self).spec_name(),
            final(self).spec_details() == old(self).spec_details(),
    {
        self.edge = edge;
    }

    /**
     * Returns true iff this port has an edge.
     */
    fn has_edge(&self) -> (r: bool)
        ensures
            r == self.spec_edge() is Some,
    {
        self.edge.is_some()
    }

    /**
     * Returns the ID associated with this port.
     */
    pub fn id(&self) -> (r: Details::ID)
        ensures
            r == self.spec_id(),
    {
        self.id
    }

    /**
     * Returns the name of this port.
     */
    pub fn name(&self) -> (r: String)
        ensures
            r@ == self.spec_name(),
    {
        self.name.clone()
    }

    /**
     * Sets the name of this port.
     */
    pub fn set_name(&mut self, name: String)
        ensures
            final(self).spec_name() == name@,
            final(self).spec_id() == old(self).spec_id(),
            final(self).spec_edge() == old(self).spec_edge(),
            final(self).spec_details() == old(self).spec_details(),
    {
        self.name = name;
    }

    pub(crate) fn details(&self) -> (r: &Details)
        ensures
            *r == self.spec_details(),
    {
        &self.details
    }
}

/// What the input side of a port holds: the bytes that were written to it and not yet read.
#[derive(Debug)]
pub struct Input {
    pub(crate) data: VecDeque<u8>,
}

impl View for Input {
    type V = Seq<u8>;

    closed spec fn view(&self) -> Seq<u8> {
        self.data@
    }
}

impl Default for Input {
    fn default() -> (r: Input)
        ensures
            r@ == Seq::<u8>::empty(),
    {
        Input { data: VecDeque::new() }
    }
}

impl PortDetails for Input {
    type ID = InPortID;
    type Edge = Edge<OutPortID>;
}

impl Input {
    /// The bytes waiting to be read.
    pub fn data(&self) -> (r: &VecDeque<u8>)
        ensures
            r@ == self@,
    {
        &self.data
    }
}

/// The output side of a port holds nothing besides its identifier, edge and name.
#[derive(Debug)]
pub struct Output;

impl Default for Output {
    fn default() -> (r: Output) {
        Output
    }
}

impl PortDetails for Output {
    type ID = OutPortID;
    type Edge = Edge<InPortID>;
}

pub type InPort = Port<Input>;

pub type OutPort = Port<Output>;

/// A port as plain values.
pub ghost struct PortView<I, E, D> {
    pub id: I,
    pub edge: Option<E>,
    pub name: Seq<char>,
    pub details: D,
}

/// An input port as plain values; its details are the bytes waiting to be read.
pub type InPortView = PortView<InPortID, Edge<OutPortID>, Seq<u8>>;

/// An output port as plain values.
pub type OutPortView = PortView<OutPortID, Edge<InPortID>, ()>;

impl View for Port<Input> {
    type V = InPortView;

    closed spec fn view(&self) -> InPortView {
        PortView { id: self.id, edge: self.edge, name: self.name@, details: self.details@ }
    }
}

impl View for Port<Output> {
    type V = OutPortView;

    closed spec fn view(&self) -> OutPortView {
        PortView { id: self.id, edge: self.edge, name: self.name@, details: () }
    }
}

/// The getters of an input port give what its view holds.
pub proof fn lemma_in_port_getters(p: InPort)
    ensures
        p.spec_id() == p@.id,
        p.spec_edge() == p@.edge,
        p.spec_name() == p@.name,
        p.spec_details()@ == p@.details,
{
}

/// The getters of an output port give what its view holds.
pub proof fn lemma_out_port_getters(p: OutPort)
    ensures
        p.spec_id() == p@.id,
        p.spec_edge() == p@.edge,
        p.spec_name() == p@.name,
{
}

/// A freshly made input port with index `p`: no edge, no name, no data.
pub open spec fn fresh_in_port(p: int) -> InPortView {
    PortView { id: InPortID(p as usize), edge: None, name: Seq::empty(), details: Seq::empty() }
}

/// A freshly made output port with index `p`: no edge, no name.
pub open spec fn fresh_out_port(p: int) -> OutPortView {
    PortView { id: OutPortID(p as usize), edge: None, name: Seq::empty(), details: () }
}

/// A node as plain values.
pub ghost struct NodeView {
    pub id: NodeID,
    pub ins: Seq<InPortView>,
    pub outs: Seq<OutPortView>,
    pub attached: bool,
    pub aborting: bool,
}

impl NodeView {
    /// Each port's identifier is its position in its list.
    pub open spec fn ports_wf(self) -> bool {
        &&& forall|p: int| 0 <= p < self.ins.len() ==> (#[trigger] self.ins[p]).id == InPortID(p as usize)
        &&& forall|p: int| 0 <= p < self.outs.len() ==> (#[trigger] self.outs[p]).id == OutPortID(p as usize)
    }

    /// A new node with `num_in` input ports and `num_out` output ports, none connected.
    pub open spec fn fresh(id: NodeID, num_in: nat, num_out: nat) -> NodeView {
        NodeView {
            id,
            ins: Seq::new(num_in, |p: int| fresh_in_port(p)),
            outs: Seq::new(num_out, |p: int| fresh_out_port(p)),
            attached: false,
            aborting: false,
        }
    }

    pub open spec fn node_type(self) -> NodeType {
        node_type_of(self.ins.len() > 0, self.outs.len() > 0)
    }
}

/**
 * A node is a processing unit.
 *
 * It contains an ID, used as a global reference, a vector of input ports, and a vector of output
 * ports.
 */
pub struct Node {
    id: NodeID,
    in_ports: Vec<InPort>,
    out_ports: Vec<OutPort>,
    attached: bool,
    abort: bool,
}

impl View for Node {
    type V = NodeView;

    closed spec fn view(&self) -> NodeView {
        NodeView {
            id: self.id,
            ins: self.in_ports@.map_values(|p: InPort| p@),
            outs: self.out_ports@.map_values(|p: OutPort| p@),
            attached: self.attached,
            aborting: self.abort,
        }
    }
}

impl Node {
    /**
     * Construct a new `Node` with the given ID, number of input ports, and number of output ports.
     */
    pub(crate) fn new(id: NodeID, num_in: usize, num_out: usize) -> (r: Node)
        ensures
            r@ == NodeView::fresh(id, num_in as nat, num_out as nat),
    {
        let mut in_ports: Vec<InPort> = Vec::new();
        let mut i: usize = 0;
        while i < num_in
            invariant
                i <= num_in,
                in_ports@.map_values(|p: InPort| p@) =~= Seq::new(i as nat, |p: int| fresh_in_port(p)),
            decreases num_in - i,
        {
            let port = InPort::new(InPortID(i), None);
            assert(port@ == fresh_in_port(i as int));
            let ghost before = in_ports@;
            in_ports.push(port);
            assert(in_ports@.map_values(|p: InPort| p@) =~= before.map_values(|p: InPort| p@).push(
                port@,
            ));
            i = i + 1;
        }
        let mut out_ports: Vec<OutPort> = Vec::new();
        let mut j: usize = 0;
        while j < num_out
            invariant
                j <= num_out,
                out_ports@.map_values(|p: OutPort| p@) =~= Seq::new(
                    j as nat,
                    |p: int| fresh_out_port(p),
                ),
            decreases num_out - j,
        {
            let port = OutPort::new(OutPortID(j), None);
            assert(port@ == fresh_out_port(j as int));
            let ghost before = out_ports@;
            out_ports.push(port);
            assert(out_ports@.map_values(|p: OutPort| p@) =~= before.map_values(|p: OutPort| p@).push(
                port@,
            ));
            j = j + 1;
        }
        Node { id, in_ports, out_ports, attached: false, abort: false }
    }

    /**
     * Does this node have any input ports?
     */
    pub fn has_inputs(&self) -> (r: bool)
        ensures
            r == (self@.ins.len() > 0),
    {
        self.in_ports.len() > 0
    }

    /**
     * Does this node have any output ports?
     */
    pub fn has_outputs(&self) -> (r: bool)
        ensures
            r == (self@.outs.len() > 0),
    {
        self.out_ports.len() > 0
    }

    /**
     * Returns the type of this node.
     */
    pub fn node_type(&self) -> (r: NodeType)
        ensures
            r == self@.node_type(),
            (r == NodeType::Source) <==> (self@.ins.len() == 0 && self@.outs.len() > 0),
            (r == NodeType::Sink) <==> (self@.ins.len() > 0 && self@.outs.len() == 0),
            (r == NodeType::Internal) <==> (self@.ins.len() > 0 && self@.outs.len() > 0),
            (r == NodeType::Observer) <==> (self@.ins.len() == 0 && self@.outs.len() == 0),
    {
        if self.has_inputs() && self.has_outputs() {
            NodeType::Internal
        } else if !self.has_inputs() && !self.has_outputs() {
            NodeType::Observer
        } else if self.has_outputs() {
            NodeType::Source
        } else {
            // if self.has_inputs()
            NodeType::Sink
        }
    }

    /**
     * Returns an array containing all input ports of this node, indexed by id.
     */
    pub fn in_ports(&self) -> (r: &[InPort])
        ensures
            r@.map_values(|p: InPort| p@) == self@.ins,
    {
        self.in_ports.as_slice()
    }

    /**
     * Returns an array containing all output ports of this node, indexed by id.
     */
    pub fn out_ports(&self) -> (r: &[OutPort])
        ensures
            r@.map_values(|p: OutPort| p@) == self@.outs,
    {
        self.out_ports.as_slice()
    }

    /**
     * Pushes a new input port to the end of the port list.
     */
    pub fn push_in_port(&mut self) -> (r: InPortID)
        ensures
            r == InPortID(old(self)@.ins.len() as usize),
            final(self)@ == (NodeView {
                ins: old(self)@.ins.push(fresh_in_port(old(self)@.ins.len() as int)),
                ..old(self)@
            }),
    {
        let id = InPortID(self.in_ports.len());
        let port = InPort::new(id, None);
        self.in_ports.push(port);
        assert(self@.ins =~= old(self)@.ins.push(fresh_in_port(old(self)@.ins.len() as int)));
        id
    }

    /**
     * Pushes a new output port to the end of the port list.
     */
    pub fn push_out_port(&mut self) -> (r: OutPortID)
        ensures
            r == OutPortID(old(self)@.outs.len() as usize),
            final(self)@ == (NodeView {
                outs: old(self)@.outs.push(fresh_out_port(old(self)@.outs.len() as int)),
                ..old(self)@
            }),
    {
        let id = OutPortID(self.out_ports.len());
        let port = OutPort::new(id, None);
        self.out_ports.push(port);
        assert(self@.outs =~= old(self)@.outs.push(fresh_out_port(old(self)@.outs.len() as int)));
        id
    }

    /**
     * Gets an input port by id.
     */
    pub fn in_port(&self, port_id: InPortID) -> (r: Result<&InPort>)
        ensures
            r is Ok <==> port_id.0 < self@.ins.len(),
            r matches Ok(p) ==> p@ == self@.ins[port_id.0 as int],
            r matches Err(e) ==> e == Error::InvalidPort,
    {
        if port_id.0 < self.in_ports.len() {
            Ok(&self.in_ports[port_id.0])
        } else {
            Err(Error::InvalidPort)
        }
    }

    /**
     * Gets an output port by id.
     */
    pub fn out_port(&self, port_id: OutPortID) -> (r: Result<&OutPort>)
        ensures
            r is Ok <==> port_id.0 < self@.outs.len(),
            r matches Ok(p) ==> p@ == self@.outs[port_id.0 as int],
            r matches Err(e) ==> e == Error::InvalidPort,
    {
        if port_id.0 < self.out_ports.len() {
            Ok(&self.out_ports[port_id.0])
        } else {
            Err(Error::InvalidPort)
        }
    }

    /**
     * Returns the id of this node.
     */
    pub fn id(&self) -> (r: NodeID)
        ensures
            r == self@.id,
    {
        self.id
    }

    /// Sets the abort flag. Threads waiting on this node are to be woken by the caller.
    pub fn set_aborting(&mut self, abort: bool)
        ensures
            final(self)@ == (NodeView { aborting: abort, ..old(self)@ }),
    {
        self.abort = abort;
    }

    /// The abort flag.
    pub fn aborting(&self) -> (r: bool)
        ensures
            r == self@.aborting,
    {
        self.abort
    }

    /// Whether a thread is attached to this node.
    pub fn attached(&self) -> (r: bool)
        ensures
            r == self@.attached,
    {
        self.attached
    }

    /// Marks the node attached; `Err(Attached)` if it already was.
    pub(crate) fn attach_thread(&mut self) -> (r: Result<()>)
        ensures
            r is Ok <==> !old(self)@.attached,
            r matches Err(e) ==> e == Error::Attached,
            final(self)@ == (NodeView { attached: true, ..old(self)@ }),
    {
        if self.attached {
            Err(Error::Attached)
        } else {
            self.attached = true;
            Ok(())
        }
    }

    /// Marks the node detached; `Err(NotAttached)` if it was not attached.
    pub(crate) fn detach_thread(&mut self) -> (r: Result<()>)
        ensures
            r is Ok <==> old(self)@.attached,
            r matches Err(e) ==> e == Error::NotAttached,
            final(self)@ == (NodeView { attached: false, ..old(self)@ }),
    {
        if self.attached {
            self.attached = false;
            Ok(())
        } else {
            Err(Error::NotAttached)
        }
    }

    /**
     * Removes the input port from the end of the port list, and disconnects it in `graph`, of
     * which this node is not (or no longer) a part.
     */
    pub fn pop_in_port(&mut self, graph: &mut Graph)
        requires
            old(graph)@.ids().no_duplicates(),
        ensures
            old(self)@.ins.len() == 0 ==> final(self)@ == old(self)@ && final(graph)@ == old(graph)@,
            old(self)@.ins.len() > 0 ==> {
                let x = NodeView { outs: Seq::empty(), ins: old(self)@.ins.subrange(old(self)@.ins.len() - 1, old(self)@.ins.len() as int), ..old(self)@ };
                &&& final(self)@ == (NodeView { ins: old(self)@.ins.drop_last(), ..old(self)@ })
                &&& final(graph)@ == release_graph(old(graph)@, x, 0, 1)
            },
    {
        let popped = self.in_ports.pop();
        match popped {
            Some(port) => {
                let mut port = port;
                let ghost x = NodeView { outs: Seq::empty(), ins: old(self)@.ins.subrange(old(self)@.ins.len() - 1, old(self)@.ins.len() as int), ..old(self)@ };
                proof {
                    assert(self@.ins =~= old(self)@.ins.drop_last());
                    assert(x.ins[0] == port@);
                    lemma_release_none(graph@, x);
                    lemma_release_shape(graph@, x, 0, 0);
                }
                let _ = graph.release_in(&mut port);
                proof {
                    lemma_release_in_step(old(graph)@, x, 0, graph@);
                }
            },
            None => {},
        }
    }

    /**
     * Removes the output port from the end of the port list, and disconnects it in `graph`, of
     * which this node is not (or no longer) a part.
     */
    pub fn pop_out_port(&mut self, graph: &mut Graph)
        requires
            old(graph)@.ids().no_duplicates(),
        ensures
            old(self)@.outs.len() == 0 ==> final(self)@ == old(self)@ && final(graph)@ == old(graph)@,
            old(self)@.outs.len() > 0 ==> {
                let x = NodeView { ins: Seq::empty(), outs: old(self)@.outs.subrange(old(self)@.outs.len() - 1, old(self)@.outs.len() as int), ..old(self)@ };
                &&& final(self)@ == (NodeView { outs: old(self)@.outs.drop_last(), ..old(self)@ })
                &&& final(graph)@ == release_graph(old(graph)@, x, 1, 0)
            },
    {
        let popped = self.out_ports.pop();
        match popped {
            Some(port) => {
                let mut port = port;
                let ghost x = NodeView { ins: Seq::empty(), outs: old(self)@.outs.subrange(old(self)@.outs.len() - 1, old(self)@.outs.len() as int), ..old(self)@ };
                proof {
                    assert(self@.outs =~= old(self)@.outs.drop_last());
                    assert(x.outs[0] == port@);
                    lemma_release_none(graph@, x);
                    lemma_release_shape(graph@, x, 0, 0);
                }
                let _ = graph.release_out(&mut port);
                proof {
                    lemma_release_out_step(old(graph)@, x, 0, graph@);
                }
            },
            None => {},
        }
    }

    /// Removes all ports of this node, which is not (or no longer) a part of `graph`, and
    /// disconnects in `graph` every port that one of them names: output ports first, then input
    /// ports.
    pub fn clear_ports(&mut self, graph: &mut Graph)
        requires
            old(graph)@.ids().no_duplicates(),
        ensures
            final(self)@ == (NodeView { ins: Seq::empty(), outs: Seq::empty(), ..old(self)@ }),
            final(graph)@ == release_graph(
                old(graph)@,
                old(self)@,
                old(self)@.outs.len() as int,
                old(self)@.ins.len() as int,
            ),
    {
        let ghost x = self@;
        let ghost g0 = graph@;
        proof {
            lemma_release_none(g0, x);
        }
        let mut old_outs: Vec<OutPort> = Vec::new();
        std::mem::swap(&mut old_outs, &mut self.out_ports);
        let mut j: usize = 0;
        while j < old_outs.len()
            invariant
                j <= old_outs@.len(),
                old_outs@.len() == x.outs.len(),
                forall|t: int| j <= t < old_outs@.len() ==> (#[trigger] old_outs@[t])@ == x.outs[t],
                g0.ids().no_duplicates(),
                graph@ == release_graph(g0, x, j as int, 0),
            decreases old_outs@.len() - j,
        {
            proof {
                lemma_release_shape(g0, x, j as int, 0);
            }
            let _ = graph.release_out(&mut old_outs[j]);
            proof {
                lemma_release_out_step(g0, x, j as int, graph@);
            }
            j = j + 1;
        }
        let mut old_ins: Vec<InPort> = Vec::new();
        std::mem::swap(&mut old_ins, &mut self.in_ports);
        let mut i: usize = 0;
        while i < old_ins.len()
            invariant
                i <= old_ins@.len(),
                old_ins@.len() == x.ins.len(),
                forall|t: int| i <= t < old_ins@.len() ==> (#[trigger] old_ins@[t])@ == x.ins[t],
                g0.ids().no_duplicates(),
                graph@ == release_graph(g0, x, x.outs.len() as int, i as int),
            decreases old_ins@.len() - i,
        {
            proof {
                lemma_release_shape(g0, x, x.outs.len() as int, i as int);
            }
            let _ = graph.release_in(&mut old_ins[i]);
            proof {
                lemma_release_in_step(g0, x, i as int, graph@);
            }
            i = i + 1;
        }
        assert(self@.ins =~= Seq::<InPortView>::empty());
        assert(self@.outs =~= Seq::<OutPortView>::empty());
    }

    /// Discards the data waiting on every input port; `Err(Attached)` (and nothing changed)
    /// while a thread is attached.
    pub fn flush(&mut self) -> (r: Result<()>)
        ensures
            r is Ok <==> !old(self)@.attached,
            r matches Err(e) ==> e == Error::Attached,
            !old(self)@.attached ==> final(self)@ == (NodeView {
                ins: old(self)@.ins.map_values(|p: InPortView| PortView { details: Seq::<u8>::empty(), ..p }),
                ..old(self)@
            }),
            old(self)@.attached ==> final(self)@ == old(self)@,
    {
        let a = self.attach_thread();
        if a.is_err() {
            return Err(Error::Attached);
        }
        let mut i: usize = 0;
        while i < self.in_ports.len()
            invariant
                i <= self@.ins.len(),
                self@.ins.len() == old(self)@.ins.len(),
                self@.attached,
                self@.id == old(self)@.id,
                self@.aborting == old(self)@.aborting,
                self@.outs == old(self)@.outs,
                forall|k: int|
                    0 <= k < self@.ins.len() ==> #[trigger] self@.ins[k] == (PortView {
                        details: if k < i {
                            Seq::<u8>::empty()
                        } else {
                            old(self)@.ins[k].details
                        },
                        ..old(self)@.ins[k]
                    }),
            decreases self@.ins.len() - i,
        {
            let ghost before = self@;
            self.in_ports[i].details.data.clear();
            assert forall|k: int| 0 <= k < self@.ins.len() implies #[trigger] self@.ins[k] == (
            PortView {
                details: if k < i + 1 {
                    Seq::<u8>::empty()
                } else {
                    old(self)@.ins[k].details
                },
                ..old(self)@.ins[k]
            }) by {
                assert(before.ins[k] == self.in_ports@[k]@ || k == i);
            }
            i = i + 1;
        }
        let d = self.detach_thread();
        assert(self@.ins =~= old(self)@.ins.map_values(|p: InPortView| PortView { details: Seq::<u8>::empty(), ..p }));
        Ok(())
    }
}


/// A graph as plain values: the next identifier to hand out, and the nodes in storage order.
pub ghost struct GraphView {
    pub next_id: nat,
    pub nodes: Seq<NodeView>,
}

/// `e` is an edge to input port `p` of node `id`.
pub open spec fn names_in_port(e: Option<Edge<InPortID>>, id: NodeID, p: int) -> bool {
    e matches Some(b) && b.node == id && b.port.0 == p
}

/// `e` is an edge to output port `p` of node `id`.
pub open spec fn names_out_port(e: Option<Edge<OutPortID>>, id: NodeID, p: int) -> bool {
    e matches Some(b) && b.node == id && b.port.0 == p
}

/// `e` with its edge replaced by `edge`.
pub open spec fn with_edge<I, E, D>(v: PortView<I, E, D>, edge: Option<E>) -> PortView<I, E, D> {
    PortView { edge, ..v }
}

impl GraphView {
    /// The identifiers of the nodes, in storage order.
    pub open spec fn ids(self) -> Seq<NodeID> {
        self.nodes.map_values(|n: NodeView| n.id)
    }

    pub open spec fn contains(self, id: NodeID) -> bool {
        self.ids().contains(id)
    }

    /// Storage position of the node `id`.
    pub open spec fn index(self, id: NodeID) -> int {
        self.ids().index_of(id)
    }

    /// The node `id` (meaningful when `contains(id)`).
    pub open spec fn node(self, id: NodeID) -> NodeView {
        self.nodes[self.index(id)]
    }

    pub open spec fn has_in_port(self, id: NodeID, p: int) -> bool {
        self.contains(id) && 0 <= p < self.node(id).ins.len()
    }

    pub open spec fn has_out_port(self, id: NodeID, p: int) -> bool {
        self.contains(id) && 0 <= p < self.node(id).outs.len()
    }

    /// The edge of input port `p` of node `id`; `None` when there is no such port.
    pub open spec fn in_edge(self, id: NodeID, p: int) -> Option<Edge<OutPortID>> {
        if self.has_in_port(id, p) {
            self.node(id).ins[p].edge
        } else {
            None
        }
    }

    /// The edge of output port `p` of node `id`; `None` when there is no such port.
    pub open spec fn out_edge(self, id: NodeID, p: int) -> Option<Edge<InPortID>> {
        if self.has_out_port(id, p) {
            self.node(id).outs[p].edge
        } else {
            None
        }
    }

    /// Identifiers are unique and below the counter, ports are numbered by position, and
    /// every edge is matched by an edge back from the port it names.
    pub open spec fn wf(self) -> bool {
        &&& self.ids().no_duplicates()
        &&& forall|i: int| 0 <= i < self.nodes.len() ==> (#[trigger] self.nodes[i]).id.0 < self.next_id
        &&& forall|i: int| 0 <= i < self.nodes.len() ==> (#[trigger] self.nodes[i]).ports_wf()
        &&& forall|id: NodeID, p: int| #[trigger]
            self.in_edge(id, p) matches Some(e) ==> names_in_port(
                self.out_edge(e.node, e.port.0 as int),
                id,
                p,
            )
        &&& forall|id: NodeID, p: int| #[trigger]
            self.out_edge(id, p) matches Some(e) ==> names_out_port(
                self.in_edge(e.node, e.port.0 as int),
                id,
                p,
            )
    }

    /// The graph with the edge of input port `p` of node `id` replaced by `e`.
    pub open spec fn set_in_edge(self, id: NodeID, p: int, e: Option<Edge<OutPortID>>) -> GraphView {
        let k = self.index(id);
        GraphView {
            nodes: self.nodes.update(
                k,
                NodeView {
                    ins: self.nodes[k].ins.update(p, with_edge(self.nodes[k].ins[p], e)),
                    ..self.nodes[k]
                },
            ),
            ..self
        }
    }

    /// The graph with the edge of output port `p` of node `id` replaced by `e`.
    pub open spec fn set_out_edge(self, id: NodeID, p: int, e: Option<Edge<InPortID>>) -> GraphView {
        let k = self.index(id);
        GraphView {
            nodes: self.nodes.update(
                k,
                NodeView {
                    outs: self.nodes[k].outs.update(p, with_edge(self.nodes[k].outs[p], e)),
                    ..self.nodes[k]
                },
            ),
            ..self
        }
    }
}

/// What `Graph::connect` does: the graph afterwards and the result.
pub open spec fn connect_spec(
    g: GraphView,
    src_id: NodeID,
    src_port: OutPortID,
    dst_id: NodeID,
    dst_port: InPortID,
) -> (GraphView, Result<()>) {
    if !g.contains(dst_id) {
        (g, Err(Error::InvalidNode))
    } else if !g.has_in_port(dst_id, dst_port.0 as int) {
        (g, Err(Error::InvalidPort))
    } else if !g.contains(src_id) {
        (g, Err(Error::InvalidNode))
    } else if !g.has_out_port(src_id, src_port.0 as int) {
        (g, Err(Error::InvalidPort))
    } else if g.in_edge(dst_id, dst_port.0 as int) is Some || g.out_edge(src_id, src_port.0 as int) is Some {
        (g, Err(Error::Connected))
    } else {
        (
            g.set_in_edge(dst_id, dst_port.0 as int, Some(Edge { node: src_id, port: src_port }))
                .set_out_edge(src_id, src_port.0 as int, Some(Edge { node: dst_id, port: dst_port })),
            Ok(()),
        )
    }
}

/// Where the node `id` is stored when it is stored at `k`, with unique identifiers.
pub proof fn lemma_index(g: GraphView, id: NodeID, k: int)
    requires
        g.ids().no_duplicates(),
        0 <= k < g.nodes.len(),
        g.nodes[k].id == id,
    ensures
        g.contains(id),
        g.index(id) == k,
        g.node(id) == g.nodes[k],
{
    assert(g.ids()[k] == id);
    let j = g.index(id);
    assert(0 <= j < g.ids().len() && g.ids()[j] == id);
}

/// A node that is stored is found where it is stored.
pub proof fn lemma_contains(g: GraphView, id: NodeID)
    requires
        g.ids().no_duplicates(),
        g.contains(id),
    ensures
        0 <= g.index(id) < g.nodes.len(),
        g.nodes[g.index(id)].id == id,
{
    let j = g.index(id);
    assert(0 <= j < g.ids().len() && g.ids()[j] == id);
}

/// Replacing an input edge changes that edge and nothing else that the graph shows.
pub proof fn lemma_set_in_edge(g: GraphView, id: NodeID, p: int, e: Option<Edge<OutPortID>>)
    requires
        g.ids().no_duplicates(),
        g.has_in_port(id, p),
    ensures
        ({
            let h = g.set_in_edge(id, p, e);
            &&& h.ids() == g.ids()
            &&& h.next_id == g.next_id
            &&& h.nodes.len() == g.nodes.len()
            &&& forall|i: int| 0 <= i < h.nodes.len() && g.nodes[i].ports_wf() ==> (#[trigger] h.nodes[i]).ports_wf()
            &&& forall|n: NodeID| #[trigger] h.contains(n) == g.contains(n)
            &&& forall|n: NodeID, q: int| #[trigger] h.has_in_port(n, q) == g.has_in_port(n, q)
            &&& forall|n: NodeID, q: int| #[trigger] h.has_out_port(n, q) == g.has_out_port(n, q)
            &&& forall|n: NodeID, q: int| #[trigger]
                h.in_edge(n, q) == if n == id && q == p {
                    e
                } else {
                    g.in_edge(n, q)
                }
            &&& forall|n: NodeID, q: int| #[trigger] h.out_edge(n, q) == g.out_edge(n, q)
        }),
{
    let h = g.set_in_edge(id, p, e);
    let k = g.index(id);
    lemma_contains(g, id);
    assert(h.ids() =~= g.ids());
    assert forall|n: NodeID| g.contains(n) implies h.index(n) == g.index(n) && (n != id ==> h.node(
        n,
    ) == g.node(n)) by {
        lemma_contains(g, n);
    }
    assert forall|i: int| 0 <= i < h.nodes.len() && g.nodes[i].ports_wf() implies (#[trigger] h.nodes[
        i
    ]).ports_wf() by {
        if i == k {
            assert forall|q: int| 0 <= q < h.nodes[i].ins.len() implies (#[trigger] h.nodes[i].ins[q]).id
                == g.nodes[i].ins[q].id by {}
        }
    }
}

/// Replacing an output edge changes that edge and nothing else that the graph shows.
pub proof fn lemma_set_out_edge(g: GraphView, id: NodeID, p: int, e: Option<Edge<InPortID>>)
    requires
        g.ids().no_duplicates(),
        g.has_out_port(id, p),
    ensures
        ({
            let h = g.set_out_edge(id, p, e);
            &&& h.ids() == g.ids()
            &&& h.next_id == g.next_id
            &&& h.nodes.len() == g.nodes.len()
            &&& forall|i: int| 0 <= i < h.nodes.len() && g.nodes[i].ports_wf() ==> (#[trigger] h.nodes[i]).ports_wf()
            &&& forall|n: NodeID| #[trigger] h.contains(n) == g.contains(n)
            &&& forall|n: NodeID, q: int| #[trigger] h.has_in_port(n, q) == g.has_in_port(n, q)
            &&& forall|n: NodeID, q: int| #[trigger] h.has_out_port(n, q) == g.has_out_port(n, q)
            &&& forall|n: NodeID, q: int| #[trigger] h.in_edge(n, q) == g.in_edge(n, q)
            &&& forall|n: NodeID, q: int| #[trigger]
                h.out_edge(n, q) == if n == id && q == p {
                    e
                } else {
                    g.out_edge(n, q)
                }
        }),
{
    let h = g.set_out_edge(id, p, e);
    let k = g.index(id);
    lemma_contains(g, id);
    assert(h.ids() =~= g.ids());
    assert forall|n: NodeID| g.contains(n) implies h.index(n) == g.index(n) && (n != id ==> h.node(
        n,
    ) == g.node(n)) by {
        lemma_contains(g, n);
    }
    assert forall|i: int| 0 <= i < h.nodes.len() && g.nodes[i].ports_wf() implies (#[trigger] h.nodes[
        i
    ]).ports_wf() by {
        if i == k {
            assert forall|q: int| 0 <= q < h.nodes[i].outs.len() implies (#[trigger] h.nodes[i].outs[q]).id
                == g.nodes[i].outs[q].id by {}
        }
    }
}

/// Connecting keeps the graph well formed, and afterwards the two ports name each other.
pub proof fn lemma_connect_wf(
    g: GraphView,
    src_id: NodeID,
    src_port: OutPortID,
    dst_id: NodeID,
    dst_port: InPortID,
)
    requires
        g.wf(),
    ensures
        connect_spec(g, src_id, src_port, dst_id, dst_port).0.wf(),
{
    let (h, r) = connect_spec(g, src_id, src_port, dst_id, dst_port);
    if r is Ok {
        let dp = dst_port.0 as int;
        let sp = src_port.0 as int;
        let e_in = Some(Edge { node: src_id, port: src_port });
        let e_out = Some(Edge { node: dst_id, port: dst_port });
        let g1 = g.set_in_edge(dst_id, dp, e_in);
        lemma_set_in_edge(g, dst_id, dp, e_in);
        lemma_set_out_edge(g1, src_id, sp, e_out);
        assert(h == g1.set_out_edge(src_id, sp, e_out));
        assert forall|i: int| 0 <= i < h.nodes.len() implies (#[trigger] h.nodes[i]).ports_wf() by {
            assert(g.nodes[i].ports_wf());
            assert(g1.nodes[i].ports_wf());
        }
        assert forall|i: int| 0 <= i < h.nodes.len() implies (#[trigger] h.nodes[i]).id.0 < h.next_id by {
            assert(h.ids()[i] == g.ids()[i]);
        }
        assert forall|id: NodeID, p: int| #[trigger]
            h.in_edge(id, p) is Some implies names_in_port(
                h.out_edge(h.in_edge(id, p)->Some_0.node, h.in_edge(id, p)->Some_0.port.0 as int),
                id,
                p,
            ) by {
            if !(id == dst_id && p == dp) {
                let e = g.in_edge(id, p)->Some_0;
                assert(g.in_edge(id, p) is Some);
                if e.node == src_id && e.port.0 as int == sp {
                    assert(g.out_edge(src_id, sp) is Some);
                }
            } else {
                assert(src_port.0 as int == sp);
            }
        }
        assert forall|id: NodeID, p: int| #[trigger]
            h.out_edge(id, p) is Some implies names_out_port(
                h.in_edge(h.out_edge(id, p)->Some_0.node, h.out_edge(id, p)->Some_0.port.0 as int),
                id,
                p,
            ) by {
            if !(id == src_id && p == sp) {
                let e = g.out_edge(id, p)->Some_0;
                assert(g.out_edge(id, p) is Some);
                if e.node == dst_id && e.port.0 as int == dp {
                    assert(g.in_edge(dst_id, dp) is Some);
                }
            } else {
                assert(dst_port.0 as int == dp);
            }
        }
    }
}



/// What `Graph::disconnect_in` does: the graph afterwards and the result.
pub open spec fn disconnect_in_spec(g: GraphView, node: NodeID, port: InPortID) -> (GraphView, Result<()>) {
    if !g.contains(node) {
        (g, Err(Error::InvalidNode))
    } else if !g.has_in_port(node, port.0 as int) {
        (g, Err(Error::InvalidPort))
    } else {
        match g.in_edge(node, port.0 as int) {
            None => (g, Err(Error::NotConnected)),
            Some(e) => (
                g.set_out_edge(e.node, e.port.0 as int, None).set_in_edge(node, port.0 as int, None),
                Ok(()),
            ),
        }
    }
}

/// What `Graph::disconnect_out` does: the graph afterwards and the result.
pub open spec fn disconnect_out_spec(g: GraphView, node: NodeID, port: OutPortID) -> (GraphView, Result<()>) {
    if !g.contains(node) {
        (g, Err(Error::InvalidNode))
    } else if !g.has_out_port(node, port.0 as int) {
        (g, Err(Error::InvalidPort))
    } else {
        match g.out_edge(node, port.0 as int) {
            None => (g, Err(Error::NotConnected)),
            Some(e) => (
                g.set_in_edge(e.node, e.port.0 as int, None).set_out_edge(node, port.0 as int, None),
                Ok(()),
            ),
        }
    }
}

/// Disconnecting an input port keeps the graph well formed; afterwards neither end has an edge.
pub proof fn lemma_disconnect_in_wf(g: GraphView, node: NodeID, port: InPortID)
    requires
        g.wf(),
    ensures
        disconnect_in_spec(g, node, port).0.wf(),
        disconnect_in_spec(g, node, port).1 is Ok ==> {
            let e = g.in_edge(node, port.0 as int)->Some_0;
            &&& disconnect_in_spec(g, node, port).0.in_edge(node, port.0 as int) is None
            &&& disconnect_in_spec(g, node, port).0.out_edge(e.node, e.port.0 as int) is None
        },
{
    let (h, r) = disconnect_in_spec(g, node, port);
    if r is Ok {
        let p = port.0 as int;
        let e = g.in_edge(node, p)->Some_0;
        let o = e.port.0 as int;
        assert(names_in_port(g.out_edge(e.node, o), node, p));
        let g1 = g.set_out_edge(e.node, o, None);
        lemma_set_out_edge(g, e.node, o, None);
        lemma_set_in_edge(g1, node, p, None);
        assert forall|i: int| 0 <= i < h.nodes.len() implies (#[trigger] h.nodes[i]).ports_wf() by {
            assert(g.nodes[i].ports_wf());
            assert(g1.nodes[i].ports_wf());
        }
        assert forall|i: int| 0 <= i < h.nodes.len() implies (#[trigger] h.nodes[i]).id.0 < h.next_id by {
            assert(h.ids()[i] == g.ids()[i]);
        }
        assert forall|id: NodeID, q: int| #[trigger]
            h.in_edge(id, q) is Some implies names_in_port(
                h.out_edge(h.in_edge(id, q)->Some_0.node, h.in_edge(id, q)->Some_0.port.0 as int),
                id,
                q,
            ) by {
            assert(g.in_edge(id, q) is Some);
        }
        assert forall|id: NodeID, q: int| #[trigger]
            h.out_edge(id, q) is Some implies names_out_port(
                h.in_edge(h.out_edge(id, q)->Some_0.node, h.out_edge(id, q)->Some_0.port.0 as int),
                id,
                q,
            ) by {
            assert(g.out_edge(id, q) is Some);
        }
    }
}

/// Disconnecting an output port keeps the graph well formed; afterwards neither end has an edge.
pub proof fn lemma_disconnect_out_wf(g: GraphView, node: NodeID, port: OutPortID)
    requires
        g.wf(),
    ensures
        disconnect_out_spec(g, node, port).0.wf(),
        disconnect_out_spec(g, node, port).1 is Ok ==> {
            let e = g.out_edge(node, port.0 as int)->Some_0;
            &&& disconnect_out_spec(g, node, port).0.out_edge(node, port.0 as int) is None
            &&& disconnect_out_spec(g, node, port).0.in_edge(e.node, e.port.0 as int) is None
        },
{
    let (h, r) = disconnect_out_spec(g, node, port);
    if r is Ok {
        let p = port.0 as int;
        let e = g.out_edge(node, p)->Some_0;
        let o = e.port.0 as int;
        assert(names_out_port(g.in_edge(e.node, o), node, p));
        let g1 = g.set_in_edge(e.node, o, None);
        lemma_set_in_edge(g, e.node, o, None);
        lemma_set_out_edge(g1, node, p, None);
        assert forall|i: int| 0 <= i < h.nodes.len() implies (#[trigger] h.nodes[i]).ports_wf() by {
            assert(g.nodes[i].ports_wf());
            assert(g1.nodes[i].ports_wf());
        }
        assert forall|i: int| 0 <= i < h.nodes.len() implies (#[trigger] h.nodes[i]).id.0 < h.next_id by {
            assert(h.ids()[i] == g.ids()[i]);
        }
        assert forall|id: NodeID, q: int| #[trigger]
            h.in_edge(id, q) is Some implies names_in_port(
                h.out_edge(h.in_edge(id, q)->Some_0.node, h.in_edge(id, q)->Some_0.port.0 as int),
                id,
                q,
            ) by {
            assert(g.in_edge(id, q) is Some);
        }
        assert forall|id: NodeID, q: int| #[trigger]
            h.out_edge(id, q) is Some implies names_out_port(
                h.in_edge(h.out_edge(id, q)->Some_0.node, h.out_edge(id, q)->Some_0.port.0 as int),
                id,
                q,
            ) by {
            assert(g.out_edge(id, q) is Some);
        }
    }
}

/// Disconnecting the input end of a fresh connection gives back the graph as it was before
/// connecting.
pub proof fn law_disconnect_undoes_connect(
    g: GraphView,
    src_id: NodeID,
    src_port: OutPortID,
    dst_id: NodeID,
    dst_port: InPortID,
)
    requires
        g.wf(),
        connect_spec(g, src_id, src_port, dst_id, dst_port).1 is Ok,
    ensures
        disconnect_in_spec(connect_spec(g, src_id, src_port, dst_id, dst_port).0, dst_id, dst_port)
            == (g, Ok::<(), Error>(())),
        disconnect_out_spec(connect_spec(g, src_id, src_port, dst_id, dst_port).0, src_id, src_port)
            == (g, Ok::<(), Error>(())),
{
    let dp = dst_port.0 as int;
    let sp = src_port.0 as int;
    let e_in = Some(Edge { node: src_id, port: src_port });
    let e_out = Some(Edge { node: dst_id, port: dst_port });
    let g1 = g.set_in_edge(dst_id, dp, e_in);
    let h = g1.set_out_edge(src_id, sp, e_out);
    lemma_set_in_edge(g, dst_id, dp, e_in);
    lemma_set_out_edge(g1, src_id, sp, e_out);
    lemma_contains(g, dst_id);
    lemma_contains(g, src_id);
    // disconnect from the input end
    let h1 = h.set_out_edge(src_id, sp, None);
    let h2 = h1.set_in_edge(dst_id, dp, None);
    lemma_set_out_edge(h, src_id, sp, None);
    lemma_set_in_edge(h1, dst_id, dp, None);
    assert(h2 =~= g) by {
        assert(h2.nodes =~= g.nodes) by {
            assert forall|i: int| 0 <= i < g.nodes.len() implies h2.nodes[i] == g.nodes[i] by {
                let n = g.nodes[i];
                if n.id == dst_id {
                    assert(h2.nodes[i].ins =~= n.ins);
                }
                if n.id == src_id {
                    assert(h2.nodes[i].outs =~= n.outs);
                }
                if n.id == dst_id && n.id == src_id {
                    assert(h2.nodes[i].ins =~= n.ins);
                    assert(h2.nodes[i].outs =~= n.outs);
                }
            }
        }
    }
    // disconnect from the output end
    let k1 = h.set_in_edge(dst_id, dp, None);
    let k2 = k1.set_out_edge(src_id, sp, None);
    lemma_set_in_edge(h, dst_id, dp, None);
    lemma_set_out_edge(k1, src_id, sp, None);
    assert(k2 =~= g) by {
        assert(k2.nodes =~= g.nodes) by {
            assert forall|i: int| 0 <= i < g.nodes.len() implies k2.nodes[i] == g.nodes[i] by {
                let n = g.nodes[i];
                if n.id == dst_id {
                    assert(k2.nodes[i].ins =~= n.ins);
                }
                if n.id == src_id {
                    assert(k2.nodes[i].outs =~= n.outs);
                }
                if n.id == dst_id && n.id == src_id {
                    assert(k2.nodes[i].ins =~= n.ins);
                    assert(k2.nodes[i].outs =~= n.outs);
                }
            }
        }
    }
}


impl GraphView {
    /// The graph with the node stored for `id` replaced by `n`.
    pub open spec fn with_node(self, id: NodeID, n: NodeView) -> GraphView {
        GraphView { nodes: self.nodes.update(self.index(id), n), ..self }
    }
}

/// `b` keeps the identifier and the numbered, connected ports of `a`, and the ports that it adds
/// are numbered by position and unconnected.
pub open spec fn grows(a: NodeView, b: NodeView) -> bool {
    &&& b.id == a.id
    &&& a.ins.len() <= b.ins.len()
    &&& a.outs.len() <= b.outs.len()
    &&& forall|q: int|
        0 <= q < a.ins.len() ==> (#[trigger] b.ins[q]).id == a.ins[q].id && b.ins[q].edge
            == a.ins[q].edge
    &&& forall|q: int|
        a.ins.len() <= q < b.ins.len() ==> (#[trigger] b.ins[q]).id == InPortID(q as usize)
            && b.ins[q].edge is None
    &&& forall|q: int|
        0 <= q < a.outs.len() ==> (#[trigger] b.outs[q]).id == a.outs[q].id && b.outs[q].edge
            == a.outs[q].edge
    &&& forall|q: int|
        a.outs.len() <= q < b.outs.len() ==> (#[trigger] b.outs[q]).id == OutPortID(q as usize)
            && b.outs[q].edge is None
}

/// Replacing a node by one that only adds unconnected ports keeps the graph well formed and
/// keeps every edge.
pub proof fn lemma_grow_node(g: GraphView, id: NodeID, n: NodeView)
    requires
        g.wf(),
        g.contains(id),
        grows(g.node(id), n),
    ensures
        ({
            let h = g.with_node(id, n);
            &&& h.wf()
            &&& h.ids() == g.ids()
            &&& h.node(id) == n
            &&& forall|m: NodeID| #[trigger] h.contains(m) == g.contains(m)
            &&& forall|m: NodeID| g.contains(m) && m != id ==> #[trigger] h.node(m) == g.node(m)
            &&& forall|m: NodeID, q: int| #[trigger] h.in_edge(m, q) == g.in_edge(m, q)
            &&& forall|m: NodeID, q: int| #[trigger] h.out_edge(m, q) == g.out_edge(m, q)
        }),
{
    let h = g.with_node(id, n);
    let k = g.index(id);
    lemma_contains(g, id);
    assert(h.ids() =~= g.ids());
    assert forall|m: NodeID| g.contains(m) implies h.index(m) == g.index(m) && (m != id ==> h.node(m)
        == g.node(m)) by {
        lemma_contains(g, m);
    }
    assert forall|m: NodeID, q: int| #[trigger] h.in_edge(m, q) == g.in_edge(m, q) by {}
    assert forall|m: NodeID, q: int| #[trigger] h.out_edge(m, q) == g.out_edge(m, q) by {}
    assert forall|i: int| 0 <= i < h.nodes.len() implies (#[trigger] h.nodes[i]).ports_wf() by {
        assert(g.nodes[i].ports_wf());
        if i == k {
            assert forall|q: int| 0 <= q < n.ins.len() implies (#[trigger] n.ins[q]).id == InPortID(
                q as usize,
            ) by {
                if q < g.nodes[k].ins.len() {
                    assert(g.nodes[k].ins[q].id == InPortID(q as usize));
                }
            }
            assert forall|q: int| 0 <= q < n.outs.len() implies (#[trigger] n.outs[q]).id
                == OutPortID(q as usize) by {
                if q < g.nodes[k].outs.len() {
                    assert(g.nodes[k].outs[q].id == OutPortID(q as usize));
                }
            }
        }
    }
    assert forall|i: int| 0 <= i < h.nodes.len() implies (#[trigger] h.nodes[i]).id.0 < h.next_id by {
        assert(h.ids()[i] == g.ids()[i]);
    }
    assert forall|m: NodeID, q: int| #[trigger]
        h.in_edge(m, q) is Some implies names_in_port(
            h.out_edge(h.in_edge(m, q)->Some_0.node, h.in_edge(m, q)->Some_0.port.0 as int),
            m,
            q,
        ) by {
        assert(g.in_edge(m, q) is Some);
    }
    assert forall|m: NodeID, q: int| #[trigger]
        h.out_edge(m, q) is Some implies names_out_port(
            h.in_edge(h.out_edge(m, q)->Some_0.node, h.out_edge(m, q)->Some_0.port.0 as int),
            m,
            q,
        ) by {
        assert(g.out_edge(m, q) is Some);
    }
}

/// Removing the last input port of a node, when it is unconnected, keeps the graph well
/// formed; every other edge stays.
pub proof fn lemma_drop_last_in(g: GraphView, id: NodeID)
    requires
        g.wf(),
        g.contains(id),
        g.node(id).ins.len() > 0,
        g.in_edge(id, g.node(id).ins.len() - 1) is None,
    ensures
        ({
            let a = g.node(id);
            let h = g.with_node(id, NodeView { ins: a.ins.drop_last(), ..a });
            &&& h.wf()
            &&& forall|m: NodeID| #[trigger] h.contains(m) == g.contains(m)
            &&& forall|m: NodeID, q: int| #[trigger]
                h.in_edge(m, q) == if m == id && q == a.ins.len() - 1 {
                    None
                } else {
                    g.in_edge(m, q)
                }
            &&& forall|m: NodeID, q: int| #[trigger] h.out_edge(m, q) == g.out_edge(m, q)
        }),
{
    let a = g.node(id);
    let last = a.ins.len() - 1;
    let h = g.with_node(id, NodeView { ins: a.ins.drop_last(), ..a });
    let k = g.index(id);
    lemma_contains(g, id);
    assert(h.ids() =~= g.ids());
    assert forall|m: NodeID| g.contains(m) implies h.index(m) == g.index(m) && (m != id ==> h.node(m)
        == g.node(m)) by {
        lemma_contains(g, m);
    }
    assert forall|m: NodeID, q: int| #[trigger]
        h.in_edge(m, q) == if m == id && q == last {
            None
        } else {
            g.in_edge(m, q)
        } by {}
    assert forall|m: NodeID, q: int| #[trigger] h.out_edge(m, q) == g.out_edge(m, q) by {}
    assert forall|i: int| 0 <= i < h.nodes.len() implies (#[trigger] h.nodes[i]).ports_wf() by {
        assert(g.nodes[i].ports_wf());
        if i == k {
            assert forall|q: int| 0 <= q < h.nodes[i].ins.len() implies (#[trigger] h.nodes[i].ins[q]).id
                == InPortID(q as usize) by {
                assert(g.nodes[k].ins[q].id == InPortID(q as usize));
            }
        }
    }
    assert forall|i: int| 0 <= i < h.nodes.len() implies (#[trigger] h.nodes[i]).id.0 < h.next_id by {
        assert(h.ids()[i] == g.ids()[i]);
    }
    assert forall|m: NodeID, q: int| #[trigger]
        h.in_edge(m, q) is Some implies names_in_port(
            h.out_edge(h.in_edge(m, q)->Some_0.node, h.in_edge(m, q)->Some_0.port.0 as int),
            m,
            q,
        ) by {
        assert(g.in_edge(m, q) is Some);
    }
    assert forall|m: NodeID, q: int| #[trigger]
        h.out_edge(m, q) is Some implies names_out_port(
            h.in_edge(h.out_edge(m, q)->Some_0.node, h.out_edge(m, q)->Some_0.port.0 as int),
            m,
            q,
        ) by {
        let e = g.out_edge(m, q)->Some_0;
        assert(g.out_edge(m, q) is Some);
        if e.node == id && e.port.0 == last {
            assert(g.in_edge(id, last) is Some);
        }
    }
}

/// Removing the last output port of a node, when it is unconnected, keeps the graph well
/// formed; every other edge stays.
pub proof fn lemma_drop_last_out(g: GraphView, id: NodeID)
    requires
        g.wf(),
        g.contains(id),
        g.node(id).outs.len() > 0,
        g.out_edge(id, g.node(id).outs.len() - 1) is None,
    ensures
        ({
            let a = g.node(id);
            let h = g.with_node(id, NodeView { outs: a.outs.drop_last(), ..a });
            &&& h.wf()
            &&& forall|m: NodeID| #[trigger] h.contains(m) == g.contains(m)
            &&& forall|m: NodeID, q: int| #[trigger] h.in_edge(m, q) == g.in_edge(m, q)
            &&& forall|m: NodeID, q: int| #[trigger]
                h.out_edge(m, q) == if m == id && q == a.outs.len() - 1 {
                    None
                } else {
                    g.out_edge(m, q)
                }
        }),
{
    let a = g.node(id);
    let last = a.outs.len() - 1;
    let h = g.with_node(id, NodeView { outs: a.outs.drop_last(), ..a });
    let k = g.index(id);
    lemma_contains(g, id);
    assert(h.ids() =~= g.ids());
    assert forall|m: NodeID| g.contains(m) implies h.index(m) == g.index(m) && (m != id ==> h.node(m)
        == g.node(m)) by {
        lemma_contains(g, m);
    }
    assert forall|m: NodeID, q: int| #[trigger] h.in_edge(m, q) == g.in_edge(m, q) by {}
    assert forall|m: NodeID, q: int| #[trigger]
        h.out_edge(m, q) == if m == id && q == last {
            None
        } else {
            g.out_edge(m, q)
        } by {}
    assert forall|i: int| 0 <= i < h.nodes.len() implies (#[trigger] h.nodes[i]).ports_wf() by {
        assert(g.nodes[i].ports_wf());
        if i == k {
            assert forall|q: int| 0 <= q < h.nodes[i].outs.len() implies (#[trigger] h.nodes[i].outs[q]).id
                == OutPortID(q as usize) by {
                assert(g.nodes[k].outs[q].id == OutPortID(q as usize));
            }
        }
    }
    assert forall|i: int| 0 <= i < h.nodes.len() implies (#[trigger] h.nodes[i]).id.0 < h.next_id by {
        assert(h.ids()[i] == g.ids()[i]);
    }
    assert forall|m: NodeID, q: int| #[trigger]
        h.in_edge(m, q) is Some implies names_in_port(
            h.out_edge(h.in_edge(m, q)->Some_0.node, h.in_edge(m, q)->Some_0.port.0 as int),
            m,
            q,
        ) by {
        let e = g.in_edge(m, q)->Some_0;
        assert(g.in_edge(m, q) is Some);
        if e.node == id && e.port.0 == last {
            assert(g.out_edge(id, last) is Some);
        }
    }
    assert forall|m: NodeID, q: int| #[trigger]
        h.out_edge(m, q) is Some implies names_out_port(
            h.in_edge(h.out_edge(m, q)->Some_0.node, h.out_edge(m, q)->Some_0.port.0 as int),
            m,
            q,
        ) by {
        assert(g.out_edge(m, q) is Some);
    }
}

/// What `Graph::pop_in_port` does: the last input port of node `id` is disconnected and removed.
pub open spec fn pop_in_spec(g: GraphView, id: NodeID) -> (GraphView, Result<()>) {
    if !g.contains(id) {
        (g, Err(Error::InvalidNode))
    } else if g.node(id).ins.len() == 0 {
        (g, Ok(()))
    } else {
        let last = g.node(id).ins.len() - 1;
        let g1 = if g.in_edge(id, last) is Some {
            disconnect_in_spec(g, id, InPortID(last as usize)).0
        } else {
            g
        };
        (g1.with_node(id, NodeView { ins: g1.node(id).ins.drop_last(), ..g1.node(id) }), Ok(()))
    }
}

/// What `Graph::pop_out_port` does: the last output port of node `id` is disconnected and removed.
pub open spec fn pop_out_spec(g: GraphView, id: NodeID) -> (GraphView, Result<()>) {
    if !g.contains(id) {
        (g, Err(Error::InvalidNode))
    } else if g.node(id).outs.len() == 0 {
        (g, Ok(()))
    } else {
        let last = g.node(id).outs.len() - 1;
        let g1 = if g.out_edge(id, last) is Some {
            disconnect_out_spec(g, id, OutPortID(last as usize)).0
        } else {
            g
        };
        (g1.with_node(id, NodeView { outs: g1.node(id).outs.drop_last(), ..g1.node(id) }), Ok(()))
    }
}


/// Popping an output port always succeeds on a node that has one: the node keeps its place and
/// its input ports and loses its last output port; if that port was connected, the input port it
/// named has no edge afterwards; every other edge stays as it was, and the graph stays well
/// formed.
pub proof fn law_pop_out_port(g: GraphView, id: NodeID)
    requires
        g.wf(),
        g.contains(id),
        g.node(id).outs.len() > 0,
    ensures
        ({
            let last = g.node(id).outs.len() - 1;
            let h = pop_out_spec(g, id).0;
            &&& pop_out_spec(g, id).1 is Ok
            &&& h.wf()
            &&& forall|m: NodeID| #[trigger] h.contains(m) == g.contains(m)
            &&& h.node(id).outs.len() == last
            &&& h.node(id).ins.len() == g.node(id).ins.len()
            &&& forall|m: NodeID, q: int|
                #[trigger] h.out_edge(m, q) == if m == id && q == last {
                    None
                } else {
                    g.out_edge(m, q)
                }
            &&& forall|m: NodeID, q: int|
                #[trigger] h.in_edge(m, q) == if g.out_edge(id, last) matches Some(e) && m == e.node && q
                    == e.port.0 {
                    None
                } else {
                    g.in_edge(m, q)
                }
        }),
{
    let last = g.node(id).outs.len() - 1;
    let g1 = if g.out_edge(id, last) is Some {
        disconnect_out_spec(g, id, OutPortID(last as usize)).0
    } else {
        g
    };
    lemma_contains(g, id);
    assert(g.has_out_port(id, last));
    assert(!g.has_out_port(id, last + 1));
    assert(!g.has_in_port(id, g.node(id).ins.len() as int));
    if g.out_edge(id, last) is Some {
        let e = g.out_edge(id, last)->Some_0;
        lemma_disconnect_out_wf(g, id, OutPortID(last as usize));
        assert(g.in_edge(e.node, e.port.0 as int) is Some);
        let g0 = g.set_in_edge(e.node, e.port.0 as int, None);
        lemma_set_in_edge(g, e.node, e.port.0 as int, None);
        lemma_set_out_edge(g0, id, last, None);
    }
    assert(g1.has_out_port(id, last));
    assert(!g1.has_out_port(id, last + 1));
    assert(g1.has_in_port(id, g.node(id).ins.len() - 1) || g.node(id).ins.len() == 0);
    assert(!g1.has_in_port(id, g.node(id).ins.len() as int));
    lemma_contains(g1, id);
    lemma_drop_last_out(g1, id);
    let a = g1.node(id);
    let k = g1.index(id);
    let h = g1.with_node(id, NodeView { outs: a.outs.drop_last(), ..a });
    assert(h.nodes[k] == NodeView { outs: a.outs.drop_last(), ..a });
    lemma_index(h, id, k);
    assert(a.outs.len() == last + 1);
}

/// Popping an input port always succeeds on a node that has one: the node keeps its place and
/// its output ports and loses its last input port; if that port was connected, the output port
/// it named has no edge afterwards; every other edge stays as it was, and the graph stays well
/// formed.
pub proof fn law_pop_in_port(g: GraphView, id: NodeID)
    requires
        g.wf(),
        g.contains(id),
        g.node(id).ins.len() > 0,
    ensures
        ({
            let last = g.node(id).ins.len() - 1;
            let h = pop_in_spec(g, id).0;
            &&& pop_in_spec(g, id).1 is Ok
            &&& h.wf()
            &&& forall|m: NodeID| #[trigger] h.contains(m) == g.contains(m)
            &&& h.node(id).ins.len() == last
            &&& h.node(id).outs.len() == g.node(id).outs.len()
            &&& forall|m: NodeID, q: int|
                #[trigger] h.in_edge(m, q) == if m == id && q == last {
                    None
                } else {
                    g.in_edge(m, q)
                }
            &&& forall|m: NodeID, q: int|
                #[trigger] h.out_edge(m, q) == if g.in_edge(id, last) matches Some(e) && m == e.node && q
                    == e.port.0 {
                    None
                } else {
                    g.out_edge(m, q)
                }
        }),
{
    let last = g.node(id).ins.len() - 1;
    let g1 = if g.in_edge(id, last) is Some {
        disconnect_in_spec(g, id, InPortID(last as usize)).0
    } else {
        g
    };
    lemma_contains(g, id);
    assert(g.has_in_port(id, last));
    assert(!g.has_in_port(id, last + 1));
    assert(!g.has_out_port(id, g.node(id).outs.len() as int));
    if g.in_edge(id, last) is Some {
        let e = g.in_edge(id, last)->Some_0;
        lemma_disconnect_in_wf(g, id, InPortID(last as usize));
        assert(g.out_edge(e.node, e.port.0 as int) is Some);
        let g0 = g.set_out_edge(e.node, e.port.0 as int, None);
        lemma_set_out_edge(g, e.node, e.port.0 as int, None);
        lemma_set_in_edge(g0, id, last, None);
    }
    assert(g1.has_in_port(id, last));
    assert(!g1.has_in_port(id, last + 1));
    assert(g1.has_out_port(id, g.node(id).outs.len() - 1) || g.node(id).outs.len() == 0);
    assert(!g1.has_out_port(id, g.node(id).outs.len() as int));
    lemma_contains(g1, id);
    lemma_drop_last_in(g1, id);
    let a = g1.node(id);
    let k = g1.index(id);
    let h = g1.with_node(id, NodeView { ins: a.ins.drop_last(), ..a });
    assert(h.nodes[k] == NodeView { ins: a.ins.drop_last(), ..a });
    lemma_index(h, id, k);
    assert(a.ins.len() == last + 1);
}

/// Some output port of `x` among the first `bound` names input port `q` of node `id`.
pub open spec fn named_by_outs(x: NodeView, bound: int, id: NodeID, q: int) -> bool {
    exists|j: int| 0 <= j < bound && j < x.outs.len() && names_in_port(#[trigger] x.outs[j].edge, id, q)
}

/// Some input port of `x` among the first `bound` names output port `q` of node `id`.
pub open spec fn named_by_ins(x: NodeView, bound: int, id: NodeID, q: int) -> bool {
    exists|i: int| 0 <= i < bound && i < x.ins.len() && names_out_port(#[trigger] x.ins[i].edge, id, q)
}

/// `n` with the edge of every port that one of the first `jo` output ports or the first `ji`
/// input ports of `x` names cleared.
pub open spec fn release_node(n: NodeView, x: NodeView, jo: int, ji: int) -> NodeView {
    NodeView {
        ins: Seq::new(
            n.ins.len(),
            |q: int|
                if named_by_outs(x, jo, n.id, q) {
                    with_edge(n.ins[q], None)
                } else {
                    n.ins[q]
                },
        ),
        outs: Seq::new(
            n.outs.len(),
            |q: int|
                if named_by_ins(x, ji, n.id, q) {
                    with_edge(n.outs[q], None)
                } else {
                    n.outs[q]
                },
        ),
        ..n
    }
}

/// `g` with the edge of every port that one of the first `jo` output ports or the first `ji`
/// input ports of `x` names cleared.
pub open spec fn release_graph(g: GraphView, x: NodeView, jo: int, ji: int) -> GraphView {
    GraphView { nodes: g.nodes.map_values(|n: NodeView| release_node(n, x, jo, ji)), ..g }
}

/// `n` with the edge of every port that names node `x` cleared.
pub open spec fn clear_edges_to(n: NodeView, x: NodeID) -> NodeView {
    NodeView {
        ins: n.ins.map_values(
            |p: InPortView|
                if p.edge matches Some(e) && e.node == x {
                    with_edge(p, None)
                } else {
                    p
                },
        ),
        outs: n.outs.map_values(
            |p: OutPortView|
                if p.edge matches Some(e) && e.node == x {
                    with_edge(p, None)
                } else {
                    p
                },
        ),
        ..n
    }
}

/// `s` with the element at `k` replaced by the last one, and the last one dropped.
pub open spec fn swap_remove<A>(s: Seq<A>, k: int) -> Seq<A> {
    s.update(k, s.last()).drop_last()
}

/// What `Graph::remove_node` does: the node is taken out of storage (the last node takes its
/// place) and every edge that named it is cleared.
pub open spec fn remove_node_spec(g: GraphView, id: NodeID) -> (GraphView, Result<()>) {
    if !g.contains(id) {
        (g, Err(Error::InvalidNode))
    } else {
        (
            GraphView {
                nodes: swap_remove(g.nodes, g.index(id)).map_values(|n: NodeView| clear_edges_to(n, id)),
                ..g
            },
            Ok(()),
        )
    }
}


pub proof fn lemma_named_by_outs_step(x: NodeView, j: int, id: NodeID, q: int)
    requires
        0 <= j < x.outs.len(),
    ensures
        named_by_outs(x, j + 1, id, q) == (named_by_outs(x, j, id, q) || names_in_port(
            x.outs[j].edge,
            id,
            q,
        )),
{
    if names_in_port(x.outs[j].edge, id, q) {
        assert(named_by_outs(x, j + 1, id, q));
    }
}

pub proof fn lemma_named_by_ins_step(x: NodeView, i: int, id: NodeID, q: int)
    requires
        0 <= i < x.ins.len(),
    ensures
        named_by_ins(x, i + 1, id, q) == (named_by_ins(x, i, id, q) || names_out_port(
            x.ins[i].edge,
            id,
            q,
        )),
{
    if names_out_port(x.ins[i].edge, id, q) {
        assert(named_by_ins(x, i + 1, id, q));
    }
}

/// Releasing keeps the identifiers and the port counts.
pub proof fn lemma_release_shape(g: GraphView, x: NodeView, jo: int, ji: int)
    ensures
        ({
            let h = release_graph(g, x, jo, ji);
            &&& h.ids() == g.ids()
            &&& h.nodes.len() == g.nodes.len()
            &&& forall|i: int|
                0 <= i < g.nodes.len() ==> (#[trigger] h.nodes[i]).ins.len() == g.nodes[i].ins.len()
                    && h.nodes[i].outs.len() == g.nodes[i].outs.len()
            &&& forall|n: NodeID| #[trigger] h.contains(n) == g.contains(n)
            &&& forall|n: NodeID| #[trigger] h.index(n) == g.index(n)
            &&& forall|n: NodeID, q: int| #[trigger] h.has_in_port(n, q) == g.has_in_port(n, q)
            &&& forall|n: NodeID, q: int| #[trigger] h.has_out_port(n, q) == g.has_out_port(n, q)
        }),
{
    let h = release_graph(g, x, jo, ji);
    assert(h.ids() =~= g.ids());
}

/// One step of releasing the peers of the output ports of a node that left the graph.
pub proof fn lemma_release_out_step(g0: GraphView, x: NodeView, j: int, next: GraphView)
    requires
        g0.ids().no_duplicates(),
        0 <= j < x.outs.len(),
        ({
            let cur = release_graph(g0, x, j, 0);
            next == match x.outs[j].edge {
                Some(e) => if cur.has_in_port(e.node, e.port.0 as int) {
                    cur.set_in_edge(e.node, e.port.0 as int, None)
                } else {
                    cur
                },
                None => cur,
            }
        }),
    ensures
        next == release_graph(g0, x, j + 1, 0),
{
    let cur = release_graph(g0, x, j, 0);
    let target = release_graph(g0, x, j + 1, 0);
    lemma_release_shape(g0, x, j, 0);
    lemma_release_shape(g0, x, j + 1, 0);
    assert forall|i: int, q: int| 0 <= i < g0.nodes.len() implies named_by_outs(
        x,
        j + 1,
        g0.nodes[i].id,
        q,
    ) == (named_by_outs(x, j, g0.nodes[i].id, q) || names_in_port(x.outs[j].edge, g0.nodes[i].id, q)) by {
        lemma_named_by_outs_step(x, j, g0.nodes[i].id, q);
    }
    match x.outs[j].edge {
        Some(e) => {
            if cur.has_in_port(e.node, e.port.0 as int) {
                let k = g0.index(e.node);
                lemma_contains(g0, e.node);
                lemma_set_in_edge(cur, e.node, e.port.0 as int, None);
                assert forall|i: int| 0 <= i < g0.nodes.len() implies next.nodes[i] == target.nodes[i] by {
                    if g0.nodes[i].id == e.node {
                        lemma_index(g0, e.node, i);
                    }
                    assert(next.nodes[i].ins =~= target.nodes[i].ins);
                    assert(next.nodes[i].outs =~= target.nodes[i].outs);
                }
                assert(next.nodes =~= target.nodes);
            } else {
                assert forall|i: int| 0 <= i < g0.nodes.len() implies cur.nodes[i] == target.nodes[i] by {
                    if g0.nodes[i].id == e.node {
                        lemma_index(g0, e.node, i);
                    }
                    assert(cur.nodes[i].ins =~= target.nodes[i].ins);
                    assert(cur.nodes[i].outs =~= target.nodes[i].outs);
                }
                assert(cur.nodes =~= target.nodes);
            }
        },
        None => {
            assert forall|i: int| 0 <= i < g0.nodes.len() implies cur.nodes[i] == target.nodes[i] by {
                assert(cur.nodes[i].ins =~= target.nodes[i].ins);
                assert(cur.nodes[i].outs =~= target.nodes[i].outs);
            }
            assert(cur.nodes =~= target.nodes);
        },
    }
}

/// One step of releasing the peers of the input ports of a node that left the graph.
pub proof fn lemma_release_in_step(g0: GraphView, x: NodeView, i: int, next: GraphView)
    requires
        g0.ids().no_duplicates(),
        0 <= i < x.ins.len(),
        ({
            let cur = release_graph(g0, x, x.outs.len() as int, i);
            next == match x.ins[i].edge {
                Some(e) => if cur.has_out_port(e.node, e.port.0 as int) {
                    cur.set_out_edge(e.node, e.port.0 as int, None)
                } else {
                    cur
                },
                None => cur,
            }
        }),
    ensures
        next == release_graph(g0, x, x.outs.len() as int, i + 1),
{
    let jo = x.outs.len() as int;
    let cur = release_graph(g0, x, jo, i);
    let target = release_graph(g0, x, jo, i + 1);
    lemma_release_shape(g0, x, jo, i);
    lemma_release_shape(g0, x, jo, i + 1);
    assert forall|a: int, q: int| 0 <= a < g0.nodes.len() implies named_by_ins(
        x,
        i + 1,
        g0.nodes[a].id,
        q,
    ) == (named_by_ins(x, i, g0.nodes[a].id, q) || names_out_port(x.ins[i].edge, g0.nodes[a].id, q)) by {
        lemma_named_by_ins_step(x, i, g0.nodes[a].id, q);
    }
    match x.ins[i].edge {
        Some(e) => {
            if cur.has_out_port(e.node, e.port.0 as int) {
                lemma_contains(g0, e.node);
                lemma_set_out_edge(cur, e.node, e.port.0 as int, None);
                assert forall|a: int| 0 <= a < g0.nodes.len() implies next.nodes[a] == target.nodes[a] by {
                    if g0.nodes[a].id == e.node {
                        lemma_index(g0, e.node, a);
                    }
                    assert(next.nodes[a].ins =~= target.nodes[a].ins);
                    assert(next.nodes[a].outs =~= target.nodes[a].outs);
                }
                assert(next.nodes =~= target.nodes);
            } else {
                assert forall|a: int| 0 <= a < g0.nodes.len() implies cur.nodes[a] == target.nodes[a] by {
                    if g0.nodes[a].id == e.node {
                        lemma_index(g0, e.node, a);
                    }
                    assert(cur.nodes[a].ins =~= target.nodes[a].ins);
                    assert(cur.nodes[a].outs =~= target.nodes[a].outs);
                }
                assert(cur.nodes =~= target.nodes);
            }
        },
        None => {
            assert forall|a: int| 0 <= a < g0.nodes.len() implies cur.nodes[a] == target.nodes[a] by {
                assert(cur.nodes[a].ins =~= target.nodes[a].ins);
                assert(cur.nodes[a].outs =~= target.nodes[a].outs);
            }
            assert(cur.nodes =~= target.nodes);
        },
    }
}


/// Releasing nothing changes nothing.
pub proof fn lemma_release_none(g: GraphView, x: NodeView)
    ensures
        release_graph(g, x, 0, 0) == g,
{
    let h = release_graph(g, x, 0, 0);
    assert forall|i: int| 0 <= i < g.nodes.len() implies h.nodes[i] == g.nodes[i] by {
        assert(h.nodes[i].ins =~= g.nodes[i].ins);
        assert(h.nodes[i].outs =~= g.nodes[i].outs);
    }
    assert(h.nodes =~= g.nodes);
}

/// Taking an element out of a sequence without repetitions leaves one without repetitions.
pub proof fn lemma_swap_remove_no_duplicates<A>(s: Seq<A>, k: int)
    requires
        s.no_duplicates(),
        0 <= k < s.len(),
    ensures
        swap_remove(s, k).no_duplicates(),
        swap_remove(s, k).len() == s.len() - 1,
        forall|i: int| 0 <= i < s.len() - 1 ==> #[trigger] swap_remove(s, k)[i] == if i == k {
            s.last()
        } else {
            s[i]
        },
        forall|x: A| #[trigger] swap_remove(s, k).contains(x) <==> (s.contains(x) && x != s[k]),
{
    let t = swap_remove(s, k);
    let n = s.len() - 1;
    assert forall|x: A| #[trigger] t.contains(x) <==> (s.contains(x) && x != s[k]) by {
        if t.contains(x) {
            let i = choose|i: int| 0 <= i < t.len() && t[i] == x;
            if i == k {
                assert(s[n] == x);
            } else {
                assert(s[i] == x);
            }
        }
        if s.contains(x) && x != s[k] {
            let i = choose|i: int| 0 <= i < s.len() && s[i] == x;
            if i == n {
                assert(t[k] == x);
            } else {
                assert(t[i] == x);
            }
        }
    }
}

/// Taking a node out of a well-formed graph and releasing the peers of its ports gives the graph
/// in which every edge that named the node is cleared, and that graph is well formed.
pub proof fn lemma_remove_node(g: GraphView, id: NodeID)
    requires
        g.wf(),
        g.contains(id),
    ensures
        ({
            let x = g.node(id);
            let rest = GraphView { nodes: swap_remove(g.nodes, g.index(id)), ..g };
            let h = remove_node_spec(g, id).0;
            &&& rest.ids().no_duplicates()
            &&& release_graph(rest, x, x.outs.len() as int, x.ins.len() as int) == h
            &&& h.wf()
            &&& !h.contains(id)
        }),
{
    let x = g.node(id);
    let k = g.index(id);
    lemma_contains(g, id);
    let rest = GraphView { nodes: swap_remove(g.nodes, k), ..g };
    let h = remove_node_spec(g, id).0;
    let jo = x.outs.len() as int;
    let ji = x.ins.len() as int;
    lemma_swap_remove_no_duplicates(g.ids(), k);
    assert(rest.ids() =~= swap_remove(g.ids(), k));
    assert(h.ids() =~= rest.ids());
    // every stored node of the rest is the node of its identifier in g
    assert forall|i: int| 0 <= i < rest.nodes.len() implies g.contains(#[trigger] rest.nodes[i].id)
        && g.node(rest.nodes[i].id) == rest.nodes[i] && rest.nodes[i].id != id by {
        if i == k {
            lemma_index(g, g.nodes.last().id, g.nodes.len() - 1);
        } else {
            lemma_index(g, g.nodes[i].id, i);
        }
    }
    // releasing the ports of x clears exactly the edges that name x
    let r = release_graph(rest, x, jo, ji);
    assert forall|i: int| 0 <= i < rest.nodes.len() implies r.nodes[i] == clear_edges_to(
        #[trigger] rest.nodes[i],
        id,
    ) by {
        let n = rest.nodes[i];
        assert(g.node(n.id) == n);
        assert(n.id != id);
        assert forall|q: int| 0 <= q < n.ins.len() implies named_by_outs(x, jo, n.id, q) == (
        n.ins[q].edge matches Some(e) && e.node == id) by {
            if named_by_outs(x, jo, n.id, q) {
                let j = choose|j: int|
                    0 <= j < jo && j < x.outs.len() && names_in_port(#[trigger] x.outs[j].edge, n.id, q);
                assert(g.out_edge(id, j) is Some);
                assert(g.in_edge(n.id, q) is Some);
            }
            if n.ins[q].edge matches Some(e) && e.node == id {
                assert(g.in_edge(n.id, q) is Some);
                let e = n.ins[q].edge->Some_0;
                assert(g.out_edge(id, e.port.0 as int) is Some);
                assert(names_in_port(x.outs[e.port.0 as int].edge, n.id, q));
            }
        }
        assert forall|q: int| 0 <= q < n.outs.len() implies named_by_ins(x, ji, n.id, q) == (
        n.outs[q].edge matches Some(e) && e.node == id) by {
            if named_by_ins(x, ji, n.id, q) {
                let j = choose|j: int|
                    0 <= j < ji && j < x.ins.len() && names_out_port(#[trigger] x.ins[j].edge, n.id, q);
                assert(g.in_edge(id, j) is Some);
                assert(g.out_edge(n.id, q) is Some);
            }
            if n.outs[q].edge matches Some(e) && e.node == id {
                assert(g.out_edge(n.id, q) is Some);
                let e = n.outs[q].edge->Some_0;
                assert(g.in_edge(id, e.port.0 as int) is Some);
                assert(names_out_port(x.ins[e.port.0 as int].edge, n.id, q));
            }
        }
        assert(r.nodes[i].ins =~= clear_edges_to(n, id).ins);
        assert(r.nodes[i].outs =~= clear_edges_to(n, id).outs);
    }
    assert(r.nodes =~= h.nodes);
    // h is well formed
    assert forall|m: NodeID| #[trigger] h.contains(m) == (g.contains(m) && m != id) by {
        assert(h.ids().contains(m) == rest.ids().contains(m));
        assert(g.ids()[k] == id);
    }
    assert forall|m: NodeID| h.contains(m) implies #[trigger] h.node(m) == clear_edges_to(g.node(m), id) by {
        lemma_contains(h, m);
        let i = h.index(m);
        assert(rest.nodes[i].id == m);
    }
    assert forall|i: int| 0 <= i < h.nodes.len() implies (#[trigger] h.nodes[i]).ports_wf() by {
        let n = rest.nodes[i];
        if i == k {
            assert(g.nodes[g.nodes.len() - 1].ports_wf());
        } else {
            assert(g.nodes[i].ports_wf());
        }
        assert(forall|q: int| 0 <= q < n.ins.len() ==> #[trigger] h.nodes[i].ins[q].id == n.ins[q].id);
        assert(forall|q: int| 0 <= q < n.outs.len() ==> #[trigger] h.nodes[i].outs[q].id == n.outs[q].id);
    }
    assert forall|i: int| 0 <= i < h.nodes.len() implies (#[trigger] h.nodes[i]).id.0 < h.next_id by {
        if i == k {
            assert(g.nodes[g.nodes.len() - 1].id.0 < g.next_id);
        } else {
            assert(g.nodes[i].id.0 < g.next_id);
        }
    }
    assert forall|m: NodeID, q: int| #[trigger]
        h.in_edge(m, q) is Some implies names_in_port(
            h.out_edge(h.in_edge(m, q)->Some_0.node, h.in_edge(m, q)->Some_0.port.0 as int),
            m,
            q,
        ) by {
        let e = h.in_edge(m, q)->Some_0;
        assert(g.in_edge(m, q) == Some(e));
        assert(g.contains(e.node));
        assert(h.contains(e.node));
    }
    assert forall|m: NodeID, q: int| #[trigger]
        h.out_edge(m, q) is Some implies names_out_port(
            h.in_edge(h.out_edge(m, q)->Some_0.node, h.out_edge(m, q)->Some_0.port.0 as int),
            m,
            q,
        ) by {
        let e = h.out_edge(m, q)->Some_0;
        assert(g.out_edge(m, q) == Some(e));
        assert(g.contains(e.node));
        assert(h.contains(e.node));
    }
}


/// What `Graph::clear_ports` does: node `id` keeps its place with no ports, and every edge that
/// named it is cleared.
pub open spec fn clear_ports_spec(g: GraphView, id: NodeID) -> (GraphView, Result<()>) {
    if !g.contains(id) {
        (g, Err(Error::InvalidNode))
    } else {
        let x = g.node(id);
        (
            GraphView {
                nodes: g.nodes.update(g.index(id), NodeView { ins: Seq::empty(), outs: Seq::empty(), ..x }).map_values(
                    |n: NodeView| clear_edges_to(n, id),
                ),
                ..g
            },
            Ok(()),
        )
    }
}

/// Releasing the ports of node `id` against the graph in which that node has no ports left
/// clears exactly the edges that named it, and leaves the graph well formed.
pub proof fn lemma_clear_ports(g: GraphView, id: NodeID)
    requires
        g.wf(),
        g.contains(id),
    ensures
        ({
            let x = g.node(id);
            let g1 = g.with_node(id, NodeView { ins: Seq::empty(), outs: Seq::empty(), ..x });
            let h = clear_ports_spec(g, id).0;
            &&& g1.ids() == g.ids()
            &&& release_graph(g1, x, x.outs.len() as int, x.ins.len() as int) == h
            &&& h.wf()
            &&& h.ids() == g.ids()
        }),
{
    let x = g.node(id);
    let k = g.index(id);
    lemma_contains(g, id);
    let xe = NodeView { ins: Seq::empty(), outs: Seq::empty(), ..x };
    let g1 = g.with_node(id, xe);
    let h = clear_ports_spec(g, id).0;
    let jo = x.outs.len() as int;
    let ji = x.ins.len() as int;
    assert(g1.ids() =~= g.ids());
    assert(h.ids() =~= g.ids());
    let r = release_graph(g1, x, jo, ji);
    assert forall|i: int| 0 <= i < g1.nodes.len() implies r.nodes[i] == clear_edges_to(
        #[trigger] g1.nodes[i],
        id,
    ) by {
        if i == k {
            assert(r.nodes[i].ins =~= clear_edges_to(g1.nodes[i], id).ins);
            assert(r.nodes[i].outs =~= clear_edges_to(g1.nodes[i], id).outs);
        } else {
            let n = g.nodes[i];
            lemma_index(g, n.id, i);
            assert(g.ids()[i] != g.ids()[k]);
            assert(n.id != id);
            assert(g1.nodes[i] == n);
            assert forall|q: int| 0 <= q < n.ins.len() implies named_by_outs(x, jo, n.id, q) == (
            n.ins[q].edge matches Some(e) && e.node == id) by {
                if named_by_outs(x, jo, n.id, q) {
                    let j = choose|j: int|
                        0 <= j < jo && j < x.outs.len() && names_in_port(#[trigger] x.outs[j].edge, n.id, q);
                    assert(g.out_edge(id, j) is Some);
                    assert(g.in_edge(n.id, q) is Some);
                }
                if n.ins[q].edge matches Some(e) && e.node == id {
                    assert(g.in_edge(n.id, q) is Some);
                    let e = n.ins[q].edge->Some_0;
                    assert(g.out_edge(id, e.port.0 as int) is Some);
                    assert(names_in_port(x.outs[e.port.0 as int].edge, n.id, q));
                }
            }
            assert forall|q: int| 0 <= q < n.outs.len() implies named_by_ins(x, ji, n.id, q) == (
            n.outs[q].edge matches Some(e) && e.node == id) by {
                if named_by_ins(x, ji, n.id, q) {
                    let j = choose|j: int|
                        0 <= j < ji && j < x.ins.len() && names_out_port(#[trigger] x.ins[j].edge, n.id, q);
                    assert(g.in_edge(id, j) is Some);
                    assert(g.out_edge(n.id, q) is Some);
                }
                if n.outs[q].edge matches Some(e) && e.node == id {
                    assert(g.out_edge(n.id, q) is Some);
                    let e = n.outs[q].edge->Some_0;
                    assert(g.in_edge(id, e.port.0 as int) is Some);
                    assert(names_out_port(x.ins[e.port.0 as int].edge, n.id, q));
                }
            }
            assert(r.nodes[i].ins =~= clear_edges_to(n, id).ins);
            assert(r.nodes[i].outs =~= clear_edges_to(n, id).outs);
        }
    }
    assert(r.nodes =~= h.nodes);
    // h is well formed
    assert forall|m: NodeID| #[trigger] h.contains(m) == g.contains(m) by {}
    assert forall|m: NodeID| h.contains(m) implies #[trigger] h.node(m) == clear_edges_to(
        if m == id {
            xe
        } else {
            g.node(m)
        },
        id,
    ) by {
        assert(h.index(m) == g.index(m));
        lemma_contains(g, m);
        if m != id {
            assert(g.index(m) != k);
        }
    }
    assert forall|i: int| 0 <= i < h.nodes.len() implies (#[trigger] h.nodes[i]).ports_wf() by {
        if i != k {
            let n = g.nodes[i];
            assert(g.nodes[i].ports_wf());
            assert(forall|q: int| 0 <= q < n.ins.len() ==> #[trigger] h.nodes[i].ins[q].id == n.ins[q].id);
            assert(forall|q: int| 0 <= q < n.outs.len() ==> #[trigger] h.nodes[i].outs[q].id == n.outs[q].id);
        }
    }
    assert forall|i: int| 0 <= i < h.nodes.len() implies (#[trigger] h.nodes[i]).id.0 < h.next_id by {
        assert(g.nodes[i].id.0 < g.next_id);
    }
    assert forall|m: NodeID, q: int| #[trigger]
        h.in_edge(m, q) is Some implies names_in_port(
            h.out_edge(h.in_edge(m, q)->Some_0.node, h.in_edge(m, q)->Some_0.port.0 as int),
            m,
            q,
        ) by {
        let e = h.in_edge(m, q)->Some_0;
        assert(m != id);
        assert(g.in_edge(m, q) == Some(e));
        assert(g.contains(e.node));
        assert(h.contains(e.node));
        assert(e.node != id);
    }
    assert forall|m: NodeID, q: int| #[trigger]
        h.out_edge(m, q) is Some implies names_out_port(
            h.in_edge(h.out_edge(m, q)->Some_0.node, h.out_edge(m, q)->Some_0.port.0 as int),
            m,
            q,
        ) by {
        let e = h.out_edge(m, q)->Some_0;
        assert(m != id);
        assert(g.out_edge(m, q) == Some(e));
        assert(g.contains(e.node));
        assert(h.contains(e.node));
        assert(e.node != id);
    }
}

/// After `clear_ports` the node is still in the graph with no ports, no port of any node has an
/// edge naming it, edges between other nodes are unchanged, and the graph stays well formed.
pub proof fn law_clear_ports_detaches_node(g: GraphView, id: NodeID)
    requires
        g.wf(),
        g.contains(id),
    ensures
        ({
            let h = clear_ports_spec(g, id).0;
            &&& clear_ports_spec(g, id).1 is Ok
            &&& h.wf()
            &&& h.nodes.len() == g.nodes.len()
            &&& h.contains(id)
            &&& h.node(id).ins.len() == 0 && h.node(id).outs.len() == 0
            &&& forall|m: NodeID, q: int| #[trigger] h.in_edge(m, q) matches Some(e) ==> e.node != id
            &&& forall|m: NodeID, q: int| #[trigger] h.out_edge(m, q) matches Some(e) ==> e.node != id
            &&& forall|m: NodeID, q: int|
                m != id && (g.in_edge(m, q) matches Some(e) && e.node != id) ==> #[trigger] h.in_edge(m, q)
                    == g.in_edge(m, q)
            &&& forall|m: NodeID, q: int|
                m != id && (g.out_edge(m, q) matches Some(e) && e.node != id) ==> #[trigger] h.out_edge(m, q)
                    == g.out_edge(m, q)
        }),
{
    lemma_clear_ports(g, id);
    let h = clear_ports_spec(g, id).0;
    let k = g.index(id);
    lemma_contains(g, id);
    assert(h.contains(id));
    assert(h.index(id) == k);
    assert(h.node(id).ins =~= Seq::<InPortView>::empty());
    assert(h.node(id).outs =~= Seq::<OutPortView>::empty());
    assert forall|m: NodeID, q: int| #[trigger] h.in_edge(m, q) is Some implies h.in_edge(m, q)->Some_0.node != id by {
        if m == id {
        } else {
            lemma_contains(g, m);
            assert(h.index(m) == g.index(m));
            assert(g.index(m) != k);
        }
    }
    assert forall|m: NodeID, q: int| #[trigger] h.out_edge(m, q) is Some implies h.out_edge(m, q)->Some_0.node != id by {
        if m == id {
        } else {
            lemma_contains(g, m);
            assert(h.index(m) == g.index(m));
            assert(g.index(m) != k);
        }
    }
    assert forall|m: NodeID, q: int|
        m != id && (g.in_edge(m, q) matches Some(e) && e.node != id) implies #[trigger] h.in_edge(m, q)
            == g.in_edge(m, q) by {
        lemma_contains(g, m);
        assert(h.index(m) == g.index(m));
        assert(g.index(m) != k);
    }
    assert forall|m: NodeID, q: int|
        m != id && (g.out_edge(m, q) matches Some(e) && e.node != id) implies #[trigger] h.out_edge(m, q)
            == g.out_edge(m, q) by {
        lemma_contains(g, m);
        assert(h.index(m) == g.index(m));
        assert(g.index(m) != k);
    }
}

/// What connecting the pairs `k..n` of consecutive ports does, one pair after the other, stopping
/// at the first failure: the graph afterwards and the result.
pub open spec fn connect_n_spec(
    g: GraphView,
    src_id: NodeID,
    src_port: nat,
    dst_id: NodeID,
    dst_port: nat,
    k: nat,
    n: nat,
) -> (GraphView, Result<()>)
    decreases n - k,
{
    if k >= n {
        (g, Ok(()))
    } else if src_port + k > usize::MAX || dst_port + k > usize::MAX {
        (g, Err(Error::InvalidPort))
    } else {
        let (g1, r) = connect_spec(
            g,
            src_id,
            OutPortID((src_port + k) as usize),
            dst_id,
            InPortID((dst_port + k) as usize),
        );
        if r is Err {
            (g1, r)
        } else {
            connect_n_spec(g1, src_id, src_port, dst_id, dst_port, k + 1, n)
        }
    }
}

/// What `Graph::connect_all` does: the graph afterwards and the result.
pub open spec fn connect_all_spec(g: GraphView, src_id: NodeID, dst_id: NodeID) -> (GraphView, Result<()>) {
    if !g.contains(src_id) {
        (g, Err(Error::InvalidNode))
    } else if !g.contains(dst_id) {
        (g, Err(Error::InvalidNode))
    } else if g.node(src_id).outs.len() != g.node(dst_id).ins.len() {
        (g, Err(Error::SizeMismatch))
    } else {
        connect_n_spec(g, src_id, 0, dst_id, 0, 0, g.node(src_id).outs.len())
    }
}

/// Output port `src_port + i` of `src_id` and input port `dst_port + i` of `dst_id` name each
/// other.
pub open spec fn pair_connected(
    h: GraphView,
    src_id: NodeID,
    src_port: nat,
    dst_id: NodeID,
    dst_port: nat,
    i: nat,
) -> bool {
    &&& h.out_edge(src_id, (src_port + i) as int) == Some(
        Edge { node: dst_id, port: InPortID((dst_port + i) as usize) },
    )
    &&& h.in_edge(dst_id, (dst_port + i) as int) == Some(
        Edge { node: src_id, port: OutPortID((src_port + i) as usize) },
    )
}

/// Connecting pairs of ports one after the other keeps the graph well formed; when every pair
/// connects, each output port of the range names its input port and the other way round.
pub proof fn lemma_connect_n(
    g: GraphView,
    src_id: NodeID,
    src_port: nat,
    dst_id: NodeID,
    dst_port: nat,
    k: nat,
    n: nat,
)
    requires
        g.wf(),
        src_port + n <= usize::MAX,
        dst_port + n <= usize::MAX,
    ensures
        connect_n_spec(g, src_id, src_port, dst_id, dst_port, k, n).0.wf(),
        connect_n_spec(g, src_id, src_port, dst_id, dst_port, k, n).1 is Ok ==> forall|i: nat|
            k <= i < n ==> #[trigger] pair_connected(
                connect_n_spec(g, src_id, src_port, dst_id, dst_port, k, n).0,
                src_id,
                src_port,
                dst_id,
                dst_port,
                i,
            ),
    decreases n - k,
{
    if k < n {
        let sp = OutPortID((src_port + k) as usize);
        let dp = InPortID((dst_port + k) as usize);
        let (g1, r) = connect_spec(g, src_id, sp, dst_id, dp);
        lemma_connect_wf(g, src_id, sp, dst_id, dp);
        if r is Ok {
            lemma_connect_n(g1, src_id, src_port, dst_id, dst_port, k + 1, n);
            let h = connect_n_spec(g1, src_id, src_port, dst_id, dst_port, k + 1, n).0;
            if connect_n_spec(g1, src_id, src_port, dst_id, dst_port, k + 1, n).1 is Ok {
                // the pair k stays connected through the later steps
                lemma_connect_n_keeps(
                    g1,
                    src_id,
                    src_port,
                    dst_id,
                    dst_port,
                    k + 1,
                    n,
                    (src_port + k) as int,
                    (dst_port + k) as int,
                );
                let e_in = Some(Edge { node: src_id, port: sp });
                let e_out = Some(Edge { node: dst_id, port: dp });
                let g0 = g.set_in_edge(dst_id, dp.0 as int, e_in);
                lemma_set_in_edge(g, dst_id, dp.0 as int, e_in);
                lemma_set_out_edge(g0, src_id, sp.0 as int, e_out);
            }
        }
    }
}

/// When `connect_all` succeeds, output port `i` of the source node and input port `i` of the
/// destination node name each other, for every `i` below the number of output ports.
pub proof fn law_connect_all_connects_pairs(g: GraphView, src_id: NodeID, dst_id: NodeID)
    requires
        g.wf(),
        g.contains(src_id) ==> g.node(src_id).outs.len() <= usize::MAX,
    ensures
        connect_all_spec(g, src_id, dst_id).0.wf(),
        connect_all_spec(g, src_id, dst_id).1 is Ok ==> {
            &&& g.node(src_id).outs.len() == g.node(dst_id).ins.len()
            &&& forall|i: nat|
                i < g.node(src_id).outs.len() ==> #[trigger] pair_connected(
                    connect_all_spec(g, src_id, dst_id).0,
                    src_id,
                    0,
                    dst_id,
                    0,
                    i,
                )
        },
{
    if g.contains(src_id) && g.contains(dst_id) && g.node(src_id).outs.len() == g.node(dst_id).ins.len() {
        lemma_connect_n(g, src_id, 0, dst_id, 0, 0, g.node(src_id).outs.len());
    }
}

/// Later steps of connecting consecutive pairs leave edges that are already there alone.
pub proof fn lemma_connect_n_keeps(
    g: GraphView,
    src_id: NodeID,
    src_port: nat,
    dst_id: NodeID,
    dst_port: nat,
    k: nat,
    n: nat,
    o: int,
    q: int,
)
    requires
        g.wf(),
    ensures
        g.out_edge(src_id, o) is Some ==> connect_n_spec(g, src_id, src_port, dst_id, dst_port, k, n).0.out_edge(src_id, o) == g.out_edge(src_id, o),
        g.in_edge(dst_id, q) is Some ==> connect_n_spec(g, src_id, src_port, dst_id, dst_port, k, n).0.in_edge(dst_id, q) == g.in_edge(dst_id, q),
    decreases n - k,
{
    if k < n {
        let sp = OutPortID((src_port + k) as usize);
        let dp = InPortID((dst_port + k) as usize);
        let (g1, r) = connect_spec(g, src_id, sp, dst_id, dp);
        lemma_connect_wf(g, src_id, sp, dst_id, dp);
        if r is Ok {
            let e_in = Some(Edge { node: src_id, port: sp });
            let e_out = Some(Edge { node: dst_id, port: dp });
            let g0 = g.set_in_edge(dst_id, dp.0 as int, e_in);
            lemma_set_in_edge(g, dst_id, dp.0 as int, e_in);
            lemma_set_out_edge(g0, src_id, sp.0 as int, e_out);
            lemma_connect_n_keeps(g1, src_id, src_port, dst_id, dst_port, k + 1, n, o, q);
        }
    }
}

/**
 * A graph contains many `Node`s and connections between their `Port`s.
 */
pub struct Graph {
    id_counter: usize,
    nodes: Vec<Node>,
}

impl View for Graph {
    type V = GraphView;

    closed spec fn view(&self) -> GraphView {
        GraphView { next_id: self.id_counter as nat, nodes: self.nodes@.map_values(|n: Node| n@) }
    }
}

impl Graph {
    /**
     * Create a new empty graph.
     */
    pub fn new() -> (r: Graph)
        ensures
            r@ == (GraphView { next_id: 0, nodes: Seq::empty() }),
            r@.wf(),
    {
        let g = Graph { id_counter: 0, nodes: Vec::new() };
        assert(g@.nodes =~= Seq::<NodeView>::empty());
        assert(g@.ids() =~= Seq::<NodeID>::empty());
        g
    }

    /// The identifier that the next node added will get.
    pub fn id_counter(&self) -> (r: usize)
        ensures
            r == self@.next_id,
    {
        self.id_counter
    }

    /**
     * Gets the number of nodes in the graph.
     */
    pub fn num_nodes(&self) -> (r: usize)
        ensures
            r == self@.nodes.len(),
    {
        self.nodes.len()
    }

    /// Storage position of the node `id`, if there is one.
    fn find_node(&self, id: NodeID) -> (r: Option<usize>)
        requires
            self@.ids().no_duplicates(),
        ensures
            r is Some <==> self@.contains(id),
            r matches Some(k) ==> k < self@.nodes.len() && k == self@.index(id) && self.nodes@[k as int]@
                == self@.node(id),
    {
        let mut k: usize = 0;
        while k < self.nodes.len()
            invariant
                k <= self.nodes@.len(),
                self@.ids().no_duplicates(),
                forall|j: int| 0 <= j < k ==> self@.ids()[j] != id,
            decreases self.nodes@.len() - k,
        {
            if self.nodes[k].id == id {
                proof {
                    lemma_index(self@, id, k as int);
                }
                return Some(k);
            }
            k = k + 1;
        }
        proof {
            if self@.contains(id) {
                lemma_contains(self@, id);
            }
        }
        None
    }

    /**
     * Get a node by ID.
     */
    pub fn node(&self, id: NodeID) -> (r: Result<&Node>)
        requires
            self@.wf(),
        ensures
            r is Ok <==> self@.contains(id),
            r matches Ok(n) ==> n@ == self@.node(id),
            r matches Err(e) ==> e == Error::InvalidNode,
    {
        match self.find_node(id) {
            Some(k) => Ok(&self.nodes[k]),
            None => Err(Error::InvalidNode),
        }
    }

    /**
     * Get a vector of all nodes.
     */
    pub fn nodes(&self) -> (r: &[Node])
        ensures
            r@.map_values(|n: Node| n@) == self@.nodes,
    {
        self.nodes.as_slice()
    }

    /**
     * Add a node with a fixed number of input and output ports.
     * The ID of the newly created node is returned.
     */
    pub fn add_node(&mut self, num_in: usize, num_out: usize) -> (r: NodeID)
        requires
            old(self)@.wf(),
            old(self)@.next_id < usize::MAX,
        ensures
            r == NodeID(old(self)@.next_id as usize),
            !old(self)@.contains(r),
            final(self)@ == (GraphView {
                next_id: old(self)@.next_id + 1,
                nodes: old(self)@.nodes.push(NodeView::fresh(r, num_in as nat, num_out as nat)),
            }),
            final(self)@.wf(),
    {
        let id = NodeID(self.id_counter);
        self.id_counter = self.id_counter + 1;
        let node = Node::new(id, num_in, num_out);
        self.nodes.push(node);
        proof {
            let g = old(self)@;
            let h = self@;
            let fresh = NodeView::fresh(id, num_in as nat, num_out as nat);
            assert(h.nodes =~= g.nodes.push(fresh));
            assert(h.ids() =~= g.ids().push(id));
            if g.contains(id) {
                lemma_contains(g, id);
            }
            lemma_push_node(g, fresh, h);
        }
        id
    }

    /// Replaces the edge of input port `p` of the node stored at `k`.
    fn set_in_edge_at(&mut self, k: usize, p: usize, e: Option<Edge<OutPortID>>)
        requires
            k < old(self)@.nodes.len(),
            p < old(self)@.nodes[k as int].ins.len(),
        ensures
            final(self)@ == (GraphView {
                nodes: old(self)@.nodes.update(
                    k as int,
                    NodeView {
                        ins: old(self)@.nodes[k as int].ins.update(
                            p as int,
                            with_edge(old(self)@.nodes[k as int].ins[p as int], e),
                        ),
                        ..old(self)@.nodes[k as int]
                    },
                ),
                ..old(self)@
            }),
    {
        self.nodes[k].in_ports[p].set_edge(e);
        assert(self@.nodes[k as int].ins =~= old(self)@.nodes[k as int].ins.update(
            p as int,
            with_edge(old(self)@.nodes[k as int].ins[p as int], e),
        ));
        assert(self@.nodes =~= old(self)@.nodes.update(
            k as int,
            NodeView {
                ins: old(self)@.nodes[k as int].ins.update(
                    p as int,
                    with_edge(old(self)@.nodes[k as int].ins[p as int], e),
                ),
                ..old(self)@.nodes[k as int]
            },
        ));
    }

    /// Replaces the edge of output port `p` of the node stored at `k`.
    fn set_out_edge_at(&mut self, k: usize, p: usize, e: Option<Edge<InPortID>>)
        requires
            k < old(self)@.nodes.len(),
            p < old(self)@.nodes[k as int].outs.len(),
        ensures
            final(self)@ == (GraphView {
                nodes: old(self)@.nodes.update(
                    k as int,
                    NodeView {
                        outs: old(self)@.nodes[k as int].outs.update(
                            p as int,
                            with_edge(old(self)@.nodes[k as int].outs[p as int], e),
                        ),
                        ..old(self)@.nodes[k as int]
                    },
                ),
                ..old(self)@
            }),
    {
        self.nodes[k].out_ports[p].set_edge(e);
        assert(self@.nodes[k as int].outs =~= old(self)@.nodes[k as int].outs.update(
            p as int,
            with_edge(old(self)@.nodes[k as int].outs[p as int], e),
        ));
        assert(self@.nodes =~= old(self)@.nodes.update(
            k as int,
            NodeView {
                outs: old(self)@.nodes[k as int].outs.update(
                    p as int,
                    with_edge(old(self)@.nodes[k as int].outs[p as int], e),
                ),
                ..old(self)@.nodes[k as int]
            },
        ));
    }

    /// Disconnects input port `port` of node `node` from the output port it is connected to,
    /// clearing both ends.
    pub fn disconnect_in(&mut self, node: NodeID, port: InPortID) -> (r: Result<()>)
        requires
            old(self)@.wf(),
        ensures
            (final(self)@, r) == disconnect_in_spec(old(self)@, node, port),
            final(self)@.wf(),
    {
        proof {
            lemma_disconnect_in_wf(self@, node, port);
        }
        let k = match self.find_node(node) {
            Some(k) => k,
            None => return Err(Error::InvalidNode),
        };
        if port.0 >= self.nodes[k].in_ports.len() {
            return Err(Error::InvalidPort);
        }
        match self.nodes[k].in_ports[port.0].edge() {
            Some(edge) => {
                let m = match self.find_node(edge.node) {
                    Some(m) => m,
                    None => return Err(Error::InvalidNode),
                };
                if edge.port.0 >= self.nodes[m].out_ports.len() {
                    return Err(Error::InvalidPort);
                }
                proof {
                    lemma_set_out_edge(self@, edge.node, edge.port.0 as int, None);
                }
                self.set_out_edge_at(m, edge.port.0, None);
                self.set_in_edge_at(k, port.0, None);
                Ok(())
            },
            None => Err(Error::NotConnected),
        }
    }

    /// Disconnects output port `port` of node `node` from the input port it is connected to,
    /// clearing both ends.
    pub fn disconnect_out(&mut self, node: NodeID, port: OutPortID) -> (r: Result<()>)
        requires
            old(self)@.wf(),
        ensures
            (final(self)@, r) == disconnect_out_spec(old(self)@, node, port),
            final(self)@.wf(),
    {
        proof {
            lemma_disconnect_out_wf(self@, node, port);
        }
        let k = match self.find_node(node) {
            Some(k) => k,
            None => return Err(Error::InvalidNode),
        };
        if port.0 >= self.nodes[k].out_ports.len() {
            return Err(Error::InvalidPort);
        }
        match self.nodes[k].out_ports[port.0].edge() {
            Some(edge) => {
                let m = match self.find_node(edge.node) {
                    Some(m) => m,
                    None => return Err(Error::InvalidNode),
                };
                if edge.port.0 >= self.nodes[m].in_ports.len() {
                    return Err(Error::InvalidPort);
                }
                proof {
                    lemma_set_in_edge(self@, edge.node, edge.port.0 as int, None);
                }
                self.set_in_edge_at(m, edge.port.0, None);
                self.set_out_edge_at(k, port.0, None);
                Ok(())
            },
            None => Err(Error::NotConnected),
        }
    }

    /// Replaces the node stored at `k` by the result of `f`-like edits done in place; helper
    /// relating an edit of the stored node to `with_node`.
    proof fn lemma_edit_at(&self, k: int, n: NodeView, h: GraphView)
        requires
            self@.ids().no_duplicates(),
            0 <= k < self@.nodes.len(),
            h == (GraphView { nodes: self@.nodes.update(k, n), ..self@ }),
        ensures
            h == self@.with_node(self@.nodes[k].id, n),
    {
        lemma_index(self@, self@.nodes[k].id, k);
    }

    /**
     * Pushes a new input port to the end of the port list of node `node`.
     */
    pub fn push_in_port(&mut self, node: NodeID) -> (r: Result<InPortID>)
        requires
            old(self)@.wf(),
        ensures
            r is Ok <==> old(self)@.contains(node),
            r matches Err(e) ==> e == Error::InvalidNode && final(self)@ == old(self)@,
            r matches Ok(p) ==> {
                let a = old(self)@.node(node);
                &&& p == InPortID(a.ins.len() as usize)
                &&& final(self)@ == old(self)@.with_node(
                    node,
                    NodeView { ins: a.ins.push(fresh_in_port(a.ins.len() as int)), ..a },
                )
            },
            final(self)@.wf(),
    {
        let k = match self.find_node(node) {
            Some(k) => k,
            None => return Err(Error::InvalidNode),
        };
        let ghost a = self@.node(node);
        let p = self.nodes[k].push_in_port();
        proof {
            let n = NodeView { ins: a.ins.push(fresh_in_port(a.ins.len() as int)), ..a };
            assert(self@.nodes =~= old(self)@.nodes.update(k as int, n));
            old(self).lemma_edit_at(k as int, n, self@);
            lemma_grow_node(old(self)@, node, n);
        }
        Ok(p)
    }

    /**
     * Pushes a new output port to the end of the port list of node `node`.
     */
    pub fn push_out_port(&mut self, node: NodeID) -> (r: Result<OutPortID>)
        requires
            old(self)@.wf(),
        ensures
            r is Ok <==> old(self)@.contains(node),
            r matches Err(e) ==> e == Error::InvalidNode && final(self)@ == old(self)@,
            r matches Ok(p) ==> {
                let a = old(self)@.node(node);
                &&& p == OutPortID(a.outs.len() as usize)
                &&& final(self)@ == old(self)@.with_node(
                    node,
                    NodeView { outs: a.outs.push(fresh_out_port(a.outs.len() as int)), ..a },
                )
            },
            final(self)@.wf(),
    {
        let k = match self.find_node(node) {
            Some(k) => k,
            None => return Err(Error::InvalidNode),
        };
        let ghost a = self@.node(node);
        let p = self.nodes[k].push_out_port();
        proof {
            let n = NodeView { outs: a.outs.push(fresh_out_port(a.outs.len() as int)), ..a };
            assert(self@.nodes =~= old(self)@.nodes.update(k as int, n));
            old(self).lemma_edit_at(k as int, n, self@);
            lemma_grow_node(old(self)@, node, n);
        }
        Ok(p)
    }

    /**
     * Removes the input port from the end of the port list of node `node`, disconnecting it
     * first.
     */
    pub fn pop_in_port(&mut self, node: NodeID) -> (r: Result<()>)
        requires
            old(self)@.wf(),
        ensures
            (final(self)@, r) == pop_in_spec(old(self)@, node),
            final(self)@.wf(),
    {
        let k = match self.find_node(node) {
            Some(k) => k,
            None => return Err(Error::InvalidNode),
        };
        let len = self.nodes[k].in_ports.len();
        if len == 0 {
            return Ok(());
        }
        let last = len - 1;
        if self.nodes[k].in_ports[last].has_edge() {
            let d = self.disconnect_in(node, InPortID(last));
            proof {
                lemma_disconnect_in_wf(old(self)@, node, InPortID(last));
                lemma_set_out_edge(
                    old(self)@,
                    old(self)@.in_edge(node, last as int)->Some_0.node,
                    old(self)@.in_edge(node, last as int)->Some_0.port.0 as int,
                    None,
                );
            }
        }
        let ghost g1 = self@;
        proof {
            if g1 != old(self)@ {
                let e = old(self)@.in_edge(node, last as int)->Some_0;
                let g0 = old(self)@.set_out_edge(e.node, e.port.0 as int, None);
                lemma_set_out_edge(old(self)@, e.node, e.port.0 as int, None);
                lemma_set_in_edge(g0, node, last as int, None);
            }
            lemma_contains(g1, node);
            lemma_drop_last_in(g1, node);
        }
        let ghost a = g1.node(node);
        let popped = self.nodes[k].in_ports.pop();
        proof {
            let n = NodeView { ins: a.ins.drop_last(), ..a };
            assert(self@.nodes[k as int].ins =~= a.ins.drop_last());
            assert(self@.nodes =~= g1.nodes.update(k as int, n));
        }
        Ok(())
    }

    /**
     * Removes the output port from the end of the port list of node `node`, disconnecting it
     * first.
     */
    pub fn pop_out_port(&mut self, node: NodeID) -> (r: Result<()>)
        requires
            old(self)@.wf(),
        ensures
            (final(self)@, r) == pop_out_spec(old(self)@, node),
            final(self)@.wf(),
    {
        let k = match self.find_node(node) {
            Some(k) => k,
            None => return Err(Error::InvalidNode),
        };
        let len = self.nodes[k].out_ports.len();
        if len == 0 {
            return Ok(());
        }
        let last = len - 1;
        if self.nodes[k].out_ports[last].has_edge() {
            let d = self.disconnect_out(node, OutPortID(last));
            proof {
                lemma_disconnect_out_wf(old(self)@, node, OutPortID(last));
            }
        }
        let ghost g1 = self@;
        proof {
            if g1 != old(self)@ {
                let e = old(self)@.out_edge(node, last as int)->Some_0;
                let g0 = old(self)@.set_in_edge(e.node, e.port.0 as int, None);
                lemma_set_in_edge(old(self)@, e.node, e.port.0 as int, None);
                lemma_set_out_edge(g0, node, last as int, None);
            }
            lemma_contains(g1, node);
            lemma_drop_last_out(g1, node);
        }
        let ghost a = g1.node(node);
        let popped = self.nodes[k].out_ports.pop();
        proof {
            let n = NodeView { outs: a.outs.drop_last(), ..a };
            assert(self@.nodes[k as int].outs =~= a.outs.drop_last());
            assert(self@.nodes =~= g1.nodes.update(k as int, n));
        }
        Ok(())
    }

    /// Sets the abort flag of node `node`. Threads waiting on that node are to be woken by the
    /// caller.
    pub fn set_aborting(&mut self, node: NodeID, abort: bool) -> (r: Result<()>)
        requires
            old(self)@.wf(),
        ensures
            r is Ok <==> old(self)@.contains(node),
            r matches Err(e) ==> e == Error::InvalidNode && final(self)@ == old(self)@,
            r is Ok ==> final(self)@ == old(self)@.with_node(
                node,
                NodeView { aborting: abort, ..old(self)@.node(node) },
            ),
            final(self)@.wf(),
    {
        let k = match self.find_node(node) {
            Some(k) => k,
            None => return Err(Error::InvalidNode),
        };
        self.nodes[k].set_aborting(abort);
        proof {
            let n = NodeView { aborting: abort, ..old(self)@.node(node) };
            assert(self@.nodes =~= old(self)@.nodes.update(k as int, n));
            old(self).lemma_edit_at(k as int, n, self@);
            lemma_grow_node(old(self)@, node, n);
        }
        Ok(())
    }

    /// Discards the data waiting on every input port of node `node`; `Err(Attached)` (and
    /// nothing changed) while a thread is attached to it.
    pub fn flush(&mut self, node: NodeID) -> (r: Result<()>)
        requires
            old(self)@.wf(),
        ensures
            !old(self)@.contains(node) ==> r == Err::<(), Error>(Error::InvalidNode),
            old(self)@.contains(node) && old(self)@.node(node).attached ==> r == Err::<(), Error>(
                Error::Attached,
            ),
            r is Err ==> final(self)@ == old(self)@,
            r is Ok ==> old(self)@.contains(node) && !old(self)@.node(node).attached,
            r is Ok ==> final(self)@ == old(self)@.with_node(
                node,
                NodeView {
                    ins: old(self)@.node(node).ins.map_values(
                        |p: InPortView| PortView { details: Seq::<u8>::empty(), ..p },
                    ),
                    ..old(self)@.node(node)
                },
            ),
            final(self)@.wf(),
    {
        let k = match self.find_node(node) {
            Some(k) => k,
            None => return Err(Error::InvalidNode),
        };
        let r = self.nodes[k].flush();
        proof {
            let a = old(self)@.node(node);
            if r is Ok {
                let n = NodeView {
                    ins: a.ins.map_values(|p: InPortView| PortView { details: Seq::<u8>::empty(), ..p }),
                    ..a
                };
                assert(self@.nodes =~= old(self)@.nodes.update(k as int, n));
                old(self).lemma_edit_at(k as int, n, self@);
                lemma_grow_node(old(self)@, node, n);
            } else {
                assert(self@.nodes =~= old(self)@.nodes);
            }
        }
        r
    }

    /// Clears input port `port` of node `node`; the graph stays as it was when there is no
    /// such port.
    fn clear_in_edge(&mut self, node: NodeID, port: InPortID) -> (r: Result<()>)
        requires
            old(self)@.ids().no_duplicates(),
        ensures
            !old(self)@.contains(node) ==> r == Err::<(), Error>(Error::InvalidNode),
            old(self)@.contains(node) && !old(self)@.has_in_port(node, port.0 as int) ==> r == Err::<
                (),
                Error,
            >(Error::InvalidPort),
            r is Err ==> final(self)@ == old(self)@,
            r is Ok <==> old(self)@.has_in_port(node, port.0 as int),
            r is Ok ==> final(self)@ == old(self)@.set_in_edge(node, port.0 as int, None),
    {
        let k = match self.find_node(node) {
            Some(k) => k,
            None => return Err(Error::InvalidNode),
        };
        if port.0 >= self.nodes[k].in_ports.len() {
            return Err(Error::InvalidPort);
        }
        self.set_in_edge_at(k, port.0, None);
        Ok(())
    }

    /// Clears output port `port` of node `node`; the graph stays as it was when there is no
    /// such port.
    fn clear_out_edge(&mut self, node: NodeID, port: OutPortID) -> (r: Result<()>)
        requires
            old(self)@.ids().no_duplicates(),
        ensures
            !old(self)@.contains(node) ==> r == Err::<(), Error>(Error::InvalidNode),
            old(self)@.contains(node) && !old(self)@.has_out_port(node, port.0 as int) ==> r == Err::<
                (),
                Error,
            >(Error::InvalidPort),
            r is Err ==> final(self)@ == old(self)@,
            r is Ok <==> old(self)@.has_out_port(node, port.0 as int),
            r is Ok ==> final(self)@ == old(self)@.set_out_edge(node, port.0 as int, None),
    {
        let k = match self.find_node(node) {
            Some(k) => k,
            None => return Err(Error::InvalidNode),
        };
        if port.0 >= self.nodes[k].out_ports.len() {
            return Err(Error::InvalidPort);
        }
        self.set_out_edge_at(k, port.0, None);
        Ok(())
    }

    /// Disconnects an input port that is no longer stored in the graph: the output port that
    /// its edge names is cleared, then its own edge.
    pub(crate) fn release_in(&mut self, port: &mut InPort) -> (r: Result<()>)
        requires
            old(self)@.ids().no_duplicates(),
        ensures
            old(port)@.edge is None ==> r == Err::<(), Error>(Error::NotConnected),
            old(port)@.edge matches Some(e) ==> {
                &&& !old(self)@.contains(e.node) ==> r == Err::<(), Error>(Error::InvalidNode)
                &&& old(self)@.contains(e.node) && !old(self)@.has_out_port(e.node, e.port.0 as int)
                    ==> r == Err::<(), Error>(Error::InvalidPort)
                &&& r is Ok <==> old(self)@.has_out_port(e.node, e.port.0 as int)
                &&& r is Ok ==> final(self)@ == old(self)@.set_out_edge(e.node, e.port.0 as int, None)
            },
            r is Err ==> final(self)@ == old(self)@,
            final(port)@.id == old(port)@.id,
    {
        match port.edge() {
            Some(edge) => {
                let c = self.clear_out_edge(edge.node, edge.port);
                if c.is_err() {
                    return c;
                }
                port.set_edge(None);
                Ok(())
            },
            None => Err(Error::NotConnected),
        }
    }

    /// Disconnects an output port that is no longer stored in the graph: the input port that
    /// its edge names is cleared, then its own edge.
    pub(crate) fn release_out(&mut self, port: &mut OutPort) -> (r: Result<()>)
        requires
            old(self)@.ids().no_duplicates(),
        ensures
            old(port)@.edge is None ==> r == Err::<(), Error>(Error::NotConnected),
            old(port)@.edge matches Some(e) ==> {
                &&& !old(self)@.contains(e.node) ==> r == Err::<(), Error>(Error::InvalidNode)
                &&& old(self)@.contains(e.node) && !old(self)@.has_in_port(e.node, e.port.0 as int)
                    ==> r == Err::<(), Error>(Error::InvalidPort)
                &&& r is Ok <==> old(self)@.has_in_port(e.node, e.port.0 as int)
                &&& r is Ok ==> final(self)@ == old(self)@.set_in_edge(e.node, e.port.0 as int, None)
            },
            r is Err ==> final(self)@ == old(self)@,
            final(port)@.id == old(port)@.id,
    {
        match port.edge() {
            Some(edge) => {
                let c = self.clear_in_edge(edge.node, edge.port);
                if c.is_err() {
                    return c;
                }
                port.set_edge(None);
                Ok(())
            },
            None => Err(Error::NotConnected),
        }
    }

    /// Removes every port of node `id`, which keeps its place in the graph; every port that was
    /// connected to one of them is disconnected.
    pub fn clear_ports(&mut self, id: NodeID) -> (r: Result<()>)
        requires
            old(self)@.wf(),
        ensures
            (final(self)@, r) == clear_ports_spec(old(self)@, id),
            final(self)@.wf(),
    {
        let k = match self.find_node(id) {
            Some(k) => k,
            None => return Err(Error::InvalidNode),
        };
        let ghost g = self@;
        let ghost x = g.node(id);
        proof {
            lemma_clear_ports(g, id);
        }
        let mut ins: Vec<InPort> = Vec::new();
        let mut outs: Vec<OutPort> = Vec::new();
        std::mem::swap(&mut ins, &mut self.nodes[k].in_ports);
        std::mem::swap(&mut outs, &mut self.nodes[k].out_ports);
        let attached = self.nodes[k].attached;
        let abort = self.nodes[k].abort;
        let mut detached = Node { id, in_ports: ins, out_ports: outs, attached, abort };
        proof {
            let xe = NodeView { ins: Seq::empty(), outs: Seq::empty(), ..x };
            assert(self.nodes@[k as int]@.ins =~= Seq::<InPortView>::empty());
            assert(self.nodes@[k as int]@.outs =~= Seq::<OutPortView>::empty());
            assert(self@.nodes =~= g.nodes.update(k as int, xe));
            assert(detached@ == x);
        }
        detached.clear_ports(self);
        Ok(())
    }

    /// Removes the node `id` from the graph (the last stored node takes its place) and
    /// disconnects every port that was connected to one of its ports.
    pub fn remove_node(&mut self, id: NodeID) -> (r: Result<()>)
        requires
            old(self)@.wf(),
        ensures
            (final(self)@, r) == remove_node_spec(old(self)@, id),
            final(self)@.wf(),
    {
        let k = match self.find_node(id) {
            Some(k) => k,
            None => return Err(Error::InvalidNode),
        };
        proof {
            lemma_remove_node(self@, id);
        }
        let mut node = self.nodes.swap_remove(k);
        proof {
            assert(self@.nodes =~= swap_remove(old(self)@.nodes, k as int));
            assert(node@ == old(self)@.node(id));
        }
        node.clear_ports(self);
        Ok(())
    }

    /**
     * Connects `n` consecutive output ports of node `src_id`, starting with `src_port`, to `n`
     * corresponding input ports of node `dst_id`, starting with `dst_id`.
     *
     * Returns Err if any such ports are already connected.
     */
    pub fn connect_n(
        &mut self,
        src_id: NodeID,
        src_port: OutPortID,
        dst_id: NodeID,
        dst_port: InPortID,
        n: usize,
    ) -> (r: Result<()>)
        requires
            old(self)@.wf(),
        ensures
            (final(self)@, r) == connect_n_spec(
                old(self)@,
                src_id,
                src_port.0 as nat,
                dst_id,
                dst_port.0 as nat,
                0,
                n as nat,
            ),
            final(self)@.wf(),
    {
        let mut id: usize = 0;
        while id < n
            invariant
                id <= n,
                self@.wf(),
                connect_n_spec(old(self)@, src_id, src_port.0 as nat, dst_id, dst_port.0 as nat, 0, n as nat)
                    == connect_n_spec(self@, src_id, src_port.0 as nat, dst_id, dst_port.0 as nat, id as nat, n as nat),
            decreases n - id,
        {
            let sp = match src_port.0.checked_add(id) {
                Some(x) => x,
                None => return Err(Error::InvalidPort),
            };
            let dp = match dst_port.0.checked_add(id) {
                Some(x) => x,
                None => return Err(Error::InvalidPort),
            };
            let r = self.connect(src_id, OutPortID(sp), dst_id, InPortID(dp));
            if r.is_err() {
                return r;
            }
            id = id + 1;
        }
        Ok(())
    }

    /**
     * Connects all output ports of node `src_id` to corresponding input ports of node `dst_id`.
     *
     * Returns Err if any such ports are already connected, or if the nodes have different port
     * counts.
     */
    pub fn connect_all(&mut self, src_id: NodeID, dst_id: NodeID) -> (r: Result<()>)
        requires
            old(self)@.wf(),
        ensures
            (final(self)@, r) == connect_all_spec(old(self)@, src_id, dst_id),
            final(self)@.wf(),
    {
        let n = match self.node(src_id) {
            Ok(node) => node.out_ports.len(),
            Err(e) => return Err(e),
        };
        let m = match self.node(dst_id) {
            Ok(node) => node.in_ports.len(),
            Err(e) => return Err(e),
        };
        if n != m {
            return Err(Error::SizeMismatch);
        }
        self.connect_n(src_id, OutPortID(0), dst_id, InPortID(0), n)
    }

    /**
     * Connects output port `src_port` of node `src_id` to input port `dst_port` of node `dst_id`.
     *
     * Returns Err if `src_port` or `dst_port` is already connected.
     * You must call `disconnect` on the destination first.
     */
    pub fn connect(
        &mut self,
        src_id: NodeID,
        src_port: OutPortID,
        dst_id: NodeID,
        dst_port: InPortID,
    ) -> (r: Result<()>)
        requires
            old(self)@.wf(),
        ensures
            (final(self)@, r) == connect_spec(old(self)@, src_id, src_port, dst_id, dst_port),
            final(self)@.wf(),
    {
        proof {
            lemma_connect_wf(self@, src_id, src_port, dst_id, dst_port);
        }
        let dk = match self.find_node(dst_id) {
            Some(k) => k,
            None => return Err(Error::InvalidNode),
        };
        if dst_port.0 >= self.nodes[dk].in_ports.len() {
            return Err(Error::InvalidPort);
        }
        let sk = match self.find_node(src_id) {
            Some(k) => k,
            None => return Err(Error::InvalidNode),
        };
        if src_port.0 >= self.nodes[sk].out_ports.len() {
            return Err(Error::InvalidPort);
        }
        if self.nodes[dk].in_ports[dst_port.0].has_edge() || self.nodes[sk].out_ports[src_port.0].has_edge() {
            return Err(Error::Connected);
        }
        let in_edge = Edge::new(self.nodes[sk].id, self.nodes[sk].out_ports[src_port.0].id());
        let out_edge = Edge::new(self.nodes[dk].id, self.nodes[dk].in_ports[dst_port.0].id());
        proof {
            let g = self@;
            assert(g.nodes[sk as int].ports_wf());
            assert(g.nodes[dk as int].ports_wf());
            assert(g.nodes[sk as int].outs[src_port.0 as int].id == src_port);
            assert(g.nodes[dk as int].ins[dst_port.0 as int].id == dst_port);
            lemma_set_in_edge(g, dst_id, dst_port.0 as int, Some(in_edge));
        }
        self.set_in_edge_at(dk, dst_port.0, Some(in_edge));
        self.set_out_edge_at(sk, src_port.0, Some(out_edge));
        Ok(())
    }
}

/// Pushing a node whose identifier is fresh and whose ports are unconnected keeps the graph
/// well formed.
pub proof fn lemma_push_node(g: GraphView, n: NodeView, h: GraphView)
    requires
        g.wf(),
        n.id.0 == g.next_id,
        n.ports_wf(),
        forall|p: int| 0 <= p < n.ins.len() ==> (#[trigger] n.ins[p]).edge is None,
        forall|p: int| 0 <= p < n.outs.len() ==> (#[trigger] n.outs[p]).edge is None,
        h.nodes == g.nodes.push(n),
        h.next_id == g.next_id + 1,
    ensures
        h.wf(),
        forall|id: NodeID| g.contains(id) ==> #[trigger] h.node(id) == g.node(id),
        forall|id: NodeID| #[trigger] h.contains(id) == (g.contains(id) || id == n.id),
{
    assert(h.ids() =~= g.ids().push(n.id));
    assert(!g.contains(n.id)) by {
        if g.contains(n.id) {
            lemma_contains(g, n.id);
        }
    }
    assert(h.ids().no_duplicates()) by {
        assert forall|i: int, j: int|
            0 <= i < h.ids().len() && 0 <= j < h.ids().len() && i != j implies h.ids()[i] != h.ids()[j] by {
            if i < g.nodes.len() && j < g.nodes.len() {
            } else if i == g.nodes.len() {
                assert(g.ids()[j] == g.nodes[j].id);
            } else {
                assert(g.ids()[i] == g.nodes[i].id);
            }
        }
    }
    assert forall|id: NodeID| g.contains(id) implies #[trigger] h.node(id) == g.node(id) && h.index(id)
        == g.index(id) by {
        lemma_contains(g, id);
        lemma_index(h, id, g.index(id));
    }
    lemma_index(h, n.id, g.nodes.len() as int);
    assert forall|id: NodeID| #[trigger] h.contains(id) == (g.contains(id) || id == n.id) by {
        if h.contains(id) {
            lemma_contains(h, id);
            if h.index(id) < g.nodes.len() {
                assert(g.ids()[h.index(id)] == id);
            }
        }
        if g.contains(id) {
            lemma_contains(g, id);
            lemma_index(h, id, g.index(id));
        }
    }
    assert forall|id: NodeID, p: int| #[trigger] h.in_edge(id, p) == g.in_edge(id, p) by {}
    assert forall|id: NodeID, p: int| #[trigger] h.out_edge(id, p) == g.out_edge(id, p) by {}
    assert forall|i: int| 0 <= i < h.nodes.len() implies (#[trigger] h.nodes[i]).id.0 < h.next_id by {
        if i < g.nodes.len() {
            assert(h.nodes[i] == g.nodes[i]);
        }
    }
    assert forall|i: int| 0 <= i < h.nodes.len() implies (#[trigger] h.nodes[i]).ports_wf() by {
        if i < g.nodes.len() {
            assert(h.nodes[i] == g.nodes[i]);
        }
    }
    assert forall|id: NodeID, p: int| #[trigger]
        h.in_edge(id, p) is Some implies names_in_port(
            h.out_edge(h.in_edge(id, p)->Some_0.node, h.in_edge(id, p)->Some_0.port.0 as int),
            id,
            p,
        ) by {
        assert(g.in_edge(id, p) is Some);
    }
    assert forall|id: NodeID, p: int| #[trigger]
        h.out_edge(id, p) is Some implies names_out_port(
            h.in_edge(h.out_edge(id, p)->Some_0.node, h.out_edge(id, p)->Some_0.port.0 as int),
            id,
            p,
        ) by {
        assert(g.out_edge(id, p) is Some);
    }
}


impl GraphView {
    /// Node identifiers are unique and below the next identifier to hand out.
    pub open spec fn ids_ok(self) -> bool {
        &&& self.ids().no_duplicates()
        &&& forall|i: int| 0 <= i < self.nodes.len() ==> (#[trigger] self.nodes[i]).id.0 < self.next_id
    }

    /// `edge`, the edge of input port `p` of node `id`, is absent or matched by an edge back.
    pub open spec fn in_matched(self, id: NodeID, p: int, edge: Option<Edge<OutPortID>>) -> bool {
        match edge {
            Some(e) => names_in_port(self.out_edge(e.node, e.port.0 as int), id, p),
            None => true,
        }
    }

    /// `edge`, the edge of output port `p` of node `id`, is absent or matched by an edge back.
    pub open spec fn out_matched(self, id: NodeID, p: int, edge: Option<Edge<InPortID>>) -> bool {
        match edge {
            Some(e) => names_out_port(self.in_edge(e.node, e.port.0 as int), id, p),
            None => true,
        }
    }

    /// Every input edge of node `i` is matched by an edge back from the output port it names.
    pub open spec fn ins_matched(self, i: int) -> bool {
        forall|p: int|
            0 <= p < self.nodes[i].ins.len() ==> self.in_matched(self.nodes[i].id, p, (#[trigger] self.nodes[i].ins[p]).edge)
    }

    /// Every output edge of node `i` is matched by an edge back from the input port it names.
    pub open spec fn outs_matched(self, i: int) -> bool {
        forall|p: int|
            0 <= p < self.nodes[i].outs.len() ==> self.out_matched(self.nodes[i].id, p, (#[trigger] self.nodes[i].outs[p]).edge)
    }
}

/// With unique identifiers, the edge conditions of `wf` say, node by node, that every edge is
/// matched.
pub proof fn lemma_matched_wf(g: GraphView)
    requires
        g.ids().no_duplicates(),
    ensures
        (forall|i: int| 0 <= i < g.nodes.len() ==> #[trigger] g.ins_matched(i) && g.outs_matched(i)) <==> ({
            &&& forall|id: NodeID, p: int| #[trigger]
                g.in_edge(id, p) matches Some(e) ==> names_in_port(g.out_edge(e.node, e.port.0 as int), id, p)
            &&& forall|id: NodeID, p: int| #[trigger]
                g.out_edge(id, p) matches Some(e) ==> names_out_port(g.in_edge(e.node, e.port.0 as int), id, p)
        }),
{
    if forall|i: int| 0 <= i < g.nodes.len() ==> #[trigger] g.ins_matched(i) && g.outs_matched(i) {
        assert forall|id: NodeID, p: int| #[trigger] g.in_edge(id, p) is Some implies g.in_matched(id, p, g.in_edge(id, p)) by {
            lemma_contains(g, id);
            let i = g.index(id);
            assert(g.ins_matched(i));
            assert(g.nodes[i].ins[p].edge == g.in_edge(id, p));
        }
        assert forall|id: NodeID, p: int| #[trigger] g.out_edge(id, p) is Some implies g.out_matched(id, p, g.out_edge(id, p)) by {
            lemma_contains(g, id);
            let i = g.index(id);
            assert(g.ins_matched(i) && g.outs_matched(i));
            assert(g.nodes[i].outs[p].edge == g.out_edge(id, p));
        }
    }
    if ({
        &&& forall|id: NodeID, p: int| #[trigger]
            g.in_edge(id, p) matches Some(e) ==> names_in_port(g.out_edge(e.node, e.port.0 as int), id, p)
        &&& forall|id: NodeID, p: int| #[trigger]
            g.out_edge(id, p) matches Some(e) ==> names_out_port(g.in_edge(e.node, e.port.0 as int), id, p)
    }) {
        assert forall|i: int| 0 <= i < g.nodes.len() implies #[trigger] g.ins_matched(i) && g.outs_matched(i) by {
            lemma_index(g, g.nodes[i].id, i);
            assert forall|p: int|
                0 <= p < g.nodes[i].ins.len() implies g.in_matched(g.nodes[i].id, p, (#[trigger] g.nodes[i].ins[p]).edge) by {
                assert(g.in_edge(g.nodes[i].id, p) == g.nodes[i].ins[p].edge);
            }
            assert forall|p: int|
                0 <= p < g.nodes[i].outs.len() implies g.out_matched(g.nodes[i].id, p, (#[trigger] g.nodes[i].outs[p]).edge) by {
                assert(g.out_edge(g.nodes[i].id, p) == g.nodes[i].outs[p].edge);
            }
        }
    }
}

impl Node {
    /// A node with identifier `id` and the given ports; `Err(InvalidPort)` unless each port's
    /// identifier is its position in its list. No thread is attached and the abort flag is off.
    pub fn from_ports(id: NodeID, in_ports: Vec<InPort>, out_ports: Vec<OutPort>) -> (r: Result<Node>)
        ensures
            ({
                let v = NodeView {
                    id,
                    ins: in_ports@.map_values(|p: InPort| p@),
                    outs: out_ports@.map_values(|p: OutPort| p@),
                    attached: false,
                    aborting: false,
                };
                &&& r is Ok <==> v.ports_wf()
                &&& r matches Ok(n) ==> n@ == v
                &&& r matches Err(e) ==> e == Error::InvalidPort
            }),
    {
        let mut i: usize = 0;
        while i < in_ports.len()
            invariant
                i <= in_ports@.len(),
                forall|p: int| 0 <= p < i ==> (#[trigger] in_ports@[p])@.id == InPortID(p as usize),
            decreases in_ports@.len() - i,
        {
            if in_ports[i].id().0 != i {
                proof {
                    assert(in_ports@.map_values(|p: InPort| p@)[i as int].id != InPortID(i));
                }
                return Err(Error::InvalidPort);
            }
            i = i + 1;
        }
        let mut j: usize = 0;
        while j < out_ports.len()
            invariant
                j <= out_ports@.len(),
                forall|p: int| 0 <= p < j ==> (#[trigger] out_ports@[p])@.id == OutPortID(p as usize),
            decreases out_ports@.len() - j,
        {
            if out_ports[j].id().0 != j {
                proof {
                    assert(out_ports@.map_values(|p: OutPort| p@)[j as int].id != OutPortID(j));
                }
                return Err(Error::InvalidPort);
            }
            j = j + 1;
        }
        Ok(Node { id, in_ports, out_ports, attached: false, abort: false })
    }
}

impl Graph {
    /// Whether identifiers are unique and below the counter.
    fn check_ids(&self) -> (r: bool)
        ensures
            r == self@.ids_ok(),
    {
        let mut i: usize = 0;
        while i < self.nodes.len()
            invariant
                i <= self.nodes@.len(),
                forall|a: int| 0 <= a < i ==> (#[trigger] self@.nodes[a]).id.0 < self@.next_id,
                forall|a: int, b: int| 0 <= a < b < i ==> self@.ids()[a] != self@.ids()[b],
            decreases self.nodes@.len() - i,
        {
            if self.nodes[i].id.0 >= self.id_counter {
                proof {
                    assert(self@.nodes[i as int] == self.nodes@[i as int]@);
                }
                return false;
            }
            let mut j: usize = 0;
            while j < i
                invariant
                    i < self.nodes@.len(),
                    j <= i,
                    forall|a: int| 0 <= a < j ==> self@.ids()[a] != self@.ids()[i as int],
                decreases i - j,
            {
                if self.nodes[j].id == self.nodes[i].id {
                    proof {
                        assert(self@.nodes[i as int] == self.nodes@[i as int]@);
                        assert(self@.nodes[j as int] == self.nodes@[j as int]@);
                        assert(self@.ids()[j as int] == self@.ids()[i as int]);
                    }
                    return false;
                }
                j = j + 1;
            }
            i = i + 1;
        }
        true
    }

    /// Whether every node's ports are numbered by position.
    fn check_ports(&self) -> (r: bool)
        ensures
            r == forall|i: int| 0 <= i < self@.nodes.len() ==> (#[trigger] self@.nodes[i]).ports_wf(),
    {
        let mut i: usize = 0;
        while i < self.nodes.len()
            invariant
                i <= self.nodes@.len(),
                forall|a: int| 0 <= a < i ==> (#[trigger] self@.nodes[a]).ports_wf(),
            decreases self.nodes@.len() - i,
        {
            let n = &self.nodes[i];
            let mut p: usize = 0;
            while p < n.in_ports.len()
                invariant
                    i < self@.nodes.len(),
                    n@ == self@.nodes[i as int],
                    p <= n@.ins.len(),
                    forall|q: int| 0 <= q < p ==> (#[trigger] n@.ins[q]).id == InPortID(q as usize),
                decreases n@.ins.len() - p,
            {
                if n.in_ports[p].id().0 != p {
                    proof {
                        assert(n@.ins[p as int] == n.in_ports@[p as int]@);
                        assert(!self@.nodes[i as int].ports_wf());
                    }
                    return false;
                }
                p = p + 1;
            }
            let mut q: usize = 0;
            while q < n.out_ports.len()
                invariant
                    i < self@.nodes.len(),
                    n@ == self@.nodes[i as int],
                    q <= n@.outs.len(),
                    forall|x: int| 0 <= x < q ==> (#[trigger] n@.outs[x]).id == OutPortID(x as usize),
                decreases n@.outs.len() - q,
            {
                if n.out_ports[q].id().0 != q {
                    proof {
                        assert(n@.outs[q as int] == n.out_ports@[q as int]@);
                        assert(!self@.nodes[i as int].ports_wf());
                    }
                    return false;
                }
                q = q + 1;
            }
            i = i + 1;
        }
        true
    }

    /// Whether every edge of node `i` is matched by an edge back.
    fn check_node_edges(&self, i: usize) -> (r: bool)
        requires
            self@.ids().no_duplicates(),
            i < self@.nodes.len(),
        ensures
            r == (self@.ins_matched(i as int) && self@.outs_matched(i as int)),
    {
        let n = &self.nodes[i];
        let mut p: usize = 0;
        while p < n.in_ports.len()
            invariant
                self@.ids().no_duplicates(),
                i < self@.nodes.len(),
                n@ == self@.nodes[i as int],
                p <= n@.ins.len(),
                forall|q: int| 0 <= q < p ==> self@.in_matched(n@.id, q, (#[trigger] n@.ins[q]).edge),
            decreases n@.ins.len() - p,
        {
            if let Some(e) = n.in_ports[p].edge() {
                let ok = match self.find_node(e.node) {
                    None => false,
                    Some(k) => {
                        let m = &self.nodes[k];
                        if e.port.0 < m.out_ports.len() {
                            match m.out_ports[e.port.0].edge() {
                                Some(b) => b.node == n.id && b.port.0 == p,
                                None => false,
                            }
                        } else {
                            false
                        }
                    },
                };
                if !ok {
                    proof {
                        assert(n@.ins[p as int] == n.in_ports@[p as int]@);
                        assert(!self@.in_matched(n@.id, p as int, n@.ins[p as int].edge));
                    }
                    return false;
                }
            }
            p = p + 1;
        }
        let mut q: usize = 0;
        while q < n.out_ports.len()
            invariant
                self@.ids().no_duplicates(),
                i < self@.nodes.len(),
                n@ == self@.nodes[i as int],
                self@.ins_matched(i as int),
                q <= n@.outs.len(),
                forall|x: int| 0 <= x < q ==> self@.out_matched(n@.id, x, (#[trigger] n@.outs[x]).edge),
            decreases n@.outs.len() - q,
        {
            if let Some(e) = n.out_ports[q].edge() {
                let ok = match self.find_node(e.node) {
                    None => false,
                    Some(k) => {
                        let m = &self.nodes[k];
                        if e.port.0 < m.in_ports.len() {
                            match m.in_ports[e.port.0].edge() {
                                Some(b) => b.node == n.id && b.port.0 == q,
                                None => false,
                            }
                        } else {
                            false
                        }
                    },
                };
                if !ok {
                    proof {
                        assert(n@.outs[q as int] == n.out_ports@[q as int]@);
                        assert(!self@.out_matched(n@.id, q as int, n@.outs[q as int].edge));
                    }
                    return false;
                }
            }
            q = q + 1;
        }
        true
    }

    /// A graph with the given identifier counter and nodes. `Err(InvalidNode)` unless the node
    /// identifiers are unique and below the counter; `Err(InvalidPort)` unless every node's ports
    /// are numbered by position and every edge is matched by an edge back.
    #[verifier::spinoff_prover]
    #[verifier::rlimit(40)]
    pub fn from_nodes(id_counter: usize, nodes: Vec<Node>) -> (r: Result<Graph>)
        ensures
            ({
                let v = GraphView { next_id: id_counter as nat, nodes: nodes@.map_values(|n: Node| n@) };
                &&& r is Ok <==> v.wf()
                &&& !v.ids_ok() ==> r == Err::<Graph, Error>(Error::InvalidNode)
                &&& v.ids_ok() && !v.wf() ==> r == Err::<Graph, Error>(Error::InvalidPort)
                &&& r matches Ok(g) ==> g@ == v
            }),
    {
        let g = Graph { id_counter, nodes };
        if !g.check_ids() {
            return Err(Error::InvalidNode);
        }
        if !g.check_ports() {
            return Err(Error::InvalidPort);
        }
        let mut i: usize = 0;
        while i < g.nodes.len()
            invariant
                g@ == (GraphView { next_id: id_counter as nat, nodes: nodes@.map_values(|n: Node| n@) }),
                g@.ids_ok(),
                forall|a: int| 0 <= a < g@.nodes.len() ==> (#[trigger] g@.nodes[a]).ports_wf(),
                i <= g@.nodes.len(),
                forall|a: int| 0 <= a < i ==> #[trigger] g@.ins_matched(a) && g@.outs_matched(a),
            decreases g@.nodes.len() - i,
        {
            if !g.check_node_edges(i) {
                proof {
                    lemma_matched_wf(g@);
                    assert(!(g@.ins_matched(i as int) && g@.outs_matched(i as int)));
                }
                return Err(Error::InvalidPort);
            }
            i = i + 1;
        }
        proof {
            lemma_matched_wf(g@);
        }
        Ok(g)
    }
}

} // verus!
