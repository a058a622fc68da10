use vstd::prelude::*;

verus! {

/// A unique identifier of any `Node` in a specific `Graph`.
#[derive(Copy, Clone, Debug, PartialEq, Eq, Structural)]
pub struct NodeID(pub usize);

/// A unique identifier of any `InPort` in a specific `Node`.
#[derive(Copy, Clone, Debug, PartialEq, Eq, Structural)]
pub struct InPortID(pub usize);

/// A unique identifier of any `OutPort` in a specific `Node`.
#[derive(Copy, Clone, Debug, PartialEq, Eq, Structural)]
pub struct OutPortID(pub usize);

/// A node as plain values: its identifier, for each input port its edge and the bytes waiting
/// to be read, for each output port its edge, and whether a thread is attached.
pub ghost struct NodeView {
    pub id: NodeID,
    pub ins: Seq<InPortView>,
    pub outs: Seq<Option<InEdge>>,
    pub attached: bool,
}

/// The type of a node with input ports present (`has_in`) and output ports present (`has_out`).
pub open spec fn node_type_of(has_in: bool, has_out: bool) -> NodeType {
    if has_in && has_out {
        NodeType::Internal
    } else if !has_in && !has_out {
        NodeType::Observer
    } else if has_out {
        NodeType::Source
    } else {
        NodeType::Sink
    }
}

/// A node's type is decided by which kinds of ports it has: `Source` exactly when it has output
/// ports and no input ports, `Sink` exactly when it has input ports and no output ports,
/// `Internal` exactly when it has both, and `Observer` exactly when it has neither.
pub proof fn law_node_type_of(has_in: bool, has_out: bool)
    ensures
        (node_type_of(has_in, has_out) == NodeType::Source) <==> (!has_in && has_out),
        (node_type_of(has_in, has_out) == NodeType::Sink) <==> (has_in && !has_out),
        (node_type_of(has_in, has_out) == NodeType::Internal) <==> (has_in && has_out),
        (node_type_of(has_in, has_out) == NodeType::Observer) <==> (!has_in && !has_out),
{
}

/// An input port with no edge and no data.
pub open spec fn empty_in_port() -> InPortView {
    InPortView { edge: None, data: Seq::empty() }
}

/**
 * A node is a processing unit.
 *
 * It contains an ID, used as a global reference, a vector of input ports, and a vector of output
 * ports.
 */
pub struct Node {
    id: NodeID,
    in_ports: Vec<InPort>,
    out_ports: Vec<OutPort>,
    attached: bool,
}

impl View for Node {
    type V = NodeView;

    closed spec fn view(&self) -> NodeView {
        NodeView {
            id: self.id,
            ins: self.in_ports@.map_values(|p: InPort| p@),
            outs: self.out_ports@.map_values(|p: OutPort| p@),
            attached: self.attached,
        }
    }
}

impl Node {
    /**
     * Construct a new `Node` with the given ID, number of input ports, and number of output ports.
     */
    pub(crate) fn new(id: NodeID, num_in: usize, num_out: usize) -> (r: Node)
        ensures
            r@ == (NodeView {
                id,
                ins: Seq::new(num_in as nat, |i: int| empty_in_port()),
                outs: Seq::new(num_out as nat, |i: int| None),
                attached: false,
            }),
    {
        let mut in_ports: Vec<InPort> = Vec::new();
        let mut i: usize = 0;
        while i < num_in
            invariant
                i <= num_in,
                in_ports@.map_values(|p: InPort| p@) =~= Seq::new(i as nat, |i: int| empty_in_port()),
            decreases num_in - i,
        {
            let ghost before = in_ports@;
            in_ports.push(InPort::default());
            assert(in_ports@.map_values(|p: InPort| p@) =~= before.map_values(|p: InPort| p@).push(
                empty_in_port(),
            ));
            i = i + 1;
        }
        let mut out_ports: Vec<OutPort> = Vec::new();
        let mut j: usize = 0;
        while j < num_out
            invariant
                j <= num_out,
                out_ports@.map_values(|p: OutPort| p@) =~= Seq::new(
                    j as nat,
                    |i: int| None::<InEdge>,
                ),
            decreases num_out - j,
        {
            let ghost before = out_ports@;
            out_ports.push(OutPort::default());
            assert(out_ports@.map_values(|p: OutPort| p@) =~= before.map_values(|p: OutPort| p@).push(
                None,
            ));
            j = j + 1;
        }
        Node { id, in_ports, out_ports, attached: false }
    }

    /**
     * Does this node have any input ports?
     */
    pub fn has_inputs(&self) -> (r: bool)
        ensures
            r == (self@.ins.len() > 0),
    {
        self.in_ports.len() > 0
    }

    /**
     * Does this node have any output ports?
     */
    pub fn has_outputs(&self) -> (r: bool)
        ensures
            r == (self@.outs.len() > 0),
    {
        self.out_ports.len() > 0
    }

    /**
     * Returns the type of this node.
     */
    pub fn node_type(&self) -> (r: NodeType)
        ensures
            r == node_type_of(self@.ins.len() > 0, self@.outs.len() > 0),
            (r == NodeType::Source) <==> (self@.ins.len() == 0 && self@.outs.len() > 0),
            (r == NodeType::Sink) <==> (self@.ins.len() > 0 && self@.outs.len() == 0),
            (r == NodeType::Internal) <==> (self@.ins.len() > 0 && self@.outs.len() > 0),
            (r == NodeType::Observer) <==> (self@.ins.len() == 0 && self@.outs.len() == 0),
    {
        if self.has_inputs() && self.has_outputs() {
            NodeType::Internal
        } else if !self.has_inputs() && !self.has_outputs() {
            NodeType::Observer
        } else if self.has_outputs() {
            NodeType::Source
        } else
        /* if self.has_inputs() */
        {
            NodeType::Sink
        }
    }

    /**
     * Returns an array containing all input ports of this node, indexed by id.
     */
    pub fn in_ports(&self) -> (r: &[InPort])
        ensures
            r@.map_values(|p: InPort| p@) == self@.ins,
    {
        self.in_ports.as_slice()
    }

    /**
     * Returns an array containing all output ports of this node, indexed by id.
     */
    pub fn out_ports(&self) -> (r: &[OutPort])
        ensures
            r@.map_values(|p: OutPort| p@) == self@.outs,
    {
        self.out_ports.as_slice()
    }

    /**
     * Gets an input port by id.
     */
    pub fn in_port(&self, port_id: InPortID) -> (r: &InPort)
        requires
            port_id.0 < self@.ins.len(),
        ensures
            r@ == self@.ins[port_id.0 as int],
    {
        &self.in_ports[port_id.0]
    }

    /**
     * Gets an output port by id.
     */
    pub fn out_port(&self, port_id: OutPortID) -> (r: &OutPort)
        requires
            port_id.0 < self@.outs.len(),
        ensures
            r@ == self@.outs[port_id.0 as int],
    {
        &self.out_ports[port_id.0]
    }

    /**
     * Returns the id of this node.
     */
    pub fn id(&self) -> (r: NodeID)
        ensures
            r == self@.id,
    {
        self.id
    }

    /// Marks the node attached to a thread; `Err` if it already was.
    pub(crate) fn attach_thread(&mut self) -> (r: Result<(), ()>)
        ensures
            r is Ok <==> !old(self)@.attached,
            final(self)@ == (NodeView { attached: true, ..old(self)@ }),
    {
        if self.attached {
            Err(())
        } else {
            self.attached = true;
            Ok(())
        }
    }

    /// Marks the node detached; `Err` if it was not attached.
    pub(crate) fn detach_thread(&mut self) -> (r: Result<(), ()>)
        ensures
            r is Ok <==> old(self)@.attached,
            final(self)@ == (NodeView { attached: false, ..old(self)@ }),
    {
        if self.attached {
            self.attached = false;
            Ok(())
        } else {
            Err(())
        }
    }

    /// Replaces the edge of input port `p`.
    pub(crate) fn set_in_edge(&mut self, p: usize, edge: Option<OutEdge>)
        requires
            p < old(self)@.ins.len(),
        ensures
            final(self)@ == (NodeView {
                ins: old(self)@.ins.update(p as int, InPortView { edge, ..old(self)@.ins[p as int] }),
                ..old(self)@
            }),
    {
        self.in_ports[p].set_edge(edge);
        assert(self@.ins =~= old(self)@.ins.update(
            p as int,
            InPortView { edge, ..old(self)@.ins[p as int] },
        ));
    }

    /// Replaces the edge of output port `p`.
    pub(crate) fn set_out_edge(&mut self, p: usize, edge: Option<InEdge>)
        requires
            p < old(self)@.outs.len(),
        ensures
            final(self)@ == (NodeView { outs: old(self)@.outs.update(p as int, edge), ..old(self)@ }),
    {
        self.out_ports[p].set_edge(edge);
        assert(self@.outs =~= old(self)@.outs.update(p as int, edge));
    }

    /// Appends `bytes` to the data waiting on input port `p`.
    pub(crate) fn append_data(&mut self, p: usize, bytes: &[u8])
        requires
            p < old(self)@.ins.len(),
        ensures
            final(self)@ == (NodeView {
                ins: old(self)@.ins.update(
                    p as int,
                    InPortView { data: old(self)@.ins[p as int].data + bytes@, ..old(self)@.ins[p as int] },
                ),
                ..old(self)@
            }),
    {
        let mut i: usize = 0;
        while i < bytes.len()
            invariant
                p < self@.ins.len(),
                i <= bytes@.len(),
                self@.id == old(self)@.id,
                self@.outs == old(self)@.outs,
                self@.attached == old(self)@.attached,
                self@.ins.len() == old(self)@.ins.len(),
                forall|q: int| 0 <= q < self@.ins.len() && q != p ==> #[trigger] self@.ins[q] == old(self)@.ins[q],
                self@.ins[p as int].edge == old(self)@.ins[p as int].edge,
                self@.ins[p as int].data == old(self)@.ins[p as int].data + bytes@.take(i as int),
            decreases bytes@.len() - i,
        {
            let ghost before = self@;
            self.in_ports[p].data.push(bytes[i]);
            assert forall|q: int| 0 <= q < self@.ins.len() && q != p implies #[trigger] self@.ins[q]
                == before.ins[q] by {
                assert(self@.ins[q] == self.in_ports@[q]@);
            }
            assert(bytes@.take(i + 1) =~= bytes@.take(i as int).push(bytes@[i as int]));
            assert(self@.ins[p as int].data =~= old(self)@.ins[p as int].data + bytes@.take(i + 1));
            i = i + 1;
        }
        assert(bytes@.take(i as int) =~= bytes@);
        assert(self@.ins =~= old(self)@.ins.update(
            p as int,
            InPortView { data: old(self)@.ins[p as int].data + bytes@, ..old(self)@.ins[p as int] },
        ));
    }

    /// Removes the first `n` bytes waiting on input port `p` and returns them.
    pub(crate) fn take_data(&mut self, p: usize, n: usize) -> (r: Vec<u8>)
        requires
            p < old(self)@.ins.len(),
            n <= old(self)@.ins[p as int].data.len(),
        ensures
            r@ == old(self)@.ins[p as int].data.take(n as int),
            final(self)@ == (NodeView {
                ins: old(self)@.ins.update(
                    p as int,
                    InPortView { data: old(self)@.ins[p as int].data.skip(n as int), ..old(self)@.ins[p as int] },
                ),
                ..old(self)@
            }),
    {
        let mut taken = self.in_ports[p].data.split_off(n);
        std::mem::swap(&mut taken, &mut self.in_ports[p].data);
        assert(self@.ins =~= old(self)@.ins.update(
            p as int,
            InPortView { data: old(self)@.ins[p as int].data.skip(n as int), ..old(self)@.ins[p as int] },
        ));
        taken
    }

    /// Copies `n` of the bytes waiting on input port `p`, starting at position `index`.
    pub(crate) fn copy_data(&self, p: usize, index: usize, n: usize) -> (r: Vec<u8>)
        requires
            p < self@.ins.len(),
            index + n <= self@.ins[p as int].data.len(),
        ensures
            r@ == self@.ins[p as int].data.subrange(index as int, index + n),
    {
        let data = &self.in_ports[p].data;
        let mut out: Vec<u8> = Vec::new();
        let mut i: usize = 0;
        while i < n
            invariant
                i <= n,
                index + n <= data.len(),
                data@ == self@.ins[p as int].data,
                out@ == data@.subrange(index as int, index + i),
            decreases n - i,
        {
            out.push(data[index + i]);
            assert(out@ =~= data@.subrange(index as int, index + i + 1));
            i = i + 1;
        }
        out
    }

    /// The bytes waiting on an input port fit in memory.
    pub proof fn lemma_data_len(&self, p: int)
        requires
            0 <= p < self@.ins.len(),
        ensures
            self@.ins[p].data.len() <= usize::MAX,
    {
        assert(self@.ins[p] == self.in_ports@[p]@);
        assert(self.in_ports@[p].data.len() == self.in_ports@[p].data@.len());
    }

    /// Number of bytes waiting on input port `p`.
    pub(crate) fn data_len(&self, p: usize) -> (r: usize)
        requires
            p < self@.ins.len(),
        ensures
            r == self@.ins[p as int].data.len(),
    {
        self.in_ports[p].data.len()
    }
}

/**
 * The type of a node is derived from the structure of its ports.
 */
#[derive(PartialEq, Eq, Debug, Structural)]
pub enum NodeType {
    /// A `Source` Node has no input ports.
    Source,
    /// An `Internal` Node has both input and output ports.
    Internal,
    /// A `Sink` Node has no output ports.
    Sink,
    /// A `Observer` Node has no input or output ports.
    Observer,
}

/**
 * An `InEdge` is like a vector pointing to a specific input port of a specific node, originating from
 * nowhere in particular.
 */
#[derive(Copy, Clone, Debug)]
pub struct InEdge {
    /// Destination node
    pub node: NodeID,
    /// Destination port
    pub port: InPortID,
}

impl InEdge {
    /// Construct a new `InEdge`
    pub fn new(node: NodeID, port: InPortID) -> (r: InEdge)
        ensures
            r.node == node,
            r.port == port,
    {
        InEdge { node, port }
    }
}

/**
 * An `OutEdge` is like a vector pointing to a specific output port of a specific node, originating from
 * nowhere in particular.
 */
#[derive(Copy, Clone, Debug)]
pub struct OutEdge {
    /// Destination node
    pub node: NodeID,
    /// Destination port
    pub port: OutPortID,
}

impl OutEdge {
    /// Construct a new `OutEdge`
    pub fn new(node: NodeID, port: OutPortID) -> (r: OutEdge)
        ensures
            r.node == node,
            r.port == port,
    {
        OutEdge { node, port }
    }
}

/// What both kinds of port have: an optional edge to a port of the other kind.
pub(crate) trait Port: Sized {
    type ID;

    type Edge;

    /// The edge of this port.
    spec fn spec_edge(&self) -> Option<Self::Edge>;

    fn new(edge: Option<Self::Edge>) -> (r: Self)
        ensures
            r.spec_edge() == edge,
    ;

    fn edge(&self) -> (r: Option<Self::Edge>)
        ensures
            r == self.spec_edge(),
    ;

    fn set_edge(&mut self, edge: Option<Self::Edge>)
        ensures
            final(self).spec_edge() == edge,
    ;

    fn has_edge(&self) -> (r: bool)
        ensures
            r == self.spec_edge() is Some,
    {
        self.edge().is_some()
    }
}

/// An input port as plain values: its edge and the bytes waiting to be read.
pub ghost struct InPortView {
    pub edge: Option<OutEdge>,
    pub data: Seq<u8>,
}

/**
 * An `InPort` can recieve data from a connected `OutPort`.
 */
#[derive(Debug)]
pub struct InPort {
    edge: Option<OutEdge>,
    pub(crate) data: Vec<u8>,
}

impl View for InPort {
    type V = InPortView;

    closed spec fn view(&self) -> InPortView {
        InPortView { edge: self.edge, data: self.data@ }
    }
}

impl Port for InPort {
    type ID = InPortID;

    type Edge = OutEdge;

    closed spec fn spec_edge(&self) -> Option<OutEdge> {
        self.edge
    }

    fn new(edge: Option<OutEdge>) -> (r: InPort)
        ensures
            r@ == (InPortView { edge, data: Seq::empty() }),
    {
        InPort { edge, data: Vec::new() }
    }

    fn edge(&self) -> (r: Option<OutEdge>)
        ensures
            r == self@.edge,
    {
        self.edge
    }

    fn set_edge(&mut self, edge: Option<OutEdge>)
        ensures
            final(self)@ == (InPortView { edge, ..old(self)@ }),
    {
        self.edge = edge;
    }
}

impl Clone for InPort {
    /// A port with the same edge and no data.
    fn clone(&self) -> (r: Self)
        ensures
            r@ == (InPortView { edge: self@.edge, data: Seq::empty() }),
    {
        InPort::new(self.edge())
    }
}

impl Default for InPort {
    fn default() -> (r: InPort)
        ensures
            r@ == empty_in_port(),
    {
        InPort::new(None)
    }
}

/**
 * An `OutPort` can send data to a connected `InPort`.
 */
#[derive(Debug)]
pub struct OutPort {
    edge: Option<InEdge>,
}

impl View for OutPort {
    type V = Option<InEdge>;

    closed spec fn view(&self) -> Option<InEdge> {
        self.edge
    }
}

impl Port for OutPort {
    type ID = OutPortID;

    type Edge = InEdge;

    closed spec fn spec_edge(&self) -> Option<InEdge> {
        self.edge
    }

    fn new(edge: Option<InEdge>) -> (r: OutPort)
        ensures
            r@ == edge,
    {
        OutPort { edge }
    }

    fn edge(&self) -> (r: Option<InEdge>)
        ensures
            r == self@,
    {
        self.edge
    }

    fn set_edge(&mut self, edge: Option<InEdge>)
        ensures
            final(self)@ == edge,
    {
        self.edge = edge;
    }
}

impl Default for OutPort {
    fn default() -> (r: OutPort)
        ensures
            r@ == None::<InEdge>,
    {
        OutPort::new(None)
    }
}

impl Clone for OutPort {
    fn clone(&self) -> (r: Self)
        ensures
            r@ == self@,
    {
        OutPort::new(self.edge())
    }
}

} // verus!
