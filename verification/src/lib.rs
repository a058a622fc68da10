/*!
 * A library for dataflow computation: a graph holds nodes, nodes hold ports, and ports are
 * connected one to one; data written to a port arrives at the port at the other end of its
 * connection, and is read there first in, first out.
 */
use vstd::prelude::*;
use std::collections::VecDeque;
use std::marker::PhantomData;
use crate::context::{ByteConvertible, bytes_of, dec_fn, items_of};

pub mod encoding;
pub mod context;
pub mod sync_graph;
pub mod graph;
pub mod supervisor;

verus! {

/// This trait must be implemented by the inner data type of the graph.
pub trait Module {
    /// Argument for construction of the module.
    type Arg;
}

impl<T: Module> Module for Box<T> {
    type Arg = T::Arg;
}

/// A lightweight persistent identifier for a node.
#[derive(Copy, Clone, PartialEq, Eq, Hash, Debug, Structural)]
pub struct NodeId(pub usize);

/// A lightweight persistent identifier for a port. Only guaranteed to be unique within a specific
/// node.
#[derive(Copy, Clone, PartialEq, Eq, Hash, Debug, Structural)]
pub struct PortId(pub usize);

/// Error cases
#[derive(Debug, PartialEq, Eq, Structural)]
pub enum Error {
    NotConnected,
    InvalidNode,
    InvalidPort,
    NotAvailable,
}

/// Events occurring on a `Port`.
#[derive(Debug, Clone, Copy, PartialEq, Eq, Structural)]
pub enum Signal {
    Abort,
    Write,
    Connect,
    Disconnect,
}

#[verifier::external_type_specification]
#[verifier::external_body]
pub struct ExTypeId(std::any::TypeId);

/// `std::any::TypeId::of::<D>()`. Nothing is claimed of the identifier that it returns.
#[verifier::external_body]
fn type_id_of<D: ?Sized + 'static>() -> std::any::TypeId {
    std::any::TypeId::of::<D>()
}

/// `t` is an identifier that `std::any::TypeId::of::<D>()` returns: the identifier of the type
/// `D`.
pub closed spec fn is_type_id_of<D: ?Sized + 'static>(t: std::any::TypeId) -> bool {
    call_ensures(type_id_of::<D>, (), t)
}

/// `==` on `std::any::TypeId`: claimed true exactly when the two identifiers are the same value.
#[verifier::external_body]
fn type_ids_equal(a: &std::any::TypeId, b: &std::any::TypeId) -> (r: bool)
    ensures
        r == (*a == *b),
{
    *a == *b
}

/// Port metadata as plain values: the name, and the identifier of the type of data that the
/// port carries.
pub ghost struct MetaPortView {
    pub name: Seq<char>,
    pub ty: std::any::TypeId,
}

/// Port metadata.
pub struct MetaPort {
    name: String,
    ty: std::any::TypeId,
}

impl View for MetaPort {
    type V = MetaPortView;

    closed spec fn view(&self) -> MetaPortView {
        MetaPortView { name: self.name@, ty: self.ty }
    }
}

impl MetaPort {
    /// Construct new port metadata with the given datatype and name.
    pub fn new<T: 'static>(name: &str) -> (r: MetaPort)
        ensures
            r@.name == name@,
            is_type_id_of::<T>(r@.ty),
    {
        MetaPort { name: name.to_owned(), ty: type_id_of::<T>() }
    }

    /// Get the port name.
    pub fn name(&self) -> (r: &str)
        ensures
            r@ == self@.name,
    {
        self.name.as_str()
    }

    /// Whether the two ports carry the same type of data.
    pub fn same_type(&self, other: &MetaPort) -> (r: bool)
        ensures
            r == (self@.ty == other@.ty),
    {
        type_ids_equal(&self.ty, &other.ty)
    }
}

impl Clone for MetaPort {
    fn clone(&self) -> (r: Self)
        ensures
            r@ == self@,
    {
        MetaPort { name: self.name.clone(), ty: self.ty }
    }
}


impl MetaPort {
    /// The identifier of the type of data that ports made from this metadata carry.
    pub fn type_id(&self) -> (r: std::any::TypeId)
        ensures
            r == self@.ty,
    {
        self.ty
    }
}

/// Module metadata as plain values: the module's name.
pub ghost struct MetaModuleView {
    pub name: Seq<char>,
}

/// Module metadata. Modules themselves are built by the caller and handed to
/// `Graph::add_node`.
pub struct MetaModule<T: Module> {
    name: String,
    module: PhantomData<T>,
}

impl<T: Module> View for MetaModule<T> {
    type V = MetaModuleView;

    closed spec fn view(&self) -> MetaModuleView {
        MetaModuleView { name: self.name@ }
    }
}

impl<T: Module> MetaModule<T> {
    /// Construct new module metadata with the given name.
    pub fn new(name: &str) -> (r: MetaModule<T>)
        ensures
            r@.name == name@,
    {
        MetaModule { name: name.to_owned(), module: PhantomData }
    }

    /// Get the module name.
    pub fn name(&self) -> (r: &str)
        ensures
            r@ == self@.name,
    {
        self.name.as_str()
    }
}

impl<T: Module> Clone for MetaModule<T> {
    fn clone(&self) -> (r: Self)
        ensures
            r@ == self@,
    {
        MetaModule { name: self.name.clone(), module: PhantomData }
    }
}

/// A port as plain values.
pub ghost struct PortView {
    pub meta: MetaPortView,
    pub id: PortId,
    /// Bytes written to this port from the other end of its edge and not read yet, oldest first.
    pub buffer: Seq<u8>,
    /// The port at the other end of the edge: its node and its identifier there.
    pub edge: Option<(NodeId, PortId)>,
    /// Signals received and not taken yet, oldest first.
    pub signals: Seq<Signal>,
}

/// A port that was just made: nothing buffered, no edge, no signals.
pub open spec fn fresh_port(id: PortId, meta: MetaPortView) -> PortView {
    PortView { meta, id, buffer: Seq::empty(), edge: None, signals: Seq::empty() }
}

/// Ports are the connection points of modules. They can be connected one-to-one with other ports,
/// and allow a single type of data to flow bidirectionally.
pub struct Port {
    meta: MetaPort,
    id: PortId,
    buffer: VecDeque<u8>,
    edge: Option<(NodeId, PortId)>,
    signal: VecDeque<Signal>,
}

impl View for Port {
    type V = PortView;

    closed spec fn view(&self) -> PortView {
        PortView {
            meta: self.meta@,
            id: self.id,
            buffer: self.buffer@,
            edge: self.edge,
            signals: self.signal@,
        }
    }
}

impl Port {
    fn new(id: PortId, meta: &MetaPort) -> (r: Port)
        ensures
            r@ == fresh_port(id, meta@),
    {
        Port {
            meta: meta.clone(),
            id,
            buffer: VecDeque::new(),
            edge: None,
            signal: VecDeque::new(),
        }
    }

    /// Get the associated metadata.
    pub fn meta(&self) -> (r: &MetaPort)
        ensures
            r@ == self@.meta,
    {
        &self.meta
    }

    /// Get the port ID.
    pub fn id(&self) -> (r: PortId)
        ensures
            r == self@.id,
    {
        self.id
    }

    /// The port at the other end of the edge, if there is one.
    pub fn edge(&self) -> (r: Option<(NodeId, PortId)>)
        ensures
            r == self@.edge,
    {
        self.edge
    }

    /// Number of bytes waiting to be read.
    pub fn available(&self) -> (r: usize)
        ensures
            r == self@.buffer.len(),
    {
        self.buffer.len()
    }

    fn set_edge(&mut self, other: Option<(NodeId, PortId)>)
        ensures
            final(self)@ == (PortView { edge: other, ..old(self)@ }),
    {
        self.edge = other;
    }

    fn signal(&mut self, signal: Signal)
        ensures
            final(self)@ == (PortView { signals: old(self)@.signals.push(signal), ..old(self)@ }),
    {
        self.signal.push_back(signal);
    }

    fn poll(&mut self) -> (r: Vec<Signal>)
        ensures
            r@ == old(self)@.signals,
            final(self)@ == (PortView { signals: Seq::empty(), ..old(self)@ }),
    {
        let mut out: Vec<Signal> = Vec::new();
        while self.signal.len() > 0
            invariant
                out@ + self.signal@ == old(self)@.signals,
                self.meta@ == old(self)@.meta,
                self.id == old(self)@.id,
                self.buffer@ == old(self)@.buffer,
                self.edge == old(self)@.edge,
            decreases self.signal@.len(),
        {
            let s = self.signal.pop_front().unwrap();
            proof {
                assert(out@.push(s) + self.signal@ =~= old(self)@.signals);
            }
            out.push(s);
        }
        proof {
            assert(out@ =~= old(self)@.signals);
            assert(self.signal@ =~= Seq::<Signal>::empty());
        }
        out
    }

    fn wait(&mut self) -> (r: Option<Signal>)
        ensures
            old(self)@.signals.len() == 0 ==> r is None && final(self)@ == old(self)@,
            old(self)@.signals.len() > 0 ==> r == Some(old(self)@.signals[0]) && final(self)@ == (
            PortView { signals: old(self)@.signals.drop_first(), ..old(self)@ }),
    {
        self.signal.pop_front()
    }

    fn append(&mut self, bytes: &[u8])
        ensures
            final(self)@ == (PortView { buffer: old(self)@.buffer + bytes@, ..old(self)@ }),
    {
        let mut i: usize = 0;
        while i < bytes.len()
            invariant
                i <= bytes@.len(),
                self.buffer@ == old(self)@.buffer + bytes@.take(i as int),
                self.meta@ == old(self)@.meta,
                self.id == old(self)@.id,
                self.signal@ == old(self)@.signals,
                self.edge == old(self)@.edge,
            decreases bytes@.len() - i,
        {
            proof {
                assert(bytes@.take(i + 1) =~= bytes@.take(i as int).push(bytes@[i as int]));
            }
            self.buffer.push_back(bytes[i]);
            i = i + 1;
        }
        proof {
            assert(bytes@.take(i as int) =~= bytes@);
        }
    }

    fn take(&mut self, n: usize) -> (r: Vec<u8>)
        requires
            n <= old(self)@.buffer.len(),
        ensures
            r@ == old(self)@.buffer.take(n as int),
            final(self)@ == (PortView { buffer: old(self)@.buffer.skip(n as int), ..old(self)@ }),
    {
        let mut out: Vec<u8> = Vec::new();
        let mut i: usize = 0;
        while i < n
            invariant
                i <= n,
                n <= old(self)@.buffer.len(),
                out@ == old(self)@.buffer.take(i as int),
                self.buffer@ == old(self)@.buffer.skip(i as int),
                self.meta@ == old(self)@.meta,
                self.id == old(self)@.id,
                self.signal@ == old(self)@.signals,
                self.edge == old(self)@.edge,
            decreases n - i,
        {
            let b = self.buffer.pop_front().unwrap();
            proof {
                assert(old(self)@.buffer.take(i + 1) =~= old(self)@.buffer.take(i as int).push(b));
                assert(old(self)@.buffer.skip(i + 1) =~= old(self)@.buffer.skip(i as int).drop_first());
            }
            out.push(b);
            i = i + 1;
        }
        out
    }
}


/// A node's interface as plain values: the node's identifier, its module's name, and its ports.
pub ghost struct InterfaceView {
    pub id: NodeId,
    pub name: Seq<char>,
    pub ports: Seq<PortView>,
}

impl InterfaceView {
    /// The identifiers of the ports, in storage order.
    pub open spec fn port_ids(self) -> Seq<PortId> {
        self.ports.map_values(|p: PortView| p.id)
    }

    pub open spec fn has_port(self, p: PortId) -> bool {
        self.port_ids().contains(p)
    }

    /// Storage position of the port `p`.
    pub open spec fn port_index(self, p: PortId) -> int {
        self.port_ids().index_of(p)
    }

    /// The port `p` (meaningful when `has_port(p)`).
    pub open spec fn port(self, p: PortId) -> PortView {
        self.ports[self.port_index(p)]
    }

    /// No two ports share an identifier.
    pub open spec fn wf(self) -> bool {
        self.port_ids().no_duplicates()
    }

    /// The interface with port `p` replaced by `v`.
    pub open spec fn with_port(self, p: PortId, v: PortView) -> InterfaceView {
        InterfaceView { ports: self.ports.update(self.port_index(p), v), ..self }
    }

    /// Port `i` is the first whose name is `name`.
    pub open spec fn first_named(self, i: int, name: Seq<char>) -> bool {
        &&& 0 <= i < self.ports.len()
        &&& self.ports[i].meta.name == name
        &&& forall|j: int| 0 <= j < i ==> (#[trigger] self.ports[j]).meta.name != name
    }
}

/// A result with the vector it holds taken by its view.
pub open spec fn seq_result<D>(r: Result<Vec<D>, Error>) -> Result<Seq<D>, Error> {
    match r {
        Ok(v) => Ok(v@),
        Err(e) => Err(e),
    }
}

/// What `Interface::read_as` does: the interface afterwards and the values read.
pub open spec fn read_spec<D: ByteConvertible>(v: InterfaceView, p: PortId, ty: std::any::TypeId) -> (
    InterfaceView,
    Result<Seq<D>, Error>,
) {
    if !v.has_port(p) || v.port(p).meta.ty != ty {
        (v, Err(Error::InvalidPort))
    } else {
        let x = v.port(p);
        (v.with_port(p, PortView { buffer: Seq::empty(), ..x }), Ok(items_of::<D>(x.buffer)))
    }
}

/// What `Interface::read_n_as` does: the interface afterwards and the values read.
pub open spec fn read_n_spec<D: ByteConvertible>(v: InterfaceView, p: PortId, n: nat, ty: std::any::TypeId) -> (
    InterfaceView,
    Result<Seq<D>, Error>,
) {
    if !v.has_port(p) || v.port(p).meta.ty != ty {
        (v, Err(Error::InvalidPort))
    } else if n * D::byte_size() > v.port(p).buffer.len() {
        (v, Err(Error::NotAvailable))
    } else {
        let x = v.port(p);
        let k = (n * D::byte_size()) as int;
        (v.with_port(p, PortView { buffer: x.buffer.skip(k), ..x }), Ok(items_of::<D>(x.buffer.take(k))))
    }
}

/// Reading `n` values of `D` from a port: refused with `InvalidPort`, taking nothing, when the
/// port's type identifier is not `ty`; refused with `NotAvailable`, taking nothing, when fewer
/// than `n` values wait; otherwise exactly `n` values are read and exactly their bytes are taken
/// from the front of the buffer.
pub proof fn law_read_n_checks_type_and_counts<D: ByteConvertible>(v: InterfaceView, p: PortId, n: nat, ty: std::any::TypeId)
    requires
        v.wf(),
        v.has_port(p),
    ensures
        v.port(p).meta.ty != ty ==> read_n_spec::<D>(v, p, n, ty) == (v, Err::<Seq<D>, Error>(Error::InvalidPort)),
        v.port(p).meta.ty == ty && n * D::byte_size() > v.port(p).buffer.len() ==> read_n_spec::<D>(v, p, n, ty) == (
        v, Err::<Seq<D>, Error>(Error::NotAvailable)),
        v.port(p).meta.ty == ty && n * D::byte_size() <= v.port(p).buffer.len() ==> {
            let (w, r) = read_n_spec::<D>(v, p, n, ty);
            &&& r matches Ok(vals) && vals.len() == n
            &&& w.has_port(p)
            &&& w.port(p).buffer == v.port(p).buffer.skip((n * D::byte_size()) as int)
            &&& w.port(p).buffer.len() + n * D::byte_size() == v.port(p).buffer.len()
            &&& w.port(p).meta == v.port(p).meta
        },
{
    D::lemma_encoding(arbitrary());
    if v.port(p).meta.ty == ty && n * D::byte_size() <= v.port(p).buffer.len() {
        let x = v.port(p);
        let k = (n * D::byte_size()) as int;
        lemma_with_port(v, p, PortView { buffer: x.buffer.skip(k), ..x });
        vstd::arithmetic::div_mod::lemma_div_by_multiple(n as int, D::byte_size() as int);
        assert(x.buffer.take(k).len() == k);
    }
}

/// Where the port `p` is stored when it is stored at `j`, with unique identifiers.
pub proof fn lemma_port_index(v: InterfaceView, p: PortId, j: int)
    requires
        v.wf(),
        0 <= j < v.ports.len(),
        v.ports[j].id == p,
    ensures
        v.has_port(p),
        v.port_index(p) == j,
        v.port(p) == v.ports[j],
{
    assert(v.port_ids()[j] == p);
    let k = v.port_index(p);
    assert(0 <= k < v.port_ids().len() && v.port_ids()[k] == p);
}

/// Replacing a port by one with the same identifier keeps the identifiers, and changes that port
/// alone.
pub proof fn lemma_with_port(v: InterfaceView, p: PortId, x: PortView)
    requires
        v.wf(),
        v.has_port(p),
        x.id == p,
    ensures
        v.with_port(p, x).port_ids() == v.port_ids(),
        v.with_port(p, x).wf(),
        forall|q: PortId| #[trigger] v.with_port(p, x).has_port(q) == v.has_port(q),
        forall|q: PortId|
            v.has_port(q) ==> #[trigger] v.with_port(p, x).port(q) == if q == p {
                x
            } else {
                v.port(q)
            },
        v.with_port(p, x).id == v.id,
        v.with_port(p, x).name == v.name,
{
    let w = v.with_port(p, x);
    let j = v.port_index(p);
    assert(w.port_ids() =~= v.port_ids());
    assert forall|q: PortId| v.has_port(q) implies #[trigger] w.port(q) == if q == p {
        x
    } else {
        v.port(q)
    } by {
        let k = v.port_index(q);
        lemma_port_index(w, q, k);
    }
}

/// The private interface for a module: its node's identifier, its metadata, and its ports.
pub struct Interface<T: Module> {
    id: NodeId,
    ports: Vec<Port>,
    meta: MetaModule<T>,
}

impl<T: Module> View for Interface<T> {
    type V = InterfaceView;

    closed spec fn view(&self) -> InterfaceView {
        InterfaceView {
            id: self.id,
            name: self.meta@.name,
            ports: self.ports@.map_values(|p: Port| p@),
        }
    }
}

impl<T: Module> Interface<T> {
    fn new(id: NodeId, meta: MetaModule<T>) -> (r: Interface<T>)
        ensures
            r@ == (InterfaceView { id, name: meta@.name, ports: Seq::empty() }),
    {
        let r = Interface { id, ports: Vec::new(), meta };
        assert(r@.ports =~= Seq::<PortView>::empty());
        r
    }

    /// Get a reference to the metadata associated with this node.
    pub fn meta(&self) -> (r: &MetaModule<T>)
        ensures
            r@.name == self@.name,
    {
        &self.meta
    }

    /// Get the node ID.
    pub fn id(&self) -> (r: NodeId)
        ensures
            r == self@.id,
    {
        self.id
    }

    /// Find a port by name (name is held within the associated `MetaPort`): the first port with
    /// that name.
    pub fn find_port(&self, name: &str) -> (r: Option<&Port>)
        ensures
            r is None <==> forall|i: int| 0 <= i < self@.ports.len() ==> (#[trigger] self@.ports[i]).meta.name != name@,
            r matches Some(q) ==> exists|i: int| #[trigger] self@.first_named(i, name@) && q@ == self@.ports[i],
    {
        let target = name.to_owned();
        let mut i: usize = 0;
        while i < self.ports.len()
            invariant
                i <= self.ports@.len(),
                target@ == name@,
                forall|j: int| 0 <= j < i ==> (#[trigger] self@.ports[j]).meta.name != name@,
            decreases self.ports@.len() - i,
        {
            if self.ports[i].meta.name == target {
                assert(self@.first_named(i as int, name@));
                return Some(&self.ports[i]);
            }
            i = i + 1;
        }
        None
    }

    /// The ports, in the order in which they were added.
    pub fn ports(&self) -> (r: &[Port])
        ensures
            r@.map_values(|p: Port| p@) == self@.ports,
    {
        self.ports.as_slice()
    }

    /// Storage position of the port `port`, if there is one.
    fn find(&self, port: PortId) -> (r: Option<usize>)
        requires
            self@.wf(),
        ensures
            r is Some <==> self@.has_port(port),
            r matches Some(j) ==> j < self@.ports.len() && j == self@.port_index(port),
    {
        let mut j: usize = 0;
        while j < self.ports.len()
            invariant
                j <= self.ports@.len(),
                self@.wf(),
                forall|k: int| 0 <= k < j ==> self@.port_ids()[k] != port,
            decreases self.ports@.len() - j,
        {
            if self.ports[j].id == port {
                proof {
                    lemma_port_index(self@, port, j as int);
                }
                return Some(j);
            }
            j = j + 1;
        }
        proof {
            if self@.has_port(port) {
                let k = self@.port_ids().index_of(port);
                assert(self@.port_ids()[k] == port);
            }
        }
        None
    }

    /// Add a new port with the identifier `id`, using the given metadata; refused with
    /// `InvalidPort` when a port of this interface has that identifier already.
    pub fn add_port(&mut self, id: PortId, meta: &MetaPort) -> (r: Result<PortId, Error>)
        requires
            old(self)@.wf(),
        ensures
            final(self)@.wf(),
            old(self)@.has_port(id) ==> r == Err::<PortId, Error>(Error::InvalidPort) && final(self)@ == old(self)@,
            !old(self)@.has_port(id) ==> r == Ok::<PortId, Error>(id) && final(self)@ == (InterfaceView {
                ports: old(self)@.ports.push(fresh_port(id, meta@)),
                ..old(self)@
            }),
    {
        if self.find(id).is_some() {
            return Err(Error::InvalidPort);
        }
        let port = Port::new(id, meta);
        self.ports.push(port);
        proof {
            let v = self@;
            assert(v.ports =~= old(self)@.ports.push(fresh_port(id, meta@)));
            assert(v.port_ids() =~= old(self)@.port_ids().push(id));
        }
        Ok(id)
    }

    /// Remove a port by ID.
    pub fn remove_port(&mut self, port: PortId) -> (r: Result<Port, Error>)
        requires
            old(self)@.wf(),
        ensures
            final(self)@.wf(),
            !old(self)@.has_port(port) ==> r is Err && r->Err_0 == Error::InvalidPort && final(self)@ == old(self)@,
            old(self)@.has_port(port) ==> r is Ok && r->Ok_0@ == old(self)@.port(port) && final(self)@ == (
            InterfaceView { ports: old(self)@.ports.remove(old(self)@.port_index(port)), ..old(self)@ }),
    {
        match self.find(port) {
            None => Err(Error::InvalidPort),
            Some(j) => {
                let p = self.ports.remove(j);
                proof {
                    let v = self@;
                    let o = old(self)@;
                    assert(v.ports =~= o.ports.remove(j as int));
                    assert(v.port_ids() =~= o.port_ids().remove(j as int));
                    assert forall|a: int, b: int|
                        0 <= a < v.port_ids().len() && 0 <= b < v.port_ids().len() && a != b
                        implies v.port_ids()[a] != v.port_ids()[b] by {
                        let a2 = if a < j { a } else { a + 1 };
                        let b2 = if b < j { b } else { b + 1 };
                        assert(o.port_ids()[a2] != o.port_ids()[b2]);
                    }
                }
                Ok(p)
            },
        }
    }
}


impl<T: Module> Interface<T> {
    /// Facts about `self` after port `j` was replaced, by a call on that port, with one that
    /// keeps its identifier.
    proof fn lemma_replaced(&self, old_ifc: InterfaceView, j: int, x: PortView)
        requires
            old_ifc.wf(),
            0 <= j < old_ifc.ports.len(),
            x.id == old_ifc.ports[j].id,
            self.id == old_ifc.id,
            self.meta@.name == old_ifc.name,
            self.ports@.len() == old_ifc.ports.len(),
            self.ports@[j]@ == x,
            forall|k: int| 0 <= k < old_ifc.ports.len() && k != j ==> self.ports@[k]@ == old_ifc.ports[k],
        ensures
            self@ == old_ifc.with_port(old_ifc.ports[j].id, x),
            self@.wf(),
    {
        lemma_port_index(old_ifc, old_ifc.ports[j].id, j);
        assert(self@.ports =~= old_ifc.ports.update(j, x));
        lemma_with_port(old_ifc, old_ifc.ports[j].id, x);
    }

    /// Wait for a signal on a port: takes the oldest unread signal, or `None` when there is
    /// none yet.
    pub fn wait(&mut self, port: PortId) -> (r: Result<Option<Signal>, Error>)
        requires
            old(self)@.wf(),
        ensures
            final(self)@.wf(),
            !old(self)@.has_port(port) ==> r == Err::<Option<Signal>, Error>(Error::InvalidPort) && final(self)@ == old(self)@,
            old(self)@.has_port(port) ==> {
                let v = old(self)@.port(port);
                if v.signals.len() == 0 {
                    r == Ok::<Option<Signal>, Error>(None) && final(self)@ == old(self)@
                } else {
                    &&& r == Ok::<Option<Signal>, Error>(Some(v.signals[0]))
                    &&& final(self)@ == old(self)@.with_port(port, PortView { signals: v.signals.drop_first(), ..v })
                }
            },
    {
        match self.find(port) {
            None => Err(Error::InvalidPort),
            Some(j) => {
                let r = self.ports[j].wait();
                proof {
                    let o = old(self)@;
                    lemma_port_index(o, port, j as int);
                    self.lemma_replaced(o, j as int, self.ports@[j as int]@);
                    if o.port(port).signals.len() == 0 {
                        assert(self@.ports =~= o.ports);
                    }
                }
                Ok(r)
            },
        }
    }

    /// Get a vector of all unread signals on a port, oldest first; they are taken.
    pub fn poll(&mut self, port: PortId) -> (r: Result<Vec<Signal>, Error>)
        requires
            old(self)@.wf(),
        ensures
            final(self)@.wf(),
            !old(self)@.has_port(port) ==> r is Err && r->Err_0 == Error::InvalidPort && final(self)@ == old(self)@,
            old(self)@.has_port(port) ==> {
                let v = old(self)@.port(port);
                &&& r is Ok
                &&& r->Ok_0@ == v.signals
                &&& final(self)@ == old(self)@.with_port(port, PortView { signals: Seq::empty(), ..v })
            },
    {
        match self.find(port) {
            None => Err(Error::InvalidPort),
            Some(j) => {
                let r = self.ports[j].poll();
                proof {
                    let o = old(self)@;
                    lemma_port_index(o, port, j as int);
                    self.lemma_replaced(o, j as int, self.ports@[j as int]@);
                }
                Ok(r)
            },
        }
    }

    /// Read all available data from a port: the values that the waiting bytes encode; the bytes
    /// are taken. Refused with `InvalidPort` when the port carries another type of data than `D`.
    pub fn read<D: ByteConvertible + 'static>(&mut self, port: PortId) -> (r: Result<Vec<D>, Error>)
        requires
            old(self)@.wf(),
            D::byte_size() <= usize::MAX,
            old(self)@.has_port(port) ==> old(self)@.port(port).buffer.len() % D::byte_size() == 0,
        ensures
            final(self)@.wf(),
            exists|ty: std::any::TypeId| is_type_id_of::<D>(ty) && (final(self)@, seq_result(r)) == read_spec::<D>(old(self)@, port, ty),
    {
        let ty = type_id_of::<D>();
        let r = self.read_as::<D>(port, &ty);
        proof {
            assert(is_type_id_of::<D>(ty));
        }
        r
    }

    /// Read all data waiting on a port, as values of `D`, when `ty` is the type of data that the
    /// port carries; `InvalidPort` when it is not.
    pub fn read_as<D: ByteConvertible>(&mut self, port: PortId, ty: &std::any::TypeId) -> (r: Result<Vec<D>, Error>)
        requires
            old(self)@.wf(),
            D::byte_size() <= usize::MAX,
            old(self)@.has_port(port) ==> old(self)@.port(port).buffer.len() % D::byte_size() == 0,
        ensures
            final(self)@.wf(),
            (final(self)@, seq_result(r)) == read_spec::<D>(old(self)@, port, *ty),
    {
        match self.find(port) {
            None => Err(Error::InvalidPort),
            Some(j) => {
                proof {
                    lemma_port_index(old(self)@, port, j as int);
                }
                if !type_ids_equal(&self.ports[j].meta.ty, ty) {
                    return Err(Error::InvalidPort);
                }
                let n = self.ports[j].available();
                proof {
                    let b = old(self)@.port(port).buffer;
                    assert(b.take(n as int) =~= b);
                    assert(b.skip(n as int) =~= Seq::<u8>::empty());
                }
                let r = self.read_n_at::<D>(j, n);
                r
            },
        }
    }

    /// Read exactly `n` values from a port: the first `n` times the size of `D` bytes waiting
    /// are taken and decoded. Refused with `NotAvailable`, taking nothing, when fewer than `n`
    /// values are waiting, and with `InvalidPort` when the port carries another type of data
    /// than `D`.
    pub fn read_n<D: ByteConvertible + 'static>(&mut self, port: PortId, n: usize) -> (r: Result<Vec<D>, Error>)
        requires
            old(self)@.wf(),
            D::byte_size() <= usize::MAX,
        ensures
            final(self)@.wf(),
            exists|ty: std::any::TypeId| is_type_id_of::<D>(ty) && (final(self)@, seq_result(r)) == read_n_spec::<D>(old(self)@, port, n as nat, ty),
    {
        let ty = type_id_of::<D>();
        let r = self.read_n_as::<D>(port, n, &ty);
        proof {
            assert(is_type_id_of::<D>(ty));
        }
        r
    }

    /// Read exactly `n` values of `D` from a port when `ty` is the type of data that the port
    /// carries; `InvalidPort` when it is not.
    pub fn read_n_as<D: ByteConvertible>(&mut self, port: PortId, n: usize, ty: &std::any::TypeId) -> (r: Result<Vec<D>, Error>)
        requires
            old(self)@.wf(),
            D::byte_size() <= usize::MAX,
        ensures
            final(self)@.wf(),
            (final(self)@, seq_result(r)) == read_n_spec::<D>(old(self)@, port, n as nat, *ty),
    {
        match self.find(port) {
            None => Err(Error::InvalidPort),
            Some(j) => {
                proof {
                    lemma_port_index(old(self)@, port, j as int);
                }
                if !type_ids_equal(&self.ports[j].meta.ty, ty) {
                    return Err(Error::InvalidPort);
                }
                let size = D::size();
                let avail = self.ports[j].available();
                let n_bytes = match n.checked_mul(size) {
                    Some(b) => b,
                    None => return Err(Error::NotAvailable),
                };
                if n_bytes > avail {
                    return Err(Error::NotAvailable);
                }
                proof {
                    vstd::arithmetic::div_mod::lemma_mod_multiples_basic(n as int, size as int);
                }
                self.read_n_at::<D>(j, n_bytes)
            },
        }
    }

    fn read_n_at<D: ByteConvertible>(&mut self, j: usize, n: usize) -> (r: Result<Vec<D>, Error>)
        requires
            old(self)@.wf(),
            D::byte_size() <= usize::MAX,
            j < old(self)@.ports.len(),
            n <= old(self)@.ports[j as int].buffer.len(),
            (n as nat) % D::byte_size() == 0,
        ensures
            ({
                let v = old(self)@.ports[j as int];
                &&& r is Ok
                &&& r->Ok_0@ == items_of::<D>(v.buffer.take(n as int))
                &&& final(self)@ == old(self)@.with_port(v.id, PortView { buffer: v.buffer.skip(n as int), ..v })
                &&& final(self)@.wf()
            }),
    {
        let bytes = self.ports[j].take(n);
        proof {
            self.lemma_replaced(old(self)@, j as int, self.ports@[j as int]@);
        }
        match D::from_bytes(bytes.as_slice()) {
            Ok(v) => {
                proof {
                    assert((|c: Seq<u8>| D::decode(c)) == dec_fn::<D>());
                }
                Ok(v)
            },
            Err(_) => Err(Error::NotAvailable),
        }
    }

    /// Port `port` with its edge replaced by `edge`.
    fn set_edge(&mut self, port: PortId, edge: Option<(NodeId, PortId)>)
        requires
            old(self)@.wf(),
            old(self)@.has_port(port),
        ensures
            final(self)@ == old(self)@.with_port(port, PortView { edge, ..old(self)@.port(port) }),
            final(self)@.wf(),
    {
        let j = self.find(port).unwrap();
        self.ports[j].set_edge(edge);
        proof {
            self.lemma_replaced(old(self)@, j as int, self.ports@[j as int]@);
        }
    }

    /// Port `port` with `signal` added to its signals.
    fn signal(&mut self, port: PortId, signal: Signal)
        requires
            old(self)@.wf(),
            old(self)@.has_port(port),
        ensures
            final(self)@ == old(self)@.with_port(port, PortView {
                signals: old(self)@.port(port).signals.push(signal),
                ..old(self)@.port(port)
            }),
            final(self)@.wf(),
    {
        let j = self.find(port).unwrap();
        self.ports[j].signal(signal);
        proof {
            self.lemma_replaced(old(self)@, j as int, self.ports@[j as int]@);
        }
    }

    /// Port `port` with `bytes` added to its buffer.
    fn append(&mut self, port: PortId, bytes: &[u8])
        requires
            old(self)@.wf(),
            old(self)@.has_port(port),
        ensures
            final(self)@ == old(self)@.with_port(port, PortView {
                buffer: old(self)@.port(port).buffer + bytes@,
                ..old(self)@.port(port)
            }),
            final(self)@.wf(),
    {
        let j = self.find(port).unwrap();
        self.ports[j].append(bytes);
        proof {
            self.lemma_replaced(old(self)@, j as int, self.ports@[j as int]@);
        }
    }
}


impl<T: Module> Interface<T> {
    /// Whether port `port` carries data of the type `ty`.
    fn carries(&self, port: PortId, ty: &std::any::TypeId) -> (r: bool)
        requires
            self@.wf(),
            self@.has_port(port),
        ensures
            r == (self@.port(port).meta.ty == *ty),
    {
        let j = self.find(port).unwrap();
        type_ids_equal(&self.ports[j].meta.ty, ty)
    }

    /// The edge of port `port`.
    fn edge_of(&self, port: PortId) -> (r: Option<(NodeId, PortId)>)
        requires
            self@.wf(),
            self@.has_port(port),
        ensures
            r == self@.port(port).edge,
    {
        let j = self.find(port).unwrap();
        self.ports[j].edge()
    }
}

/// A node as plain values: its interface and its module.
pub ghost struct NodeView<T> {
    pub ifc: InterfaceView,
    pub module: T,
}

/// A node is the public interface for generic functionality on a module in the graph.
/// It holds a `Module`.
pub struct Node<T: Module> {
    ifc: Interface<T>,
    module: T,
}

impl<T: Module> View for Node<T> {
    type V = NodeView<T>;

    closed spec fn view(&self) -> NodeView<T> {
        NodeView { ifc: self.ifc@, module: self.module }
    }
}

impl<T: Module> Node<T> {
    /// Get a reference to the module held by this node.
    pub fn module(&self) -> (r: &T)
        ensures
            *r == self@.module,
    {
        &self.module
    }

    /// Get a reference to the metadata associated with this node.
    pub fn meta(&self) -> (r: &MetaModule<T>)
        ensures
            r@.name == self@.ifc.name,
    {
        self.ifc.meta()
    }

    /// Get the node ID.
    pub fn id(&self) -> (r: NodeId)
        ensures
            r == self@.ifc.id,
    {
        self.ifc.id()
    }

    /// Find a port by name (name is held within the associated `MetaPort`): the first port with
    /// that name.
    pub fn find_port(&self, name: &str) -> (r: Option<&Port>)
        ensures
            r is None <==> forall|i: int| 0 <= i < self@.ifc.ports.len() ==> (#[trigger] self@.ifc.ports[i]).meta.name != name@,
            r matches Some(q) ==> exists|i: int| #[trigger] self@.ifc.first_named(i, name@) && q@ == self@.ifc.ports[i],
    {
        self.ifc.find_port(name)
    }

    /// The ports, in the order in which they were added.
    pub fn ports(&self) -> (r: &[Port])
        ensures
            r@.map_values(|p: Port| p@) == self@.ifc.ports,
    {
        self.ifc.ports()
    }

    /// The node's interface.
    pub fn interface(&self) -> (r: &Interface<T>)
        ensures
            r@ == self@.ifc,
    {
        &self.ifc
    }

    /// The node's interface, to change its ports.
    pub fn interface_mut(&mut self) -> (r: &mut Interface<T>)
        ensures
            r@ == old(self)@.ifc,
            final(self)@ == (NodeView { ifc: final(r)@, ..old(self)@ }),
    {
        &mut self.ifc
    }
}

/// A graph as plain values: the next identifier to hand out, and the nodes in the order in which
/// they were added.
pub ghost struct GraphView<T> {
    pub next_id: nat,
    pub nodes: Seq<NodeView<T>>,
}

impl<T> GraphView<T> {
    /// The identifiers of the nodes, in storage order.
    pub open spec fn ids(self) -> Seq<NodeId> {
        self.nodes.map_values(|n: NodeView<T>| n.ifc.id)
    }

    pub open spec fn contains(self, n: NodeId) -> bool {
        self.ids().contains(n)
    }

    /// Storage position of the node `n`.
    pub open spec fn index(self, n: NodeId) -> int {
        self.ids().index_of(n)
    }

    /// The node `n` (meaningful when `contains(n)`).
    pub open spec fn node(self, n: NodeId) -> NodeView<T> {
        self.nodes[self.index(n)]
    }

    pub open spec fn has_port(self, n: NodeId, p: PortId) -> bool {
        self.contains(n) && self.node(n).ifc.has_port(p)
    }

    /// Port `p` of node `n` (meaningful when `has_port(n, p)`).
    pub open spec fn port(self, n: NodeId, p: PortId) -> PortView {
        self.node(n).ifc.port(p)
    }

    /// Whether port `p` of node `n` can be found, and if not, the error that says why.
    pub open spec fn locate(self, n: NodeId, p: PortId) -> Result<(), Error> {
        if !self.contains(n) {
            Err(Error::InvalidNode)
        } else if !self.node(n).ifc.has_port(p) {
            Err(Error::InvalidPort)
        } else {
            Ok(())
        }
    }

    /// Node identifiers are unique, each node's port identifiers are unique, and all of them are
    /// below the next identifier to hand out.
    pub open spec fn wf(self) -> bool {
        &&& self.ids().no_duplicates()
        &&& forall|i: int| 0 <= i < self.nodes.len() ==> (#[trigger] self.nodes[i]).ifc.id.0 < self.next_id
        &&& forall|i: int| 0 <= i < self.nodes.len() ==> (#[trigger] self.nodes[i]).ifc.wf()
        &&& forall|i: int, j: int|
            0 <= i < self.nodes.len() && 0 <= j < self.nodes[i].ifc.ports.len() ==> (#[trigger] self.nodes[i].ifc.ports[j]).id.0
                < self.next_id
    }

    /// The graph with the node `n` replaced by `x`.
    pub open spec fn with_node(self, n: NodeId, x: NodeView<T>) -> GraphView<T> {
        GraphView { nodes: self.nodes.update(self.index(n), x), ..self }
    }

    /// The graph with port `p` of node `n` replaced by `v`.
    pub open spec fn with_port(self, n: NodeId, p: PortId, v: PortView) -> GraphView<T> {
        self.with_node(n, NodeView { ifc: self.node(n).ifc.with_port(p, v), ..self.node(n) })
    }

    /// The graph with the edge of port `p` of node `n` replaced by `e`.
    pub open spec fn set_edge(self, n: NodeId, p: PortId, e: Option<(NodeId, PortId)>) -> GraphView<T> {
        self.with_port(n, p, PortView { edge: e, ..self.port(n, p) })
    }

    /// The graph with `s` added to the signals of port `p` of node `n`.
    pub open spec fn push_signal(self, n: NodeId, p: PortId, s: Signal) -> GraphView<T> {
        self.with_port(n, p, PortView { signals: self.port(n, p).signals.push(s), ..self.port(n, p) })
    }

    /// The graph with `bytes` added to the buffer of port `p` of node `n`.
    pub open spec fn append(self, n: NodeId, p: PortId, bytes: Seq<u8>) -> GraphView<T> {
        self.with_port(n, p, PortView { buffer: self.port(n, p).buffer + bytes, ..self.port(n, p) })
    }
}

/// Where the node `n` is stored when it is stored at `k`, with unique identifiers.
pub proof fn lemma_node_index<T>(g: GraphView<T>, n: NodeId, k: int)
    requires
        g.ids().no_duplicates(),
        0 <= k < g.nodes.len(),
        g.nodes[k].ifc.id == n,
    ensures
        g.contains(n),
        g.index(n) == k,
        g.node(n) == g.nodes[k],
{
    assert(g.ids()[k] == n);
    let j = g.index(n);
    assert(0 <= j < g.ids().len() && g.ids()[j] == n);
}

/// Replacing a port by one with the same identifier keeps the graph well formed, keeps every
/// node and port where it was, and changes that port alone.
pub proof fn lemma_graph_with_port<T>(g: GraphView<T>, n: NodeId, p: PortId, x: PortView)
    requires
        g.wf(),
        g.has_port(n, p),
        x.id == p,
    ensures
        g.with_port(n, p, x).wf(),
        g.with_port(n, p, x).ids() == g.ids(),
        g.with_port(n, p, x).next_id == g.next_id,
        g.with_port(n, p, x).nodes.len() == g.nodes.len(),
        forall|m: NodeId| #[trigger] g.with_port(n, p, x).contains(m) == g.contains(m),
        forall|m: NodeId, q: PortId| #[trigger] g.with_port(n, p, x).has_port(m, q) == g.has_port(m, q),
        forall|m: NodeId, q: PortId|
            g.has_port(m, q) ==> #[trigger] g.with_port(n, p, x).port(m, q) == if m == n && q == p {
                x
            } else {
                g.port(m, q)
            },
        forall|m: NodeId|
            g.contains(m) ==> (#[trigger] g.with_port(n, p, x).node(m)).module == g.node(m).module
                && g.with_port(n, p, x).node(m).ifc.id == g.node(m).ifc.id
                && g.with_port(n, p, x).node(m).ifc.name == g.node(m).ifc.name,
{
    let h = g.with_port(n, p, x);
    let k = g.index(n);
    let v = g.node(n).ifc;
    lemma_with_port(v, p, x);
    assert(h.ids() =~= g.ids());
    assert forall|i: int| 0 <= i < h.nodes.len() implies (#[trigger] h.nodes[i]).ifc.wf() by {
        if i != k {
            assert(h.nodes[i] == g.nodes[i]);
        }
    }
    assert forall|i: int, j: int|
        0 <= i < h.nodes.len() && 0 <= j < h.nodes[i].ifc.ports.len() implies (
        #[trigger] h.nodes[i].ifc.ports[j]).id.0 < h.next_id by {
        if i == k {
            assert(h.nodes[i].ifc.port_ids()[j] == v.port_ids()[j]);
            assert(v.ports[j].id == v.port_ids()[j]);
        } else {
            assert(h.nodes[i] == g.nodes[i]);
        }
    }
    assert forall|m: NodeId| #[trigger] h.contains(m) == g.contains(m) by {}
    assert forall|m: NodeId| g.contains(m) implies (#[trigger] h.node(m)).module == g.node(m).module
        && h.node(m).ifc.id == g.node(m).ifc.id && h.node(m).ifc.name == g.node(m).ifc.name by {
        assert(h.index(m) == g.index(m));
    }
    assert forall|m: NodeId, q: PortId| #[trigger] h.has_port(m, q) == g.has_port(m, q) by {
        if g.contains(m) {
            assert(h.index(m) == g.index(m));
            if m != n {
                let km = g.index(m);
                assert(g.ids()[km] == m);
                assert(km != k);
            }
        }
    }
    assert forall|m: NodeId, q: PortId| g.has_port(m, q) implies #[trigger] h.port(m, q) == if m == n && q == p {
        x
    } else {
        g.port(m, q)
    } by {
        assert(h.index(m) == g.index(m));
        if m != n {
            let km = g.index(m);
            assert(g.ids()[km] == m);
            assert(km != k);
        }
    }
}


/// A graph holds a collection of Nodes. Nodes have a collection of Ports. Ports can be connected
/// to each other one-to-one.
pub struct Graph<T: Module> {
    nodes: Vec<Node<T>>,
    id_counter: usize,
}

impl<T: Module> View for Graph<T> {
    type V = GraphView<T>;

    closed spec fn view(&self) -> GraphView<T> {
        GraphView { next_id: self.id_counter as nat, nodes: self.nodes@.map_values(|n: Node<T>| n@) }
    }
}

impl<T: Module> Graph<T> {
    /// Make a new empty graph.
    pub fn new() -> (r: Graph<T>)
        ensures
            r@ == (GraphView::<T> { next_id: 0, nodes: Seq::empty() }),
            r@.wf(),
    {
        let g = Graph { nodes: Vec::new(), id_counter: 0 };
        assert(g@.nodes =~= Seq::<NodeView<T>>::empty());
        assert(g@.ids() =~= Seq::<NodeId>::empty());
        g
    }

    /// The identifier that the next node or port added will get.
    pub fn next_id(&self) -> (r: usize)
        ensures
            r == self@.next_id,
    {
        self.id_counter
    }

    fn generate_id(&mut self) -> (r: usize)
        requires
            old(self)@.next_id < usize::MAX,
        ensures
            r == old(self)@.next_id,
            final(self)@ == (GraphView { next_id: old(self)@.next_id + 1, ..old(self)@ }),
    {
        let id = self.id_counter;
        self.id_counter = self.id_counter + 1;
        id
    }

    /// Storage position of the node `n`, if there is one.
    fn find_node(&self, n: NodeId) -> (r: Option<usize>)
        requires
            self@.ids().no_duplicates(),
        ensures
            r is Some <==> self@.contains(n),
            r matches Some(k) ==> k < self@.nodes.len() && k == self@.index(n) && self.nodes@[k as int]@
                == self@.node(n),
    {
        let mut k: usize = 0;
        while k < self.nodes.len()
            invariant
                k <= self.nodes@.len(),
                self@.ids().no_duplicates(),
                forall|j: int| 0 <= j < k ==> self@.ids()[j] != n,
            decreases self.nodes@.len() - k,
        {
            if self.nodes[k].ifc.id == n {
                proof {
                    lemma_node_index(self@, n, k as int);
                }
                return Some(k);
            }
            k = k + 1;
        }
        proof {
            if self@.contains(n) {
                let j = self@.ids().index_of(n);
                assert(self@.ids()[j] == n);
            }
        }
        None
    }

    /// Storage position of node `n`, or the error that `locate` gives.
    fn locate(&self, n: NodeId, p: PortId) -> (r: Result<usize, Error>)
        requires
            self@.wf(),
        ensures
            r is Ok <==> self@.locate(n, p) is Ok,
            r matches Err(e) ==> self@.locate(n, p) == Err::<(), Error>(e),
            r matches Ok(k) ==> k < self@.nodes.len() && k == self@.index(n) && self.nodes@[k as int]@
                == self@.node(n),
    {
        match self.find_node(n) {
            None => Err(Error::InvalidNode),
            Some(k) => {
                if self.nodes[k].ifc.find(p).is_none() {
                    Err(Error::InvalidPort)
                } else {
                    Ok(k)
                }
            },
        }
    }

    /// Facts about `self` after the interface of node `k` was replaced by `x`, which keeps its
    /// identifier and name.
    proof fn lemma_interface_replaced(&self, g: GraphView<T>, k: int, x: InterfaceView)
        requires
            g.ids().no_duplicates(),
            0 <= k < g.nodes.len(),
            self.id_counter == g.next_id,
            self.nodes@.len() == g.nodes.len(),
            self.nodes@[k]@ == (NodeView { ifc: x, ..g.nodes[k] }),
            forall|i: int| 0 <= i < g.nodes.len() && i != k ==> self.nodes@[i]@ == g.nodes[i],
        ensures
            self@ == g.with_node(g.nodes[k].ifc.id, NodeView { ifc: x, ..g.nodes[k] }),
    {
        lemma_node_index(g, g.nodes[k].ifc.id, k);
        assert(self@.nodes =~= g.nodes.update(k, NodeView { ifc: x, ..g.nodes[k] }));
    }

    /// Construct a new node from the given metadata: its module is built by `new`, called once
    /// with the new node's interface and `arg`. The ID of the new node is returned.
    pub fn add_node<F: Fn(&Interface<T>, T::Arg) -> T>(&mut self, meta: &MetaModule<T>, new: F, arg: T::Arg) -> (r: NodeId)
        requires
            old(self)@.wf(),
            old(self)@.next_id < usize::MAX,
            forall|ifc: &Interface<T>, a: T::Arg| #[trigger] new.requires((ifc, a)),
        ensures
            r == NodeId(old(self)@.next_id as usize),
            !old(self)@.contains(r),
            exists|ifc: Interface<T>, module: T|
                {
                    &&& ifc@ == (InterfaceView { id: r, name: meta@.name, ports: Seq::empty() })
                    &&& #[trigger] new.ensures((&ifc, arg), module)
                    &&& final(self)@ == add_node_spec(old(self)@, meta@.name, module)
                },
            final(self)@.wf(),
    {
        let id = NodeId(self.generate_id());
        let ifc = Interface::new(id, meta.clone());
        let module = new(&ifc, arg);
        self.nodes.push(Node { ifc, module });
        proof {
            let o = old(self)@;
            let x = NodeView { ifc: InterfaceView { id, name: meta@.name, ports: Seq::<PortView>::empty() }, module };
            assert(self@.nodes =~= o.nodes.push(x));
            assert(self@.ids() =~= o.ids().push(id));
            assert(x.ifc.port_ids() =~= Seq::<PortId>::empty());
            if o.contains(id) {
                let j = o.ids().index_of(id);
                assert(o.ids()[j] == id);
                assert(o.nodes[j].ifc.id.0 < o.next_id);
            }
            assert forall|i: int, j: int|
                0 <= i < self@.nodes.len() && 0 <= j < self@.nodes[i].ifc.ports.len() implies (
                #[trigger] self@.nodes[i].ifc.ports[j]).id.0 < self@.next_id by {
                if i < o.nodes.len() {
                    assert(self@.nodes[i] == o.nodes[i]);
                }
            }
        }
        id
    }

    /// Delete a node by id; the node is handed back.
    pub fn remove_node(&mut self, node: NodeId) -> (r: Result<Node<T>, Error>)
        requires
            old(self)@.wf(),
        ensures
            final(self)@.wf(),
            !old(self)@.contains(node) ==> r is Err && r->Err_0 == Error::InvalidNode && final(self)@ == old(self)@,
            old(self)@.contains(node) ==> r is Ok && r->Ok_0@ == old(self)@.node(node) && final(self)@ == (
            GraphView { nodes: old(self)@.nodes.remove(old(self)@.index(node)), ..old(self)@ }),
    {
        match self.find_node(node) {
            None => Err(Error::InvalidNode),
            Some(k) => {
                let n = self.nodes.remove(k);
                proof {
                    let v = self@;
                    let o = old(self)@;
                    assert(v.nodes =~= o.nodes.remove(k as int));
                    assert(v.ids() =~= o.ids().remove(k as int));
                    assert forall|a: int, b: int|
                        0 <= a < v.ids().len() && 0 <= b < v.ids().len() && a != b
                        implies v.ids()[a] != v.ids()[b] by {
                        let a2 = if a < k { a } else { a + 1 };
                        let b2 = if b < k { b } else { b + 1 };
                        assert(o.ids()[a2] != o.ids()[b2]);
                    }
                    assert forall|i: int| 0 <= i < v.nodes.len() implies (#[trigger] v.nodes[i]).ifc.wf() by {
                        let i2 = if i < k { i } else { i + 1 };
                        assert(v.nodes[i] == o.nodes[i2]);
                    }
                    assert forall|i: int| 0 <= i < v.nodes.len() implies (#[trigger] v.nodes[i]).ifc.id.0 < v.next_id by {
                        let i2 = if i < k { i } else { i + 1 };
                        assert(v.nodes[i] == o.nodes[i2]);
                    }
                    assert forall|i: int, j: int|
                        0 <= i < v.nodes.len() && 0 <= j < v.nodes[i].ifc.ports.len() implies (
                        #[trigger] v.nodes[i].ifc.ports[j]).id.0 < v.next_id by {
                        let i2 = if i < k { i } else { i + 1 };
                        assert(v.nodes[i] == o.nodes[i2]);
                    }
                }
                Ok(n)
            },
        }
    }

    /// The nodes, in the order in which they were added.
    pub fn nodes(&self) -> (r: &[Node<T>])
        ensures
            r@.map_values(|n: Node<T>| n@) == self@.nodes,
    {
        self.nodes.as_slice()
    }

    /// Pairs of the ID of each node and the node, in the order in which the nodes were added.
    pub fn node_map(&self) -> (r: Vec<(NodeId, &Node<T>)>)
        ensures
            r@.len() == self@.nodes.len(),
            forall|i: int| 0 <= i < r@.len() ==> (#[trigger] r@[i]).0 == self@.nodes[i].ifc.id && r@[i].1@ == self@.nodes[i],
    {
        let mut out: Vec<(NodeId, &Node<T>)> = Vec::new();
        let mut i: usize = 0;
        while i < self.nodes.len()
            invariant
                i <= self.nodes@.len(),
                out@.len() == i,
                forall|j: int| 0 <= j < i ==> (#[trigger] out@[j]).0 == self@.nodes[j].ifc.id && out@[j].1@ == self@.nodes[j],
            decreases self.nodes@.len() - i,
        {
            let n = &self.nodes[i];
            out.push((n.ifc.id, n));
            i = i + 1;
        }
        out
    }

    /// Get a node by ID.
    pub fn node(&self, node: NodeId) -> (r: Result<&Node<T>, Error>)
        requires
            self@.wf(),
        ensures
            r is Ok <==> self@.contains(node),
            r matches Ok(n) ==> n@ == self@.node(node),
            r matches Err(e) ==> e == Error::InvalidNode,
    {
        match self.find_node(node) {
            Some(k) => Ok(&self.nodes[k]),
            None => Err(Error::InvalidNode),
        }
    }
}


/// What `Graph::connect` does: the graph afterwards and the result.
pub open spec fn connect_spec<T>(g: GraphView<T>, a: NodeId, ap: PortId, b: NodeId, bp: PortId) -> (
    GraphView<T>,
    Result<(), Error>,
) {
    match g.locate(a, ap) {
        Err(e) => (g, Err(e)),
        Ok(_) => match g.locate(b, bp) {
            Err(e) => (g, Err(e)),
            Ok(_) => (
                g.set_edge(a, ap, Some((b, bp))).set_edge(b, bp, Some((a, ap))).push_signal(
                    a,
                    ap,
                    Signal::Connect,
                ).push_signal(b, bp, Signal::Connect),
                Ok(()),
            ),
        },
    }
}

/// What `Graph::disconnect` does: the graph afterwards and the result.
pub open spec fn disconnect_spec<T>(g: GraphView<T>, a: NodeId, ap: PortId, b: NodeId, bp: PortId) -> (
    GraphView<T>,
    Result<(), Error>,
) {
    match g.locate(a, ap) {
        Err(e) => (g, Err(e)),
        Ok(_) => match g.locate(b, bp) {
            Err(e) => (g, Err(e)),
            Ok(_) => (
                g.set_edge(a, ap, None).set_edge(b, bp, None).push_signal(a, ap, Signal::Disconnect).push_signal(
                    b,
                    bp,
                    Signal::Disconnect,
                ),
                Ok(()),
            ),
        },
    }
}

/// What `Graph::write` does with the bytes `bytes`: the graph afterwards and the result.
pub open spec fn write_spec<T>(g: GraphView<T>, n: NodeId, p: PortId, bytes: Seq<u8>) -> (
    GraphView<T>,
    Result<(), Error>,
) {
    match g.locate(n, p) {
        Err(e) => (g, Err(e)),
        Ok(_) => match g.port(n, p).edge {
            None => (g, Err(Error::NotConnected)),
            Some(e) => if g.has_port(e.0, e.1) {
                (g.append(e.0, e.1, bytes).push_signal(e.0, e.1, Signal::Write), Ok(()))
            } else {
                (g, Err(Error::NotConnected))
            },
        },
    }
}

impl<T: Module> Graph<T> {
    /// Facts about `self` after port `p` of node `n`, stored at `k`, was replaced by `x`.
    proof fn lemma_port_edited(&self, g: GraphView<T>, n: NodeId, p: PortId, k: int, x: PortView)
        requires
            g.wf(),
            g.has_port(n, p),
            k == g.index(n),
            x.id == p,
            self.id_counter == g.next_id,
            self.nodes@.len() == g.nodes.len(),
            self.nodes@[k]@ == (NodeView { ifc: g.node(n).ifc.with_port(p, x), ..g.nodes[k] }),
            forall|i: int| 0 <= i < g.nodes.len() && i != k ==> self.nodes@[i]@ == g.nodes[i],
        ensures
            self@ == g.with_port(n, p, x),
            self@.wf(),
            forall|m: NodeId, q: PortId| #[trigger] self@.has_port(m, q) == g.has_port(m, q),
    {
        let j = g.index(n);
        assert(g.ids()[j] == n);
        self.lemma_interface_replaced(g, k, g.node(n).ifc.with_port(p, x));
        lemma_graph_with_port(g, n, p, x);
    }

    /// Facts about `self` when no node changed its view.
    proof fn lemma_unchanged(&self, g: GraphView<T>)
        requires
            self.id_counter == g.next_id,
            self.nodes@.len() == g.nodes.len(),
            forall|i: int| 0 <= i < g.nodes.len() ==> self.nodes@[i]@ == g.nodes[i],
        ensures
            self@ == g,
    {
        assert(self@.nodes =~= g.nodes);
    }

    fn set_edge_at(&mut self, n: NodeId, p: PortId, e: Option<(NodeId, PortId)>)
        requires
            old(self)@.wf(),
            old(self)@.has_port(n, p),
        ensures
            final(self)@ == old(self)@.set_edge(n, p, e),
            final(self)@.wf(),
            forall|m: NodeId, q: PortId| #[trigger] final(self)@.has_port(m, q) == old(self)@.has_port(m, q),
    {
        let k = self.find_node(n).unwrap();
        self.nodes[k].ifc.set_edge(p, e);
        proof {
            let g = old(self)@;
            self.lemma_port_edited(g, n, p, k as int, PortView { edge: e, ..g.port(n, p) });
        }
    }

    fn signal_at(&mut self, n: NodeId, p: PortId, signal: Signal)
        requires
            old(self)@.wf(),
            old(self)@.has_port(n, p),
        ensures
            final(self)@ == old(self)@.push_signal(n, p, signal),
            final(self)@.wf(),
            forall|m: NodeId, q: PortId| #[trigger] final(self)@.has_port(m, q) == old(self)@.has_port(m, q),
    {
        let k = self.find_node(n).unwrap();
        self.nodes[k].ifc.signal(p, signal);
        proof {
            let g = old(self)@;
            self.lemma_port_edited(g, n, p, k as int, PortView { signals: g.port(n, p).signals.push(signal), ..g.port(n, p) });
        }
    }

    fn append_at(&mut self, n: NodeId, p: PortId, bytes: &[u8])
        requires
            old(self)@.wf(),
            old(self)@.has_port(n, p),
        ensures
            final(self)@ == old(self)@.append(n, p, bytes@),
            final(self)@.wf(),
            forall|m: NodeId, q: PortId| #[trigger] final(self)@.has_port(m, q) == old(self)@.has_port(m, q),
    {
        let k = self.find_node(n).unwrap();
        self.nodes[k].ifc.append(p, bytes);
        proof {
            let g = old(self)@;
            self.lemma_port_edited(g, n, p, k as int, PortView { buffer: g.port(n, p).buffer + bytes@, ..g.port(n, p) });
        }
    }

    /// Connect port `ap` of node `a` to port `bp` of node `b`: each names the other as the other
    /// end of its edge, and each receives `Signal::Connect`. The two ports must carry the same
    /// type of data.
    pub fn connect(&mut self, a: NodeId, ap: PortId, b: NodeId, bp: PortId) -> (r: Result<(), Error>)
        requires
            old(self)@.wf(),
            old(self)@.has_port(a, ap) && old(self)@.has_port(b, bp) ==> old(self)@.port(a, ap).meta.ty == old(
                self,
            )@.port(b, bp).meta.ty,
        ensures
            final(self)@.wf(),
            (final(self)@, r) == connect_spec(old(self)@, a, ap, b, bp),
    {
        if let Err(e) = self.locate(a, ap) {
            return Err(e);
        }
        if let Err(e) = self.locate(b, bp) {
            return Err(e);
        }
        self.set_edge_at(a, ap, Some((b, bp)));
        self.set_edge_at(b, bp, Some((a, ap)));
        self.signal_at(a, ap, Signal::Connect);
        self.signal_at(b, bp, Signal::Connect);
        Ok(())
    }

    /// Disconnect port `ap` of node `a` and port `bp` of node `b`: neither has an edge
    /// afterwards, and each receives `Signal::Disconnect`.
    pub fn disconnect(&mut self, a: NodeId, ap: PortId, b: NodeId, bp: PortId) -> (r: Result<(), Error>)
        requires
            old(self)@.wf(),
        ensures
            final(self)@.wf(),
            (final(self)@, r) == disconnect_spec(old(self)@, a, ap, b, bp),
    {
        if let Err(e) = self.locate(a, ap) {
            return Err(e);
        }
        if let Err(e) = self.locate(b, bp) {
            return Err(e);
        }
        self.set_edge_at(a, ap, None);
        self.set_edge_at(b, bp, None);
        self.signal_at(a, ap, Signal::Disconnect);
        self.signal_at(b, bp, Signal::Disconnect);
        Ok(())
    }

    /// Write data to port `port` of node `node`: the bytes of `data` are added to the buffer of
    /// the port at the other end of its edge, which receives `Signal::Write`. Refused with
    /// `InvalidPort` when the port carries another type of data than `D`.
    pub fn write<D: ByteConvertible + 'static>(&mut self, node: NodeId, port: PortId, data: &[D]) -> (r: Result<(), Error>)
        requires
            old(self)@.wf(),
        ensures
            final(self)@.wf(),
            exists|ty: std::any::TypeId| is_type_id_of::<D>(ty) && (final(self)@, r) == write_as_spec(old(self)@, node, port, ty, bytes_of(data@)),
    {
        let ty = type_id_of::<D>();
        let r = self.write_as(node, port, &ty, data);
        proof {
            assert(is_type_id_of::<D>(ty));
        }
        r
    }

    /// Write `data` to port `port` of node `node` when `ty` is the type of data that the port
    /// carries; `InvalidPort` when it is not.
    pub fn write_as<D: ByteConvertible>(&mut self, node: NodeId, port: PortId, ty: &std::any::TypeId, data: &[D]) -> (r: Result<(), Error>)
        requires
            old(self)@.wf(),
        ensures
            final(self)@.wf(),
            (final(self)@, r) == write_as_spec(old(self)@, node, port, *ty, bytes_of(data@)),
    {
        let k = match self.locate(node, port) {
            Err(e) => return Err(e),
            Ok(k) => k,
        };
        if !self.nodes[k].ifc.carries(port, ty) {
            return Err(Error::InvalidPort);
        }
        let edge = self.nodes[k].ifc.edge_of(port);
        match edge {
            None => Err(Error::NotConnected),
            Some(e) => {
                if self.locate(e.0, e.1).is_err() {
                    return Err(Error::NotConnected);
                }
                let bytes = match D::to_bytes(data) {
                    Ok(b) => b,
                    Err(_) => return Err(Error::NotAvailable),
                };
                proof {
                    assert((|x: D| D::encode(x)) == crate::context::enc_fn::<D>());
                }
                self.append_at(e.0, e.1, bytes.as_slice());
                self.signal_at(e.0, e.1, Signal::Write);
                Ok(())
            },
        }
    }
}


impl<T: Module> Graph<T> {
    /// Add a new port to node `node` using the given metadata. The ID of the new port is
    /// returned.
    pub fn add_port(&mut self, node: NodeId, meta: &MetaPort) -> (r: Result<PortId, Error>)
        requires
            old(self)@.wf(),
            old(self)@.next_id < usize::MAX,
        ensures
            final(self)@.wf(),
            !old(self)@.contains(node) ==> r is Err && r->Err_0 == Error::InvalidNode && final(self)@ == old(self)@,
            old(self)@.contains(node) ==> {
                let id = PortId(old(self)@.next_id as usize);
                let x = old(self)@.node(node);
                &&& r is Ok && r->Ok_0 == id
                &&& !x.ifc.has_port(id)
                &&& final(self)@ == (GraphView {
                    next_id: old(self)@.next_id + 1,
                    nodes: old(self)@.nodes.update(old(self)@.index(node), NodeView {
                        ifc: InterfaceView { ports: x.ifc.ports.push(fresh_port(id, meta@)), ..x.ifc },
                        ..x
                    }),
                })
            },
    {
        let k = match self.find_node(node) {
            None => return Err(Error::InvalidNode),
            Some(k) => k,
        };
        let id = PortId(self.generate_id());
        proof {
            let g = old(self)@;
            let v = g.nodes[k as int].ifc;
            if v.has_port(id) {
                let j = v.port_ids().index_of(id);
                assert(v.port_ids()[j] == id);
                assert(v.ports[j].id.0 < g.next_id);
            }
        }
        let r = self.nodes[k].ifc.add_port(id, meta);
        proof {
            let g = old(self)@;
            let x = g.nodes[k as int];
            let y = NodeView { ifc: InterfaceView { ports: x.ifc.ports.push(fresh_port(id, meta@)), ..x.ifc }, ..x };
            assert(self@.nodes =~= g.nodes.update(k as int, y));
            assert(self@.ids() =~= g.ids());
            assert forall|i: int| 0 <= i < self@.nodes.len() implies (#[trigger] self@.nodes[i]).ifc.wf() by {
                if i != k {
                    assert(self@.nodes[i] == g.nodes[i]);
                }
            }
            assert forall|i: int, j: int|
                0 <= i < self@.nodes.len() && 0 <= j < self@.nodes[i].ifc.ports.len() implies (
                #[trigger] self@.nodes[i].ifc.ports[j]).id.0 < self@.next_id by {
                if i != k {
                    assert(self@.nodes[i] == g.nodes[i]);
                } else if j < x.ifc.ports.len() {
                    assert(self@.nodes[i].ifc.ports[j] == x.ifc.ports[j]);
                }
            }
        }
        r
    }

    /// Remove port `port` from node `node`; the port is handed back.
    pub fn remove_port(&mut self, node: NodeId, port: PortId) -> (r: Result<Port, Error>)
        requires
            old(self)@.wf(),
        ensures
            final(self)@.wf(),
            old(self)@.locate(node, port) is Err ==> r is Err && r->Err_0 == old(self)@.locate(node, port)->Err_0
                && final(self)@ == old(self)@,
            old(self)@.has_port(node, port) ==> {
                let x = old(self)@.node(node);
                &&& r is Ok
                &&& r->Ok_0@ == old(self)@.port(node, port)
                &&& final(self)@ == old(self)@.with_node(node, NodeView {
                    ifc: InterfaceView { ports: x.ifc.ports.remove(x.ifc.port_index(port)), ..x.ifc },
                    ..x
                })
            },
    {
        let k = match self.find_node(node) {
            None => return Err(Error::InvalidNode),
            Some(k) => k,
        };
        let r = self.nodes[k].ifc.remove_port(port);
        proof {
            let g = old(self)@;
            let x = g.nodes[k as int];
            if x.ifc.has_port(port) {
                let jj = x.ifc.port_index(port);
                let y = NodeView { ifc: InterfaceView { ports: x.ifc.ports.remove(jj), ..x.ifc }, ..x };
                self.lemma_interface_replaced(g, k as int, y.ifc);
                assert(self@.nodes =~= g.nodes.update(k as int, y));
                assert(self@.ids() =~= g.ids());
                assert forall|i: int| 0 <= i < self@.nodes.len() implies (#[trigger] self@.nodes[i]).ifc.wf() by {
                    if i != k {
                        assert(self@.nodes[i] == g.nodes[i]);
                    }
                }
                assert forall|i: int, j: int|
                    0 <= i < self@.nodes.len() && 0 <= j < self@.nodes[i].ifc.ports.len() implies (
                    #[trigger] self@.nodes[i].ifc.ports[j]).id.0 < self@.next_id by {
                    if i != k {
                        assert(self@.nodes[i] == g.nodes[i]);
                    } else {
                        let j2 = if j < jj { j } else { j + 1 };
                        assert(self@.nodes[i].ifc.ports[j] == x.ifc.ports[j2]);
                    }
                }
            } else {
                self.lemma_unchanged(g);
            }
        }
        r
    }

    /// Wait for a signal on port `port` of node `node`: takes the oldest unread signal, or `None`
    /// when there is none yet.
    pub fn wait(&mut self, node: NodeId, port: PortId) -> (r: Result<Option<Signal>, Error>)
        requires
            old(self)@.wf(),
        ensures
            final(self)@.wf(),
            old(self)@.locate(node, port) is Err ==> r is Err && r->Err_0 == old(self)@.locate(node, port)->Err_0
                && final(self)@ == old(self)@,
            old(self)@.has_port(node, port) ==> {
                let v = old(self)@.port(node, port);
                if v.signals.len() == 0 {
                    r == Ok::<Option<Signal>, Error>(None) && final(self)@ == old(self)@
                } else {
                    &&& r == Ok::<Option<Signal>, Error>(Some(v.signals[0]))
                    &&& final(self)@ == old(self)@.with_port(node, port, PortView { signals: v.signals.drop_first(), ..v })
                }
            },
    {
        let k = match self.find_node(node) {
            None => return Err(Error::InvalidNode),
            Some(k) => k,
        };
        let r = self.nodes[k].ifc.wait(port);
        proof {
            let g = old(self)@;
            if g.has_port(node, port) && g.port(node, port).signals.len() > 0 {
                let v = g.port(node, port);
                self.lemma_port_edited(g, node, port, k as int, PortView { signals: v.signals.drop_first(), ..v });
            } else {
                self.lemma_unchanged(g);
            }
        }
        r
    }

    /// Get a vector of all unread signals on port `port` of node `node`, oldest first; they are
    /// taken.
    pub fn poll(&mut self, node: NodeId, port: PortId) -> (r: Result<Vec<Signal>, Error>)
        requires
            old(self)@.wf(),
        ensures
            final(self)@.wf(),
            old(self)@.locate(node, port) is Err ==> r is Err && r->Err_0 == old(self)@.locate(node, port)->Err_0
                && final(self)@ == old(self)@,
            old(self)@.has_port(node, port) ==> {
                let v = old(self)@.port(node, port);
                &&& r is Ok
                &&& r->Ok_0@ == v.signals
                &&& final(self)@ == old(self)@.with_port(node, port, PortView { signals: Seq::empty(), ..v })
            },
    {
        let k = match self.find_node(node) {
            None => return Err(Error::InvalidNode),
            Some(k) => k,
        };
        let r = self.nodes[k].ifc.poll(port);
        proof {
            let g = old(self)@;
            if g.has_port(node, port) {
                let v = g.port(node, port);
                self.lemma_port_edited(g, node, port, k as int, PortView { signals: Seq::empty(), ..v });
            } else {
                self.lemma_unchanged(g);
            }
        }
        r
    }

    /// Read all available data from port `port` of node `node`: the values that the waiting
    /// bytes encode; the bytes are taken. Refused with `InvalidPort` when the port carries
    /// another type of data than `D`.
    pub fn read<D: ByteConvertible + 'static>(&mut self, node: NodeId, port: PortId) -> (r: Result<Vec<D>, Error>)
        requires
            old(self)@.wf(),
            D::byte_size() <= usize::MAX,
            old(self)@.has_port(node, port) ==> old(self)@.port(node, port).buffer.len() % D::byte_size() == 0,
        ensures
            final(self)@.wf(),
            exists|ty: std::any::TypeId| is_type_id_of::<D>(ty) && (final(self)@, seq_result(r)) == graph_read_spec::<T, D>(old(self)@, node, port, ty),
    {
        let ty = type_id_of::<D>();
        let r = self.read_as::<D>(node, port, &ty);
        proof {
            assert(is_type_id_of::<D>(ty));
        }
        r
    }

    /// Read all data waiting on port `port` of node `node` as values of `D`, when `ty` is the
    /// type of data that the port carries; `InvalidPort` when it is not.
    pub fn read_as<D: ByteConvertible>(&mut self, node: NodeId, port: PortId, ty: &std::any::TypeId) -> (r: Result<Vec<D>, Error>)
        requires
            old(self)@.wf(),
            D::byte_size() <= usize::MAX,
            old(self)@.has_port(node, port) ==> old(self)@.port(node, port).buffer.len() % D::byte_size() == 0,
        ensures
            final(self)@.wf(),
            (final(self)@, seq_result(r)) == graph_read_spec::<T, D>(old(self)@, node, port, *ty),
    {
        let k = match self.find_node(node) {
            None => return Err(Error::InvalidNode),
            Some(k) => k,
        };
        let r = self.nodes[k].ifc.read_as::<D>(port, ty);
        proof {
            let g = old(self)@;
            if g.has_port(node, port) && g.port(node, port).meta.ty == *ty {
                let v = g.port(node, port);
                self.lemma_port_edited(g, node, port, k as int, PortView { buffer: Seq::empty(), ..v });
            } else {
                self.lemma_unchanged(g);
            }
        }
        r
    }

    /// Read exactly `n` values from port `port` of node `node`: the first `n` times the size of
    /// `D` bytes waiting are taken and decoded. Refused with `NotAvailable`, taking nothing, when
    /// fewer than `n` values are waiting, and with `InvalidPort` when the port carries another
    /// type of data than `D`.
    pub fn read_n<D: ByteConvertible + 'static>(&mut self, node: NodeId, port: PortId, n: usize) -> (r: Result<Vec<D>, Error>)
        requires
            old(self)@.wf(),
            D::byte_size() <= usize::MAX,
        ensures
            final(self)@.wf(),
            exists|ty: std::any::TypeId| is_type_id_of::<D>(ty) && (final(self)@, seq_result(r)) == graph_read_n_spec::<T, D>(old(self)@, node, port, n as nat, ty),
    {
        let ty = type_id_of::<D>();
        let r = self.read_n_as::<D>(node, port, n, &ty);
        proof {
            assert(is_type_id_of::<D>(ty));
        }
        r
    }

    /// Read exactly `n` values of `D` from port `port` of node `node`, when `ty` is the type of
    /// data that the port carries; `InvalidPort` when it is not.
    pub fn read_n_as<D: ByteConvertible>(&mut self, node: NodeId, port: PortId, n: usize, ty: &std::any::TypeId) -> (r: Result<Vec<D>, Error>)
        requires
            old(self)@.wf(),
            D::byte_size() <= usize::MAX,
        ensures
            final(self)@.wf(),
            (final(self)@, seq_result(r)) == graph_read_n_spec::<T, D>(old(self)@, node, port, n as nat, *ty),
    {
        let k = match self.find_node(node) {
            None => return Err(Error::InvalidNode),
            Some(k) => k,
        };
        let r = self.nodes[k].ifc.read_n_as::<D>(port, n, ty);
        proof {
            let g = old(self)@;
            if g.has_port(node, port) && g.port(node, port).meta.ty == *ty && n * D::byte_size()
                <= g.port(node, port).buffer.len() {
                let v = g.port(node, port);
                self.lemma_port_edited(
                    g,
                    node,
                    port,
                    k as int,
                    PortView { buffer: v.buffer.skip((n * D::byte_size()) as int), ..v },
                );
            } else {
                self.lemma_unchanged(g);
            }
        }
        r
    }
}

/// What `Graph::read_as` does: the graph afterwards and the values read.
pub open spec fn graph_read_spec<T, D: ByteConvertible>(g: GraphView<T>, n: NodeId, p: PortId, ty: std::any::TypeId) -> (
    GraphView<T>,
    Result<Seq<D>, Error>,
) {
    match g.locate(n, p) {
        Err(e) => (g, Err(e)),
        Ok(_) => if g.port(n, p).meta.ty != ty {
            (g, Err(Error::InvalidPort))
        } else {
            let x = g.port(n, p);
            (g.with_port(n, p, PortView { buffer: Seq::empty(), ..x }), Ok(items_of::<D>(x.buffer)))
        },
    }
}

/// What `Graph::read_n_as` does: the graph afterwards and the values read.
pub open spec fn graph_read_n_spec<T, D: ByteConvertible>(
    g: GraphView<T>,
    n: NodeId,
    p: PortId,
    k: nat,
    ty: std::any::TypeId,
) -> (GraphView<T>, Result<Seq<D>, Error>) {
    match g.locate(n, p) {
        Err(e) => (g, Err(e)),
        Ok(_) => if g.port(n, p).meta.ty != ty {
            (g, Err(Error::InvalidPort))
        } else if k * D::byte_size() > g.port(n, p).buffer.len() {
            (g, Err(Error::NotAvailable))
        } else {
            let x = g.port(n, p);
            let b = (k * D::byte_size()) as int;
            (g.with_port(n, p, PortView { buffer: x.buffer.skip(b), ..x }), Ok(items_of::<D>(x.buffer.take(b))))
        },
    }
}

/// What `Graph::write_as` does with the bytes `bytes`: the graph afterwards and the result.
pub open spec fn write_as_spec<T>(g: GraphView<T>, n: NodeId, p: PortId, ty: std::any::TypeId, bytes: Seq<u8>) -> (
    GraphView<T>,
    Result<(), Error>,
) {
    if g.locate(n, p) is Ok && g.port(n, p).meta.ty != ty {
        (g, Err(Error::InvalidPort))
    } else {
        write_spec(g, n, p, bytes)
    }
}

/// After `connect`, each of the two ports names the other as the other end of its edge, and no
/// buffer has changed.
pub proof fn law_connect_links_ports<T>(g: GraphView<T>, a: NodeId, ap: PortId, b: NodeId, bp: PortId)
    requires
        g.wf(),
        g.has_port(a, ap),
        g.has_port(b, bp),
    ensures
        connect_spec(g, a, ap, b, bp).1 is Ok,
        connect_spec(g, a, ap, b, bp).0.wf(),
        connect_spec(g, a, ap, b, bp).0.port(a, ap).edge == Some((b, bp)),
        connect_spec(g, a, ap, b, bp).0.port(b, bp).edge == Some((a, ap)),
        forall|m: NodeId, q: PortId| #[trigger] connect_spec(g, a, ap, b, bp).0.has_port(m, q) == g.has_port(m, q),
        forall|m: NodeId, q: PortId|
            g.has_port(m, q) ==> #[trigger] connect_spec(g, a, ap, b, bp).0.port(m, q).buffer == g.port(m, q).buffer
                && connect_spec(g, a, ap, b, bp).0.port(m, q).meta == g.port(m, q).meta,
{
    let g1 = g.set_edge(a, ap, Some((b, bp)));
    lemma_graph_with_port(g, a, ap, PortView { edge: Some((b, bp)), ..g.port(a, ap) });
    let g2 = g1.set_edge(b, bp, Some((a, ap)));
    lemma_graph_with_port(g1, b, bp, PortView { edge: Some((a, ap)), ..g1.port(b, bp) });
    let g3 = g2.push_signal(a, ap, Signal::Connect);
    lemma_graph_with_port(g2, a, ap, PortView { signals: g2.port(a, ap).signals.push(Signal::Connect), ..g2.port(a, ap) });
    let g4 = g3.push_signal(b, bp, Signal::Connect);
    lemma_graph_with_port(g3, b, bp, PortView { signals: g3.port(b, bp).signals.push(Signal::Connect), ..g3.port(b, bp) });
}

/// After `connect` and then `disconnect` of the same two ports, neither port has an edge.
pub proof fn law_disconnect_unlinks_ports<T>(g: GraphView<T>, a: NodeId, ap: PortId, b: NodeId, bp: PortId)
    requires
        g.wf(),
        g.has_port(a, ap),
        g.has_port(b, bp),
    ensures
        ({
            let h = connect_spec(g, a, ap, b, bp).0;
            &&& disconnect_spec(h, a, ap, b, bp).1 is Ok
            &&& disconnect_spec(h, a, ap, b, bp).0.wf()
            &&& disconnect_spec(h, a, ap, b, bp).0.port(a, ap).edge is None
            &&& disconnect_spec(h, a, ap, b, bp).0.port(b, bp).edge is None
        }),
{
    law_connect_links_ports(g, a, ap, b, bp);
    let h = connect_spec(g, a, ap, b, bp).0;
    assert(h.has_port(a, ap) && h.has_port(b, bp));
    let g1 = h.set_edge(a, ap, None);
    lemma_graph_with_port(h, a, ap, PortView { edge: None, ..h.port(a, ap) });
    let g2 = g1.set_edge(b, bp, None);
    lemma_graph_with_port(g1, b, bp, PortView { edge: None, ..g1.port(b, bp) });
    let g3 = g2.push_signal(a, ap, Signal::Disconnect);
    lemma_graph_with_port(g2, a, ap, PortView { signals: g2.port(a, ap).signals.push(Signal::Disconnect), ..g2.port(a, ap) });
    let g4 = g3.push_signal(b, bp, Signal::Disconnect);
    lemma_graph_with_port(g3, b, bp, PortView { signals: g3.port(b, bp).signals.push(Signal::Disconnect), ..g3.port(b, bp) });
}

/// `connect` of two different ports: each names the other, each receives exactly one
/// `Signal::Connect` after the signals it had, and every other port is unchanged.
pub proof fn law_connect_signals_both<T>(g: GraphView<T>, a: NodeId, ap: PortId, b: NodeId, bp: PortId)
    requires
        g.wf(),
        g.has_port(a, ap),
        g.has_port(b, bp),
        !(a == b && ap == bp),
    ensures
        ({
            let h = connect_spec(g, a, ap, b, bp).0;
            &&& connect_spec(g, a, ap, b, bp).1 is Ok
            &&& h.port(a, ap).signals == g.port(a, ap).signals.push(Signal::Connect)
            &&& h.port(b, bp).signals == g.port(b, bp).signals.push(Signal::Connect)
            &&& h.port(a, ap).edge == Some((b, bp))
            &&& h.port(b, bp).edge == Some((a, ap))
            &&& forall|m: NodeId, q: PortId|
                g.has_port(m, q) && !(m == a && q == ap) && !(m == b && q == bp) ==> #[trigger] h.port(m, q) == g.port(m, q)
        }),
{
    let g1 = g.set_edge(a, ap, Some((b, bp)));
    lemma_graph_with_port(g, a, ap, PortView { edge: Some((b, bp)), ..g.port(a, ap) });
    let g2 = g1.set_edge(b, bp, Some((a, ap)));
    lemma_graph_with_port(g1, b, bp, PortView { edge: Some((a, ap)), ..g1.port(b, bp) });
    let g3 = g2.push_signal(a, ap, Signal::Connect);
    lemma_graph_with_port(g2, a, ap, PortView { signals: g2.port(a, ap).signals.push(Signal::Connect), ..g2.port(a, ap) });
    lemma_graph_with_port(g3, b, bp, PortView { signals: g3.port(b, bp).signals.push(Signal::Connect), ..g3.port(b, bp) });
}

/// `disconnect` of two different ports: neither has an edge afterwards, each receives exactly
/// one `Signal::Disconnect` after the signals it had, and every other port is unchanged.
pub proof fn law_disconnect_signals_both<T>(g: GraphView<T>, a: NodeId, ap: PortId, b: NodeId, bp: PortId)
    requires
        g.wf(),
        g.has_port(a, ap),
        g.has_port(b, bp),
        !(a == b && ap == bp),
    ensures
        ({
            let h = disconnect_spec(g, a, ap, b, bp).0;
            &&& disconnect_spec(g, a, ap, b, bp).1 is Ok
            &&& h.port(a, ap).signals == g.port(a, ap).signals.push(Signal::Disconnect)
            &&& h.port(b, bp).signals == g.port(b, bp).signals.push(Signal::Disconnect)
            &&& h.port(a, ap).edge is None
            &&& h.port(b, bp).edge is None
            &&& h.port(a, ap).buffer == g.port(a, ap).buffer
            &&& h.port(b, bp).buffer == g.port(b, bp).buffer
            &&& forall|m: NodeId, q: PortId|
                g.has_port(m, q) && !(m == a && q == ap) && !(m == b && q == bp) ==> #[trigger] h.port(m, q) == g.port(m, q)
        }),
{
    let g1 = g.set_edge(a, ap, None);
    lemma_graph_with_port(g, a, ap, PortView { edge: None, ..g.port(a, ap) });
    let g2 = g1.set_edge(b, bp, None);
    lemma_graph_with_port(g1, b, bp, PortView { edge: None, ..g1.port(b, bp) });
    let g3 = g2.push_signal(a, ap, Signal::Disconnect);
    lemma_graph_with_port(g2, a, ap, PortView { signals: g2.port(a, ap).signals.push(Signal::Disconnect), ..g2.port(a, ap) });
    lemma_graph_with_port(g3, b, bp, PortView { signals: g3.port(b, bp).signals.push(Signal::Disconnect), ..g3.port(b, bp) });
}

/// After `connect` and then `disconnect` of two different ports, each port's signals end with
/// `Signal::Connect` followed by `Signal::Disconnect`.
pub proof fn law_connect_then_disconnect_signals<T>(g: GraphView<T>, a: NodeId, ap: PortId, b: NodeId, bp: PortId)
    requires
        g.wf(),
        g.has_port(a, ap),
        g.has_port(b, bp),
        !(a == b && ap == bp),
    ensures
        ({
            let h = connect_spec(g, a, ap, b, bp).0;
            let k = disconnect_spec(h, a, ap, b, bp).0;
            &&& k.port(a, ap).signals == g.port(a, ap).signals.push(Signal::Connect).push(Signal::Disconnect)
            &&& k.port(b, bp).signals == g.port(b, bp).signals.push(Signal::Connect).push(Signal::Disconnect)
        }),
{
    law_connect_signals_both(g, a, ap, b, bp);
    law_connect_links_ports(g, a, ap, b, bp);
    let h = connect_spec(g, a, ap, b, bp).0;
    assert(h.has_port(a, ap) && h.has_port(b, bp));
    law_disconnect_signals_both(h, a, ap, b, bp);
}

/// A write that succeeds adds its bytes to the end of the buffer of the port at the other end
/// of the edge, and changes no other buffer.
pub proof fn law_write_appends<T>(g: GraphView<T>, n: NodeId, p: PortId, bytes: Seq<u8>)
    requires
        g.wf(),
        write_spec(g, n, p, bytes).1 is Ok,
    ensures
        ({
            let e = g.port(n, p).edge->Some_0;
            let h = write_spec(g, n, p, bytes).0;
            &&& h.wf()
            &&& g.has_port(e.0, e.1)
            &&& h.port(e.0, e.1).buffer == g.port(e.0, e.1).buffer + bytes
            &&& forall|m: NodeId, q: PortId| #[trigger] h.has_port(m, q) == g.has_port(m, q)
            &&& forall|m: NodeId, q: PortId|
                g.has_port(m, q) ==> #[trigger] h.port(m, q).edge == g.port(m, q).edge && h.port(m, q).meta == g.port(m, q).meta
            &&& forall|m: NodeId, q: PortId|
                g.has_port(m, q) && !(m == e.0 && q == e.1) ==> #[trigger] h.port(m, q).buffer == g.port(m, q).buffer
            &&& h.port(e.0, e.1).signals == g.port(e.0, e.1).signals.push(Signal::Write)
            &&& forall|m: NodeId, q: PortId|
                g.has_port(m, q) && !(m == e.0 && q == e.1) ==> #[trigger] h.port(m, q).signals == g.port(m, q).signals
        }),
{
    let e = g.port(n, p).edge->Some_0;
    let g1 = g.append(e.0, e.1, bytes);
    lemma_graph_with_port(g, e.0, e.1, PortView { buffer: g.port(e.0, e.1).buffer + bytes, ..g.port(e.0, e.1) });
    lemma_graph_with_port(
        g1,
        e.0,
        e.1,
        PortView { signals: g1.port(e.0, e.1).signals.push(Signal::Write), ..g1.port(e.0, e.1) },
    );
}

/// What is written on one port of a connection is what is read on the other: after `connect`
/// of two ports that carry the same type of data, a `write` of `data` on the first port leaves,
/// on the second port that had nothing waiting, bytes that `read` gives back as `data`.
pub proof fn law_read_gives_back_write<T, D: ByteConvertible>(
    g: GraphView<T>,
    a: NodeId,
    ap: PortId,
    b: NodeId,
    bp: PortId,
    data: Seq<D>,
)
    requires
        g.wf(),
        g.has_port(a, ap),
        g.has_port(b, bp),
        g.port(a, ap).meta.ty == g.port(b, bp).meta.ty,
        g.port(b, bp).buffer.len() == 0,
    ensures
        ({
            let ty = g.port(a, ap).meta.ty;
            let h = connect_spec(g, a, ap, b, bp).0;
            let k = write_as_spec(h, a, ap, ty, bytes_of(data)).0;
            &&& write_as_spec(h, a, ap, ty, bytes_of(data)).1 is Ok
            &&& k.port(b, bp).buffer.len() % D::byte_size() == 0
            &&& graph_read_spec::<T, D>(k, b, bp, ty).1 == Ok::<Seq<D>, Error>(data)
        }),
{
    law_connect_links_ports(g, a, ap, b, bp);
    let h = connect_spec(g, a, ap, b, bp).0;
    assert(h.has_port(b, bp) && h.has_port(a, ap));
    assert(h.port(a, ap).buffer == g.port(a, ap).buffer);
    assert(h.port(b, bp).buffer == g.port(b, bp).buffer);
    assert(h.port(a, ap).meta == g.port(a, ap).meta);
    assert(h.locate(a, ap) is Ok);
    law_write_appends(h, a, ap, bytes_of(data));
    let k = write_spec(h, a, ap, bytes_of(data)).0;
    assert(k.has_port(b, bp));
    assert(k.port(b, bp).meta == h.port(b, bp).meta);
    assert(h.port(b, bp).meta == g.port(b, bp).meta);
    assert(k.port(b, bp).buffer =~= bytes_of(data));
    crate::context::law_items_of_bytes_of(data);
    D::lemma_encoding(arbitrary());
    vstd::arithmetic::div_mod::lemma_mod_multiples_basic(data.len() as int, D::byte_size() as int);
}

/// Writes arrive in the order in which they were made: two writes that succeed on the same port
/// add their bytes one after the other.
pub proof fn law_writes_keep_order<T>(g: GraphView<T>, n: NodeId, p: PortId, x: Seq<u8>, y: Seq<u8>)
    requires
        g.wf(),
        write_spec(g, n, p, x).1 is Ok,
    ensures
        ({
            let e = g.port(n, p).edge->Some_0;
            let h = write_spec(g, n, p, x).0;
            &&& write_spec(h, n, p, y).1 is Ok
            &&& write_spec(h, n, p, y).0.port(e.0, e.1).buffer == g.port(e.0, e.1).buffer + x + y
        }),
{
    law_write_appends(g, n, p, x);
    let h = write_spec(g, n, p, x).0;
    let e = g.port(n, p).edge->Some_0;
    assert(h.has_port(n, p) && h.has_port(e.0, e.1));
    assert(h.port(n, p).edge == g.port(n, p).edge);
    law_write_appends(h, n, p, y);
}


/// The graph after `add_node` with metadata named `name` and the module `module`: one more node,
/// last, with the next identifier and no ports.
pub open spec fn add_node_spec<T>(g: GraphView<T>, name: Seq<char>, module: T) -> GraphView<T> {
    GraphView {
        next_id: g.next_id + 1,
        nodes: g.nodes.push(
            NodeView { ifc: InterfaceView { id: NodeId(g.next_id as usize), name, ports: Seq::empty() }, module },
        ),
    }
}

/// Removing the node that was just added hands it back and leaves the nodes as they were before.
pub proof fn law_remove_undoes_add<T>(g: GraphView<T>, name: Seq<char>, module: T)
    requires
        g.wf(),
        g.next_id < usize::MAX,
    ensures
        ({
            let id = NodeId(g.next_id as usize);
            let h = add_node_spec(g, name, module);
            &&& !g.contains(id)
            &&& h.contains(id)
            &&& h.node(id) == (NodeView { ifc: InterfaceView { id, name, ports: Seq::empty() }, module })
            &&& h.nodes.remove(h.index(id)) == g.nodes
        }),
{
    let id = NodeId(g.next_id as usize);
    let h = add_node_spec(g, name, module);
    if g.contains(id) {
        let j = g.ids().index_of(id);
        assert(g.ids()[j] == id);
        assert(g.nodes[j].ifc.id.0 < g.next_id);
    }
    assert(h.ids() =~= g.ids().push(id));
    lemma_node_index(h, id, g.nodes.len() as int);
    assert(h.nodes.remove(g.nodes.len() as int) =~= g.nodes);
}

} // verus!
