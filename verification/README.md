# dataflow

A library for dataflow computation, verified with Verus. A graph holds nodes, nodes hold ports,
and ports are connected one to one; data written to a port arrives at the port at the other end
of its connection and is read there first in, first out.

Layout:

- `src/lib.rs`: the graph of modules (`Graph`, `Node`, `Interface`, `Port`, `MetaModule`,
  `MetaPort`), with connections, signals and typed reads and writes, and the laws that tie them
  together (a read gives back what was written, writes keep their order, `disconnect` unlinks
  what `connect` linked, removing a node that was just added restores the graph).
- `src/encoding.rs`: little-endian encoding of integers and of sequences of fixed-width items.
- `src/context.rs`: `ByteConvertible` values, and typed access of a node to its ports.
- `src/graph/`: a graph of nodes with fixed input and output ports.
- `src/supervisor.rs`: byte-level access of node threads to such a graph.
- `src/sync_graph.rs`: a graph whose nodes carry growable lists of ports, with connections
  recorded on both ends.
- `app/`: what cannot be verified: locks, condition variables and thread wake-ups, module
  constructors, float and complex samples, and serde copies of the graph's structure.
