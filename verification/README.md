# zenoh_net

The verified core of a zenoh router and of its CAN link, written in Verus.

`src/` is the library. Verus proves each of its functions against its contract.
The calls into the outside crates `rand`, `itertools`, `vec_map` and `vector-map`
stand behind small trusted wrappers, whose contracts state what those crates'
sources show and are believed rather than proved. A few functions that only
draw random values state no more than the range of what they return. The modules:

- `frame` — the CAN and CAN FD wire format: frame lengths, encoding a datagram
  into one frame, and deciding whether a received frame is delivered.
- `can_link` — the decisions of the CAN socket around each send, receive and open.
- `declare` — the declaration messages of the protocol and their random test values.
- `network` — link states and how a batch of them merges, the per-link identifier
  mappings, which nodes stay attached, routing trees and the next hop of a route.
- `routes` — which subscribers and queryables a resource has, how queryable
  information merges, which trees a route is computed over, and which queryables
  a query finally goes to.
- `restree` — the tree of resources keyed by their key-expression chunks, with its
  walks and its cleaning.
- `walker` — walkers over vectors, over `vector_map` maps (reading or changing values) and over its sets.
- `handover` — reading the handover prediction and the router behind each edge address.
- `probe` — reading one latency probe.
- `error` — the routing error.

`app/` is the program around it: the SocketCAN binding, the weighted routing graph
and its shortest paths, the probe receiver, and the text of errors.

`tests/` exercise the library on concrete values.
