# norn-rs

A mesh router. Nodes are known by Ed25519 keys, from which their addresses
follow. They form three spanning trees, tell each other which nodes they reach
in cuckoo filters, and send packets on by hyperbolic distance, by filter, or by
the distance of keys. Packets may travel in onions, links may be masked, and
what nodes report of each other decides whom to trust with a route.

- `src/` is the library. All of it is verified with Verus: wire formats,
  filters, onions, key streams, the choice of trees and routes, the handlers of
  every message, and the upkeep of a node. Calls into cryptographic crates and
  random number generators stand behind small functions whose contracts say what
  is taken from those crates.
- `app/` is the daemon `nornd` and its client `nornctl`: sockets, files, timers,
  and the arithmetic on floating-point numbers.
- `tests/` runs the library.

The state of a node (`state::RouterState`) sends nothing itself. Each operation
queues the frames to send and the events that change the quality of a link; the
application carries them out.
