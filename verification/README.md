# crdocs

A peer-to-peer collaborative text editor built on a sequence CRDT (LSEQ).

`src/` is the verified library:

- `lseq/` — the replicated text. `order` defines the order on identifier
  paths, `ident` allocates identifiers between two others, `lseq.rs` keeps the
  entries sorted and applies local and remote operations, `convergence` proves
  that replicas receiving the same operations in different orders agree, and
  `room` shows when a local insertion is always possible.
- `causal` — the causality barrier: version vectors with exceptions, and the
  operations held back until what they depend on has arrived.
- `editor` — what a local edit, a received operation, or a peer's request for
  missed operations does to a site's state.
- `signal` — the signalling server's bookkeeping of connected sites.
- `handshake` — the steps of the handshake that opens a direct connection.

`app/` holds the signalling server and the browser side (sockets, WebRTC,
storage, JSON), which call into the library.
