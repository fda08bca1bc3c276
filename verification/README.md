# syncstate

Synchronises a key-value state between one master and any number of replicas.

- `src/` is the verified library (Verus): the `StateMap` with its history of diffs, the
  `Diff` type, remotes, and the decisions of the TCP state server and remote
  (`src/tcp`). `src/laws.rs` states and proves what holds across calls, such as a
  replica catching up with its master from the diff the master serves.
- `app/` is the transport around it: serde/bincode wire types, the TLS-over-TCP
  `TcpStateRemote` and `TcpStateServer`, user hooks, and text renderings.
- `tests/` exercises the library on concrete values.
