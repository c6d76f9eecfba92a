# chronos_vfs

A generative virtual file system: the bytes of a file are computed on demand
from a base seed instead of being stored. Every computed chunk is a run of
consecutive market ticks, derived deterministically from their logical index.

Layout:

- `src/` — the verified library (Verus):
  - `nvm_core.rs`: the power-of-two command ring and the batch executor, with
    the ring's first-in-first-out and capacity laws;
  - `consumer.rs`: the state engine (virtual nodes, tick derivation, command
    counting), the ring poller and the consumer loop's step;
  - `vfs.rs`: generative files and the file system that opens them, with the
    gap-free chunk law;
  - `server.rs`: request-line parsing, the response head, and the answer to a
    request as a whole (`handle_request`);
  - `aura_bridge.rs`, `workspace.rs`: intent nodes hashed with MD5, and a
    bounded workspace of nodes.
- `app/` — the program around it: the Tokio HTTP server, the asynchronous
  consumer loop, the memory-mapped mock NVM region, and the floating-point
  wire layout of a tick.
- `tests/` — tests of the library.
