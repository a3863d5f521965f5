# bevy_badnet

A networking plugin for Bevy: TCP sessions run by a background runtime, UDP
datagrams for frequent updates (a send that would block is retried up to three
times, an interrupted one until it goes through), and synchronization of entity state between
peers.

`src/` is the library, written in Verus and verified:

- `wire` — little-endian integers as bytes, and the lemmas that reading undoes writing.
- `session`, `version`, `channel` — the identifiers that travel on the wire.
- `messages` — why a connection ends, and the connection messages.
- `collections` — the `bevy_platform` hash maps that hold the library's tables, behind
  wrappers whose contracts name their contents.
- `context` — the main thread's table of connections and requested disconnections.
- `transport` — per-connection inboxes, send statistics, the TCP outbox and the UDP
  datagram being filled.
- `tcp` — the TCP framing: encoder, decoder, the runtime's per-client state, and the
  proofs that decoding gives back what was encoded.
- `runtime` — the TCP runtime's bookkeeping: slots for listeners and clients, the
  table from sessions to slots, and the clients still writing their last bytes,
  with a log of what it reports of each session, proved to come in connection order.
- `netsync` — the updates that local entities send and remote entities take in. A
  local entity writes each component entry with a two-byte channel, while a remote
  entity reads an eight-byte one; both sides keep that format, so an entry is not
  read back as written.
- `codec` — the traits by which components become bytes.

`app/` is the plugin around it: sockets, the poll loop of the TCP runtime, the ECS
systems, and the codecs over serde, ciborium and `f32` transforms.

`tests/` runs the library on concrete values.
