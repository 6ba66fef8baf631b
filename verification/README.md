# fluqsr

Peer-to-peer file transfer on the local network: devices find each other over
a multicast beacon and mDNS, pair once by comparing a six-digit code derived
from both keys, and then send files over TLS, every incoming path checked
before anything is written.

## Layout

- `src/` is the library, written in Verus and verified: every function states
  what it does in its `requires`/`ensures`, and the laws the design rests on
  are proof functions beside the code they are about.
  - `paths`: validating and resolving incoming paths, free names for
    collisions.
  - `crypto`, `device`, `tls`: keys, fingerprints, pairing codes, this
    device's identity, and the identity a peer presents.
  - `trust`: the pinned keys and what they decide about a connection.
  - `discovery`: the peer registry and the announcements that feed it.
  - `protocol`: frames and control messages on the wire.
  - `transfer`: the transfer table, the approval gate, and the receiving and
    sending state machines.
  - `settings`, `commands`, `order`, `text`, `error`: the rest.
- `app/` is the program around the library: sockets, files, TLS sessions,
  the async tasks that drive the state machines, and the serialised forms of
  the library's types.
- `tests/` exercises the library on concrete values.

The outside crates the library calls (`sha2`, `rcgen`, `x509-parser`,
`uuid`, `blake3`) are reached through small trusted wrappers in `src/`, each
with a doc comment saying what its contract assumes.
