# rtfsn

The Relational Time-Frequency Synthesis Network: nodes measure each other's clocks
with four-timestamp exchanges, relate the measurements as twists around loops of the
peer graph, and publish a hash-linked stream of clock ticks, one per epoch.

## Layout

- `src/` is the verified library (Verus). Every function there carries a contract:
  - `types`, `bytes`, `num`, `assoc`, `display`: identifiers, byte order, integer
    helpers and the association lists the stores are built on;
  - `crypto`: hashing, signatures and the Ristretto group behind trusted wrappers of
    `blake3`, `ed25519-dalek`, `curve25519-dalek` and `sha2`; Pedersen commitments,
    range proofs, blinded identities with their Schnorr proofs of knowledge, and the
    hash-chain delay function;
  - `dht`: XOR routing tables and the expiring per-layer stores;
  - `epoch`: the epoch phase machine;
  - `holonomy`: measurements, loop holonomy, latency profiles, the prime-channel
    scheduler, the temporal fixed point and the defect analysis;
  - `layers`: peer-count proofs, cluster aggregation and the layer 3 clock stream;
  - `geoid`: region identities, geoid hashes and refinement schedules;
  - `net`, `node`: protocol messages and the daemon's decisions.
  The laws of the library are public proof functions beside the code they speak of.
- `tests/` exercises the library from outside.
- `app/` is the program around it: the daemon, the stats query, the two simulations,
  the browser bindings, and everything that computes in floating point or talks to
  the network (clock filters, coordinates, the geoid geometry, commitments to
  values quantised from floats, serde wire forms).
