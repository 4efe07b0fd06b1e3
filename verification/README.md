# meshcore

The sans-IO core of a Bluetooth LE mesh messenger, written in Verus: the library's code is
verified by Verus against `requires` / `ensures` contracts. The scenario runners in
`sim/scenarios` state what they measure of the world they end with (which nodes hold which
message, the repeated deliveries, the decrypted texts), for every outcome of the seeded random
draws; whether a particular seed delivers is checked by the tests.

## Layout

- `src/` — the verified library.
  - `wire`, `frag`, `payload`, `compress`: the packet codec, link-frame fragmentation and
    reassembly, payload encodings, and the LZ4 framing with its decompression caps.
  - `identity` (with `identity/pow`): keys, ephemeral wire ids, the fingerprint and the
    hashcash identity mint.
  - `relay`: the dedup cache, the per-sender rate limiter, rebroadcast probability and the
    suppression scheduler.
  - `channels`, `store`: channel names, digest-set reconciliation, and the storage trait with
    an in-memory store (retention window, count caps, store-and-forward envelopes).
  - `noise`: the Noise XX session state machine over `snow`.
  - `node`: the mesh node itself, a state machine fed transport events and timer ticks.
  - `sim` (with `sim/topology`, `sim/union_find`, `sim/scenarios`): the deterministic
    multi-node simulator and its scenarios.
  - `ffi`: the flat event surface the platform bindings present.
  - `crypto`, `text`, `random`, `bytes`, `clock`, `config`, `error`, `fpmap`, `transport`:
    support modules; the calls into outside crates sit behind small trusted wrappers in
    `crypto`, `text`, `random`, `compress` and `noise`, each with its contract in a doc comment.
- `tests/` — integration tests against the library.
- `app/` — ordinary Rust around the library: the simulator CLI, the floating-point broadcast
  scenario, the SQLCipher store, error types with `thiserror`, and the platform-facing node
  wrapper.
