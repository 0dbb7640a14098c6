# oscen

A modular audio synthesis toolkit whose structural logic is proved with
Verus: which node runs when, where values flow, how ramps end, how MIDI
bytes decode, how compiled graphs lay out their memory.

## Layout

- `src/` — the library, verified.
  - `graph/topology.rs` — dependency sorting with feedback nodes, and the
    search for cycles that lack one.
  - `graph/connections.rs`, `graph/graph_impl.rs` — value-level
    connections, the node adjacency they induce, and the processing order
    of the nodes.
  - `graph/state.rs` — the state a graph's processing decides on: nodes and
    their slots, slot values, connections, event queues, ramps and
    processing order, with the invariant that a clean processing order
    respects every connection.
  - `graph/slots.rs` — the slot maps holding nodes, slot values, slot
    kinds, slot owners, connection lists and event queues, each with a contract over what
    it holds; keys travel as their `as_ffi` form.
  - `graph/ramps.rs` — value ramps in progress and their per-sample updates.
  - `graph/offline.rs` — the block schedule of offline rendering.
  - `graph/jit/` — the intermediate representation checks and the endpoint
    tables of compiled graphs; `jit/` — memory layout and errors.
  - `midi.rs` — MIDI message decoding and encoding, and a single voice.
  - `rack.rs`, `fil.rs`, `filters.rs`, `instruments.rs` — the module rack:
    modules, control table, delay lines and the builders that fill them.
  - `dispatch/` — endpoint kind markers for cross-rate connections.
  - `asset.rs` — the checks an audio buffer passes before it becomes an
    asset, its reordering to channel-major, and the publish decision.
  - `convolution.rs` — the stage split of an impulse response, the block
    schedules of the partitioned stages and their output positions, and the
    channel mapping of multi-channel responses.
- `app/` — the code around the library: signal processors and the frame
  loop that runs them, sample arithmetic, WAV input and output, resampling,
  event payloads and the realtime handoff.
- `tests/` — tests of the library.

Sample values are held in the library as binary32 bit patterns; every
floating-point operation happens in `app/`.

Left out: the machine-code generation of compiled graphs (its callbacks
work over raw pointers and its emitted code over binary32 arithmetic); the
library keeps what that generation decides on plain values, the memory
layout and the endpoint tables. Event queues hold event handles; the
payloads they stand for (binary32 values or shared objects behind
`dyn Any`) are kept in `app/`.
