# ordent

A hardware-quantized Kuramoto oscillator engine with Verus proofs.

Phases are Binary Angle Measurements in `u32`: a full turn is `2^32` units and
phase wrap-around is integer wrap-around. Oscillators live in an `ordex`
generational arena; coupling is given in Compressed Sparse Row form
(`target_nodes`, `edge_offsets`, `edge_counts`, `edge_sources`).

Layout:

- `src/bam.rs`: phase arithmetic (`advance_phase`, `phase_lag`) and its laws
  (shortest arc, rotation invariance, antisymmetry, composition of time steps).
- `src/arena.rs`: node handles and states, and the trusted interface to the
  `ordex` arena, seen as a map from handles to states.
- `src/engine.rs`: the engine. `begin_tick` integrates phases and gathers the
  per-edge phase lags; `finish_tick` adds the reduced per-target forces.
- `app/lib.rs`: the floating-point force model (Taylor sine, edge weights,
  per-target sums) and the full `tick`, built on the verified phases.
- `tests/`: tests of the verified library.
