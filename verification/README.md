# lau-observation-control

Observation ⊣ Control: the observe–predict–control loop as an adjunction.

- `src/` is the verified library (Verus):
  - `computability`: finite bit sets (`FinSet`), grounding of scaled values into
    clamped little-endian codes and reading them back, with the round-trip laws.
  - `agent_loop`: the nine steps of the agent loop, their order and cycle laws,
    the cycle counter, the decision of what each step does, and the per-dimension
    decomposition of a belief.
  - `plato`: the dimensions of a PLATO system.
- `app/` holds the floating-point matrix algebra (Kalman filter, LQR, the
  adjunction, biduality, error correction, golden repair) built on `nalgebra`,
  which calls the library for the integer and scheduling parts.
- `tests/` exercises the library.
