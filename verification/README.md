# odis

Formal Concept Analysis with verified contracts: formal contexts read from
and written to the Burmeister format, derivation operators and closures,
iceberg concept lattices (TITANIC), the Duquenne–Guigues canonical basis,
attribute exploration as a step-wise state machine, posets and lattices,
graph colourings, alternating cycles and the SAT encoding used for order
dimension, and the DimDraw search for two linear extensions with few
agreements.

## Layout

- `src/` is the library. Every function in it carries a `requires` /
  `ensures` contract that Verus proves. Calls into `bit-set`, `splr` and the
  standard clock go through small trusted wrappers, each documented with
  what it claims of the outside code.
- `tests/` runs the library on concrete values.
- `app/` is ordinary Rust around the library: downloading contexts from the
  FCA repository (`reqwest`), the `rust_sugiyama` layout, the floating-point
  DimFlux model and coordinates, and the algorithm traits.
