# zkc_core

The backend of a zero-knowledge circuit compiler, verified with Verus: the
Core IR and its validation, the witness solver, the R1CS and Plonkish
lowerings, cost accounting, the Goldilocks and BN254 scalar fields, FFT,
Merkle commitments, a Fiat–Shamir transcript, FRI and a FRI-based STARK.

Layout:

- `src/` — the library. Every function carries a `requires`/`ensures`
  contract that Verus checks. Public proof functions named `law_*` state the
  library's cross-function properties: both lowerings accept exactly the
  witnesses whose assertions hold, R1CS fusion preserves satisfiability and
  never costs more, Plonkish gate fusion (`src/fusion.rs`) preserves
  satisfiability, a solved witness satisfies its lowering, the cost counts do
  not depend on the field, an honest Merkle path reaches the root, FRI is
  complete on low-degree inputs, decimal text round-trips, a zero corruption
  is the honest prover, the FRI and STARK verifiers accept exactly what
  their acceptance predicates describe, the transform and its inverse undo
  each other (on the subgroup and on cosets, `src/roundtrip.rs`), every
  nonzero Goldilocks element has an exact inverse (Fermat, from `7`
  generating the group), an honest STARK proof is accepted given the two
  facts about the constraint quotient its remaining checks rest on (the DEEP
  batch's low degree is proved, with polynomial division in
  `src/polynomial.rs`), and over Goldilocks every inverse FRI and the
  constraint quotient take exists.
- `tests/` — executable tests on concrete circuits and fields.
- `app/` — the command line: `prove` (Groth16 over BN254 through arkworks),
  `check` (solve and self-check a witness against either arithmetization) and
  `stats` (R1CS versus Plonkish cost), with JSON parsing and file I/O.

BN254 arithmetic is delegated to `ark-ff`/`ark-bn254` behind small trusted
wrappers in `src/bn254.rs`, each documented with what it assumes of the
outside code.
