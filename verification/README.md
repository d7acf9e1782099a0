# lau-plato-nervous

The nervous system of PLATO: an event bus connecting monitoring rooms to
mathematical analysis (alert cohomology, event-history homology,
configuration categories, room sheaves, health bookkeeping, spectral
analysis, information geometry and optimal transport).

## Layout

- `src/` — the verified library (Verus). Everything combinatorial lives
  here with its contract: routing and filtering on the event bus, H⁰/H¹ of
  alert dependency graphs, Vietoris–Rips complexes with their boundary
  matrices, Betti numbers (ranks over GF(2) by verified elimination,
  `gf2.rs`) and dimension-0 barcodes, composition of
  reconfigurations, gluing of room sections, per-room measurement
  histories, and the index logic of alert spectra. Real-valued quantities
  travel as IEEE-754 binary64 bit patterns (`u64`); their order is
  specified in `binary64.rs`. Boundary matrices are held in nalgebra's
  `DMatrix<i32>` behind a small trusted interface (`matrix.rs`).
  Laws that span several functions are public proof functions named
  `law_*`.
- `app/` — ordinary Rust around the library: serde mirrors of the library's
  types (with `From` both ways), the process-wide event counter, and every
  computation on `f64` (Fourier analysis, Markov-chain spectra, Fisher
  geometry, Sinkhorn transport, energy and entropy budgets, cheapest
  reconfiguration paths).
- `tests/` — executable tests of the library.
