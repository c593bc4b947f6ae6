# ribbonguard

A blocked approximate-membership filter with a skew-adaptive false-positive
suppressor, written in Verus. Every operation carries a contract over an
abstract model, and the library's central promise, no false negatives, is
proved both for the base filter and under adaptation.

Layout:

- `src/mixing.rs`: the splitmix64 finalizer and generator, with proofs that the
  finalizer is injective and that a generator never repeats a value within
  2^64 draws.
- `src/blocked.rs`: `BlockedFilter`, its model `FilterModel`, and the
  no-false-negative laws for inserts.
- `src/adaptive.rs`: `AdaptiveFilter`, its model `AdaptiveModel`, and the laws
  of the guard (bounded, first-in first-out, never suppressing a member that is
  never marked).
- `src/generators.rs`: distinct member and negative key generators (disjoint by
  a tag bit), uniform streams, and the integer part of a stream replay.
- `src/baseline.rs`: the `xorf` binary fuse filter used as the comparison
  baseline, and hit counting over probe streams.
- `app/`: the command-line runner (smoke check, benchmark, skew sweep), where
  the floating-point sampling, timing and reporting live.
