# monte_carlo_rs

Monte Carlo methods driven by a linear congruential generator.

- `src/` is the verified library: the generator `Lcg` (`rng.rs`), an exact
  integer model of the `f64` rounding its index draw goes through
  (`binary64.rs`), the loop bookkeeping and safety limit of the rejection
  samplers (`rejection.rs`) and the stratum share rule (`variance.rs`).
- `app/` holds the floating-point estimators (uniform sampling, importance
  and rejection sampling, integration, variance reduction) on top of it.
- `tests/` exercises the library.
