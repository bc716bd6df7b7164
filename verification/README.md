# forkserver_slopt

A forkserver fuzzer whose havoc mutations are scheduled by multi-armed
bandits: one bandit picks the mutation operator, and for each input-length
bucket and operator another bandit picks how many times the operator is
stacked. After each run the verdict of the fuzzer's feedback is credited to
the choices that produced the input.

## Layout

- `src/` is the verified library (Verus).
  - `slopt/mod.rs`: the `Bandit` trait, the scheduling metadata
    (`SloptMetadata`: length buckets, last choices, crediting a round).
  - `slopt/adwin.rs`, `slopt/adwin_model.rs`: the adaptive window (ADWIN) as an
    exponential histogram, and its model as a sequence of buckets that
    summarize the rewards the window holds.
  - `slopt/adsts.rs`: ADS-TS, whose arms keep an adaptive window each.
  - `slopt/ts.rs`, `slopt/ucb1.rs`, `slopt/klucb.rs`: the counters of the
    Thompson-sampling, UCB1 and KL-UCB bandits.
  - `mutator.rs`, `stage.rs`, `feedback.rs`: names, stacking rule and outcome
    of the scheduled mutator; the mutational stage; the crediting feedback.
- `app/` is the program: argument handling, the libafl components, the
  floating-point parts of the bandits (sampling, confidence bounds, the
  change test of the adaptive window) and serialization.
- `tests/` runs the library on concrete values.
