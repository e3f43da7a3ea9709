# Loadpace

Adaptive client-side load balancing with bounded backpressure, as a verified
library. Each endpoint has a controller that learns how much concurrency the
endpoint sustains, paces requests toward it, and refuses work when its short
virtual queue is full.

## Layout

- `src/` is the library. Every item is verified with Verus. It reads no clock and
  never blocks: time is an argument. Rates and concurrencies are double-precision
  numbers that are computed on their bit patterns (`double`).
  - `controller`, with its parts `gcra`, `latency`, `gradient` and `probe`
  - `p2c`, the comparison of two sampled endpoints
  - `request`, `admission`, `execution`, `dns` and `errors`, the decisions of
    adapters
  - `simulator`, a deterministic run of a whole workload
  - `identity`, the identities of controllers
  - `laws`, what holds of every controller, and `history` and `samples`, what
    holds over any sequence of calls and of observed RTTs
  - `precision` and `powers`, how far rounded results are from exact ones
  - `entropy`, the calls into `rand`: the only code that is trusted
- `tests/` runs the library, and compares its arithmetic with the processor's.
- `app/` holds the adapters for Tokio, Tower and Rama, in ordinary Rust. Rama 0.4
  is not among the dependencies of `Cargo.toml`, because it needs a newer
  compiler; add it to build `rama_adapter` and `rama_dns`.

## Deployment scope

Loadpace coordinates trusted, cooperative clients that share private endpoints.
It is no authorization mechanism, quota, or protection of a public API.
