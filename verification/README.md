# volare

A vehicle routing solver (CVRP, time windows, precedence between stops,
soft limits, optional customers) whose logic is proved with Verus.

## Layout

- `src/` — the verified library.
  - `types.rs`, `model.rs`: node and vehicle ids, the model and its builder
    (cost classes, dimensions with windows and soft limits, forbidden pairs,
    drop fees, precedence).
  - `eval.rs`: route evaluation against the model (`eval_route`,
    `walk_route`, `violations`) and the per-stop `Schedule`.
  - `search.rs`: the objective the search descends on — true cost plus
    guided-local-search arc penalties.
  - `operators.rs`: relocate, swap, 2-opt, or-opt and 2-opt*, each with a
    contract pinning the move it makes and what holds when it finds none.
  - `solver/`: construction (cheapest and seeded randomized insertion),
    the descent to a local optimum, guided local search, and `solve`.
    Each search entry point has a `_with` form that calls an observer as
    the search runs and a `_traced` form that appends the same events, in
    order, to a vector.
  - `text.rs`, `vrplib.rs`, `cvrplib.rs`: the VRPLIB / Solomon / `.sol`
    grammars, read from bytes into plain values.
- `tests/`: executable tests against the compiled library.
- `app/`: the unverified shell — coordinates and distances in floating
  point, file reading, benchmarks and timing logs.
