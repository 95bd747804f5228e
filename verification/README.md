# lau_cudaclaw_bridge

Bridge types between a math library ecosystem and a GPU command queue:
shaped unified-memory buffers, tensor layout conversions, math-operation
checks, grid boundaries, weight generation, graph traversal and benchmark
bookkeeping.

* `src/` is the library, verified with Verus: every function there carries a
  contract (`requires` / `ensures`) that Verus proves, and the `law_*` proof
  functions state properties that relate several functions (a breadth-first
  order is unique, transposing twice is the identity, and so on).
* `app/` is ordinary Rust around it: the environment probe, serde-enabled
  copies of the library's types, the floating-point kernels (matrix product,
  DFT, reductions, Laplacian, heat step, neural layers, PageRank), `nalgebra`
  matrix conversions, timing, and the `GpuDispatch` adapters.
* `tests/` exercises the library through its public API.
