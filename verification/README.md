# firewheel (verified core)

The logic of an audio graph engine, written in Verus and proved against
its contracts: the graph of nodes and edges, the buffer flags of a
compiled schedule, the event scheduler of the audio thread, the decisions
the processor makes for each node and block, the sampler's playback
bookkeeping, the musical transport's decisions and the worker pool.

Layout:

- `src/` — the verified library. Each module states its types' models and
  invariants as spec functions, and each public function's contract over
  them; laws that relate several functions are public proof functions.
  Calls into outside crates (`thunderdome`, `ahash`, `arrayvec`,
  `smallvec`) go through small trusted wrappers in `arena.rs`,
  `hashing.rs`, `clumps.rs` and `buffer_lists.rs`.
- `tests/` — tests of the library on concrete values.
- `app/` — ordinary Rust around the library: it runs the graph over
  blocks of samples and plays samples, moving `f32` data as the library's
  plans say.
