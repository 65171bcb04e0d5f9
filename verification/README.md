# cellular_automata

Conway's Game of Life on the plane of `i32` coordinates, verified with Verus.

The board is sparse: it stores 64 x 64 chunks of cells, one `u64` per row,
in a hash map keyed by the Morton code of the chunk's index, and it keeps
the set of chunks that changed in the last generation. A generation step
only looks at the cells in and around the changed chunks, and runs the rule
for those candidates on the rayon thread pool.

Layout of `src/`:

- `coords.rs`: `Coord`, its split into chunk index and in-chunk offset
  (Euclidean division), its 8 neighbours.
- `morton.rs`: Morton encoding and decoding, proved to be inverse bijections
  between `(i32, i32)` and `u64`.
- `chunks.rs`: `Chunk`, a bit-packed 64 x 64 block; its model is the set of
  live local positions.
- `world.rs`: `World`; its model is the set of live cells, the stored chunk
  keys and the dirty chunk keys, with the invariant that no stored chunk is
  empty.
- `life_rule.rs`: `LifeRule::apply_into`, proved to compute Conway's rule on
  the candidate cells, and equal to the full next generation when every
  stored chunk is a seed.
- `engine.rs`: `Engine`, the state machine that the simulation thread drives:
  its commands and, each round, whether to compute a generation and how long
  to wait.
- `pattern.rs`: centring a pattern of cells and placing it on a board.

`app/` holds the program around the library: the egui interface, the
simulation thread with its command channel and sleeps, and the presets.
