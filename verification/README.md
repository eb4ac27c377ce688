# world

World generation on a hex lattice, verified with Verus.

`src/` is the verified library:

- `lattice`: the node lattice every outline is drawn on, hex distance, the
  decomposition of a displacement into two lattice directions, and the
  chain of nodes between two nodes, drawn in long runs, the same from
  either end, and never farther than `RUN_MIN` node steps from its line.
- `chains`: the rings of buckets a nearest-segment search widens through,
  and where a bucket is stored.
- `events`: the event layers' plain data, the deterministic thinning of
  candidate sites to a minimum spacing (`survey`, `spines`), and drainage:
  the reaches a routed river network breaks into, a cell's share of them,
  each node's base level source, a window's neighbour table, and the
  basins of closed ground with their sills (`basins`).
- `microplates`: the micro grid's chunk lattice and orphan correction,
  which keeps each plate's cells in one piece.
- `glacial`: what leaves a glacial bowl, and which part of overlapping
  bowls a point reads as.
- `noise`: the seeded integer hash the thinning draws priorities from.

`app/` holds what the library leaves out: positions in world units, the
segments of a chain and other floating-point arithmetic, and the glue
that hands the micro grid to orphan correction and a routed window to the
drainage functions.

`tests/` runs the library on concrete values.
