# hyperpaths_rs

Optimal strategies for transit assignment (Spiess and Florian, 1989), built
on a verified integer arena.

The library under `src/` is verified:

- `solver.rs`: node interning (`intern`) and the immutable link graph
  `Graph<W>`: dense node ids in order of first appearance (stops first),
  link ends, the links entering each node, and a payload per link; and the
  filing of origin-destination entries into per-destination columns.
- `hyperpath_queue.rs`: `PriorityQueue`, an indexed binary min-heap of links
  keyed by `u64`, with in-place key updates; its contracts state the heap
  order, the exact slot layout after each operation (so ties are broken
  the same way every time), that `pop` yields a smallest key, and what
  every operation keeps;
  its laws state that draining a heap returns every entry once in key order,
  and that keys keep leaving in order when updates stay above the keys
  already popped.
- `hyperpath.rs`: `AttractiveSet`, the attractive links in acceptance order
  with one basket per node; `offer` decides step 1.3 of the search (closed
  node, no strict improvement, no-wait replacement, boarding link), and
  `verbose` reads the trace switch.

The label and volume arithmetic of the algorithm is floating point, which
the verified library does not hold; it lives in `app/`, which runs the
search and the demand loading on top of the library and keeps the string-keyed API
(`compute_sf`, `find_optimal_strategy`, `assign_demand`) and the arena API
(`Graph`, `Workspace`). Link times become heap keys through an
order-preserving map from `f64` to `u64` (`app/keys.rs`).

`tests/strategy.rs` runs the whole search and the loading on the library's
types and checks the worked example of the paper and a synthetic grid.
