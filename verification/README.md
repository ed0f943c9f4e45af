# lau_penrose_v2

A correlation engine for room signals ("PLATO rooms"): each room emits a
time series; pairs of rooms are correlated, the correlations are classified
into splines, the splines form a topology (neighbours, clusters, degree
centrality, bridge rooms), and a room's next value is predicted from its
correlated neighbours.

## Layout

- `src/` is the verified library (Verus). Measured values are a type
  parameter `F` of the data types, so the library holds and moves them but
  never computes with them.
  - `series.rs`: `TimeSeries<F>` (push, tail of the last `n` samples).
  - `matrix.rs`: `CorrelationMatrix<F>`, a square matrix indexed by room
    name whose `set` writes both `(a, b)` and `(b, a)`; laws on reading
    back what was stored and on symmetry.
  - `spline.rs`: `SplineType`, `Spline<F>` and the classification table
    from a coefficient band to a spline type.
  - `graph.rs`: the graph that splines draw, as mathematics: walks,
    connection, components, clusterings, bridges, and their laws.
  - `disjoint_sets.rs`: union-find with path compression.
  - `components.rs`: connected components computed with union-find and
    proved equal to the components of `graph.rs`.
  - `topology.rs`: `CorrelationTopology<F>`: neighbours, degree, clusters,
    most central room, bridge rooms, accuracy updates.
  - `name_order.rs`: the lexicographic order of room names (the order
    `String` compares in) and a verified sort.
  - `detector.rs`: `PenroseDetector<F>`: signals by room, room names in order, the aligned tails
    that a Pearson coefficient is computed from.
  - `predictor.rs`: `PenrosePredictor<F>`: the neighbour readings a
    prediction is weighted from.
- `app/` is ordinary Rust: the floating-point statistics (means, variances,
  Pearson and autocorrelation coefficients, thresholds, weighted averages),
  serialisable copies of the types, and the demonstration program.
- `tests/` runs the library with `F = f64`.
