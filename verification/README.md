# KD-tree with verified contracts

A KD-tree over integer point coordinates, written in Verus. Every function
of the library states what it computes in `requires`/`ensures` contracts,
and Verus proves the code against them.

- `src/dataset.rs`: the dataset trait, `PointCloud` and `MatrixDataset`.
- `src/metric.rs`: L1, squared L2, L2-simple, SO2 (binary angles) and SO3.
- `src/result_set.rs`: bounded and unbounded collectors of search results.
- `src/search.rs`: the recursive search and what it establishes.
- `src/tree.rs`: building the static index, searches and box queries.
- `src/codec.rs`: the saved form of an index, writing and checked reading.
- `src/dynamic.rs`: the dynamic tree of logarithmically sized static indices
  with lazy removal and reactivation.
- `app/`: floating-point helpers, an error type with `Display`, and saving and
  loading through `std::io`.

Coordinates are `i32` and distances `i128`, so every distance is exact. L2
distances and radii are squared; radius membership is strict and box
membership inclusive.
The saved form of an index stores counts and point indices as little-endian
64-bit integers and coordinates as the little-endian bit patterns of the
doubles that equal them.
