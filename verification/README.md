# conservation_spectral_v2

Spectral graph analysis: compressed-sparse-row graphs, column-major Laplacians,
eigendecompositions, conservation (alignment) reports, batch analysis and a
sliding-window tracker.

- `src/` is the verified library. It holds the structure of the computation,
  generic over the numeric type: the CSR layout of edge lists and dense
  transition matrices, vertex attributes, bit-packed adjacency, column-major
  indexing and tiling, eigen-result layout and reordering, the choice of
  eigen method, batch settings and the tracker's window and baseline.
- `app/` holds the `f64` arithmetic that runs on that structure: Laplacian
  construction, matrix-vector products (plain, tiled, SIMD), power and Lanczos
  iteration, conservation reports and anomaly detection.
- `tests/` exercises the library on concrete values.
