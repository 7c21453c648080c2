# rinha_fraud

A fraud-scoring backend built around an IVF (inverted file) index over
quantized 14-dimension transaction vectors. Each request is turned into a
vector, the nearest clusters of the index are probed, and the share of
fraud labels among the 5 nearest stored records decides the answer.

## Layout

- `src/` — the library, verified with Verus:
  - `kmeans.rs`: the seeded Mulberry32 generator, distinct draws (sampling
    and k-means seeding), nearest-centroid choice and per-cluster counts.
  - `nearest.rs`: bounded nearest-entry selection by shift insertion, with
    its rank-based specification.
  - `ivf_format.rs`: the binary index layout, header parsing and encoding,
    and the proof that an encoded index opens and reads back what was
    written.
  - `ivf.rs`: the memory-mapped index, its section accessors, the choice of
    clusters to probe and the fraud count among the nearest records.
  - `preprocess.rs`: scanning the labelled records out of the JSON bytes
    and grouping records by cluster.
  - `vectorize.rs`: timestamps (through chrono) and the known-merchant check.
- `app/` — the HTTP server (axum/tokio) and the build job
  (`<binary> preprocess`): file and network I/O and every f32 computation
  (distances, quantization, k-means means, vector scaling).
- `tests/` — tests of the library.
