# spectral-fingerprint

Structural code similarity on abstract syntax trees.

- `src/` is the verified library (Verus): code graphs built from parent
  lists or S-expressions, with their adjacency matrix, degrees and
  Laplacian; node-level structural diffs and their report lines; the
  locality-sensitive bucket tables and the deterministic generator behind
  the projections; reading batches of functions and counting clusters of
  duplicate pairs.
- `app/` holds what is floating point (eigenvalue fingerprints, similarity
  scores, k-means, random projections, thresholds) and the serde/thiserror
  forms of the library's types.
- `tests/` exercises the library.
