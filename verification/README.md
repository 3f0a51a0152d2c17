# geometry-kernel

A deterministic planar geometry kernel (polygon area, canonicalisation,
noding, polygonisation, intersection and difference, polygon and line
buffering), split in two:

- `src/` is the verified core, written in Verus. It holds every step whose
  behaviour does not depend on floating-point arithmetic: the option and
  result enums and the error type, the vertex-deletion passes that simplify
  buffer input, the face walks over planar arrangements and half-edge
  graphs, the stable ordering of neighbour lists by integer keys and of
  rings and polygons by a comparison, the scans over coordinate sequences
  (dropping repeats, trimming and closing rings, picking an extreme vertex,
  walking to its nearest distinct neighbours, rotating a ring), the
  assignment of holes to the smallest shell around them, and the choice of
  the noded edges that bound an overlay result. Where such a step needs a geometric test,
  it takes the test as a closure and its contract speaks of the closure's
  answers.
- `app/` holds the operations on `f64` coordinates around that core, the
  GEOS reference backend and the WebAssembly bindings. It calls into the
  library for the index-level steps.

`tests/` exercises the library on concrete values.
