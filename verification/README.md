# prime_spatial

Spatial sampling and triangulation, split in two:

- `src/` — the proved integer core:
  - `seeds`: the affine seed derivations used by the samplers (scatter,
    corner-fill, per-partition, per-level, per-tile and sheared-cell seeds),
    with proofs that partitions of one call get distinct seeds and that the
    scatter mix is injective.
  - `grid`: the min-distance acceptance grid (`AcceptGrid`): 5 × 5
    neighbourhood scans and recording of accepted points, with a proof that
    a scan reports every point recorded in its block; and `min_dist_cull`,
    the greedy cull over candidates with precomputed cells, which takes the
    distance test as a closure and is proved to have tested every pair of
    accepted candidates in neighbouring cells.
  - `tiling`: row-major cell addressing, the triangle tiling of a vertex grid,
    and the four-phase checkerboard schedule of tiles (every tile once,
    same-phase tiles at least two apart).
  - `delaunay`: the combinatorial half of Bowyer–Watson insertion (hole
    boundary, swap-removal of bad triangles, fan re-triangulation,
    super-triangle removal), with proofs that triangles stay proper, that no
    two share a vertex set, and that the output references input points only;
    `triangulate` runs the whole insertion sequence with the circumcircle test
    as a closure.
  - `nearest`: the nearest-site scan (ties keep the lower index), the
    nearest-and-second-nearest scan, and the grouping of candidates by site,
    with the distance comparison as a closure.
  - `draws`: which of a run of rejection-scatter draws are kept (the first
    `keep` that the inside test accepts).
  - `order`: the canonical bit-pattern order of candidates (merge sort).
  - `adsr`: envelope-stage codes of the WebAssembly surface.
- `app/` — the `f32` geometry (rays, boxes, frustums, samplers, splines,
  Voronoi queries, the circumcircle test) and the WebAssembly bindings. It
  calls into `src/` for seeds, cell addressing, the min-distance cull, the
  triangle tiling, the tile schedule, candidate order, the triangulation,
  nearest-site scans, rejection scatter and stage codes; small guards and
  counts that mix with `f32` values (input validation, candidate counts
  derived from `f32` ratios) stay in `app/`.
  `app/spatial.rs` holds the sequential samplers, which cull candidates in
  the order they were drawn; `app/sampling/` holds the parallel variants,
  which sort candidates before each cull.
- `tests/` — tests of the integer core.
