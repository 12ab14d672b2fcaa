//! Integer core of a spatial-sampling and triangulation library: seed
//! derivation, the min-distance acceptance grid and greedy cull, grid
//! tilings and phase schedules, Bowyer–Watson Delaunay insertion, nearest-
//! site scans, rejection scatter, the candidate ordering used to make
//! parallel scatter deterministic, and the envelope-stage codes of the
//! WebAssembly surface. Geometric tests (distances, circumcircles, inside
//! tests) are made by the caller and handed in as closures.
pub mod seeds;
pub mod grid;
pub mod tiling;
pub mod delaunay;
pub mod order;
pub mod adsr;
pub mod nearest;
pub mod draws;
