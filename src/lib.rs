//! Destructible 2D terrain geometry: a solid/empty raster is split into
//! connected clusters, each cluster is traced into boundary paths, the paths
//! are assembled into polygons, and triangulated polygons become the static
//! collision geometry of the terrain.
pub mod body;
pub mod clusters;
pub mod contour;
pub mod generation;
pub mod physics;
pub mod raster;
pub mod terrain;
pub mod triangles;
