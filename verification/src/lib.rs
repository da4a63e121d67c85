//! Voronoi and Delaunay tessellations on the sphere: the combinatorial core.
//!
//! Every structure here is built from integer indices into a list of sites
//! (or into a list of cell centres); the spherical geometry that decides
//! orientation, distances and coordinates is supplied by the caller as plain
//! flags or ordering keys.
pub mod delaunay;
pub mod extent;
pub mod voronoi;
