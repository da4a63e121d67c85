//! Index structures of a Delaunay triangulation on the sphere.
pub mod edges;
pub mod find;
pub mod generate;
pub mod hull;
pub mod mesh;
pub mod neighbors;
pub mod polygons;
pub mod triangles;
pub mod urquhart;

use std::collections::HashMap;

use vstd::prelude::*;

use edges::edges;
use edges::edges_spec;
use hull::hull;
use hull::hull_outcome;
use neighbors::neighbors;
use neighbors::neighbors_spec;
use polygons::cycles_of;
use polygons::fan_cycles;

verus! {

/// A pair of site indices identifying an edge.
pub type EdgeIndex = (usize, usize);

/// Three site indices identifying a triangle.
pub type TriIndex = [usize; 3];

/// A triangulation needs at least two sites.
pub struct NotEnoughPointsError {}

/// The index structures of a spherical Delaunay triangulation.
pub struct Topology {
    /// The triangles, as triples of site indices.
    pub triangles: Vec<TriIndex>,
    /// The distinct edges of the triangles that are not flipped.
    pub edges: Vec<EdgeIndex>,
    /// For each site, the sites that follow it in its triangles.
    pub neighbors: HashMap<usize, Vec<usize>>,
    /// The hull, when the walk along the boundary succeeds.
    pub hull: Option<Vec<usize>>,
    /// For each site, the cycle of triangles around it.
    pub cycles: Vec<Vec<usize>>,
}

/// Builds the index structures of a triangulation of `npoints` sites;
/// `flipped[t]` tells whether triangle `t` has negative spherical excess.
/// Fewer than two sites make no triangulation.
pub fn topology(triangles: Vec<TriIndex>, flipped: &Vec<bool>, npoints: usize) -> (r: Result<Topology, NotEnoughPointsError>)
    requires
        flipped@.len() >= triangles@.len(),
        forall|t: int, j: int| 0 <= t < triangles@.len() && 0 <= j < 3 ==> #[trigger] triangles@[t][j] < npoints,
    ensures
        r is Err <==> npoints < 2,
        r matches Ok(topo) ==> {
            &&& topo.triangles@ == triangles@
            &&& topo.edges@ == edges_spec(triangles@, flipped@, npoints)
            &&& neighbors_spec(topo.neighbors@, triangles@, npoints)
            &&& hull_outcome(topo.hull, triangles@, flipped@)
            &&& cycles_of(topo.cycles@, triangles@, npoints)
        },
{
    if npoints < 2 {
        return Err(NotEnoughPointsError {});
    }
    let e = edges(triangles.as_slice(), npoints, flipped);
    let n = neighbors(triangles.as_slice(), npoints);
    let h = hull(&triangles, flipped);
    let c = fan_cycles(&triangles, npoints);
    Ok(Topology { triangles, edges: e, neighbors: n, hull: h, cycles: c })
}

} // verus!
