# d3_geo_voronoi_rs

Voronoi diagrams and Delaunay triangulations on the sphere.

The crate has two parts:

* `src/` is the verified library. It holds the combinatorial core of the
  spherical tessellation: the clean-up of the planar triangulation around the
  projection pivot, triangle lists, edges, neighbour tables, the hull walk,
  the Urquhart graph, the cycles of triangles around each site, the cell
  polygons and their meshes, and the nearest-site walk. Every function there
  carries a contract over integer indices and sequences, and the laws that
  relate them are proof functions (`lemma_*`). Geometry enters only as plain
  values handed in by the caller: orientation flags, and `u64` keys that order
  lengths and distances.
* `app/` wraps the library with the floating-point geometry (projection,
  cartesian coordinates, circumcentres, spherical excess, distances) and the
  `geo` / `d3_geo_rs` / `d3_delaunay_rs` types, and offers the `Delaunay` and
  `Voronoi` types built on top.

`tests/` exercises the verified functions on concrete inputs.

## Collections

Sets and maps keyed by pairs of site indices (`HashSet<(usize, usize)>`,
`HashMap<(usize, usize), _>`) were tried: with such keys Verus proves nothing
about an insert, neither membership of the inserted pair nor the length after
one insert, because vstd's key model covers integer keys. The library
therefore keys its maps by `usize` only. The set of edges is a vector without
repeats, in order of first appearance, checked through per-site lists of
larger ends; the boundary used by the hull walk is a `HashMap<usize,
Vec<usize>>` of outgoing sides with the list of their start vertices; the
triangles around each site are a vector per site; and the Urquhart pass finds
an edge through a `HashMap` keyed by its smaller end.
