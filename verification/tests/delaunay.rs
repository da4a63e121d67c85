use d3_geo_voronoi_rs::delaunay::edges::edges;
use d3_geo_voronoi_rs::delaunay::find::find;
use d3_geo_voronoi_rs::delaunay::find::find_step;
use d3_geo_voronoi_rs::delaunay::generate::clean_triangulation;
use d3_geo_voronoi_rs::delaunay::generate::is_well_formed;
use d3_geo_voronoi_rs::delaunay::generate::Triangulation;
use d3_geo_voronoi_rs::delaunay::generate::EMPTY;
use d3_geo_voronoi_rs::delaunay::hull::hull;
use d3_geo_voronoi_rs::delaunay::mesh::mesh;
use d3_geo_voronoi_rs::delaunay::neighbors::geo_neighbors;
use d3_geo_voronoi_rs::delaunay::neighbors::neighbors;
use d3_geo_voronoi_rs::delaunay::polygons::cell_sites;
use d3_geo_voronoi_rs::delaunay::polygons::center_eq;
use d3_geo_voronoi_rs::delaunay::polygons::fan_cycles;
use d3_geo_voronoi_rs::delaunay::polygons::gen;
use d3_geo_voronoi_rs::delaunay::polygons::supplement;
use d3_geo_voronoi_rs::delaunay::polygons::two_cycle_corners;
use d3_geo_voronoi_rs::delaunay::topology;
use d3_geo_voronoi_rs::delaunay::triangles::geo_triangles;
use d3_geo_voronoi_rs::delaunay::triangles::triangles;
use d3_geo_voronoi_rs::delaunay::urquhart::urquhart;

/// A centre with three horizon points around it, as delaunator lays out
/// its half-edges: each triangle has exactly one hull side.
fn star() -> Triangulation {
    Triangulation {
        triangles: vec![2, 3, 0, 3, 4, 0, 4, 2, 0],
        halfedges: vec![EMPTY, 5, 7, EMPTY, 8, 1, EMPTY, 2, 4],
        inedges: vec![EMPTY; 5],
    }
}

#[test]
fn clean_up_collapses_hull_triangles() {
    let mut t = star();
    assert!(is_well_formed(&t, 0));
    let degenerate = clean_triangulation(&mut t, 0, 5);
    assert_eq!(degenerate, vec![0, 3, 6]);
    assert_eq!(t.triangles, vec![0; 9]);
    assert_eq!(t.halfedges, vec![EMPTY; 9]);
    assert_eq!(t.inedges, vec![6, EMPTY, 6, EMPTY, EMPTY]);
}

#[test]
fn clean_up_moves_horizon_vertices_to_the_pivot() {
    // Two interior triangles (no hull side) over sites 0, 1 and horizon 2.
    let mut t = Triangulation {
        triangles: vec![0, 1, 2, 1, 0, 2],
        halfedges: vec![3, 7, 8, 0, 5, 4, 6, 1, 2],
        inedges: vec![EMPTY; 5],
    };
    t.triangles.extend([1, 2, 0]);
    t.halfedges = vec![3, 7, 8, 0, 5, 4, 6, 1, 2];
    let degenerate = clean_triangulation(&mut t, 1, 5);
    assert!(degenerate.is_empty());
    assert_eq!(t.triangles, vec![0, 1, 1, 1, 0, 1, 1, 1, 0]);
}

#[test]
fn two_hull_sides_in_one_triangle_are_not_well_formed() {
    let t = Triangulation {
        triangles: vec![0, 1, 2, 0, 2, 3],
        halfedges: vec![EMPTY, EMPTY, 3, 2, EMPTY, EMPTY],
        inedges: vec![EMPTY; 4],
    };
    assert!(!is_well_formed(&t, 0));
}

#[test]
fn triangles_drop_collapsed_and_reverse() {
    let t = Triangulation {
        triangles: vec![0, 1, 2, 5, 5, 5, 2, 3, 3, 3, 1, 4, 9],
        halfedges: vec![],
        inedges: vec![],
    };
    assert_eq!(triangles(&t), vec![[0, 2, 1], [3, 4, 1]]);
    assert_eq!(geo_triangles(&t), vec![[0, 2, 1], [3, 4, 1]]);
}

#[test]
fn edges_of_a_square() {
    let tris = vec![[0, 1, 2], [0, 2, 3]];
    let e = edges(&tris, 4, &vec![false, false]);
    assert_eq!(e, vec![(0, 1), (1, 2), (0, 2), (2, 3), (0, 3)]);
}

#[test]
fn edges_skip_flipped_and_collapsed_triangles() {
    let tris = vec![[0, 1, 2], [1, 1, 3], [0, 2, 3]];
    let e = edges(&tris, 4, &vec![true, false, false]);
    assert_eq!(e, vec![(0, 2), (2, 3), (0, 3)]);
}

#[test]
fn edges_of_two_sites() {
    assert_eq!(edges(&[], 2, &vec![]), vec![(0, 1)]);
    assert_eq!(edges(&[], 1, &vec![]), Vec::<(usize, usize)>::new());
}

#[test]
fn hull_of_a_square() {
    let tris = vec![[0, 1, 2], [0, 2, 3]];
    let h = hull(&tris, &vec![false, false]).unwrap();
    assert_eq!(h, vec![3, 0, 1, 2]);
}

#[test]
fn hull_of_a_closed_surface_is_empty() {
    let tris = vec![[0, 1, 2], [0, 2, 3], [0, 3, 1], [1, 3, 2]];
    let h = hull(&tris, &vec![false; 4]).unwrap();
    assert!(h.is_empty());
}

#[test]
fn hull_walks_the_remaining_cycles() {
    // Only the middle triangle counts: its three sides are the boundary.
    let tris = vec![[0, 4, 2], [2, 3, 1], [0, 2, 4]];
    assert_eq!(hull(&tris, &vec![true, false, true]), Some(vec![1, 2, 3]));
    let tris = vec![[5, 6, 7], [0, 2, 9]];
    // Two separate triangles: the walk follows the one it starts on.
    assert_eq!(hull(&tris, &vec![false, false]), Some(vec![9, 0, 2]));
}

#[test]
fn hull_leaves_flipped_triangles_out() {
    let tris = vec![[0, 1, 2], [0, 2, 3]];
    let h = hull(&tris, &vec![false, true]).unwrap();
    assert_eq!(h, vec![2, 0, 1]);
}

#[test]
fn neighbors_follow_triangle_sides() {
    let tris = vec![[0, 1, 2], [0, 2, 3]];
    let n = neighbors(&tris, 4);
    assert_eq!(n.len(), 4);
    assert_eq!(n[&0], vec![1, 2]);
    assert_eq!(n[&1], vec![2]);
    assert_eq!(n[&2], vec![0, 3]);
    assert_eq!(n[&3], vec![0]);
    assert_eq!(geo_neighbors(&tris, 4), n);
}

#[test]
fn neighbors_of_two_sites() {
    let n = neighbors(&[], 2);
    assert_eq!(n.len(), 2);
    assert_eq!(n[&0], vec![1]);
    assert_eq!(n[&1], vec![0]);
    assert!(neighbors(&[], 3).is_empty());
}

#[test]
fn neighbors_of_one_site_with_triangles() {
    let n = neighbors(&[[0, 1, 2]], 1);
    assert_eq!(n[&0], Vec::<usize>::new());
    assert_eq!(n[&1], vec![2]);
    assert_eq!(n[&2], vec![0]);
}

#[test]
fn mesh_lists_increasing_sides() {
    let polys = vec![vec![0, 1, 2], vec![3, 2, 5]];
    assert_eq!(mesh(&polys), vec![[0, 1], [1, 2], [2, 5]]);
}

#[test]
fn mesh_of_an_empty_polygon_is_empty() {
    let polys = vec![vec![0, 1, 2], vec![]];
    assert!(mesh(&polys).is_empty());
}

#[test]
fn urquhart_drops_longest_sides() {
    let e = vec![(0, 1), (1, 2), (0, 2)];
    let tris = vec![[0, 1, 2]];
    // The side (1, 2) is the longest.
    assert_eq!(urquhart(&e, &tris, &vec![10, 14, 10]), vec![true, false, true]);
    // Equal longest sides: the first one met is dropped.
    assert_eq!(urquhart(&e, &tris, &vec![14, 14, 10]), vec![false, true, true]);
    // Nothing longer than zero: nothing dropped.
    assert_eq!(urquhart(&e, &tris, &vec![0, 0, 0]), vec![true, true, true]);
}

#[test]
fn urquhart_of_a_square() {
    let tris = vec![[0, 1, 2], [0, 2, 3]];
    let e = edges(&tris, 4, &vec![false, false]);
    // Lengths of (0,1), (1,2), (0,2), (2,3), (0,3): the diagonal is longest.
    let u = urquhart(&e, &tris, &vec![10, 10, 14, 10, 10]);
    assert_eq!(u, vec![true, true, false, true, true]);
}

#[test]
fn fan_cycles_of_a_closed_surface() {
    let tris = vec![[0, 1, 2], [0, 2, 3], [0, 3, 1], [1, 3, 2]];
    let c = fan_cycles(&tris, 4);
    assert_eq!(c[0], vec![0, 1, 2, 0]);
    assert_eq!(c.len(), 4);
    for cycle in &c {
        assert_eq!(cycle.len(), 4);
        assert_eq!(cycle[0], cycle[3]);
    }
}

#[test]
fn fan_cycles_of_an_open_fan() {
    let tris = vec![[0, 1, 2], [0, 2, 3]];
    let c = fan_cycles(&tris, 5);
    assert_eq!(c[0], vec![0, 1]);
    assert_eq!(c[2], vec![0]);
    assert!(c[4].is_empty());
}

#[test]
fn supplement_reuses_added_centres() {
    let mut centers = vec![(1, 1), (2, 2)];
    assert_eq!(supplement((1, 1), &mut centers, 2), 2);
    assert_eq!(centers, vec![(1, 1), (2, 2), (1, 1)]);
    assert_eq!(supplement((1, 1), &mut centers, 2), 2);
    assert_eq!(supplement((3, 3), &mut centers, 2), 3);
    assert_eq!(centers.len(), 4);
}

#[test]
fn gen_closes_two_triangle_cycles() {
    let cycles = vec![vec![0, 1], vec![0, 1, 0], vec![0]];
    let centers = vec![(10, 10), (20, 20)];
    let mids = vec![Some(((7, 7), (8, 8))), None, None];
    let (polys, cs) = gen(cycles, centers, 2, 3, &mids, None);
    assert_eq!(polys, vec![vec![0, 3, 1, 2], vec![0, 1, 0], vec![]]);
    assert_eq!(cs, vec![(10, 10), (20, 20), (7, 7), (8, 8)]);
}

#[test]
fn gen_two_hemispheres() {
    let corners = [(1, 1), (2, 2), (3, 3), (4, 4)];
    let (polys, cs) = gen(vec![vec![], vec![]], vec![], 0, 2, &vec![None, None], Some(corners));
    assert_eq!(polys, vec![vec![0, 1, 2, 3], vec![3, 2, 1, 0]]);
    assert_eq!(cs, vec![(1, 1), (2, 2), (3, 3), (4, 4)]);
}

#[test]
fn gen_without_triangles() {
    let (polys, cs) = gen(vec![vec![], vec![], vec![]], vec![], 0, 3, &vec![None, None, None], None);
    assert!(polys.is_empty());
    assert!(cs.is_empty());
}

#[test]
fn topology_needs_two_sites() {
    assert!(topology(vec![], &vec![], 1).is_err());
    assert!(topology(vec![], &vec![], 0).is_err());
    let t = topology(vec![[0, 1, 2], [0, 2, 3]], &vec![false, false], 4).ok().unwrap();
    assert_eq!(t.edges.len(), 5);
    assert_eq!(t.hull, Some(vec![3, 0, 1, 2]));
    assert_eq!(t.cycles[0], vec![0, 1]);
    assert_eq!(t.neighbors[&0], vec![1, 2]);
}

#[test]
fn find_step_takes_the_last_improvement() {
    let row = vec![4, 7, 9];
    assert_eq!(find_step(&row, 100, &vec![50, 60, 40]), Some(9));
    assert_eq!(find_step(&row, 100, &vec![50, 40, 60]), Some(7));
    assert_eq!(find_step(&row, 10, &vec![50, 40, 60]), None);
}

#[test]
fn find_walks_to_a_cell_without_nearer_neighbours() {
    // Rows: 0 -> [1], 1 -> [2, 2], 2 -> [0, 3], 3 -> [1]; the point is
    // nearest site 2.
    let tris = vec![[0, 1, 2], [1, 2, 3]];
    let n = neighbors(&tris, 4);
    let dists = vec![40, 30, 10, 20];
    assert_eq!(find(&n, &dists, 0), 2);
    // Site 3 only lists site 1, which is farther: the walk stays.
    assert_eq!(find(&n, &dists, 3), 3);
    assert_eq!(find(&n, &dists, 2), 2);
    // A site without neighbours is where the walk stays.
    let lone = neighbors(&[], 3);
    assert_eq!(find(&lone, &vec![5, 1, 0], 0), 0);
}

#[test]
fn gen_gives_no_cell_to_a_site_without_triangles() {
    let cycles = vec![vec![0, 1, 2, 0], vec![], vec![2, 1, 0]];
    let centers = vec![(1, 1), (2, 2), (3, 3)];
    let mids = vec![None, None, None];
    assert_eq!(cell_sites(&cycles, 3, 3), vec![0, 2]);
    let (polys, cs) = gen(cycles, centers.clone(), 3, 3, &mids, None);
    assert_eq!(polys, vec![vec![0, 1, 2, 0], vec![2, 1, 0]]);
    assert_eq!(cs, centers);
}

#[test]
fn cell_sites_of_two_hemispheres() {
    assert_eq!(cell_sites(&vec![vec![], vec![]], 0, 2), vec![0, 1]);
    assert_eq!(cell_sites(&vec![vec![], vec![], vec![]], 0, 3), Vec::<usize>::new());
}

#[test]
fn two_cycle_corners_follow_the_site() {
    let tris = vec![[0, 1, 2], [0, 2, 3]];
    let c = fan_cycles(&tris, 5);
    assert_eq!(two_cycle_corners(&tris, &c), vec![Some((1, 2)), None, None, None, None]);
    // Site 0 sits second in its first triangle.
    let tris = vec![[5, 6, 7], [2, 0, 4]];
    assert_eq!(two_cycle_corners(&tris, &vec![vec![1, 0]]), vec![Some((4, 2))]);
    // A first triangle without the site, or out of range, gives nothing.
    assert_eq!(two_cycle_corners(&tris, &vec![vec![0, 1]]), vec![None]);
    assert_eq!(two_cycle_corners(&tris, &vec![vec![9, 1]]), vec![None]);
}

#[test]
fn centres_compare_as_floats() {
    let zero = 0.0f64.to_bits();
    let minus_zero = (-0.0f64).to_bits();
    let nan = f64::NAN.to_bits();
    let one = 1.0f64.to_bits();
    assert!(center_eq((zero, one), (minus_zero, one)));
    assert!(!center_eq((nan, one), (nan, one)));
    assert!(!center_eq((one, one), (one, zero)));
    assert!(center_eq((one, minus_zero), (one, minus_zero)));
}

#[test]
fn supplement_merges_zeros_and_never_nans() {
    let zero = 0.0f64.to_bits();
    let minus_zero = (-0.0f64).to_bits();
    let nan = f64::NAN.to_bits();
    let mut centers = vec![(zero, zero)];
    // The first centre is a circumcentre and is never reused.
    assert_eq!(supplement((zero, minus_zero), &mut centers, 1), 1);
    assert_eq!(supplement((minus_zero, zero), &mut centers, 1), 1);
    assert_eq!(centers.len(), 2);
    assert_eq!(supplement((nan, zero), &mut centers, 1), 2);
    assert_eq!(supplement((nan, zero), &mut centers, 1), 3);
    assert_eq!(centers.len(), 4);
}
