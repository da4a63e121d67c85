use d3_geo_voronoi_rs::voronoi::cell_mesh;
use d3_geo_voronoi_rs::voronoi::construction_input;
use d3_geo_voronoi_rs::voronoi::GeometryKind;

#[test]
fn cell_mesh_walks_each_cell() {
    // Pairs looked at: (3,0) (0,0) (0,1) (1,2); (2,1) is never looked at.
    let polys = vec![vec![0, 1, 2, 3], vec![]];
    assert_eq!(cell_mesh(&polys), vec![[0, 1], [1, 2]]);
    assert_eq!(cell_mesh(&vec![vec![5, 2, 7]]), Vec::<[usize; 2]>::new());
    assert_eq!(cell_mesh(&vec![vec![2, 5, 7]]), vec![[2, 5]]);
}

#[test]
fn construction_accepts_multipoints() {
    assert!(matches!(construction_input(Some(GeometryKind::MultiPoint)), Ok(true)));
    assert!(matches!(construction_input(None), Ok(false)));
    assert!(construction_input(Some(GeometryKind::Other)).is_err());
}
