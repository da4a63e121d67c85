use d3_geo_voronoi_rs::extent::extent;

#[test]
fn returns_the_least_and_greatest_numeric() {
    println!("extent(array) returns the least and greatest numeric values for numbers");
    assert_eq!(extent(vec![1], &None::<fn(usize, usize, usize) -> usize>), [1, 1]);
    assert_eq!(extent(vec![1], &None::<fn(usize, usize, usize) -> usize>), [1, 1]);
    assert_eq!(extent(vec![5, 1, 2, 3, 4], &None::<fn(usize, usize, usize) -> usize>), [1, 5]);
    assert_eq!(extent(vec![20, 3], &None::<fn(usize, usize, usize) -> usize>), [3, 20]);
    assert_eq!(extent(vec![3, 20], &None::<fn(usize, usize, usize) -> usize>), [3, 20]);
}

#[test]
fn extent_orders_a_pair() {
    assert_eq!(extent(vec![7, 2], &None::<fn(usize, usize, usize) -> usize>), [2, 7]);
    assert_eq!(extent(vec![4, 4, 4], &None::<fn(usize, usize, usize) -> usize>), [4, 4]);
}
