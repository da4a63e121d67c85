[package]
name = "d3_geo_voronoi_rs"
version = "0.1.0"
edition = "2021"
publish = false

[dependencies]
d3_geo_rs = "*"
d3_delaunay_rs = "*"
delaunator = "*"
geo = "*"
geo-types = "*"
num-traits = "*"
approx = "*"
float_next_after = "*"
