use polygonify::{BuildError, Framework, GeoType, RandSource, MAX_VERTICES};

fn frame(
    lon_min: i64,
    lon_max: i64,
    lat_min: i64,
    lat_max: i64,
    vertices: usize,
    convex_hull: bool,
    collection: bool,
) -> Framework {
    Framework::new(
        vec![lon_min, lon_max],
        vec![lat_min, lat_max],
        vertices,
        convex_hull,
        collection,
    )
}

#[test]
fn bin_it_works() {
    let result = 2 + 2;
    assert_eq!(result, 4);
}

#[test]
fn main_it_works() {
    let result = 2 + 2;
    assert_eq!(result, 4);
}

// Bounds lon [5.5, 6.5] and lat [1.2, 300.0] in degrees, written in
// the library's micro-degree fixed point.
#[test]
fn make_poly() {
    let f = frame(5_500_000, 6_500_000, 1_200_000, 300_000_000, 1000, false, false);
    let mut rng = RandSource::from_entropy();
    let poly = f.build(&mut rng);
    match poly {
        Ok(GeoType::Polygon(poly)) => {
            assert!(poly.exterior.len() == f.vertices + 1);
            for c in poly.exterior.iter() {
                assert!(f.lon_min <= c.x);
                assert!(c.x <= f.lon_max);
                assert!(f.lat_min <= c.y);
                assert!(c.y <= f.lat_max);
            }
        }
        Ok(GeoType::GeometryCollection(_)) => panic!(),
        Err(_) => panic!(),
    }
}

#[test]
fn two_vertices_rejected() {
    let f = frame(5_500_000, 6_500_000, 1_200_000, 300_000_000, 2, false, false);
    let mut rng = RandSource::from_seed(7);
    assert_eq!(f.build(&mut rng), Err(BuildError::InvalidVertexCount));
}

#[test]
fn equal_lon_bounds_rejected() {
    let f = frame(5_500_000, 5_500_000, 1_200_000, 300_000_000, 10, false, false);
    let mut rng = RandSource::from_seed(7);
    assert_eq!(f.build(&mut rng), Err(BuildError::InvalidBounds));
}

#[test]
fn reversed_lat_bounds_rejected() {
    let f = frame(5_500_000, 6_500_000, 300_000_000, 1_200_000, 10, true, true);
    let mut rng = RandSource::from_seed(7);
    assert_eq!(f.build(&mut rng), Err(BuildError::InvalidBounds));
}

#[test]
fn too_many_vertices_rejected() {
    let f = frame(5_500_000, 6_500_000, 1_200_000, 300_000_000, MAX_VERTICES + 1, false, false);
    let mut rng = RandSource::from_seed(7);
    assert_eq!(f.build(&mut rng), Err(BuildError::VertexCountTooLarge));
}

#[test]
fn vertex_count_check_precedes_bounds_check() {
    let f = frame(5_500_000, 5_500_000, 1_200_000, 300_000_000, 2, false, false);
    let mut rng = RandSource::from_seed(7);
    assert_eq!(f.build(&mut rng), Err(BuildError::InvalidVertexCount));
}

// Bounds lon [5.5, 6.5], lat [1.2, 300.0], 1000 vertices, no hull, no
// collection: a polygon of exactly 1001 coordinates, all inside the
// half-open bounds, first equal to last.
#[test]
fn thousand_vertex_polygon() {
    let f = frame(5_500_000, 6_500_000, 1_200_000, 300_000_000, 1000, false, false);
    let mut rng = RandSource::from_seed(42);
    match f.build(&mut rng) {
        Ok(GeoType::Polygon(poly)) => {
            let ring = &poly.exterior;
            assert_eq!(ring.len(), 1001);
            assert_eq!(ring[0], ring[1000]);
            for c in ring.iter() {
                assert!(f.lon_min <= c.x && c.x < f.lon_max);
                assert!(f.lat_min <= c.y && c.y < f.lat_max);
            }
            assert!(poly.interiors.is_empty());
        }
        _ => panic!(),
    }
}

fn cross(o: (i64, i64), a: (i64, i64), b: (i64, i64)) -> i128 {
    (a.0 as i128 - o.0 as i128) * (b.1 as i128 - o.1 as i128)
        - (a.1 as i128 - o.1 as i128) * (b.0 as i128 - o.0 as i128)
}

// Same bounds, 10 vertices, hull and collection: a collection holding
// exactly one polygon whose ring is closed and convex.
#[test]
fn hull_collection_of_ten() {
    let f = frame(5_500_000, 6_500_000, 1_200_000, 300_000_000, 10, true, true);
    let mut rng = RandSource::from_seed(42);
    match f.build(&mut rng) {
        Ok(GeoType::GeometryCollection(gc)) => {
            assert_eq!(gc.polygons.len(), 1);
            let ring = &gc.polygons[0].exterior;
            let n = ring.len();
            assert!(n >= 3);
            assert_eq!(ring[0], ring[n - 1]);
            for c in ring.iter() {
                assert!(f.lon_min <= c.x && c.x < f.lon_max);
                assert!(f.lat_min <= c.y && c.y < f.lat_max);
            }
            // Every turn around the ring is a strict left turn.
            let m = n - 1;
            for k in 0..m {
                let o = ring[k];
                let a = ring[(k + 1) % m];
                let b = ring[(k + 2) % m];
                assert!(cross((o.x, o.y), (a.x, a.y), (b.x, b.y)) > 0);
            }
        }
        _ => panic!(),
    }
}
