use vstd::prelude::*;

mod coord;
mod geo_enums;
mod hull;
mod rng;
mod sampler;

pub use coord::{Coord, COORD_LIMIT};
pub use geo_enums::{BuildError, GeoType, GeometryCollection, Polygon};
pub use hull::{
    all_collinear, dedup_points, hull_ring, is_closed_ring, is_convex_ccw_ring, on_or_inside,
    ring_turns, sort_points,
};
pub use rng::RandSource;
pub use sampler::{all_in_bounds, in_bounds, sample_points, MAX_VERTICES};


verus! {

/// Build configuration: a bounding rectangle in fixed-point
/// coordinates, the number of vertices to draw, and the two flags
/// selecting hull reduction and collection wrapping.
pub struct Framework {
    pub lon_min: i64,
    pub lon_max: i64,
    pub lat_min: i64,
    pub lat_max: i64,
    pub vertices: usize,
    pub convex_hull: bool,
    pub collection: bool,
}

/// The polygon a build result carries: the bare polygon, or the sole
/// polygon of the collection.
pub open spec fn result_polygon(g: GeoType) -> Polygon {
    match g {
        GeoType::Polygon(p) => p,
        GeoType::GeometryCollection(gc) => gc.polygons@[0],
    }
}

impl Framework {
    /// The bounds fit the fixed-point coordinate range the library
    /// computes in.
    pub open spec fn wf(self) -> bool {
        &&& -COORD_LIMIT <= self.lon_min <= COORD_LIMIT
        &&& -COORD_LIMIT <= self.lon_max <= COORD_LIMIT
        &&& -COORD_LIMIT <= self.lat_min <= COORD_LIMIT
        &&& -COORD_LIMIT <= self.lat_max <= COORD_LIMIT
    }

    /// Assembles a configuration from two-element bound vectors, in
    /// the order (min, max) per axis.
    pub fn new(
        lons: Vec<i64>,
        lats: Vec<i64>,
        vertices: usize,
        convex_hull: bool,
        collection: bool,
    ) -> (r: Framework)
        requires
            lons@.len() == 2,
            lats@.len() == 2,
        ensures
            r == (Framework {
                lon_min: lons@[0],
                lon_max: lons@[1],
                lat_min: lats@[0],
                lat_max: lats@[1],
                vertices,
                convex_hull,
                collection,
            }),
    {
        let lon_min = lons[0];
        let lon_max = lons[1];
        let lat_min = lats[0];
        let lat_max = lats[1];
        Framework { lon_min, lon_max, lat_min, lat_max, vertices, convex_hull, collection }
    }

    /// Draws `vertices` random points inside the bounds, optionally
    /// reduces them to their convex hull, closes the ring into a
    /// polygon, and optionally wraps it in a collection.
    ///
    /// Success is owed exactly when `3 <= vertices <= MAX_VERTICES`
    /// and both axes satisfy min < max; each rejection names its
    /// reason. On success the polygon ring is closed, lies inside the
    /// bounds, has exactly `vertices + 1` entries when the hull is
    /// skipped, and never turns clockwise when the hull is taken.
    pub fn build(&self, rng: &mut RandSource) -> (r: Result<GeoType, BuildError>)
        requires
            self.wf(),
        ensures
            (r is Err) <==> (self.vertices < 3 || self.lon_min >= self.lon_max
                || self.lat_min >= self.lat_max || self.vertices > MAX_VERTICES),
            self.vertices < 3 ==> r == Err::<GeoType, BuildError>(BuildError::InvalidVertexCount),
            self.vertices >= 3 && (self.lon_min >= self.lon_max || self.lat_min >= self.lat_max)
                ==> r == Err::<GeoType, BuildError>(BuildError::InvalidBounds),
            self.vertices >= 3 && self.lon_min < self.lon_max && self.lat_min < self.lat_max
                && self.vertices > MAX_VERTICES
                ==> r == Err::<GeoType, BuildError>(BuildError::VertexCountTooLarge),
            r matches Ok(g) ==> {
                let p = result_polygon(g);
                &&& (g is GeometryCollection <==> self.collection)
                &&& (g matches GeoType::GeometryCollection(gc) ==> gc.polygons@.len() == 1)
                &&& p.interiors@.len() == 0
                &&& is_closed_ring(p.exterior@)
                &&& all_in_bounds(p.exterior@, self.lon_min, self.lon_max, self.lat_min,
                    self.lat_max)
                &&& (!self.convex_hull ==> p.exterior@.len() == self.vertices + 1)
                &&& (self.convex_hull ==> ring_turns(p.exterior@))
                &&& (self.convex_hull ==> (is_convex_ccw_ring(p.exterior@)
                    || p.exterior@.len() <= 3))
            },
    {
        let pts = match sample_points(
            self.lon_min, self.lon_max, self.lat_min, self.lat_max, self.vertices, rng,
        ) {
            Ok(p) => p,
            Err(e) => {
                return Err(e);
            },
        };
        let ring: Vec<Coord> = if self.convex_hull {
            let ghost sampled = pts@;
            match hull_ring(&pts, false) {
                Ok(rr) => {
                    proof {
                        assert forall|k: int| 0 <= k < rr@.len()
                            implies in_bounds(#[trigger] rr@[k], self.lon_min,
                                self.lon_max, self.lat_min, self.lat_max) by {
                            assert(sampled.contains(rr@[k]));
                            let w = choose|w: int| 0 <= w < sampled.len() && sampled[w] == rr@[k];
                        }
                    }
                    rr
                },
                Err(e) => {
                    proof {
                        assert(false);
                    }
                    return Err(e);
                },
            }
        } else {
            let ghost sampled = pts@;
            let mut cl = pts;
            let c0 = cl[0];
            cl.push(c0);
            proof {
                assert(cl@[cl@.len() - 1] == sampled[0]);
            }
            cl
        };
        let poly = Polygon { exterior: ring, interiors: Vec::new() };
        if self.collection {
            let mut polys: Vec<Polygon> = Vec::new();
            polys.push(poly);
            let gc = GeometryCollection { polygons: polys };
            Ok(GeoType::GeometryCollection(gc))
        } else {
            Ok(GeoType::Polygon(poly))
        }
    }
}

} // verus!
