use vstd::prelude::*;
use crate::coord::{Coord, COORD_LIMIT, coord_in_range};
use crate::geo_enums::BuildError;
use crate::rng::RandSource;

verus! {

/// Upper bound on the vertex count, a guard against resource
/// exhaustion from untrusted input.
pub const MAX_VERTICES: usize = 10_000;

/// The point (x, y) lies inside the half-open rectangle
/// `[lon_min, lon_max) x [lat_min, lat_max)`.
pub open spec fn in_bounds(c: Coord, lon_min: i64, lon_max: i64, lat_min: i64, lat_max: i64) -> bool {
    &&& lon_min <= c.x < lon_max
    &&& lat_min <= c.y < lat_max
}

/// The whole sequence lies inside the half-open rectangle.
pub open spec fn all_in_bounds(s: Seq<Coord>, lon_min: i64, lon_max: i64, lat_min: i64, lat_max: i64) -> bool {
    forall|i: int| 0 <= i < s.len() ==> in_bounds(#[trigger] s[i], lon_min, lon_max, lat_min, lat_max)
}

/// Draws `vertices` points, each uniformly at random from the
/// half-open rectangle `[lon_min, lon_max) x [lat_min, lat_max)`.
///
/// Success is owed exactly when `3 <= vertices <= MAX_VERTICES` and
/// both axes are properly ordered; each rejection names its reason.
pub fn sample_points(
    lon_min: i64,
    lon_max: i64,
    lat_min: i64,
    lat_max: i64,
    vertices: usize,
    rng: &mut RandSource,
) -> (r: Result<Vec<Coord>, BuildError>)
    requires
        -COORD_LIMIT <= lon_min <= COORD_LIMIT,
        -COORD_LIMIT <= lon_max <= COORD_LIMIT,
        -COORD_LIMIT <= lat_min <= COORD_LIMIT,
        -COORD_LIMIT <= lat_max <= COORD_LIMIT,
    ensures
        r is Err <==> (vertices < 3 || lon_min >= lon_max || lat_min >= lat_max
            || vertices > MAX_VERTICES),
        vertices < 3 ==> r == Err::<Vec<Coord>, BuildError>(BuildError::InvalidVertexCount),
        vertices >= 3 && (lon_min >= lon_max || lat_min >= lat_max)
            ==> r == Err::<Vec<Coord>, BuildError>(BuildError::InvalidBounds),
        vertices >= 3 && lon_min < lon_max && lat_min < lat_max && vertices > MAX_VERTICES
            ==> r == Err::<Vec<Coord>, BuildError>(BuildError::VertexCountTooLarge),
        r matches Ok(pts) ==> {
            &&& pts@.len() == vertices
            &&& all_in_bounds(pts@, lon_min, lon_max, lat_min, lat_max)
            &&& forall|i: int| 0 <= i < pts@.len() ==> coord_in_range(#[trigger] pts@[i])
        },
{
    if vertices < 3 {
        return Err(BuildError::InvalidVertexCount);
    }
    if lon_min >= lon_max || lat_min >= lat_max {
        return Err(BuildError::InvalidBounds);
    }
    if vertices > MAX_VERTICES {
        return Err(BuildError::VertexCountTooLarge);
    }
    let mut pts: Vec<Coord> = Vec::new();
    let mut i: usize = 0;
    while i < vertices
        invariant
            i <= vertices,
            pts@.len() == i,
            lon_min < lon_max,
            lat_min < lat_max,
            -COORD_LIMIT <= lon_min <= COORD_LIMIT,
            -COORD_LIMIT <= lon_max <= COORD_LIMIT,
            -COORD_LIMIT <= lat_min <= COORD_LIMIT,
            -COORD_LIMIT <= lat_max <= COORD_LIMIT,
            all_in_bounds(pts@, lon_min, lon_max, lat_min, lat_max),
            forall|k: int| 0 <= k < pts@.len() ==> coord_in_range(#[trigger] pts@[k]),
        decreases vertices - i,
    {
        let x = rng.next_in_range(lon_min, lon_max);
        let y = rng.next_in_range(lat_min, lat_max);
        pts.push(Coord { x, y });
        i = i + 1;
    }
    Ok(pts)
}

} // verus!
