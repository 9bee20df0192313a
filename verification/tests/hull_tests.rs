use polygonify::{hull_ring, sample_points, BuildError, Coord, RandSource};

fn pt(x: i64, y: i64) -> Coord {
    Coord { x, y }
}

fn cross(o: Coord, a: Coord, b: Coord) -> i128 {
    (a.x as i128 - o.x as i128) * (b.y as i128 - o.y as i128)
        - (a.y as i128 - o.y as i128) * (b.x as i128 - o.x as i128)
}

fn assert_convex_ccw(ring: &Vec<Coord>) {
    let n = ring.len();
    assert!(n >= 4);
    assert_eq!(ring[0], ring[n - 1]);
    let m = n - 1;
    for k in 0..m {
        assert!(cross(ring[k], ring[(k + 1) % m], ring[(k + 2) % m]) > 0);
    }
}

// The hull of a square with an interior point: the exact ring, counter-
// clockwise from the lexicographically smallest vertex, closed.
#[test]
fn square_hull_exact() {
    let pts = vec![pt(10, 10), pt(0, 10), pt(5, 5), pt(0, 0), pt(10, 0)];
    let ring = hull_ring(&pts, false).unwrap();
    assert_eq!(
        ring,
        vec![pt(0, 0), pt(10, 0), pt(10, 10), pt(0, 10), pt(0, 0)]
    );
    assert_convex_ccw(&ring);
}

// Every hull vertex is one of the input points.
#[test]
fn hull_vertices_come_from_input() {
    let pts = vec![
        pt(3, 1), pt(-4, 2), pt(0, 7), pt(5, -2), pt(1, 1), pt(-3, -3), pt(2, 6),
    ];
    let ring = hull_ring(&pts, false).unwrap();
    for v in ring.iter() {
        assert!(pts.contains(v));
    }
}

// Every input point lies on or inside the hull: on or left of each
// directed ring edge.
#[test]
fn hull_contains_all_inputs() {
    let pts = vec![
        pt(3, 1), pt(-4, 2), pt(0, 7), pt(5, -2), pt(1, 1), pt(-3, -3), pt(2, 6),
        pt(0, 0), pt(1, -1), pt(4, 4),
    ];
    let ring = hull_ring(&pts, false).unwrap();
    for q in pts.iter() {
        for e in 0..ring.len() - 1 {
            assert!(cross(ring[e], ring[e + 1], *q) >= 0);
        }
    }
}

// Applying the hull to its own output gives the same ring back.
#[test]
fn hull_idempotent() {
    let pts = vec![
        pt(3, 1), pt(-4, 2), pt(0, 7), pt(5, -2), pt(1, 1), pt(-3, -3), pt(2, 6),
    ];
    let ring = hull_ring(&pts, false).unwrap();
    let again = hull_ring(&ring, false).unwrap();
    assert_eq!(ring, again);
}

// Duplicated points collapse before the sweep; the hull is unchanged.
#[test]
fn duplicate_points_ignored() {
    let pts = vec![pt(0, 0), pt(0, 0), pt(4, 0), pt(4, 0), pt(2, 3), pt(2, 3)];
    let ring = hull_ring(&pts, false).unwrap();
    assert_eq!(ring, vec![pt(0, 0), pt(4, 0), pt(2, 3), pt(0, 0)]);
}

// Collinear input degenerates to a zero-area ring, passed through by
// default and rejected under the strict policy.
#[test]
fn collinear_input_degenerates() {
    let pts = vec![pt(0, 0), pt(1, 1), pt(2, 2), pt(3, 3)];
    let ring = hull_ring(&pts, false).unwrap();
    assert_eq!(ring, vec![pt(0, 0), pt(3, 3), pt(0, 0)]);
    assert_eq!(hull_ring(&pts, true), Err(BuildError::DegenerateInput));
}

// All points equal: the hull collapses to a single repeated point.
#[test]
fn identical_points_degenerate() {
    let pts = vec![pt(7, 7), pt(7, 7), pt(7, 7)];
    let ring = hull_ring(&pts, false).unwrap();
    assert_eq!(ring, vec![pt(7, 7), pt(7, 7)]);
    assert_eq!(hull_ring(&pts, true), Err(BuildError::DegenerateInput));
}

// A vertical edge on the hull is kept and ordered correctly.
#[test]
fn vertical_edges_handled() {
    let pts = vec![pt(0, 0), pt(0, 5), pt(4, 0), pt(4, 5), pt(2, 2)];
    let ring = hull_ring(&pts, false).unwrap();
    assert_eq!(
        ring,
        vec![pt(0, 0), pt(4, 0), pt(4, 5), pt(0, 5), pt(0, 0)]
    );
    assert_convex_ccw(&ring);
}

// The sampler draws from half-open ranges: with a one-unit range the
// value is pinned exactly.
#[test]
fn sampler_half_open_bounds() {
    let mut rng = RandSource::from_entropy();
    let pts = sample_points(5, 6, -3, -2, 50, &mut rng).unwrap();
    assert_eq!(pts.len(), 50);
    for c in pts.iter() {
        assert_eq!(c.x, 5);
        assert_eq!(c.y, -3);
    }
}

// Wide bounds: everything sampled stays inside the half-open box.
#[test]
fn sampler_stays_in_bounds() {
    let mut rng = RandSource::from_seed(99);
    let pts = sample_points(-1_000_000, 1_000_000, 0, 10, 500, &mut rng).unwrap();
    assert_eq!(pts.len(), 500);
    for c in pts.iter() {
        assert!(-1_000_000 <= c.x && c.x < 1_000_000);
        assert!(0 <= c.y && c.y < 10);
    }
}

// The sampler's rejections, each with its reason.
#[test]
fn sampler_rejections() {
    let mut rng = RandSource::from_seed(1);
    assert_eq!(
        sample_points(0, 10, 0, 10, 2, &mut rng),
        Err(BuildError::InvalidVertexCount)
    );
    assert_eq!(
        sample_points(10, 0, 0, 10, 5, &mut rng),
        Err(BuildError::InvalidBounds)
    );
    assert_eq!(
        sample_points(0, 10, 10, 10, 5, &mut rng),
        Err(BuildError::InvalidBounds)
    );
}

// A hull over sampled points contains every sampled point.
#[test]
fn sampled_hull_contains_samples() {
    let mut rng = RandSource::from_seed(2024);
    let pts = sample_points(5_500_000, 6_500_000, 1_200_000, 300_000_000, 10, &mut rng).unwrap();
    let ring = hull_ring(&pts, false).unwrap();
    assert_convex_ccw(&ring);
    for q in pts.iter() {
        for e in 0..ring.len() - 1 {
            assert!(cross(ring[e], ring[e + 1], *q) >= 0);
        }
    }
}
