use vstd::prelude::*;
use vstd::arithmetic::mul::lemma_mul_is_distributive_add;
use vstd::arithmetic::mul::lemma_mul_is_distributive_sub;
use vstd::arithmetic::mul::lemma_mul_is_distributive_sub_other_way;
use vstd::arithmetic::mul::lemma_mul_is_distributive_add_other_way;

verus! {

/// Largest coordinate magnitude the library accepts. Keeping every
/// coordinate within this bound lets cross products be computed exactly
/// in `i128` arithmetic with no possibility of overflow.
pub const COORD_LIMIT: i64 = 1_000_000_000_000;

/// A planar point with fixed-point integer coordinates. Callers that
/// work in floating-point degrees convert at the boundary (for example
/// by scaling degrees to micro-degrees).
#[derive(Clone, Copy, PartialEq, Eq, Structural, Debug)]
pub struct Coord {
    pub x: i64,
    pub y: i64,
}

pub open spec fn coord_in_range(c: Coord) -> bool {
    &&& -COORD_LIMIT <= c.x <= COORD_LIMIT
    &&& -COORD_LIMIT <= c.y <= COORD_LIMIT
}

/// Twice the signed area of the triangle (o, a, b): positive when the
/// walk o -> a -> b turns counter-clockwise (a left turn), negative for
/// a clockwise turn, zero when the three points are collinear.
pub open spec fn cross(o: Coord, a: Coord, b: Coord) -> int {
    (a.x - o.x) * (b.y - o.y) - (a.y - o.y) * (b.x - o.x)
}

/// Lexicographic order on points: by x, then by y.
pub open spec fn lex_lt(a: Coord, b: Coord) -> bool {
    a.x < b.x || (a.x == b.x && a.y < b.y)
}

pub open spec fn lex_le(a: Coord, b: Coord) -> bool {
    lex_lt(a, b) || a == b
}

pub open spec fn negate(c: Coord) -> Coord {
    Coord { x: (-c.x) as i64, y: (-c.y) as i64 }
}

/// Exact exec computation of the `cross` spec function.
pub fn cross_val(o: &Coord, a: &Coord, b: &Coord) -> (r: i128)
    requires
        coord_in_range(*o),
        coord_in_range(*a),
        coord_in_range(*b),
    ensures
        r as int == cross(*o, *a, *b),
{
    let dxa: i128 = a.x as i128 - o.x as i128;
    let dya: i128 = a.y as i128 - o.y as i128;
    let dxb: i128 = b.x as i128 - o.x as i128;
    let dyb: i128 = b.y as i128 - o.y as i128;
    assert(-4_000_000_000_000_000_000_000_000 <= dxa * dyb <= 4_000_000_000_000_000_000_000_000)
        by (nonlinear_arith)
        requires
            -2_000_000_000_000 <= dxa <= 2_000_000_000_000,
            -2_000_000_000_000 <= dyb <= 2_000_000_000_000;
    assert(-4_000_000_000_000_000_000_000_000 <= dya * dxb <= 4_000_000_000_000_000_000_000_000)
        by (nonlinear_arith)
        requires
            -2_000_000_000_000 <= dya <= 2_000_000_000_000,
            -2_000_000_000_000 <= dxb <= 2_000_000_000_000;
    dxa * dyb - dya * dxb
}

pub fn lex_less(a: &Coord, b: &Coord) -> (r: bool)
    ensures
        r == lex_lt(*a, *b),
{
    a.x < b.x || (a.x == b.x && a.y < b.y)
}

/// Negating both coordinates of all three points keeps the cross
/// product unchanged (the triangle is rotated half a turn).
pub proof fn lemma_cross_negate(o: Coord, a: Coord, b: Coord)
    requires
        coord_in_range(o),
        coord_in_range(a),
        coord_in_range(b),
    ensures
        cross(negate(o), negate(a), negate(b)) == cross(o, a, b),
{
    let c1 = cross(negate(o), negate(a), negate(b));
    let c2 = cross(o, a, b);
    assert(c1 == c2) by (nonlinear_arith)
        requires
            c1 == ((-a.x) - (-o.x)) * ((-b.y) - (-o.y)) - ((-a.y) - (-o.y)) * ((-b.x) - (-o.x)),
            c2 == (a.x - o.x) * (b.y - o.y) - (a.y - o.y) * (b.x - o.x);
}

/// Negation reverses the lexicographic order.
pub proof fn lemma_lex_negate(a: Coord, b: Coord)
    requires
        coord_in_range(a),
        coord_in_range(b),
        lex_lt(a, b),
    ensures
        lex_lt(negate(b), negate(a)),
{
}

pub proof fn lemma_negate_involutive(c: Coord)
    requires
        coord_in_range(c),
    ensures
        negate(negate(c)) == c,
{
}

/// Four-point area identity: the signed area of triangle (a, c, q)
/// decomposes over an intermediate point b.
pub proof fn lemma_cross_decompose(a: Coord, b: Coord, c: Coord, q: Coord)
    ensures
        cross(a, c, q) == cross(a, b, q) + cross(b, c, q) - cross(a, b, c),
{
    let k1 = cross(a, c, q);
    let k2 = cross(a, b, q);
    let k3 = cross(b, c, q);
    let k4 = cross(a, b, c);
    assert(k1 == k2 + k3 - k4) by (nonlinear_arith)
        requires
            k1 == (c.x - a.x) * (q.y - a.y) - (c.y - a.y) * (q.x - a.x),
            k2 == (b.x - a.x) * (q.y - a.y) - (b.y - a.y) * (q.x - a.x),
            k3 == (c.x - b.x) * (q.y - b.y) - (c.y - b.y) * (q.x - b.x),
            k4 == (b.x - a.x) * (c.y - a.y) - (b.y - a.y) * (c.x - a.x);
}

/// The chain keeps covering a point when it is extended by a left turn.
/// If q lies on or left of the directed line u -> t, the new edge t -> p
/// turns left there, and q is not to the right of t in x, then q also
/// lies on or left of the line t -> p.
#[verifier::rlimit(100)]
pub proof fn lemma_extend_left_turn(u: Coord, t: Coord, p: Coord, q: Coord)
    requires
        lex_lt(u, t),
        lex_lt(t, p),
        cross(u, t, q) >= 0,
        cross(u, t, p) > 0,
        q.x <= t.x,
    ensures
        cross(t, p, q) >= 0,
{
    let ka = cross(u, t, q);
    let kb = cross(u, t, p);
    let kc = cross(t, p, q);
    if u.x == t.x {
        // A vertical edge u -> t admits no strict left turn toward a
        // lexicographically later point, so this case is impossible.
        assert(u.y < t.y);
        assert(kb <= 0) by (nonlinear_arith)
            requires
                kb == (t.x - u.x) * (p.y - u.y) - (t.y - u.y) * (p.x - u.x),
                t.x == u.x,
                t.y - u.y > 0,
                p.x - u.x >= 0;
        assert(false);
    } else {
        assert(u.x < t.x);
        let tx = t.x - u.x;
        let ty = t.y - u.y;
        let px = p.x - u.x;
        let py = p.y - u.y;
        let qx = q.x - u.x;
        let qy = q.y - u.y;
        // Expand kc into monomials over the translated coordinates.
        lemma_mul_is_distributive_sub_other_way(qy - ty, px, tx);
        lemma_mul_is_distributive_sub(px, qy, ty);
        lemma_mul_is_distributive_sub(tx, qy, ty);
        lemma_mul_is_distributive_sub_other_way(qx - tx, py, ty);
        lemma_mul_is_distributive_sub(py, qx, tx);
        lemma_mul_is_distributive_sub(ty, qx, tx);
        assert(tx * ty == ty * tx) by (nonlinear_arith);
        let s5 = px * qy - px * ty - tx * qy - py * qx + py * tx;
        let s4 = px * qy - px * ty - tx * qy - py * qx;
        let s3 = px * qy - px * ty - tx * qy;
        let s2 = px * qy - px * ty;
        assert(kc == s5 + ty * qx);
        // Multiply the expansion by tx, one term at a time.
        lemma_mul_is_distributive_add_other_way(tx, s5, ty * qx);
        lemma_mul_is_distributive_add_other_way(tx, s4, py * tx);
        lemma_mul_is_distributive_sub_other_way(tx, s3, py * qx);
        lemma_mul_is_distributive_sub_other_way(tx, s2, tx * qy);
        lemma_mul_is_distributive_sub_other_way(tx, px * qy, px * ty);
        assert(kc * tx == (px * qy) * tx - (px * ty) * tx - (tx * qy) * tx - (py * qx) * tx
            + (py * tx) * tx + (ty * qx) * tx);
        // Expand the right-hand side the same way.
        lemma_mul_is_distributive_sub(ka, px, tx);
        lemma_mul_is_distributive_sub_other_way(px, tx * qy, ty * qx);
        lemma_mul_is_distributive_sub_other_way(tx, tx * qy, ty * qx);
        lemma_mul_is_distributive_sub(kb, tx, qx);
        lemma_mul_is_distributive_sub_other_way(tx, tx * py, ty * px);
        lemma_mul_is_distributive_sub_other_way(qx, tx * py, ty * px);
        // Reorder the three-factor monomials so both sides match.
        assert((px * qy) * tx == (tx * qy) * px) by (nonlinear_arith);
        assert((px * ty) * tx == (ty * px) * tx) by (nonlinear_arith);
        assert((py * qx) * tx == (tx * py) * qx) by (nonlinear_arith);
        assert((py * tx) * tx == (tx * py) * tx) by (nonlinear_arith);
        assert((ty * qx) * px == (ty * px) * qx) by (nonlinear_arith);
        assert(kc * (t.x - u.x) == ka * (p.x - t.x) + kb * (t.x - q.x));
        assert(kc * (t.x - u.x) >= 0) by (nonlinear_arith)
            requires
                kc * (t.x - u.x) == ka * (p.x - t.x) + kb * (t.x - q.x),
                ka >= 0,
                p.x - t.x >= 0,
                kb > 0,
                t.x - q.x >= 0;
        assert(kc >= 0) by (nonlinear_arith)
            requires
                kc * (t.x - u.x) >= 0,
                t.x - u.x > 0;
    }
}

/// A covering edge survives the removal of its upper endpoint.
/// If q lies on or left of the non-vertical edge a -> b while the new
/// point p lies on or right of it and beyond b in x, and q is at or
/// beyond a in x, then q lies on or left of the line a -> p.
#[verifier::rlimit(100)]
pub proof fn lemma_pop_cover(a: Coord, b: Coord, p: Coord, q: Coord)
    requires
        a.x < b.x,
        cross(a, b, q) >= 0,
        cross(a, b, p) <= 0,
        q.x >= a.x,
        p.x >= b.x,
    ensures
        cross(a, p, q) >= 0,
{
    let ka = cross(a, b, q);
    let kb = cross(a, b, p);
    let kc = cross(a, p, q);
    let bx = b.x - a.x;
    let bb = b.y - a.y;
    let px = p.x - a.x;
    let py = p.y - a.y;
    let qx = q.x - a.x;
    let qy = q.y - a.y;
    lemma_mul_is_distributive_sub_other_way(bx, px * qy, py * qx);
    lemma_mul_is_distributive_sub_other_way(px, bx * qy, bb * qx);
    lemma_mul_is_distributive_sub_other_way(qx, bx * py, bb * px);
    assert((px * qy) * bx == (bx * qy) * px) by (nonlinear_arith);
    assert((py * qx) * bx == (bx * py) * qx) by (nonlinear_arith);
    assert((bb * qx) * px == (bb * px) * qx) by (nonlinear_arith);
    assert(kc * bx == ka * px - kb * qx);
    assert(kb * (a.x - q.x) == -(kb * qx)) by (nonlinear_arith)
        requires a.x - q.x == -qx;
    assert(kc * (b.x - a.x) == ka * (p.x - a.x) + kb * (a.x - q.x));
    assert(kc * (b.x - a.x) >= 0) by (nonlinear_arith)
        requires
            kc * (b.x - a.x) == ka * (p.x - a.x) + kb * (a.x - q.x),
            ka >= 0,
            p.x - a.x > 0,
            kb <= 0,
            a.x - q.x <= 0;
    assert(kc >= 0) by (nonlinear_arith)
        requires
            kc * (b.x - a.x) >= 0,
            b.x - a.x > 0;
}

/// The vertical counterpart of `lemma_pop_cover`: on a vertical edge
/// a -> b every covered point with x at least a.x sits on the edge's
/// line at or above a, so it stays on or left of any edge a -> p that
/// leaves toward larger x.
pub proof fn lemma_pop_cover_vertical(a: Coord, b: Coord, p: Coord, q: Coord)
    requires
        a.x == b.x,
        a.y < b.y,
        cross(a, b, q) >= 0,
        q.x >= a.x,
        p.x >= a.x,
        q.y >= a.y,
    ensures
        cross(a, p, q) >= 0,
{
    let ka = cross(a, b, q);
    let kc = cross(a, p, q);
    assert(q.x == a.x) by (nonlinear_arith)
        requires
            ka == (b.x - a.x) * (q.y - a.y) - (b.y - a.y) * (q.x - a.x),
            a.x == b.x,
            b.y - a.y > 0,
            ka >= 0,
            q.x >= a.x;
    assert(kc >= 0) by (nonlinear_arith)
        requires
            kc == (p.x - a.x) * (q.y - a.y) - (p.y - a.y) * (q.x - a.x),
            q.x == a.x,
            p.x - a.x >= 0,
            q.y - a.y >= 0;
}

/// Swapping the two endpoints of the probe flips the sign.
pub proof fn lemma_cross_swap(o: Coord, a: Coord, b: Coord)
    ensures
        cross(o, a, b) == -cross(o, b, a),
{
    let k1 = cross(o, a, b);
    let k2 = cross(o, b, a);
    assert(k1 == -k2) by (nonlinear_arith)
        requires
            k1 == (a.x - o.x) * (b.y - o.y) - (a.y - o.y) * (b.x - o.x),
            k2 == (b.x - o.x) * (a.y - o.y) - (b.y - o.y) * (a.x - o.x);
}

/// A degenerate triangle with a repeated corner has zero area.
pub proof fn lemma_cross_self(o: Coord, a: Coord)
    ensures
        cross(o, a, a) == 0,
        cross(o, a, o) == 0,
        cross(o, o, a) == 0,
{
    let k1 = cross(o, a, a);
    let k2 = cross(o, a, o);
    let k3 = cross(o, o, a);
    assert(k1 == 0 && k2 == 0 && k3 == 0) by (nonlinear_arith)
        requires
            k1 == (a.x - o.x) * (a.y - o.y) - (a.y - o.y) * (a.x - o.x),
            k2 == (a.x - o.x) * (o.y - o.y) - (a.y - o.y) * (o.x - o.x),
            k3 == (o.x - o.x) * (a.y - o.y) - (o.y - o.y) * (a.x - o.x);
}

/// Swapping the first two corners flips the sign.
pub proof fn lemma_cross_swap01(a: Coord, b: Coord, c: Coord)
    ensures
        cross(a, b, c) == -cross(b, a, c),
{
    let k1 = cross(a, b, c);
    let k2 = cross(b, a, c);
    assert(k1 == -k2) by (nonlinear_arith)
        requires
            k1 == (b.x - a.x) * (c.y - a.y) - (b.y - a.y) * (c.x - a.x),
            k2 == (a.x - b.x) * (c.y - b.y) - (a.y - b.y) * (c.x - b.x);
}

/// Three points that all lie on one line (through two distinct points
/// a and m) are themselves collinear.
pub proof fn lemma_line_collinear(a: Coord, m: Coord, c1: Coord, c2: Coord, c3: Coord)
    requires
        a != m,
        cross(a, m, c1) == 0,
        cross(a, m, c2) == 0,
        cross(a, m, c3) == 0,
    ensures
        cross(c1, c2, c3) == 0,
{
    let dx = m.x - a.x;
    let dy = m.y - a.y;
    let e1x = c1.x - a.x;
    let e1y = c1.y - a.y;
    let e2x = c2.x - a.x;
    let e2y = c2.y - a.y;
    let e3x = c3.x - a.x;
    let e3y = c3.y - a.y;
    let kk = cross(c1, c2, c3);
    assert(kk == (e2x - e1x) * (e3y - e1y) - (e2y - e1y) * (e3x - e1x)) by (nonlinear_arith)
        requires
            kk == (c2.x - c1.x) * (c3.y - c1.y) - (c2.y - c1.y) * (c3.x - c1.x),
            c2.x - c1.x == e2x - e1x,
            c3.y - c1.y == e3y - e1y,
            c2.y - c1.y == e2y - e1y,
            c3.x - c1.x == e3x - e1x;
    assert(dx * e1y == dy * e1x);
    assert(dx * e2y == dy * e2x);
    assert(dx * e3y == dy * e3x);
    if dx != 0 {
        let u = e2x - e1x;
        let v = e3x - e1x;
        let w = e3y - e1y;
        let pp = e2y - e1y;
        assert(kk == u * w - pp * v);
        lemma_mul_is_distributive_sub(u, e3y, e1y);
        lemma_mul_is_distributive_sub_other_way(v, e2y, e1y);
        lemma_mul_is_distributive_sub_other_way(dx, u * w, pp * v);
        lemma_mul_is_distributive_sub_other_way(dx, u * e3y, u * e1y);
        lemma_mul_is_distributive_sub_other_way(dx, e2y * v, e1y * v);
        assert((u * e3y) * dx == (u * e3x) * dy) by (nonlinear_arith)
            requires dx * e3y == dy * e3x;
        assert((u * e1y) * dx == (u * e1x) * dy) by (nonlinear_arith)
            requires dx * e1y == dy * e1x;
        assert((e2y * v) * dx == (e2x * v) * dy) by (nonlinear_arith)
            requires dx * e2y == dy * e2x;
        assert((e1y * v) * dx == (e1x * v) * dy) by (nonlinear_arith)
            requires dx * e1y == dy * e1x;
        lemma_mul_is_distributive_sub(u, e3x, e1x);
        lemma_mul_is_distributive_sub_other_way(v, e2x, e1x);
        lemma_mul_is_distributive_sub_other_way(dy, u * e3x, u * e1x);
        lemma_mul_is_distributive_sub_other_way(dy, e2x * v, e1x * v);
        assert(kk * dx == (u * v) * dy - (u * v) * dy);
        assert(kk * dx == 0);
        assert(kk == 0) by (nonlinear_arith)
            requires kk * dx == 0, dx != 0;
    } else {
        assert(dy != 0);
        assert(e1x == 0) by (nonlinear_arith)
            requires dx * e1y == dy * e1x, dx == 0, dy != 0;
        assert(e2x == 0) by (nonlinear_arith)
            requires dx * e2y == dy * e2x, dx == 0, dy != 0;
        assert(e3x == 0) by (nonlinear_arith)
            requires dx * e3y == dy * e3x, dx == 0, dy != 0;
        assert(kk == 0) by (nonlinear_arith)
            requires
                kk == (e2x - e1x) * (e3y - e1y) - (e2y - e1y) * (e3x - e1x),
                e1x == 0,
                e2x == 0,
                e3x == 0;
    }
}

/// A new point on or left of a chain edge and beyond its lower
/// endpoint in x is also on or left of the edge before it, when the
/// two edges make a strict left turn.
pub proof fn lemma_backward_cover(a: Coord, b: Coord, c: Coord, p: Coord)
    requires
        a.x < b.x,
        b.x < c.x,
        p.x >= b.x,
        cross(a, b, c) > 0,
        cross(b, c, p) >= 0,
    ensures
        cross(a, b, p) >= 0,
{
    let kx = cross(a, b, p);
    let ka = cross(a, b, c);
    let ky = cross(a, c, p);
    let kb = cross(b, c, p);
    lemma_cross_decompose(a, b, c, p);
    assert(ky == kx + kb - ka);
    let bx = b.x - a.x;
    let bb = b.y - a.y;
    let cx = c.x - a.x;
    let cy = c.y - a.y;
    let px = p.x - a.x;
    let py = p.y - a.y;
    lemma_mul_is_distributive_sub_other_way(cx, bx * py, bb * px);
    lemma_mul_is_distributive_sub_other_way(px, bx * cy, bb * cx);
    lemma_mul_is_distributive_sub_other_way(bx, cx * py, cy * px);
    assert((bx * py) * cx == (cx * py) * bx) by (nonlinear_arith);
    assert((bb * px) * cx == (bb * cx) * px) by (nonlinear_arith);
    assert((bx * cy) * px == (cy * px) * bx) by (nonlinear_arith);
    assert(kx * cx == ka * px + ky * bx);
    lemma_mul_is_distributive_sub_other_way(bx, kx + kb, ka);
    lemma_mul_is_distributive_add_other_way(bx, kx, kb);
    assert(ky * bx == kx * bx + kb * bx - ka * bx);
    lemma_mul_is_distributive_sub(kx, cx, bx);
    lemma_mul_is_distributive_sub(ka, px, bx);
    assert(kx * (cx - bx) == ka * (px - bx) + kb * bx);
    assert(kx * (cx - bx) >= 0) by (nonlinear_arith)
        requires
            kx * (cx - bx) == ka * (px - bx) + kb * bx,
            ka > 0,
            px - bx >= 0,
            kb >= 0,
            bx > 0;
    assert(kx >= 0) by (nonlinear_arith)
        requires
            kx * (cx - bx) >= 0,
            cx - bx > 0;
}

/// A point with the same x as the upper endpoint of a non-vertical
/// covering edge sits at or above that endpoint.
pub proof fn lemma_same_x_above(u: Coord, t: Coord, q: Coord)
    requires
        u.x < t.x,
        cross(u, t, q) >= 0,
        q.x == t.x,
    ensures
        q.y >= t.y,
{
    let ka = cross(u, t, q);
    assert(q.y >= t.y) by (nonlinear_arith)
        requires
            ka == (t.x - u.x) * (q.y - u.y) - (t.y - u.y) * (q.x - u.x),
            q.x == t.x,
            t.x - u.x > 0,
            ka >= 0;
}

/// At a hull junction: if the edge into m and the edge out of m are
/// collinear while both keep q on or to their left, and both other
/// endpoints precede m lexicographically, then q lies on their common
/// supporting line.
pub proof fn lemma_junction_strict(a: Coord, m: Coord, b: Coord, q: Coord)
    requires
        lex_lt(a, m),
        lex_lt(b, m),
        cross(a, m, b) == 0,
        cross(a, m, q) >= 0,
        cross(m, b, q) >= 0,
    ensures
        cross(a, m, q) == 0,
{
    let dx = m.x - a.x;
    let dy = m.y - a.y;
    let fx = b.x - m.x;
    let fy = b.y - m.y;
    let gx = q.x - m.x;
    let gy = q.y - m.y;
    let ka = cross(a, m, q);
    let kb = cross(m, b, q);
    let kg = cross(a, m, b);
    // Rewrite ka and kg over m-relative coordinates.
    assert(q.y - a.y == gy + dy && q.x - a.x == gx + dx);
    lemma_mul_is_distributive_add(dx, gy, dy);
    lemma_mul_is_distributive_add(dy, gx, dx);
    assert(dx * (q.y - a.y) == dx * (gy + dy));
    assert(dy * (q.x - a.x) == dy * (gx + dx));
    assert(dx * dy == dy * dx) by (nonlinear_arith);
    assert(ka == dx * gy - dy * gx);
    assert(b.y - a.y == fy + dy && b.x - a.x == fx + dx);
    lemma_mul_is_distributive_add(dx, fy, dy);
    lemma_mul_is_distributive_add(dy, fx, dx);
    assert(dx * (b.y - a.y) == dx * (fy + dy));
    assert(dy * (b.x - a.x) == dy * (fx + dx));
    assert(kg == dx * fy - dy * fx);
    assert(dx * fy == dy * fx);
    assert(kb == fx * gy - fy * gx);
    // Weighted by dx: kb * dx == fx * ka.
    lemma_mul_is_distributive_sub_other_way(dx, fx * gy, fy * gx);
    lemma_mul_is_distributive_sub(fx, dx * gy, dy * gx);
    assert((fx * gy) * dx == fx * (dx * gy)) by (nonlinear_arith);
    assert((fy * gx) * dx == fx * (dy * gx)) by (nonlinear_arith)
        requires dx * fy == dy * fx;
    assert(kb * dx == fx * ka);
    // Weighted by dy: kb * dy == fy * ka.
    lemma_mul_is_distributive_sub_other_way(dy, fx * gy, fy * gx);
    lemma_mul_is_distributive_sub(fy, dx * gy, dy * gx);
    assert((fy * gx) * dy == fy * (dy * gx)) by (nonlinear_arith);
    assert((fx * gy) * dy == fy * (dx * gy)) by (nonlinear_arith)
        requires dx * fy == dy * fx;
    assert(kb * dy == fy * ka);
    if dx > 0 {
        if fx == 0 {
            assert(fy == 0) by (nonlinear_arith)
                requires dx * fy == dy * fx, fx == 0, dx > 0;
            assert(false);
        }
        assert(fx < 0);
        assert(kb * dx >= 0) by (nonlinear_arith)
            requires kb >= 0, dx > 0;
        assert(fx * ka <= 0) by (nonlinear_arith)
            requires fx < 0, ka >= 0;
        assert(fx * ka == 0);
        assert(ka == 0) by (nonlinear_arith)
            requires fx * ka == 0, fx != 0;
    } else {
        assert(dx == 0 && dy > 0);
        assert(fx == 0) by (nonlinear_arith)
            requires dx * fy == dy * fx, dx == 0, dy > 0;
        assert(fy < 0);
        assert(kb * dy >= 0) by (nonlinear_arith)
            requires kb >= 0, dy > 0;
        assert(fy * ka <= 0) by (nonlinear_arith)
            requires fy < 0, ka >= 0;
        assert(fy * ka == 0);
        assert(ka == 0) by (nonlinear_arith)
            requires fy * ka == 0, fy != 0;
    }
}

} // verus!
